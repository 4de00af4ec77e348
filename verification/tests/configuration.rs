//! Settings: defaults, and what is wrong with bad ones.
use nightmode::config::NightModeParameters;
use nightmode::fixed::{PrcFmt, ONE};
use nightmode::validation::{validate_night_mode, ConfigError};

const STEPS: f64 = 1208925819614629174706176.0;

fn fx(v: f64) -> PrcFmt {
    (v * STEPS) as PrcFmt
}

fn plain() -> NightModeParameters {
    NightModeParameters {
        channels: 2,
        amount: None,
        max_attenuation: None,
        bass_reduction: None,
        dialogue_channels: None,
        headroom: None,
        ratio: None,
        transient_softening: None,
        dialogue_protection: None,
        presence_gain: None,
        presence_frequency: None,
        presence_q: None,
        attack: None,
        release: None,
        reference_level: None,
        reference_slew: None,
        modulation_weight: None,
        bass_frequency: None,
        silence_threshold: None,
        ceiling: None,
        monitor_channels: None,
        process_channels: None,
    }
}

fn complaint(config: &NightModeParameters) -> ConfigError {
    validate_night_mode(48000, config).unwrap_err()
}

#[test]
fn settings_have_defaults() {
    let config = plain();
    assert_eq!(config.amount(), 100 * ONE);
    assert_eq!(config.max_attenuation(), 28 * ONE);
    assert_eq!(config.bass_reduction(), 10 * ONE);
    assert_eq!(config.headroom(), 0);
    assert_eq!(config.ratio(), 12 * ONE);
    assert_eq!(config.transient_softening(), 100 * ONE);
    assert_eq!(config.dialogue_protection(), 60 * ONE);
    assert_eq!(config.presence_gain(), 0);
    assert_eq!(config.presence_frequency(), 2500 * ONE);
    assert!((config.presence_q() - fx(0.7)).abs() < fx(1e-15));
    assert!((config.attack() - fx(0.15)).abs() < fx(1e-15));
    assert_eq!(config.release(), fx(1.5));
    assert_eq!(config.reference_slew(), fx(0.25));
    assert_eq!(config.modulation_weight(), fx(0.5));
    assert_eq!(config.bass_frequency(), 120 * ONE);
    assert_eq!(config.silence_threshold(), -70 * ONE);
    assert_eq!(config.ceiling(), -ONE);
    assert!(config.dialogue_channels().is_empty());
    assert!(config.monitor_channels().is_empty());
    assert!(config.process_channels().is_empty());
}

#[test]
fn set_values_win_over_defaults() {
    let mut config = plain();
    config.amount = Some(50 * ONE);
    config.monitor_channels = Some(vec![1, 0]);
    assert_eq!(config.amount(), 50 * ONE);
    assert_eq!(config.monitor_channels(), vec![1, 0]);
}

#[test]
fn attack_must_be_positive() {
    let mut config = plain();
    config.attack = Some(0);
    assert_eq!(complaint(&config), ConfigError::Attack);
    assert_eq!(
        complaint(&config).message(),
        "Attack value must be larger than zero."
    );
    config.attack = Some(1);
    assert!(validate_night_mode(48000, &config).is_ok());
}

#[test]
fn release_must_not_be_shorter_than_attack() {
    let mut config = plain();
    config.attack = Some(fx(0.5));
    config.release = Some(fx(0.5) - 1);
    assert_eq!(
        complaint(&config).message(),
        "Release value must not be shorter than the attack value."
    );
    config.release = Some(fx(0.5));
    assert!(validate_night_mode(48000, &config).is_ok());
}

#[test]
fn ratio_must_not_be_below_one() {
    let mut config = plain();
    config.ratio = Some(ONE - 1);
    assert_eq!(complaint(&config).message(), "Ratio must be 1.0 or larger.");
    config.ratio = Some(ONE);
    assert!(validate_night_mode(48000, &config).is_ok());
}

#[test]
fn percentages_have_bounds() {
    for value in [-1, 100 * ONE + 1] {
        let mut config = plain();
        config.amount = Some(value);
        assert_eq!(
            complaint(&config).message(),
            "Amount must be between 0 and 100 percent."
        );
        let mut config = plain();
        config.transient_softening = Some(value);
        assert_eq!(
            complaint(&config).message(),
            "Transient softening must be between 0 and 100 percent."
        );
        let mut config = plain();
        config.dialogue_protection = Some(value);
        assert_eq!(
            complaint(&config).message(),
            "Dialogue protection must be between 0 and 100 percent."
        );
    }
    for value in [0, 100 * ONE] {
        let mut config = plain();
        config.amount = Some(value);
        config.transient_softening = Some(value);
        config.dialogue_protection = Some(value);
        assert!(validate_night_mode(48000, &config).is_ok());
    }
}

#[test]
fn decibel_settings_have_bounds() {
    let mut config = plain();
    config.max_attenuation = Some(-1);
    assert_eq!(
        complaint(&config).message(),
        "Max attenuation must not be negative."
    );
    for value in [-1, 10 * ONE + 1] {
        let mut config = plain();
        config.bass_reduction = Some(value);
        assert_eq!(
            complaint(&config).message(),
            "Bass reduction must be between 0 and 10 dB."
        );
    }
    for value in [-1, 6 * ONE + 1] {
        let mut config = plain();
        config.presence_gain = Some(value);
        assert_eq!(
            complaint(&config).message(),
            "Presence gain must be between 0 and 6 dB."
        );
    }
    for value in [-20 * ONE - 1, 1] {
        let mut config = plain();
        config.ceiling = Some(value);
        assert_eq!(
            complaint(&config).message(),
            "Ceiling must be between -20 and 0 dBFS."
        );
    }
    for value in [-45 * ONE - 1, -12 * ONE + 1] {
        let mut config = plain();
        config.reference_level = Some(value);
        assert_eq!(
            complaint(&config).message(),
            "Reference level must be between -45 and -12 dBFS."
        );
    }
    let mut config = plain();
    config.reference_level = Some(-45 * ONE);
    config.ceiling = Some(-20 * ONE);
    assert!(validate_night_mode(48000, &config).is_ok());
}

#[test]
fn presence_and_bass_have_bounds() {
    for value in [fx(0.2), 3 * ONE + 1] {
        let mut config = plain();
        config.presence_q = Some(value);
        assert_eq!(
            complaint(&config).message(),
            "Presence Q must be between 0.3 and 3.0."
        );
    }
    let mut config = plain();
    config.presence_q = Some(fx(0.3));
    assert!(validate_night_mode(48000, &config).is_ok());

    let mut config = plain();
    config.presence_frequency = Some(24000 * ONE);
    assert_eq!(
        complaint(&config),
        ConfigError::PresenceFrequency { samplerate: 48000 }
    );
    assert_eq!(
        complaint(&config).message(),
        "Presence frequency must be lower than samplerate/2, which is 24000."
    );
    config.presence_frequency = Some(24000 * ONE - 1);
    assert!(validate_night_mode(48000, &config).is_ok());

    let mut config = plain();
    config.bass_frequency = Some(22051 * ONE);
    assert_eq!(
        validate_night_mode(44101, &config).unwrap_err().message(),
        "Bass frequency must be lower than samplerate/2, which is 22050.5."
    );
}

#[test]
fn detector_settings_have_bounds() {
    for value in [-1, ONE + 1] {
        let mut config = plain();
        config.modulation_weight = Some(value);
        assert_eq!(
            complaint(&config).message(),
            "Modulation weight must be between 0 and 1."
        );
    }
    let mut config = plain();
    config.reference_slew = Some(0);
    assert_eq!(
        complaint(&config).message(),
        "Reference slew must be larger than zero."
    );
}

#[test]
fn channels_must_exist() {
    let mut config = plain();
    config.channels = 6;
    assert_eq!(
        complaint(&config),
        ConfigError::NoDialogueChannels { channels: 6 }
    );
    assert_eq!(
        complaint(&config).message(),
        "A 6 channel night mode needs 'dialogue_channels' to be set. It can only derive a \
         phantom centre from a stereo pair."
    );

    let mut config = plain();
    config.channels = 12;
    config.dialogue_channels = Some(vec![2, 12, 20]);
    assert_eq!(
        complaint(&config),
        ConfigError::DialogueChannel {
            channel: 12,
            channels: 12
        }
    );
    assert_eq!(
        complaint(&config).message(),
        "Invalid dialogue channel: 12, max is: 11."
    );

    let mut config = plain();
    config.monitor_channels = Some(vec![0, 2]);
    assert_eq!(
        complaint(&config).message(),
        "Invalid monitor channel: 2, max is: 1."
    );

    let mut config = plain();
    config.process_channels = Some(vec![5]);
    assert_eq!(
        complaint(&config),
        ConfigError::ProcessChannel {
            channel: 5,
            channels: 2
        }
    );
    assert_eq!(
        complaint(&config).message(),
        "Invalid channel to process: 5, max is: 1."
    );
}

#[test]
fn no_channels_is_an_error_and_not_a_panic() {
    let mut config = plain();
    config.channels = 0;
    config.dialogue_channels = Some(vec![0]);
    assert_eq!(
        complaint(&config),
        ConfigError::DialogueChannel {
            channel: 0,
            channels: 0
        }
    );
    assert_eq!(
        complaint(&config).message(),
        "Invalid dialogue channel: 0, there are no channels."
    );
    config.dialogue_channels = None;
    assert_eq!(
        complaint(&config),
        ConfigError::NoDialogueChannels { channels: 0 }
    );
}

#[test]
fn the_first_broken_rule_is_reported() {
    let mut config = plain();
    config.amount = Some(-ONE);
    config.ratio = Some(0);
    assert_eq!(complaint(&config), ConfigError::Ratio);
}
