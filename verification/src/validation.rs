//! Checks of the settings, to give a helpful message instead of odd behaviour.
use crate::config::{listed, NightModeParameters};
use crate::fixed::{PrcFmt, HALF, ONE};
use crate::tuning::{REFERENCE_MAX_DB, REFERENCE_MIN_DB};
use vstd::prelude::*;
use vstd::string::StringExecFns;

verus! {

/// Lowest Q of the presence boost: 0.3, to double precision.
pub const PRESENCE_Q_MIN: PrcFmt = 0x4ccc_cccc_cccc_cc00_0000;

/// What is wrong with a configuration.
#[derive(Clone, Copy, Debug, PartialEq, Eq, Structural)]
pub enum ConfigError {
    Attack,
    Release,
    Ratio,
    Amount,
    MaxAttenuation,
    BassReduction,
    TransientSoftening,
    DialogueProtection,
    PresenceGain,
    PresenceQ,
    PresenceFrequency { samplerate: usize },
    BassFrequency { samplerate: usize },
    ModulationWeight,
    ReferenceSlew,
    Ceiling,
    ReferenceLevel,
    NoDialogueChannels { channels: usize },
    DialogueChannel { channel: usize, channels: usize },
    MonitorChannel { channel: usize, channels: usize },
    ProcessChannel { channel: usize, channels: usize },
}

/// A decimal digit.
pub open spec fn digit_text(d: u8) -> Seq<char> {
    match d {
        0 => "0"@,
        1 => "1"@,
        2 => "2"@,
        3 => "3"@,
        4 => "4"@,
        5 => "5"@,
        6 => "6"@,
        7 => "7"@,
        8 => "8"@,
        _ => "9"@,
    }
}

/// A number in decimal notation.
pub open spec fn decimal_text(n: nat) -> Seq<char>
    decreases n,
{
    if n < 10 {
        digit_text(n as u8)
    } else {
        decimal_text(n / 10) + digit_text((n % 10) as u8)
    }
}

/// Half a number in decimal notation.
pub open spec fn half_text(n: usize) -> Seq<char> {
    if n % 2 == 0 {
        decimal_text((n / 2) as nat)
    } else {
        decimal_text((n / 2) as nat) + ".5"@
    }
}

fn digit(d: u8) -> (r: &'static str)
    ensures
        r@ == digit_text(d),
{
    match d {
        0 => "0",
        1 => "1",
        2 => "2",
        3 => "3",
        4 => "4",
        5 => "5",
        6 => "6",
        7 => "7",
        8 => "8",
        _ => "9",
    }
}

fn decimal(n: usize) -> (r: String)
    ensures
        r@ == decimal_text(n as nat),
    decreases n,
{
    if n < 10 {
        String::from_str(digit(n as u8))
    } else {
        decimal(n / 10).concat(digit((n % 10) as u8))
    }
}

fn half_decimal(n: usize) -> (r: String)
    ensures
        r@ == half_text(n),
{
    if n % 2 == 0 {
        decimal(n / 2)
    } else {
        decimal(n / 2).concat(".5")
    }
}

/// What channels there are, at the end of a complaint.
pub open spec fn highest_text(channels: usize) -> Seq<char> {
    if channels == 0 {
        ", there are no channels."@
    } else {
        ", max is: "@ + decimal_text((channels - 1) as nat) + "."@
    }
}

fn highest(channels: usize) -> (r: String)
    ensures
        r@ == highest_text(channels),
{
    if channels == 0 {
        String::from_str(", there are no channels.")
    } else {
        String::from_str(", max is: ").concat(decimal(channels - 1).as_str()).concat(".")
    }
}

impl ConfigError {
    /// The text of the error.
    pub open spec fn text(self) -> Seq<char> {
        match self {
            ConfigError::Attack => "Attack value must be larger than zero."@,
            ConfigError::Release => "Release value must not be shorter than the attack value."@,
            ConfigError::Ratio => "Ratio must be 1.0 or larger."@,
            ConfigError::Amount => "Amount must be between 0 and 100 percent."@,
            ConfigError::MaxAttenuation => "Max attenuation must not be negative."@,
            ConfigError::BassReduction => "Bass reduction must be between 0 and 10 dB."@,
            ConfigError::TransientSoftening => {
                "Transient softening must be between 0 and 100 percent."@
            },
            ConfigError::DialogueProtection => {
                "Dialogue protection must be between 0 and 100 percent."@
            },
            ConfigError::PresenceGain => "Presence gain must be between 0 and 6 dB."@,
            ConfigError::PresenceQ => "Presence Q must be between 0.3 and 3.0."@,
            ConfigError::PresenceFrequency { samplerate } => {
                "Presence frequency must be lower than samplerate/2, which is "@
                    + half_text(samplerate)
                    + "."@
            },
            ConfigError::BassFrequency { samplerate } => {
                "Bass frequency must be lower than samplerate/2, which is "@
                    + half_text(samplerate)
                    + "."@
            },
            ConfigError::ModulationWeight => "Modulation weight must be between 0 and 1."@,
            ConfigError::ReferenceSlew => "Reference slew must be larger than zero."@,
            ConfigError::Ceiling => "Ceiling must be between -20 and 0 dBFS."@,
            ConfigError::ReferenceLevel => "Reference level must be between -45 and -12 dBFS."@,
            ConfigError::NoDialogueChannels { channels } => {
                "A "@
                    + decimal_text(channels as nat)
                    + " channel night mode needs 'dialogue_channels' to be set. It can only derive a phantom centre from a stereo pair."@
            },
            ConfigError::DialogueChannel { channel, channels } => {
                "Invalid dialogue channel: "@ + decimal_text(channel as nat) + highest_text(channels)
            },
            ConfigError::MonitorChannel { channel, channels } => {
                "Invalid monitor channel: "@ + decimal_text(channel as nat) + highest_text(channels)
            },
            ConfigError::ProcessChannel { channel, channels } => {
                "Invalid channel to process: "@ + decimal_text(channel as nat) + highest_text(channels)
            },
        }
    }

    /// A message for the user.
    pub fn message(&self) -> (r: String)
        ensures
            r@ == self.text(),
    {
        match *self {
            ConfigError::Attack => String::from_str("Attack value must be larger than zero."),
            ConfigError::Release => {
                String::from_str("Release value must not be shorter than the attack value.")
            },
            ConfigError::Ratio => String::from_str("Ratio must be 1.0 or larger."),
            ConfigError::Amount => String::from_str("Amount must be between 0 and 100 percent."),
            ConfigError::MaxAttenuation => {
                String::from_str("Max attenuation must not be negative.")
            },
            ConfigError::BassReduction => {
                String::from_str("Bass reduction must be between 0 and 10 dB.")
            },
            ConfigError::TransientSoftening => {
                String::from_str("Transient softening must be between 0 and 100 percent.")
            },
            ConfigError::DialogueProtection => {
                String::from_str("Dialogue protection must be between 0 and 100 percent.")
            },
            ConfigError::PresenceGain => {
                String::from_str("Presence gain must be between 0 and 6 dB.")
            },
            ConfigError::PresenceQ => String::from_str("Presence Q must be between 0.3 and 3.0."),
            ConfigError::PresenceFrequency { samplerate } => String::from_str("Presence frequency must be lower than samplerate/2, which is ")
                .concat(half_decimal(samplerate).as_str())
                .concat("."),
            ConfigError::BassFrequency { samplerate } => String::from_str("Bass frequency must be lower than samplerate/2, which is ")
                .concat(half_decimal(samplerate).as_str())
                .concat("."),
            ConfigError::ModulationWeight => {
                String::from_str("Modulation weight must be between 0 and 1.")
            },
            ConfigError::ReferenceSlew => {
                String::from_str("Reference slew must be larger than zero.")
            },
            ConfigError::Ceiling => String::from_str("Ceiling must be between -20 and 0 dBFS."),
            ConfigError::ReferenceLevel => {
                String::from_str("Reference level must be between -45 and -12 dBFS.")
            },
            ConfigError::NoDialogueChannels { channels } => String::from_str("A ")
                .concat(decimal(channels).as_str())
                .concat(" channel night mode needs 'dialogue_channels' to be set. It can only derive a phantom centre from a stereo pair."),
            ConfigError::DialogueChannel { channel, channels } => {
                String::from_str("Invalid dialogue channel: ")
                    .concat(decimal(channel).as_str())
                    .concat(highest(channels).as_str())
            },
            ConfigError::MonitorChannel { channel, channels } => {
                String::from_str("Invalid monitor channel: ")
                    .concat(decimal(channel).as_str())
                    .concat(highest(channels).as_str())
            },
            ConfigError::ProcessChannel { channel, channels } => {
                String::from_str("Invalid channel to process: ")
                    .concat(decimal(channel).as_str())
                    .concat(highest(channels).as_str())
            },
        }
    }
}

/// `lo <= x <= hi`.
pub open spec fn within(lo: int, x: PrcFmt, hi: int) -> bool {
    lo <= x <= hi
}

/// A frequency at or above half the sampling rate.
pub open spec fn at_or_above_nyquist(freq: PrcFmt, samplerate: usize) -> bool {
    2 * freq >= samplerate * ONE
}

/// Whether `list[i]` is the first entry that is no channel.
pub open spec fn first_beyond(list: Seq<usize>, channels: usize, i: int) -> bool {
    &&& 0 <= i < list.len()
    &&& list[i] >= channels
    &&& forall|j: int| 0 <= j < i ==> list[j] < channels
}

/// The first entry that is no channel, if there is one.
pub open spec fn beyond(list: Seq<usize>, channels: usize) -> Option<usize> {
    if exists|i: int| first_beyond(list, channels, i) {
        Some(list[choose|i: int| first_beyond(list, channels, i)])
    } else {
        None
    }
}

/// The first rule that a configuration breaks.
pub open spec fn rejection(samplerate: usize, config: NightModeParameters) -> Option<ConfigError> {
    let channels = config.channels;
    let dialogue = listed(config.dialogue_channels);
    if config.attack() <= 0 {
        Some(ConfigError::Attack)
    } else if config.release() < config.attack() {
        Some(ConfigError::Release)
    } else if config.ratio() < ONE {
        Some(ConfigError::Ratio)
    } else if !within(0, config.amount(), 100 * ONE) {
        Some(ConfigError::Amount)
    } else if config.max_attenuation() < 0 {
        Some(ConfigError::MaxAttenuation)
    } else if !within(0, config.bass_reduction(), 10 * ONE) {
        Some(ConfigError::BassReduction)
    } else if !within(0, config.transient_softening(), 100 * ONE) {
        Some(ConfigError::TransientSoftening)
    } else if !within(0, config.dialogue_protection(), 100 * ONE) {
        Some(ConfigError::DialogueProtection)
    } else if !within(0, config.presence_gain(), 6 * ONE) {
        Some(ConfigError::PresenceGain)
    } else if !within(PRESENCE_Q_MIN as int, config.presence_q(), 3 * ONE) {
        Some(ConfigError::PresenceQ)
    } else if at_or_above_nyquist(config.presence_frequency(), samplerate) {
        Some(ConfigError::PresenceFrequency { samplerate })
    } else if at_or_above_nyquist(config.bass_frequency(), samplerate) {
        Some(ConfigError::BassFrequency { samplerate })
    } else if !within(0, config.modulation_weight(), ONE as int) {
        Some(ConfigError::ModulationWeight)
    } else if config.reference_slew() <= 0 {
        Some(ConfigError::ReferenceSlew)
    } else if !within(-20 * ONE, config.ceiling(), 0) {
        Some(ConfigError::Ceiling)
    } else if config.reference_level is Some && !within(
        REFERENCE_MIN_DB as int,
        config.reference_level->0,
        REFERENCE_MAX_DB as int,
    ) {
        Some(ConfigError::ReferenceLevel)
    } else if dialogue.len() == 0 && channels != 2 {
        Some(ConfigError::NoDialogueChannels { channels })
    } else if beyond(dialogue, channels) is Some {
        Some(
            ConfigError::DialogueChannel { channel: beyond(dialogue, channels)->0, channels },
        )
    } else if beyond(listed(config.monitor_channels), channels) is Some {
        Some(
            ConfigError::MonitorChannel {
                channel: beyond(listed(config.monitor_channels), channels)->0,
                channels,
            },
        )
    } else if beyond(listed(config.process_channels), channels) is Some {
        Some(
            ConfigError::ProcessChannel {
                channel: beyond(listed(config.process_channels), channels)->0,
                channels,
            },
        )
    } else {
        None
    }
}

fn reaches_nyquist(freq: PrcFmt, samplerate: usize) -> (r: bool)
    ensures
        r == at_or_above_nyquist(freq, samplerate),
{
    (samplerate as u64) < 0x1_0000_0000_0000 && freq >= samplerate as i128 * HALF
}

fn find_beyond(list: &Vec<usize>, channels: usize) -> (r: Option<usize>)
    ensures
        r == beyond(list@, channels),
{
    let mut i: usize = 0;
    while i < list.len()
        invariant
            i <= list@.len(),
            forall|j: int| 0 <= j < i ==> list@[j] < channels,
        decreases list@.len() - i,
    {
        if list[i] >= channels {
            proof {
                assert(first_beyond(list@, channels, i as int));
                let k = choose|k: int| first_beyond(list@, channels, k);
                assert(first_beyond(list@, channels, k));
                assert(k == i);
            }
            return Some(list[i]);
        }
        i = i + 1;
    }
    None
}

/// Validate the night mode config.
pub fn validate_night_mode(samplerate: usize, config: &NightModeParameters) -> (r: Result<
    (),
    ConfigError,
>)
    ensures
        r is Ok <==> rejection(samplerate, *config) is None,
        r matches Err(e) ==> rejection(samplerate, *config) == Some(e),
{
    let channels: usize = config.channels;
    if config.attack() <= 0 {
        return Err(ConfigError::Attack);
    }
    if config.release() < config.attack() {
        return Err(ConfigError::Release);
    }
    if config.ratio() < ONE {
        return Err(ConfigError::Ratio);
    }
    if !(0 <= config.amount() && config.amount() <= 100 * ONE) {
        return Err(ConfigError::Amount);
    }
    if config.max_attenuation() < 0 {
        return Err(ConfigError::MaxAttenuation);
    }
    if !(0 <= config.bass_reduction() && config.bass_reduction() <= 10 * ONE) {
        return Err(ConfigError::BassReduction);
    }
    if !(0 <= config.transient_softening() && config.transient_softening() <= 100 * ONE) {
        return Err(ConfigError::TransientSoftening);
    }
    if !(0 <= config.dialogue_protection() && config.dialogue_protection() <= 100 * ONE) {
        return Err(ConfigError::DialogueProtection);
    }
    if !(0 <= config.presence_gain() && config.presence_gain() <= 6 * ONE) {
        return Err(ConfigError::PresenceGain);
    }
    if !(PRESENCE_Q_MIN <= config.presence_q() && config.presence_q() <= 3 * ONE) {
        return Err(ConfigError::PresenceQ);
    }
    if reaches_nyquist(config.presence_frequency(), samplerate) {
        return Err(ConfigError::PresenceFrequency { samplerate });
    }
    if reaches_nyquist(config.bass_frequency(), samplerate) {
        return Err(ConfigError::BassFrequency { samplerate });
    }
    if !(0 <= config.modulation_weight() && config.modulation_weight() <= ONE) {
        return Err(ConfigError::ModulationWeight);
    }
    if config.reference_slew() <= 0 {
        return Err(ConfigError::ReferenceSlew);
    }
    if !(-20 * ONE <= config.ceiling() && config.ceiling() <= 0) {
        return Err(ConfigError::Ceiling);
    }
    if let Some(level) = config.reference_level {
        if !(REFERENCE_MIN_DB <= level && level <= REFERENCE_MAX_DB) {
            return Err(ConfigError::ReferenceLevel);
        }
    }
    let dialogue: Vec<usize> = config.dialogue_channels();
    if dialogue.is_empty() && channels != 2 {
        return Err(ConfigError::NoDialogueChannels { channels });
    }
    if let Some(channel) = find_beyond(&dialogue, channels) {
        return Err(ConfigError::DialogueChannel { channel, channels });
    }
    if let Some(channel) = find_beyond(&config.monitor_channels(), channels) {
        return Err(ConfigError::MonitorChannel { channel, channels });
    }
    if let Some(channel) = find_beyond(&config.process_channels(), channels) {
        return Err(ConfigError::ProcessChannel { channel, channels });
    }
    Ok(())
}

} // verus!
