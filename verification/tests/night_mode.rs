//! The processor on audio signals.
use nightmode::audiochunk::AudioChunk;
use nightmode::config::{NightModeParameters, Processor};
use nightmode::decibels::POWER_FLOOR;
use nightmode::fixed::PrcFmt;
use nightmode::night_mode::NightMode;
use nightmode::tuning::{HOP_RATE_HZ, INITIAL_REFERENCE_DB};
use nightmode::validation::validate_night_mode;

const STEPS: f64 = 1208925819614629174706176.0;

/// A number in steps.
fn fx(v: f64) -> PrcFmt {
    (v * STEPS) as PrcFmt
}

/// A number of steps as a real number.
fn to_real(v: PrcFmt) -> f64 {
    v as f64 / STEPS
}

fn db_to_linear(db: f64) -> f64 {
    10.0_f64.powf(db / 20.0)
}

fn default_params() -> NightModeParameters {
    NightModeParameters {
        channels: 2,
        amount: None,
        max_attenuation: None,
        bass_reduction: None,
        dialogue_channels: None,
        headroom: None,
        ratio: None,
        transient_softening: None,
        dialogue_protection: None,
        presence_gain: None,
        presence_frequency: None,
        presence_q: None,
        attack: None,
        release: None,
        reference_level: None,
        reference_slew: None,
        modulation_weight: None,
        bass_frequency: None,
        silence_threshold: None,
        ceiling: None,
        monitor_channels: None,
        process_channels: None,
    }
}

#[test]
fn defaults_are_valid() {
    assert!(validate_night_mode(48000, &default_params()).is_ok());
}

#[test]
fn validate_rejects_bad_configs() {
    type Mutation = Box<dyn Fn(&mut NightModeParameters)>;
    let cases: Vec<(&str, Mutation)> = vec![
        ("attack zero", Box::new(|p| p.attack = Some(fx(0.0)))),
        (
            "release shorter than attack",
            Box::new(|p| {
                p.attack = Some(fx(0.5));
                p.release = Some(fx(0.1))
            }),
        ),
        ("ratio below one", Box::new(|p| p.ratio = Some(fx(0.5)))),
        ("amount above 100", Box::new(|p| p.amount = Some(fx(150.0)))),
        (
            "negative max attenuation",
            Box::new(|p| p.max_attenuation = Some(fx(-3.0))),
        ),
        (
            "bass reduction too large",
            Box::new(|p| p.bass_reduction = Some(fx(20.0))),
        ),
        (
            "presence gain too large",
            Box::new(|p| p.presence_gain = Some(fx(12.0))),
        ),
        ("presence q too low", Box::new(|p| p.presence_q = Some(fx(0.1)))),
        (
            "presence frequency above nyquist",
            Box::new(|p| p.presence_frequency = Some(fx(30000.0))),
        ),
        (
            "bass frequency above nyquist",
            Box::new(|p| p.bass_frequency = Some(fx(30000.0))),
        ),
        ("ceiling above zero", Box::new(|p| p.ceiling = Some(fx(3.0)))),
        (
            "modulation weight above one",
            Box::new(|p| p.modulation_weight = Some(fx(2.0))),
        ),
        (
            "reference level outside window",
            Box::new(|p| p.reference_level = Some(fx(-5.0))),
        ),
        (
            "dialogue channel out of range",
            Box::new(|p| p.dialogue_channels = Some(vec![9])),
        ),
        (
            "monitor channel out of range",
            Box::new(|p| p.monitor_channels = Some(vec![7])),
        ),
        (
            "multichannel without dialogue channels",
            Box::new(|p| p.channels = 6),
        ),
    ];
    for (name, mutate) in cases {
        let mut params = default_params();
        mutate(&mut params);
        assert!(
            validate_night_mode(48000, &params).is_err(),
            "config should have been rejected: {name}"
        );
    }
}

#[test]
fn multichannel_is_valid_with_dialogue_channels() {
    let mut params = default_params();
    params.channels = 6;
    params.dialogue_channels = Some(vec![2]);
    assert!(validate_night_mode(48000, &params).is_ok());
}

const FS: usize = 48000;
const CHUNK: usize = 1024;

fn pinned_params(level: f64) -> NightModeParameters {
    let mut params = default_params();
    params.reference_level = Some(fx(level));
    params
}

fn processor(params: NightModeParameters) -> NightMode {
    NightMode::from_config("test", params, FS, CHUNK)
}

/// Sine at a given peak amplitude, as an identical pair of channels.
fn stereo_sine(freq: f64, amplitude: f64, frames: usize) -> Vec<Vec<f64>> {
    let step = 2.0 * std::f64::consts::PI * freq / FS as f64;
    let wave: Vec<f64> = (0..frames)
        .map(|n| amplitude * (step * n as f64).sin())
        .collect();
    vec![wave.clone(), wave]
}

fn chunk_from(waveforms: Vec<Vec<f64>>) -> AudioChunk {
    let frames = waveforms[0].len();
    let waveforms = waveforms
        .iter()
        .map(|wave| wave.iter().map(|v| fx(*v)).collect())
        .collect();
    AudioChunk::new(waveforms, 0, 0, frames, frames)
}

/// The samples of one channel.
fn channel(chunk: &AudioChunk, ch: usize) -> Vec<f64> {
    chunk.waveforms[ch].iter().map(|v| to_real(*v)).collect()
}

fn rms_db(waveform: &[f64]) -> f64 {
    let sum: f64 = waveform.iter().map(|v| v * v).sum();
    10.0 * (sum / waveform.len() as f64 + to_real(POWER_FLOOR)).log10()
}

/// Push the same signal through repeatedly and return the gain, in dB, that
/// the processor settled on by the last chunk.
fn settled_gain_db(
    processor: &mut NightMode,
    waveforms: Vec<Vec<f64>>,
    chunks: usize,
) -> f64 {
    let input_db = rms_db(&waveforms[0]);
    let mut output_db = input_db;
    for _ in 0..chunks {
        let mut chunk = chunk_from(waveforms.clone());
        processor.process_chunk(&mut chunk).unwrap();
        output_db = rms_db(&channel(&chunk, 0));
    }
    output_db - input_db
}

#[test]
fn amount_zero_is_transparent_even_for_hot_input() {
    // Full scale, so the signal sits above the default -1 dBFS ceiling. Material
    // mastered this hot is normal, and inserting a disabled processor must not
    // soft clip it, or `amount: 0` is useless as an A/B reference.
    let mut params = pinned_params(-27.0);
    params.amount = Some(fx(0.0));
    let mut processor = processor(params);
    let waveforms = stereo_sine(1000.0, 1.0, CHUNK);
    let mut chunk = chunk_from(waveforms.clone());
    processor.process_chunk(&mut chunk).unwrap();
    for (processed, original) in channel(&chunk, 0).iter().zip(waveforms[0].iter()) {
        assert!(
            (processed - original).abs() < 1e-12,
            "expected untouched samples, got {processed} instead of {original}"
        );
    }
}

#[test]
fn amount_zero_is_transparent() {
    let mut params = pinned_params(-27.0);
    params.amount = Some(fx(0.0));
    let mut processor = processor(params);
    let waveforms = stereo_sine(1000.0, 0.7, CHUNK);
    let mut chunk = chunk_from(waveforms.clone());
    processor.process_chunk(&mut chunk).unwrap();
    for (processed, original) in channel(&chunk, 0).iter().zip(waveforms[0].iter()) {
        assert!(
            (processed - original).abs() < 1e-9,
            "expected untouched samples, got {processed} instead of {original}"
        );
    }
}

#[test]
fn quiet_dialogue_is_untouched() {
    // -30 dBFS sits below the -27 reference plus 6 dB headroom.
    let mut processor = processor(pinned_params(-27.0));
    let waveforms = stereo_sine(
        1000.0,
        db_to_linear(-30.0) * 2.0_f64.sqrt(),
        CHUNK,
    );
    let gain = settled_gain_db(&mut processor, waveforms, 100);
    assert!(gain.abs() < 0.3, "expected no reduction, got {gain} dB");
}

#[test]
fn loud_content_is_reduced() {
    // Protection off, so this measures the leveler rather than the detector.
    // A centred tone in the speech band is, correctly, treated as dialogue.
    let mut params = pinned_params(-27.0);
    params.dialogue_protection = Some(fx(0.0));
    let mut processor = processor(params);
    let waveforms = stereo_sine(1000.0, db_to_linear(-6.0), CHUNK);
    let gain = settled_gain_db(&mut processor, waveforms, 300);
    // Clearly reduced, but not pinned against max_attenuation.
    assert!(
        gain < -5.0 && gain > -25.0,
        "expected clear but bounded reduction, got {gain} dB"
    );
}

#[test]
fn attenuation_never_exceeds_cap() {
    let mut params = pinned_params(-27.0);
    params.max_attenuation = Some(fx(6.0));
    let mut processor = processor(params);
    let waveforms = stereo_sine(1000.0, 1.0, CHUNK);
    let gain = settled_gain_db(&mut processor, waveforms, 300);
    assert!(gain > -6.5, "cap of 6 dB was exceeded: {gain} dB");
}

#[test]
fn reduction_scales_with_amount() {
    let mut gains = Vec::new();
    for amount in [25.0, 50.0, 100.0] {
        let mut params = pinned_params(-27.0);
        params.amount = Some(fx(amount));
        // Keep the cap and the detector out of the way so the scaling itself
        // is what gets measured.
        params.max_attenuation = Some(fx(40.0));
        params.dialogue_protection = Some(fx(0.0));
        let mut processor = processor(params);
        let waveforms = stereo_sine(1000.0, db_to_linear(-6.0), CHUNK);
        gains.push(settled_gain_db(&mut processor, waveforms, 300));
    }
    assert!(
        gains[0] > gains[1] && gains[1] > gains[2],
        "reduction should grow with amount, got {gains:?}"
    );
    // Scaling happens in the dB domain, so half the amount is half the dB.
    let half = gains[2] * 0.5;
    assert!(
        (gains[1] - half).abs() < 0.5,
        "50% should be half as many dB as 100%: {} vs {}",
        gains[1],
        half
    );
}

/// Reduction, in dB, over the first `window` samples of a burst that starts
/// from silence. The processor starts cold, as it would at a scene change.
fn onset_gain_db(softening: f64, window: usize) -> f64 {
    // Reference low enough that the burst sits well above the fast stage's
    // threshold of reference + 18 dB, which is what it is there to catch.
    let mut params = pinned_params(-40.0);
    params.transient_softening = Some(fx(softening));
    params.max_attenuation = Some(fx(40.0));
    let mut processor = processor(params);

    // A chunk of silence first, so the followers sit at the noise floor.
    let mut quiet = chunk_from(vec![vec![0.0; CHUNK], vec![0.0; CHUNK]]);
    processor.process_chunk(&mut quiet).unwrap();

    let waveforms = stereo_sine(1000.0, db_to_linear(-3.0), CHUNK);
    let input_db = rms_db(&waveforms[0][..window]);
    let mut chunk = chunk_from(waveforms);
    processor.process_chunk(&mut chunk).unwrap();
    rms_db(&channel(&chunk, 0)[..window]) - input_db
}

#[test]
fn fast_stage_catches_the_leading_edge() {
    // 10 ms at 48 kHz. The slow stage has a 150 ms attack, so on its own it
    // has barely started moving this early into the burst.
    let window = 480;
    let without = onset_gain_db(0.0, window);
    let with = onset_gain_db(100.0, window);
    assert!(
        without - with > 2.0,
        "fast stage should take at least 2 dB more off the onset, got {without} dB without vs {with} dB with"
    );
}

#[test]
fn transient_softening_is_monotone() {
    let window = 480;
    let gains: Vec<f64> = [0.0, 50.0, 100.0]
        .iter()
        .map(|s| onset_gain_db(*s, window))
        .collect();
    assert!(
        gains[0] > gains[1] && gains[1] > gains[2],
        "more softening should mean more reduction, got {gains:?}"
    );
}

/// Render a signal through a processor built for a given chunksize, returning
/// the processed samples. The signal is split into chunks of exactly that size.
fn render(
    params: NightModeParameters,
    chunksize: usize,
    signal: &[Vec<f64>],
) -> Vec<f64> {
    let mut processor = NightMode::from_config("test", params, FS, chunksize);
    let mut out = Vec::with_capacity(signal[0].len());
    let mut start = 0;
    while start + chunksize <= signal[0].len() {
        let waveforms: Vec<Vec<f64>> = signal
            .iter()
            .map(|ch| ch[start..start + chunksize].to_vec())
            .collect();
        let mut chunk = chunk_from(waveforms);
        processor.process_chunk(&mut chunk).unwrap();
        out.extend_from_slice(&channel(&chunk, 0));
        start += chunksize;
    }
    out
}

/// A burst that starts quiet and jumps loud, long enough to exercise both stages.
fn scene(frames: usize) -> Vec<Vec<f64>> {
    let step = 2.0 * std::f64::consts::PI * 1000.0 / FS as f64;
    let wave: Vec<f64> = (0..frames)
        .map(|n| {
            let amplitude = if n < frames / 2 {
                db_to_linear(-30.0)
            } else {
                db_to_linear(-3.0)
            };
            amplitude * (step * n as f64).sin()
        })
        .collect();
    vec![wave.clone(), wave]
}

#[test]
fn hops_are_counted_independently_of_chunksize() {
    let hop = FS / HOP_RATE_HZ;
    for chunksize in [256, 1000, 1024, 4096] {
        let chunks = 20;
        let frames = chunksize * chunks;
        let signal = scene(frames);
        let mut processor = NightMode::from_config("test", pinned_params(-27.0), FS, chunksize);
        let mut start = 0;
        while start + chunksize <= frames {
            let waveforms: Vec<Vec<f64>> = signal
                .iter()
                .map(|ch| ch[start..start + chunksize].to_vec())
                .collect();
            let mut chunk = chunk_from(waveforms);
            processor.process_chunk(&mut chunk).unwrap();
            start += chunksize;
        }
        assert_eq!(
            processor.hops_measured,
            frames / hop,
            "wrong hop count at chunksize {chunksize}"
        );
    }
}

#[test]
fn behaviour_is_independent_of_chunksize() {
    // Two seconds, a length divisible by every chunksize under test.
    let frames = 4096 * 24;
    let signal = scene(frames);
    let reference = render(pinned_params(-27.0), 1024, &signal);
    for chunksize in [256, 4096] {
        let other = render(pinned_params(-27.0), chunksize, &signal);
        let common = reference.len().min(other.len());
        // Compare per 100 ms window, which is how the difference would be heard.
        let window = FS / 10;
        let mut windows = 0;
        for start in (0..common - window).step_by(window) {
            let a = rms_db(&reference[start..start + window]);
            let b = rms_db(&other[start..start + window]);
            assert!(
                (a - b).abs() < 0.5,
                "chunksize {chunksize} diverged by {} dB at sample {start}",
                (a - b).abs()
            );
            windows += 1;
        }
        assert!(windows > 10, "test did not actually compare anything");
    }
}

/// Settled reduction for a given stereo signal, with the detector on and off.
/// Returns (protected, unprotected) in dB. Runs long enough for the one second
/// confidence-to-gain smoother to converge.
fn protection_pair(waveforms: Vec<Vec<f64>>) -> (f64, f64) {
    let chunks = 400;
    let mut protected_params = pinned_params(-27.0);
    protected_params.max_attenuation = Some(fx(40.0));
    // These signals are steady, so the syllabic cue can never fire. Weight it to
    // zero to test the centredness and band cues on their own; the modulation cue
    // has its own tests, which use a real timeline.
    protected_params.modulation_weight = Some(fx(0.0));
    let mut unprotected_params = protected_params.clone();
    unprotected_params.dialogue_protection = Some(fx(0.0));

    let protected =
        settled_gain_db(&mut processor(protected_params), waveforms.clone(), chunks);
    let unprotected = settled_gain_db(&mut processor(unprotected_params), waveforms, chunks);
    (protected, unprotected)
}

#[test]
fn loud_centred_speech_band_content_is_protected() {
    // Centred, inside the speech band, and loud enough to be reduced otherwise.
    let waveforms = stereo_sine(1000.0, db_to_linear(-12.0), CHUNK);
    let (protected, unprotected) = protection_pair(waveforms);
    assert!(
        unprotected < -2.0,
        "without protection this should be reduced, got {unprotected} dB"
    );
    assert!(
        protected > unprotected + 2.0,
        "protection should give back at least 2 dB, got {protected} dB vs {unprotected} dB"
    );
}

#[test]
fn implausibly_loud_content_is_not_protected() {
    // Centred and inside the speech band, so the detector is as confident as it
    // ever gets, but 30 dB above the dialogue reference. Nothing that loud is
    // dialogue, and it must be reduced regardless of confidence.
    let waveforms = stereo_sine(1000.0, db_to_linear(-6.0), CHUNK);
    let mut protected_params = pinned_params(-36.0);
    protected_params.max_attenuation = Some(fx(40.0));
    let mut unprotected_params = protected_params.clone();
    unprotected_params.dialogue_protection = Some(fx(0.0));

    let protected = settled_gain_db(&mut processor(protected_params), waveforms.clone(), 400);
    let unprotected = settled_gain_db(&mut processor(unprotected_params), waveforms, 400);
    assert!(
        (protected - unprotected).abs() < 1.0,
        "content far above the dialogue reference should not be protected, got {protected} dB vs {unprotected} dB"
    );
}

#[test]
fn decorrelated_content_is_not_protected() {
    // Two unrelated tones, so correlation is near zero.
    let left = stereo_sine(997.0, db_to_linear(-12.0), CHUNK).remove(0);
    let right: Vec<f64> = {
        let step = 2.0 * std::f64::consts::PI * 1493.0 / FS as f64;
        (0..CHUNK)
            .map(|n| db_to_linear(-12.0) * (step * n as f64).sin())
            .collect()
    };
    let (protected, unprotected) = protection_pair(vec![left, right]);
    assert!(
        (protected - unprotected).abs() < 1.0,
        "decorrelated content should not be protected, got {protected} dB vs {unprotected} dB"
    );
}

#[test]
fn hard_panned_content_is_not_protected() {
    // The case a mid/side energy ratio gets wrong: a hard panned source produces
    // a large mid and a large side, so the ratio reads it as partly centred.
    // Correlation reads it correctly as not centred at all.
    let left = stereo_sine(1000.0, db_to_linear(-12.0), CHUNK).remove(0);
    let (protected, unprotected) = protection_pair(vec![left, vec![0.0; CHUNK]]);
    assert!(
        (protected - unprotected).abs() < 1.0,
        "hard panned content should not be protected, got {protected} dB vs {unprotected} dB"
    );
}

#[test]
fn out_of_band_content_is_not_protected() {
    // Centred but well below the speech band, as an explosion's rumble would be.
    let waveforms = stereo_sine(60.0, db_to_linear(-12.0), CHUNK);
    let (protected, unprotected) = protection_pair(waveforms);
    assert!(
        (protected - unprotected).abs() < 1.0,
        "low frequency content should not be protected, got {protected} dB vs {unprotected} dB"
    );
}

/// Centred tone with an optional syllabic envelope. mod_hz of zero is steady.
fn centred_tone(mod_hz: f64, amplitude: f64, frames: usize) -> Vec<Vec<f64>> {
    let step = 2.0 * std::f64::consts::PI * 1000.0 / FS as f64;
    let mod_step = 2.0 * std::f64::consts::PI * mod_hz / FS as f64;
    let wave: Vec<f64> = (0..frames)
        .map(|n| {
            let envelope = if mod_hz > 0.0 {
                0.4 + 0.6 * (mod_step * n as f64).sin().abs()
            } else {
                1.0
            };
            amplitude * envelope * (step * n as f64).sin()
        })
        .collect();
    vec![wave.clone(), wave]
}

/// Reduction over the final second of a continuously rendered signal, with the
/// detector on and off. Needs a real timeline, since anything measured from one
/// repeated chunk cannot carry a syllabic envelope.
fn protection_pair_rendered(
    signal: Vec<Vec<f64>>,
    modulation_weight: f64,
) -> (f64, f64) {
    let mut protected_params = pinned_params(-27.0);
    protected_params.max_attenuation = Some(fx(40.0));
    protected_params.modulation_weight = Some(fx(modulation_weight));
    let mut unprotected_params = protected_params.clone();
    unprotected_params.dialogue_protection = Some(fx(0.0));

    let protected = render(protected_params, CHUNK, &signal);
    let unprotected = render(unprotected_params, CHUNK, &signal);
    let tail = FS;
    let from = protected.len() - tail;
    let input_db = rms_db(&signal[0][from..from + tail]);
    (
        rms_db(&protected[from..from + tail]) - input_db,
        rms_db(&unprotected[from..from + tail]) - input_db,
    )
}

#[test]
fn syllabic_content_passes_the_modulation_test() {
    // Eight seconds, enough for the modulation estimate and the one second
    // confidence smoother to settle.
    let signal = centred_tone(4.0, db_to_linear(-12.0), FS * 8);
    let (protected, unprotected) = protection_pair_rendered(signal, 1.0);
    assert!(
        unprotected < -2.0,
        "signal should be reduced without protection, got {unprotected} dB"
    );
    assert!(
        protected > unprotected + 1.5,
        "syllabic content should be protected even when modulation is the only cue, got {protected} dB vs {unprotected} dB"
    );
}

#[test]
fn steady_tone_fails_the_modulation_test() {
    // Centred and in band, but with no syllabic movement at all. With the
    // modulation term weighted fully, this must not be mistaken for speech.
    let signal = centred_tone(0.0, db_to_linear(-12.0), FS * 8);
    let (protected, unprotected) = protection_pair_rendered(signal, 1.0);
    assert!(
        (protected - unprotected).abs() < 1.0,
        "a steady tone should not be protected at full modulation weight, got {protected} dB vs {unprotected} dB"
    );
}

#[test]
fn modulation_weight_zero_ignores_modulation() {
    // The same steady tone, with the modulation term switched off, is protected
    // again purely on being centred and in band.
    let signal = centred_tone(0.0, db_to_linear(-12.0), FS * 4);
    let (protected, unprotected) = protection_pair_rendered(signal, 0.0);
    assert!(
        protected > unprotected + 1.5,
        "with modulation weight zero the steady tone should be protected, got {protected} dB vs {unprotected} dB"
    );
}

/// Render a signal through an adaptive processor and return it, so the reference
/// can be inspected afterwards.
fn render_adaptive(
    signal: &[Vec<f64>],
    mutate: impl Fn(&mut NightModeParameters),
) -> NightMode {
    let mut params = default_params();
    mutate(&mut params);
    let mut processor = processor(params);
    let mut start = 0;
    while start + CHUNK <= signal[0].len() {
        let waveforms: Vec<Vec<f64>> = signal
            .iter()
            .map(|ch| ch[start..start + CHUNK].to_vec())
            .collect();
        let mut chunk = chunk_from(waveforms);
        processor.process_chunk(&mut chunk).unwrap();
        start += CHUNK;
    }
    processor
}

#[test]
fn reference_tracks_dialogue_within_the_slew_limit() {
    let seconds = 8;
    // Dialogue-like, and quieter than the -27 dB the reference starts at, so the
    // tracker has somewhere to move.
    let signal = centred_tone(4.0, db_to_linear(-36.0), FS * seconds);
    let processor = render_adaptive(&signal, |_| {});
    let moved = to_real(processor.reference_db) - to_real(INITIAL_REFERENCE_DB);
    assert!(
        moved < -0.5,
        "reference should have moved down toward the dialogue level, moved {moved} dB"
    );
    let allowed = 0.25 * seconds as f64 + 0.1;
    assert!(
        moved.abs() <= allowed,
        "reference moved {} dB, more than the {allowed} dB the slew limit allows",
        moved.abs()
    );
}

#[test]
fn reference_rejects_levels_outside_the_window() {
    // Centred and in band so confidence is high, with the modulation term
    // switched off so a steady tone still passes, and far louder than any real
    // dialogue. Levels are judged per hop, so the signal is kept steady on
    // purpose: a modulated one would dip into the window during its troughs.
    let signal = centred_tone(0.0, db_to_linear(-5.0), FS * 4);
    let processor = render_adaptive(&signal, |p| p.modulation_weight = Some(fx(0.0)));
    assert!(
        (to_real(processor.reference_db) - to_real(INITIAL_REFERENCE_DB)).abs() < 1e-9,
        "reference should not have moved, sits at {}",
        to_real(processor.reference_db)
    );
}

#[test]
fn pinned_reference_never_moves() {
    let signal = centred_tone(4.0, db_to_linear(-36.0), FS * 4);
    let processor = render_adaptive(&signal, |p| p.reference_level = Some(fx(-30.0)));
    assert!((to_real(processor.reference_db) - (-30.0)).abs() < 1e-9);
}

#[test]
fn silence_freezes_the_detector() {
    let dialogue = centred_tone(4.0, db_to_linear(-36.0), FS * 4);
    let mut processor = render_adaptive(&dialogue, |_| {});

    // One chunk of silence first, to flush the hop that straddles the boundary
    // and still legitimately contains dialogue samples.
    let mut silence = chunk_from(vec![vec![0.0; CHUNK], vec![0.0; CHUNK]]);
    processor.process_chunk(&mut silence).unwrap();
    let reference_before = to_real(processor.reference_db);
    let confidence_before = to_real(processor.conf_hop);

    for _ in 0..200 {
        processor.process_chunk(&mut silence).unwrap();
    }
    assert!(
        (to_real(processor.reference_db) - reference_before).abs() < 1e-9,
        "silence moved the reference from {reference_before} to {}",
        to_real(processor.reference_db)
    );
    assert!(
        (to_real(processor.conf_hop) - confidence_before).abs() < 1e-9,
        "silence moved confidence from {confidence_before} to {}",
        to_real(processor.conf_hop)
    );
}

#[test]
fn reference_ignores_content_that_is_not_dialogue() {
    // Decorrelated and out of band, so confidence never gets high enough.
    let step = 2.0 * std::f64::consts::PI * 60.0 / FS as f64;
    let left: Vec<f64> = (0..FS * 4)
        .map(|n| db_to_linear(-36.0) * (step * n as f64).sin())
        .collect();
    let right: Vec<f64> = left.iter().map(|v| -v).collect();
    let processor = render_adaptive(&[left, right], |_| {});
    assert!(
        (to_real(processor.reference_db) - to_real(INITIAL_REFERENCE_DB)).abs() < 1e-9,
        "reference should have stayed put, sits at {}",
        to_real(processor.reference_db)
    );
}

/// Magnitude of one frequency component, by correlating against it.
fn tone_magnitude(signal: &[f64], freq: f64) -> f64 {
    let step = 2.0 * std::f64::consts::PI * freq / FS as f64;
    let mut real = 0.0;
    let mut imag = 0.0;
    for (n, val) in signal.iter().enumerate() {
        let phase = step * n as f64;
        real += *val * phase.cos();
        imag += *val * phase.sin();
    }
    let scale = 2.0 / signal.len() as f64;
    ((real * real + imag * imag).sqrt()) * scale
}

/// Loud two-tone signal: a midrange component to drive the leveler, plus bass for
/// the shelf to act on. Bass alone would not trigger anything, because the
/// sidechain is highpassed at 60 Hz on purpose.
fn bass_and_midrange(frames: usize) -> Vec<Vec<f64>> {
    let low = 2.0 * std::f64::consts::PI * 50.0 / FS as f64;
    let high = 2.0 * std::f64::consts::PI * 1000.0 / FS as f64;
    let amplitude = db_to_linear(-9.0);
    let wave: Vec<f64> = (0..frames)
        .map(|n| amplitude * (low * n as f64).sin() + amplitude * (high * n as f64).sin())
        .collect();
    vec![wave.clone(), wave]
}

#[test]
fn bass_is_reduced_more_than_midrange() {
    let signal = bass_and_midrange(FS * 4);
    let mut ratios = Vec::new();
    for reduction in [0.0, 8.0] {
        let mut params = pinned_params(-27.0);
        params.bass_reduction = Some(fx(reduction));
        // Protection off: the tone pair is centred, so the detector would
        // otherwise treat it as dialogue and back the leveler off.
        params.dialogue_protection = Some(fx(0.0));
        let out = render(params, CHUNK, &signal);
        // Measure over the settled tail only.
        let tail = &out[out.len() - FS..];
        let bass = tone_magnitude(tail, 50.0);
        let mid = tone_magnitude(tail, 1000.0);
        ratios.push(20.0 * (bass / mid).log10());
    }
    let difference = ratios[0] - ratios[1];
    assert!(
        (2.0..=9.0).contains(&difference),
        "8 dB of bass reduction should tilt bass against midrange by a few dB, got {difference} dB (ratios {ratios:?})"
    );
}

#[test]
fn bass_shelf_is_inert_when_disabled() {
    let signal = bass_and_midrange(FS * 2);
    let mut params = pinned_params(-27.0);
    params.bass_reduction = Some(fx(0.0));
    params.dialogue_protection = Some(fx(0.0));
    let out = render(params.clone(), CHUNK, &signal);
    let tail = &out[out.len() - FS..];
    let bass_in = tone_magnitude(&signal[0][signal[0].len() - FS..], 50.0);
    let mid_in = tone_magnitude(&signal[0][signal[0].len() - FS..], 1000.0);
    let bass_out = tone_magnitude(tail, 50.0);
    let mid_out = tone_magnitude(tail, 1000.0);
    // Both tones must be scaled by the same gain, leaving their ratio untouched.
    let tilt = 20.0 * ((bass_out / mid_out) / (bass_in / mid_in)).log10();
    assert!(
        tilt.abs() < 0.3,
        "with bass reduction off the spectrum should be untouched, tilted {tilt} dB"
    );
}

#[test]
fn quiet_scenes_get_no_bass_shelf() {
    // Below threshold there is no gain reduction, so the shelf depth must be zero
    // and the tonal balance must be identical to the input.
    let signal = {
        let low = 2.0 * std::f64::consts::PI * 50.0 / FS as f64;
        let high = 2.0 * std::f64::consts::PI * 1000.0 / FS as f64;
        let amplitude = db_to_linear(-40.0);
        let wave: Vec<f64> = (0..FS * 2)
            .map(|n| {
                amplitude * (low * n as f64).sin() + amplitude * (high * n as f64).sin()
            })
            .collect();
        vec![wave.clone(), wave]
    };
    let mut params = pinned_params(-27.0);
    params.bass_reduction = Some(fx(8.0));
    let out = render(params, CHUNK, &signal);
    let tail = &out[out.len() - FS..];
    let reference = &signal[0][signal[0].len() - FS..];
    let tilt = 20.0
        * ((tone_magnitude(tail, 50.0) / tone_magnitude(tail, 1000.0))
            / (tone_magnitude(reference, 50.0) / tone_magnitude(reference, 1000.0)))
        .log10();
    assert!(
        tilt.abs() < 0.1,
        "a quiet scene should get no tonal change, tilted {tilt} dB"
    );
}

/// Tilt at the presence frequency against a reference tone well above it, in dB,
/// relative to the same measurement on the input.
fn presence_tilt(gain: f64, waveforms: Vec<Vec<f64>>) -> f64 {
    let mut params = pinned_params(-27.0);
    params.presence_gain = Some(fx(gain));
    // Steady tones, so the modulation term would otherwise veto the detector.
    params.modulation_weight = Some(fx(0.0));
    let out = render(params, CHUNK, &waveforms);
    let tail = &out[out.len() - FS..];
    let reference = &waveforms[0][waveforms[0].len() - FS..];
    20.0 * ((tone_magnitude(tail, 2500.0) / tone_magnitude(tail, 9000.0))
        / (tone_magnitude(reference, 2500.0) / tone_magnitude(reference, 9000.0)))
    .log10()
}

/// A quiet pair of tones, one at the presence frequency and one above it. Quiet so
/// that no gain reduction is involved and the tone shaping is what gets measured.
fn presence_probe(correlated: bool) -> Vec<Vec<f64>> {
    let centre = 2.0 * std::f64::consts::PI * 2500.0 / FS as f64;
    let above = 2.0 * std::f64::consts::PI * 9000.0 / FS as f64;
    let amplitude = db_to_linear(-40.0);
    let wave: Vec<f64> = (0..FS * 4)
        .map(|n| {
            amplitude * (centre * n as f64).sin() + amplitude * (above * n as f64).sin()
        })
        .collect();
    if correlated {
        vec![wave.clone(), wave]
    } else {
        let inverted: Vec<f64> = wave.iter().map(|v| -v).collect();
        vec![wave, inverted]
    }
}

#[test]
fn presence_lift_is_inert_when_zero() {
    let tilt = presence_tilt(0.0, presence_probe(true));
    assert!(
        tilt.abs() < 0.1,
        "with no presence gain the spectrum should be untouched, tilted {tilt} dB"
    );
}

#[test]
fn presence_lift_raises_the_speech_band_on_dialogue() {
    let tilt = presence_tilt(6.0, presence_probe(true));
    assert!(
        tilt > 1.0,
        "presence lift should raise the centre frequency on centred content, tilted {tilt} dB"
    );
}

#[test]
fn presence_lift_does_not_touch_non_dialogue() {
    // Out of phase, so correlation is negative and confidence stays at zero.
    let tilt = presence_tilt(6.0, presence_probe(false));
    assert!(
        tilt.abs() < 0.1,
        "presence lift should stay out of the way on non-dialogue, tilted {tilt} dB"
    );
}

fn as_processor_config(params: NightModeParameters) -> Processor {
    Processor::NightMode {
        description: None,
        parameters: Box::new(params),
    }
}

#[test]
fn update_parameters_preserves_state() {
    let signal = centred_tone(4.0, db_to_linear(-36.0), FS * 4);
    let mut processor = render_adaptive(&signal, |_| {});

    let reference = to_real(processor.reference_db);
    let envelope = to_real(processor.env_slow_power);
    let confidence = to_real(processor.conf_smooth);
    let hops = processor.hops_measured;

    let mut params = default_params();
    params.amount = Some(fx(50.0));
    processor.update_parameters(as_processor_config(params));

    assert!((to_real(processor.reference_db) - reference).abs() < 1e-12);
    assert!((to_real(processor.env_slow_power) - envelope).abs() < 1e-12);
    assert!((to_real(processor.conf_smooth) - confidence).abs() < 1e-12);
    assert_eq!(processor.hops_measured, hops);
    assert!(
        (to_real(processor.amount) - 0.5).abs() < 1e-12,
        "the change itself should apply"
    );
}

#[test]
fn a_no_op_update_does_not_disturb_the_audio() {
    // Two processors with identical history. One is reconfigured with the values
    // it already had, which must be inaudible: if any filter state or follower
    // were rebuilt, the next chunk would differ.
    let signal = centred_tone(4.0, db_to_linear(-12.0), FS * 2);
    let mut untouched = render_adaptive(&signal, |_| {});
    let mut updated = render_adaptive(&signal, |_| {});
    updated.update_parameters(as_processor_config(default_params()));

    let next = centred_tone(4.0, db_to_linear(-12.0), CHUNK);
    let mut chunk_a = chunk_from(next.clone());
    let mut chunk_b = chunk_from(next);
    untouched.process_chunk(&mut chunk_a).unwrap();
    updated.process_chunk(&mut chunk_b).unwrap();

    for (a, b) in channel(&chunk_a, 0).iter().zip(channel(&chunk_b, 0).iter()) {
        assert!(
            (a - b).abs() < 1e-9,
            "a no-op reconfiguration changed the output: {a} against {b}"
        );
    }
}

#[test]
fn retuning_the_bass_corner_does_not_rebuild_the_filters() {
    // Changing only the corner frequency swaps coefficients in place, so the
    // number of filters stays the same and their history is not discarded.
    let signal = bass_and_midrange(FS);
    let mut processor = render_adaptive(&signal, |p| p.bass_reduction = Some(fx(6.0)));
    let count = processor.bass_lowpass.len();

    let mut params = default_params();
    params.bass_reduction = Some(fx(6.0));
    params.bass_frequency = Some(fx(90.0));
    processor.update_parameters(as_processor_config(params));

    assert_eq!(processor.bass_lowpass.len(), count);
    assert!((to_real(processor.bass_frequency) - 90.0).abs() < 1e-12);
    // And the audio stays finite and continuous through the change.
    let mut chunk = chunk_from(bass_and_midrange(CHUNK));
    processor.process_chunk(&mut chunk).unwrap();
    assert!(channel(&chunk, 0).iter().all(|v| v.is_finite()));
}

#[test]
fn dialogue_recovers_quickly_after_a_loud_scene() {
    // Two seconds of loud content, then quiet dialogue. The ordinary release is
    // 1.5 s, which on its own leaves speech ducked for several seconds after an
    // explosion. A drop this large is a scene change, and must release faster.
    let loud = 2 * FS;
    let quiet = 3 * FS;
    let step = 2.0 * std::f64::consts::PI * 1000.0 / FS as f64;
    let wave: Vec<f64> = (0..loud + quiet)
        .map(|n| {
            let amplitude = if n < loud {
                db_to_linear(-6.0)
            } else {
                db_to_linear(-36.0)
            };
            amplitude * (step * n as f64).sin()
        })
        .collect();
    let signal = vec![wave.clone(), wave];

    let mut params = pinned_params(-27.0);
    params.dialogue_protection = Some(fx(0.0));
    let out = render(params, CHUNK, &signal);

    // One second after the change, the processor must be out of the way.
    let from = loud + FS;
    let input_db = rms_db(&signal[0][from..from + FS]);
    let output_db = rms_db(&out[from..from + FS]);
    assert!(
        (output_db - input_db).abs() < 0.5,
        "dialogue should be released within a second of the loud scene ending, still reduced by {} dB",
        input_db - output_db
    );

    // And the loud section itself must still be reduced.
    let loud_db = rms_db(&signal[0][FS..loud]) - rms_db(&out[FS..loud]);
    assert!(
        loud_db > 5.0,
        "the loud section should still be levelled, only {loud_db} dB"
    );
}

#[test]
fn silence_stays_silent_and_finite() {
    let mut processor = processor(pinned_params(-27.0));
    let mut chunk = chunk_from(vec![vec![0.0; CHUNK], vec![0.0; CHUNK]]);
    for _ in 0..100 {
        processor.process_chunk(&mut chunk).unwrap();
    }
    assert!(channel(&chunk, 0).iter().all(|v| *v == 0.0));
    assert!((0..2).all(|ch| channel(&chunk, ch).iter().all(|v| v.is_finite())));
}

#[test]
fn ceiling_is_enforced() {
    // Active, but with the cap at zero so no reduction is applied. That isolates
    // the ceiling: it must still catch a signal louder than it.
    let mut params = pinned_params(-27.0);
    params.max_attenuation = Some(fx(0.0));
    params.ceiling = Some(fx(-6.0));
    let mut processor = processor(params);
    let waveforms = stereo_sine(1000.0, 1.0, CHUNK);
    let mut chunk = chunk_from(waveforms);
    processor.process_chunk(&mut chunk).unwrap();
    let limit = db_to_linear(-6.0);
    assert!(
        channel(&chunk, 0).iter().all(|v| v.abs() <= limit + 1e-9),
        "samples exceeded the ceiling"
    );
}

#[test]
fn empty_waveforms_do_not_panic() {
    let mut params = default_params();
    params.channels = 4;
    params.dialogue_channels = Some(vec![0, 1]);
    params.monitor_channels = Some(vec![0, 1]);
    params.reference_level = Some(fx(-27.0));
    let mut processor = processor(params);
    let waveforms = vec![vec![0.5; CHUNK], vec![0.5; CHUNK], Vec::new(), Vec::new()];
    let mut chunk = chunk_from(waveforms);
    processor.process_chunk(&mut chunk).unwrap();
    assert!(chunk.waveforms[2].is_empty());
    assert!(chunk.waveforms[3].is_empty());
}

#[test]
fn all_empty_monitor_channels_is_a_no_op() {
    let mut processor = processor(pinned_params(-27.0));
    let mut chunk = AudioChunk::new(vec![Vec::new(), Vec::new()], 0, 0, 0, 0);
    assert!(processor.process_chunk(&mut chunk).is_ok());
}
