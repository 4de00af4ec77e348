//! What the processor promises, on concrete audio.
use nightmode::audiochunk::AudioChunk;
use nightmode::config::{NightModeParameters, Processor};
use nightmode::decibels::{db_to_linear, level_db};
use nightmode::fixed::{fx_abs, fx_mul, fx_neg, PrcFmt, HALF, ONE};
use nightmode::night_mode::{bass_depth, make_sidechain_highpass, presence_depth, NightMode};

const STEPS: f64 = 1208925819614629174706176.0;
const FS: usize = 48000;

fn fx(v: f64) -> PrcFmt {
    (v * STEPS) as PrcFmt
}

fn to_real(v: PrcFmt) -> f64 {
    v as f64 / STEPS
}

fn plain() -> NightModeParameters {
    NightModeParameters {
        channels: 2,
        amount: None,
        max_attenuation: None,
        bass_reduction: None,
        dialogue_channels: None,
        headroom: None,
        ratio: None,
        transient_softening: None,
        dialogue_protection: None,
        presence_gain: None,
        presence_frequency: None,
        presence_q: None,
        attack: None,
        release: None,
        reference_level: None,
        reference_slew: None,
        modulation_weight: None,
        bass_frequency: None,
        silence_threshold: None,
        ceiling: None,
        monitor_channels: None,
        process_channels: None,
    }
}

fn pinned(level: f64) -> NightModeParameters {
    let mut config = plain();
    config.reference_level = Some(fx(level));
    config
}

fn make(config: &NightModeParameters, chunksize: usize) -> NightMode {
    NightMode::from_config("test", config.clone(), FS, chunksize)
}

fn night_mode_config(config: &NightModeParameters) -> Processor {
    Processor::NightMode {
        description: None,
        parameters: Box::new(config.clone()),
    }
}

fn chunk(waveforms: Vec<Vec<PrcFmt>>) -> AudioChunk {
    let frames = waveforms.iter().map(|w| w.len()).max().unwrap_or(0);
    AudioChunk::new(waveforms, 0, 0, frames, frames)
}

/// A sine on both channels, the right one scaled.
fn tone(freq: f64, level: f64, right: f64, start: usize, frames: usize) -> Vec<Vec<PrcFmt>> {
    let wave: Vec<f64> = (start..start + frames)
        .map(|n| level * (2.0 * std::f64::consts::PI * freq * n as f64 / FS as f64).sin())
        .collect();
    vec![
        wave.iter().map(|v| fx(*v)).collect(),
        wave.iter().map(|v| fx(*v * right)).collect(),
    ]
}

/// Noise of a fixed sequence.
fn noise(seed: u32, level: f64, frames: usize) -> Vec<PrcFmt> {
    let mut state = seed;
    (0..frames)
        .map(|_| {
            state = state.wrapping_mul(1664525).wrapping_add(1013904223);
            fx(level * (state as f64 / 2147483648.0 - 1.0))
        })
        .collect()
}

fn run(nm: &mut NightMode, waveforms: Vec<Vec<PrcFmt>>) -> Vec<Vec<PrcFmt>> {
    let mut audio = chunk(waveforms);
    assert!(nm.accepts(&audio));
    assert!(nm.process_chunk(&mut audio).is_ok());
    audio.waveforms
}

/// All of a processor but its scratch.
fn state(nm: &NightMode) -> String {
    let mut copy = nm.clone();
    copy.sc_gain = vec![];
    copy.sc_tmp = vec![];
    copy.sc_left = vec![];
    copy.sc_right = vec![];
    copy.sc_mid = vec![];
    copy.sc_bass = vec![];
    copy.sc_presence = vec![];
    format!("{copy:?}")
}

/// What a processor has learned.
fn learned(nm: &NightMode) -> String {
    format!(
        "{:?}",
        (
            (nm.hop_count, nm.acc_broadband, nm.acc_mid_full, nm.acc_mid_speech),
            (nm.acc_lr, nm.acc_left, nm.acc_right),
            (nm.hop_level_db, nm.hops_measured, nm.conf_hop, nm.speech_db_slow),
            (nm.modulation_bandpass, nm.modulation_energy),
            (nm.reference_db, nm.gate_open, nm.gate_hold),
            (&nm.sidechain_highpass, &nm.speech_highpass, &nm.speech_lowpass),
        )
    )
}

/// The followers without the confidence.
fn levels(nm: &NightMode) -> (PrcFmt, PrcFmt, PrcFmt, bool) {
    (
        nm.env_slow_power,
        nm.env_fast_power,
        nm.reduction_db,
        nm.catching_up,
    )
}

/// Ends the hop under way as if its mean power had been that of a level.
fn finish_hop_at(nm: &mut NightMode, level_db: f64) {
    nm.hop_count = nm.hop_frames - 1;
    nm.acc_broadband = fx(10.0_f64.powf(level_db / 10.0) * nm.hop_frames as f64);
    run(nm, vec![vec![0], vec![0]]);
    assert_eq!(nm.hop_count, 0);
}

fn assert_healthy(nm: &NightMode) {
    assert!(nm.hop_count < nm.hop_frames);
    assert!(0 <= nm.conf_hop && nm.conf_hop <= ONE);
    assert!(0 <= nm.conf_smooth && nm.conf_smooth <= ONE);
    assert!(-45 * ONE <= nm.reference_db && nm.reference_db <= -12 * ONE);
    assert!(nm.reduction_db <= 0);
}

#[test]
fn nothing_that_is_heard_makes_a_processor_sick() {
    let mut nm = make(&plain(), 700);
    assert_healthy(&nm);
    for (n, level) in [0.001, 0.1, 1.0, 1000.0, 1e12, 0.0].iter().enumerate() {
        let left = noise(n as u32, *level, 700);
        let right = noise(n as u32 + 100, *level, 700);
        run(&mut nm, vec![left.clone(), right]);
        assert_healthy(&nm);
        run(&mut nm, vec![left.clone(), left]);
        assert_healthy(&nm);
    }
    nm.update_parameters(night_mode_config(&pinned(-12.0)));
    assert_healthy(&nm);
    assert_eq!(nm.reference_db, -12 * ONE);
}

#[test]
fn reduction_is_never_a_boost_and_never_above_the_cap() {
    let mut config = pinned(-45.0);
    config.max_attenuation = Some(6 * ONE);
    config.presence_gain = Some(3 * ONE);
    let mut nm = make(&config, 2048);
    for start in 0..10 {
        run(&mut nm, tone(1000.0, 1.0, 1.0, start * 2048, 2048));
        for j in 0..2048 {
            assert!(db_to_linear(-6 * ONE) <= nm.sc_gain[j] && nm.sc_gain[j] <= ONE);
            assert!(0 <= nm.sc_bass[j] && nm.sc_bass[j] <= nm.bass_depth_max);
            assert!(0 <= nm.sc_presence[j] && nm.sc_presence[j] <= nm.presence_depth_max);
        }
    }
    assert_eq!(nm.sc_gain[2047], db_to_linear(-6 * ONE));
}

#[test]
fn without_protection_confidence_does_not_count() {
    let mut config = pinned(-30.0);
    config.dialogue_protection = Some(0);
    let mut sure = make(&config, 1000);
    let mut unsure = make(&config, 1000);
    sure.conf_smooth = ONE;
    sure.conf_hop = ONE;
    run(&mut sure, tone(1000.0, 0.5, 1.0, 0, 1000));
    run(&mut unsure, tone(1000.0, 0.5, 1.0, 0, 1000));
    assert_eq!(sure.sc_gain, unsure.sc_gain);
    assert!(sure.sc_gain[999] < ONE);
}

#[test]
fn confidence_only_spares_and_the_more_the_surer() {
    let mut gains: Vec<Vec<PrcFmt>> = Vec::new();
    for (protection, confidence) in [(0, ONE), (100, 0), (100, HALF), (100, ONE)] {
        let mut config = pinned(-30.0);
        config.dialogue_protection = Some(protection * ONE);
        let mut nm = make(&config, 4000);
        nm.conf_smooth = confidence;
        nm.conf_hop = confidence;
        run(&mut nm, tone(1000.0, 0.3, 1.0, 0, 4000));
        gains.push(nm.sc_gain.clone());
    }
    for j in 0..4000 {
        assert!(gains[0][j] <= gains[1][j]);
        assert!(gains[1][j] <= gains[2][j]);
        assert!(gains[2][j] <= gains[3][j]);
    }
    assert!(gains[0][3999] < gains[2][3999] && gains[2][3999] < gains[3][3999]);
}

#[test]
fn content_far_above_dialogue_is_not_protected() {
    let mut gains: Vec<PrcFmt> = Vec::new();
    for protection in [0, 100] {
        let mut config = pinned(-45.0);
        config.dialogue_protection = Some(protection * ONE);
        let mut nm = make(&config, 9600);
        nm.conf_smooth = ONE;
        nm.conf_hop = ONE;
        run(&mut nm, tone(1000.0, 1.0, 1.0, 0, 9600));
        gains.push(nm.sc_gain[9599]);
    }
    assert_eq!(gains[0], gains[1]);
    assert!(gains[0] < HALF);
}

#[test]
fn plausible_dialogue_is_protected_in_full() {
    let mut config = pinned(-20.0);
    config.dialogue_protection = Some(100 * ONE);
    let mut nm = make(&config, 4800);
    nm.conf_smooth = ONE;
    nm.conf_hop = ONE;
    nm.confidence_fall = ONE;
    run(&mut nm, tone(1000.0, 0.5, 1.0, 0, 4800));
    assert!(nm.reduction_db < -ONE);
    assert!((to_real(nm.sc_gain[4799]) - 1.0).abs() < 1e-9);
}

#[test]
fn amount_scales_decibels() {
    let mut reductions: Vec<f64> = Vec::new();
    for amount in [25, 50, 100] {
        let mut config = pinned(-30.0);
        config.amount = Some(amount * ONE);
        let mut nm = make(&config, 4800);
        run(&mut nm, tone(1000.0, 0.3, 1.0, 0, 4800));
        reductions.push(20.0 * to_real(nm.sc_gain[4799]).log10());
    }
    assert!(reductions[2] < -1.0);
    assert!((reductions[1] - reductions[2] / 2.0).abs() < 1e-9);
    assert!((reductions[0] - reductions[2] / 4.0).abs() < 1e-9);
}

#[test]
fn softening_and_headroom_are_monotone() {
    let mut gains: Vec<Vec<PrcFmt>> = Vec::new();
    for (softening, headroom) in [(0, 6), (0, 0), (50, 0), (100, 0)] {
        let mut config = pinned(-40.0);
        config.transient_softening = Some(softening * ONE);
        config.headroom = Some(headroom * ONE);
        let mut nm = make(&config, 2000);
        run(&mut nm, tone(1000.0, 0.8, 1.0, 0, 2000));
        gains.push(nm.sc_gain.clone());
    }
    for j in 0..2000 {
        assert!(gains[0][j] >= gains[1][j]);
        assert!(gains[1][j] >= gains[2][j]);
        assert!(gains[2][j] >= gains[3][j]);
    }
    assert!(gains[0][1999] > gains[1][1999]);
    assert!(gains[1][100] > gains[2][100] && gains[2][100] > gains[3][100]);
}

#[test]
fn a_quiet_chunk_passes_bit_for_bit() {
    let mut nm = make(&pinned(-20.0), 4800);
    let quiet = tone(1000.0, 0.05, 0.5, 0, 4800);
    assert_eq!(run(&mut nm, quiet.clone()), quiet);
    assert_eq!(nm.reduction_db, 0);
    assert!(nm.sc_gain.iter().all(|g| *g == ONE));
    assert!(nm.sc_bass.iter().all(|b| *b == 0));
}

#[test]
fn presence_needs_confidence() {
    let mut config = pinned(-20.0);
    config.presence_gain = Some(6 * ONE);
    let mut nm = make(&config, 100);
    run(&mut nm, tone(1000.0, 0.05, 1.0, 0, 100));
    assert!(nm.sc_presence.iter().all(|p| *p == 0));
    let mut nm = make(&config, 100);
    nm.conf_smooth = ONE;
    nm.conf_hop = ONE;
    run(&mut nm, tone(1000.0, 0.05, 1.0, 0, 100));
    assert!((to_real(nm.sc_presence[99]) - 0.9952623149688795).abs() < 1e-9);
}

#[test]
fn the_shelf_follows_the_reduction() {
    let mut nm = make(&pinned(-45.0), 48000);
    run(&mut nm, tone(1000.0, 0.5, 1.0, 0, 48000));
    assert_eq!(nm.sc_bass[47999], nm.bass_depth_max);
    for j in 0..48000 {
        let reduction = -20.0 * to_real(nm.sc_gain[j]).log10();
        let share = (reduction / 12.0).clamp(0.0, 1.0);
        assert!((to_real(nm.sc_bass[j]) - to_real(nm.bass_depth_max) * share).abs() < 1e-9);
    }
}

#[test]
fn depths_of_shelf_and_lift() {
    assert_eq!(bass_depth(0), 0);
    assert_eq!(presence_depth(0), 0);
    assert!((to_real(bass_depth(20 * ONE)) - 0.9).abs() < 1e-12);
    assert!((to_real(presence_depth(20 * ONE)) - 9.0).abs() < 1e-12);
}

#[test]
fn deep_reduction_is_let_go_at_the_scene_rate() {
    let mut nm = make(&pinned(-30.0), 1);
    nm.reduction_db = -20 * ONE;
    run(&mut nm, vec![vec![0], vec![0]]);
    assert!(nm.catching_up);
    assert_eq!(nm.reduction_db, fx_mul(nm.scene_release, -20 * ONE));
    nm.reduction_db = -3 * ONE;
    run(&mut nm, vec![vec![0], vec![0]]);
    assert!(nm.catching_up);
    nm.reduction_db = -ONE / 4;
    run(&mut nm, vec![vec![0], vec![0]]);
    assert!(!nm.catching_up);
    nm.reduction_db = -3 * ONE;
    run(&mut nm, vec![vec![0], vec![0]]);
    assert!(!nm.catching_up);
    assert_eq!(nm.reduction_db, fx_mul(nm.slow_release, -3 * ONE));
}

#[test]
fn reduction_deepens_at_the_attack_rate() {
    let mut nm = make(&pinned(-30.0), 1);
    nm.env_slow_power = ONE;
    nm.level_smooth = ONE;
    run(&mut nm, vec![vec![0], vec![0]]);
    let target = -30.0 * 11.0 / 12.0;
    let wanted = (1.0 - to_real(nm.slow_attack)) * target;
    assert!((to_real(nm.reduction_db) - wanted).abs() < 1e-9);
}

#[test]
fn what_is_learned_does_not_depend_on_the_chunks() {
    let left = noise(1, 0.2, 1000);
    let right = noise(2, 0.2, 1000);
    let mut together = make(&plain(), 1000);
    let mut apart = make(&plain(), 1000);
    run(&mut together, vec![left.clone(), right.clone()]);
    for (from, to) in [(0, 1), (1, 333), (333, 640), (640, 1000)] {
        run(
            &mut apart,
            vec![left[from..to].to_vec(), right[from..to].to_vec()],
        );
    }
    assert_eq!(learned(&together), learned(&apart));
    assert_eq!(together.hops_measured, 1000 / 120);
}

#[test]
fn with_the_detector_off_the_gain_does_not_depend_on_the_chunks() {
    let mut config = plain();
    config.dialogue_protection = Some(0);
    let left = noise(3, 0.5, 600);
    let right = noise(4, 0.5, 600);
    let mut together = make(&config, 600);
    let mut apart = make(&config, 600);
    run(&mut together, vec![left.clone(), right.clone()]);
    run(&mut apart, vec![left[..250].to_vec(), right[..250].to_vec()]);
    assert_eq!(together.sc_gain[..250], apart.sc_gain[..250]);
    assert_eq!(together.sc_bass[..250], apart.sc_bass[..250]);
    run(&mut apart, vec![left[250..].to_vec(), right[250..].to_vec()]);
    assert_eq!(together.sc_gain[250..], apart.sc_gain[..350]);
    assert_eq!(together.sc_bass[250..], apart.sc_bass[..350]);
    assert_eq!(levels(&together), levels(&apart));
}

#[test]
fn the_sidechain_is_feedforward() {
    let mut other = plain();
    other.amount = Some(10 * ONE);
    other.max_attenuation = Some(ONE);
    other.bass_reduction = Some(0);
    other.presence_gain = Some(6 * ONE);
    other.ceiling = Some(-20 * ONE);
    other.transient_softening = Some(0);
    other.dialogue_protection = Some(10 * ONE);
    other.process_channels = Some(vec![1]);
    let mut a = make(&plain(), 960);
    let mut b = make(&other, 960);
    for n in 0..5 {
        let audio = vec![noise(n, 0.7, 960), noise(n + 50, 0.7, 960)];
        run(&mut a, audio.clone());
        run(&mut b, audio);
    }
    assert_eq!(learned(&a), learned(&b));
    assert_eq!(levels(&a), levels(&b));
    assert_eq!(a.conf_smooth, b.conf_smooth);
}

#[test]
fn the_reference_moves_one_step_per_hop() {
    let mut nm = make(&plain(), 4);
    nm.conf_hop = ONE;
    nm.confidence_fall = ONE;
    assert_eq!(nm.reference_step, fx(0.25) / 400);
    finish_hop_at(&mut nm, -20.0);
    assert_eq!(nm.reference_db, -27 * ONE + nm.reference_step);
    finish_hop_at(&mut nm, -40.0);
    assert_eq!(nm.reference_db, -27 * ONE);
    nm.reference_step = 30 * ONE;
    finish_hop_at(&mut nm, -20.0);
    assert_eq!(nm.reference_db, nm.hop_level_db);
    assert!((to_real(nm.reference_db) + 20.0).abs() < 1e-9);
}

#[test]
fn the_reference_stays_in_its_window() {
    let mut nm = make(&plain(), 4);
    nm.conf_hop = ONE;
    nm.confidence_fall = ONE;
    for level in [-46.0, -11.0, 0.0, -69.0] {
        finish_hop_at(&mut nm, level);
        assert!(nm.gate_open);
        assert_eq!(nm.reference_db, -27 * ONE);
    }
    nm.reference_step = 10 * ONE;
    for _ in 0..5 {
        finish_hop_at(&mut nm, -12.5);
    }
    assert_eq!(nm.reference_db, nm.hop_level_db);
}

#[test]
fn a_pinned_reference_never_moves() {
    let mut nm = make(&pinned(-20.0), 4);
    nm.conf_hop = ONE;
    nm.confidence_fall = ONE;
    finish_hop_at(&mut nm, -40.0);
    finish_hop_at(&mut nm, -14.0);
    assert_eq!(nm.reference_db, -20 * ONE);
    assert!(!nm.gate_open);
}

#[test]
fn silent_hops_freeze_the_detector() {
    let mut nm = make(&plain(), 480);
    nm.conf_hop = HALF;
    nm.gate_open = true;
    nm.gate_hold = 7;
    nm.reference_db = -33 * ONE;
    run(&mut nm, vec![vec![0; 480], vec![0; 480]]);
    assert_eq!(nm.hops_measured, 4);
    assert_eq!(nm.conf_hop, HALF);
    assert_eq!(nm.reference_db, -33 * ONE);
    assert_eq!((nm.gate_open, nm.gate_hold), (true, 7));
}

#[test]
fn a_silent_hop_moves_nothing_but_level_and_count() {
    let mut nm = make(&plain(), 2);
    nm.speech_db_slow = -30 * ONE;
    nm.modulation_energy = ONE;
    nm.conf_hop = HALF;
    let before = nm.clone();
    finish_hop_at(&mut nm, -80.0);
    assert_eq!(nm.speech_db_slow, -30 * ONE);
    assert_eq!(nm.modulation_energy, ONE);
    assert_eq!(nm.modulation_bandpass, before.modulation_bandpass);
    assert_eq!(nm.conf_hop, HALF);
    assert_eq!(nm.hops_measured, 1);
    assert!((to_real(nm.hop_level_db) + 80.0).abs() < 1e-6);
}

#[test]
fn without_protection_the_detector_is_off() {
    let mut light = plain();
    light.dialogue_protection = Some(0);
    light.presence_gain = Some(6 * ONE);
    light.modulation_weight = Some(0);
    let mut heavy = light.clone();
    heavy.modulation_weight = Some(ONE);
    let mut a = make(&light, 4800);
    let mut b = make(&heavy, 4800);
    for n in 0..4 {
        let audio = tone(1000.0, 0.14, 1.0, n * 4800, 4800);
        assert_eq!(run(&mut a, audio.clone()), run(&mut b, audio));
        assert!(a.sc_presence.iter().all(|p| *p == 0));
    }
    assert_eq!((a.reference_db, a.conf_hop), (-27 * ONE, 0));
    assert!(!a.gate_open);
    assert_eq!(a.hops_measured, 160);
}

#[test]
fn the_speech_mean_starts_with_the_first_sound() {
    let mut nm = make(&plain(), 2);
    assert_eq!(nm.speech_db_slow, level_db(0));
    nm.acc_mid_speech = 0;
    finish_hop_at(&mut nm, -20.0);
    assert!(nm.speech_db_slow <= level_db(0) + 2);
    assert!(nm.speech_db_slow >= level_db(0));
}

#[test]
fn trust_has_hysteresis_and_a_hold() {
    let mut nm = make(&plain(), 4);
    nm.confidence_fall = ONE;
    assert_eq!(nm.gate_hold_hops, 120);
    nm.conf_hop = fx(0.7);
    finish_hop_at(&mut nm, -20.0);
    assert!(!nm.gate_open);
    assert_eq!(nm.reference_db, -27 * ONE);
    nm.conf_hop = fx(0.71);
    finish_hop_at(&mut nm, -20.0);
    assert_eq!((nm.gate_open, nm.gate_hold), (true, 120));
    nm.conf_hop = fx(0.51);
    finish_hop_at(&mut nm, -20.0);
    assert!(nm.gate_open);
    nm.conf_hop = 0;
    for _ in 0..118 {
        finish_hop_at(&mut nm, -20.0);
        assert!(nm.gate_open);
    }
    finish_hop_at(&mut nm, -20.0);
    assert_eq!((nm.gate_open, nm.gate_hold), (false, 0));
}

#[test]
fn every_cue_counts_toward_confidence() {
    let mut config = plain();
    config.modulation_weight = Some(0);
    let mut nm = make(&config, 2);
    // Centred and in band: the confidence rises toward one.
    nm.acc_lr = ONE;
    nm.acc_left = ONE;
    nm.acc_right = ONE;
    nm.acc_mid_speech = ONE;
    nm.acc_mid_full = ONE;
    finish_hop_at(&mut nm, -20.0);
    let risen = 1.0 - to_real(nm.confidence_rise);
    assert!((to_real(nm.conf_hop) - risen).abs() < 1e-9);
    // Not centred, or not in band: it falls toward zero.
    for (lr, mid_speech) in [(0, ONE), (-ONE, ONE), (ONE, ONE / 10)] {
        nm.conf_hop = HALF;
        nm.acc_lr = lr;
        nm.acc_left = ONE;
        nm.acc_right = ONE;
        nm.acc_mid_speech = mid_speech;
        nm.acc_mid_full = ONE;
        finish_hop_at(&mut nm, -20.0);
        assert_eq!(nm.conf_hop, fx_mul(nm.confidence_fall, HALF));
    }
}

#[test]
fn a_steady_level_is_no_dialogue_if_modulation_decides() {
    let mut config = plain();
    config.modulation_weight = Some(ONE);
    let mut nm = make(&config, 2);
    nm.conf_hop = HALF;
    nm.acc_lr = ONE;
    nm.acc_left = ONE;
    nm.acc_right = ONE;
    nm.acc_mid_speech = ONE;
    nm.acc_mid_full = ONE;
    finish_hop_at(&mut nm, -20.0);
    assert_eq!(nm.modulation_energy, 0);
    assert_eq!(nm.conf_hop, fx_mul(nm.confidence_fall, HALF));
}

#[test]
fn discrete_dialogue_channels_have_equal_sides() {
    let mut config = plain();
    config.channels = 3;
    config.dialogue_channels = Some(vec![2, 0]);
    let mut nm = make(&config, 100);
    run(
        &mut nm,
        vec![noise(5, 0.3, 100), noise(6, 0.3, 100), noise(7, 0.3, 60)],
    );
    assert_eq!(nm.sc_left, nm.sc_right);
    assert_eq!(nm.acc_lr, nm.acc_left);
    assert_eq!(nm.acc_lr, nm.acc_right);
    assert_eq!(nm.speech_highpass[0], nm.speech_highpass[1]);
    assert!(nm.acc_lr > 0);
}

#[test]
fn the_mean_of_the_monitored_channels_is_measured() {
    let mut config = plain();
    config.channels = 3;
    config.dialogue_channels = Some(vec![0]);
    let mut nm = make(&config, 1);
    run(&mut nm, vec![vec![ONE], vec![], vec![3 * ONE]]);
    let b0 = to_real(nm.sidechain_highpass[0].coeffs.b0);
    let wanted = (1.0 + 9.0) / 2.0 * b0 * b0;
    assert!((to_real(nm.acc_broadband) - wanted).abs() < 1e-9);
    assert_eq!((nm.sidechain_highpass[1].s1, nm.sidechain_highpass[1].s2), (0, 0));
}

#[test]
fn a_stereo_pair_with_an_unused_side_has_no_dialogue() {
    let mut config = plain();
    config.monitor_channels = Some(vec![0]);
    let mut nm = make(&config, 10);
    run(&mut nm, vec![noise(8, 0.5, 10), vec![]]);
    assert!(nm.sc_mid.iter().all(|v| *v == 0));
    assert!(nm.sc_left.iter().all(|v| *v == 0));
    assert!(nm.acc_broadband > 0);
    assert_eq!((nm.acc_mid_full, nm.acc_lr), (0, 0));
}

#[test]
fn nothing_leaves_above_the_ceiling() {
    for ceiling in [0, -ONE, -20 * ONE] {
        let mut config = plain();
        config.ceiling = Some(ceiling);
        config.presence_gain = Some(6 * ONE);
        let mut nm = make(&config, 480);
        for n in 0..4 {
            let out = run(&mut nm, vec![noise(n, 3.0, 480), noise(n + 9, 30.0, 480)]);
            assert!(nm.clipping);
            for v in out.iter().flatten() {
                assert!(fx_abs(*v) <= nm.limiter.clip_limit);
            }
        }
    }
}

#[test]
fn only_processed_channels_and_heard_frames_change() {
    let mut config = pinned(-45.0);
    config.process_channels = Some(vec![1]);
    let mut nm = make(&config, 100);
    let left = noise(11, 0.9, 150);
    let right = noise(12, 0.9, 150);
    let out = run(&mut nm, vec![left.clone(), right.clone()]);
    assert_eq!(out[0], left);
    assert_eq!(out[1][100..], right[100..]);
    assert_ne!(out[1][..100], right[..100]);
    assert_eq!(out[1].len(), 150);
}

#[test]
fn silence_stays_silent() {
    let mut config = plain();
    config.presence_gain = Some(3 * ONE);
    let mut nm = make(&config, 480);
    let silence = vec![vec![0; 480], vec![0; 480]];
    assert_eq!(run(&mut nm, silence.clone()), silence);
    for filter in nm.bass_lowpass.iter().chain(nm.presence_bandpass.iter()) {
        assert_eq!((filter.s1, filter.s2), (0, 0));
    }
    assert!(!nm.clipping);
}

#[test]
fn zero_amount_leaves_audio_alone_even_above_the_ceiling() {
    let mut config = plain();
    config.amount = Some(0);
    let mut nm = make(&config, 480);
    let loud = vec![noise(13, 5.0, 480), noise(14, 5.0, 480)];
    assert_eq!(run(&mut nm, loud.clone()), loud);
    assert!(!nm.clipping);
    assert_eq!(nm.hops_measured, 4);
    assert!(nm.reduction_db < 0);
}

#[test]
fn zero_amount_with_presence_does_not_reduce() {
    let mut config = pinned(-45.0);
    config.amount = Some(0);
    config.presence_gain = Some(3 * ONE);
    let mut nm = make(&config, 480);
    run(&mut nm, tone(1000.0, 0.5, 1.0, 0, 480));
    assert!(nm.sc_gain.iter().all(|g| *g == ONE));
    assert!(nm.sc_bass.iter().all(|b| *b == 0));
}

#[test]
fn a_disabled_shelf_or_lift_does_not_run() {
    let mut config = pinned(-45.0);
    config.bass_reduction = Some(0);
    config.presence_gain = Some(0);
    let mut nm = make(&config, 480);
    run(&mut nm, tone(50.0, 0.5, 1.0, 0, 480));
    for filter in nm.bass_lowpass.iter().chain(nm.presence_bandpass.iter()) {
        assert_eq!((filter.s1, filter.s2), (0, 0));
    }
}

#[test]
fn unused_monitored_channels_change_nothing() {
    let mut config = plain();
    config.monitor_channels = Some(vec![0]);
    let mut nm = make(&config, 480);
    run(&mut nm, vec![noise(15, 0.5, 480), noise(16, 0.5, 480)]);
    let before = state(&nm);
    let audio = vec![vec![], noise(17, 0.5, 480)];
    assert_eq!(run(&mut nm, audio.clone()), audio);
    assert_eq!(state(&nm), before);
}

#[test]
fn unused_monitored_channels_leave_the_scratch_alone() {
    let mut nm = make(&pinned(-27.0), 64);
    run(&mut nm, vec![noise(23, 0.5, 64), noise(24, 0.5, 64)]);
    let before = format!("{nm:?}");
    let audio = vec![vec![], vec![]];
    assert_eq!(run(&mut nm, audio.clone()), audio);
    assert_eq!(format!("{nm:?}"), before);
}

#[test]
fn an_updated_processor_is_tuned_like_a_fresh_one() {
    let mut nm = make(&plain(), 100);
    run(&mut nm, vec![noise(25, 0.5, 100), noise(26, 0.5, 100)]);
    let mut config = pinned(-20.0);
    config.bass_frequency = Some(90 * ONE);
    config.presence_q = Some(2 * ONE);
    nm.update_parameters(night_mode_config(&config));
    let fresh = make(&config, 100);
    let tuning = |n: &NightMode| {
        let mut all = Vec::new();
        for list in [
            &n.sidechain_highpass,
            &n.speech_highpass,
            &n.speech_lowpass,
            &n.bass_lowpass,
            &n.presence_bandpass,
        ] {
            all.push(list.iter().map(|f| f.coeffs).collect::<Vec<_>>());
        }
        all
    };
    assert_eq!(tuning(&nm), tuning(&fresh));
    assert_eq!(nm.modulation_bandpass.coeffs, fresh.modulation_bandpass.coeffs);
    assert_eq!(
        (nm.amount, nm.reference_step, nm.limiter, nm.bass_depth_max),
        (fresh.amount, fresh.reference_step, fresh.limiter, fresh.bass_depth_max)
    );
}

#[test]
fn one_channel_does_not_influence_another() {
    let mut config = plain();
    config.channels = 3;
    config.dialogue_channels = Some(vec![0]);
    config.monitor_channels = Some(vec![0]);
    config.reference_level = Some(-40 * ONE);
    let mut a = make(&config, 100);
    let mut b = make(&config, 100);
    let (first, second) = (noise(27, 0.5, 100), noise(28, 0.5, 100));
    let out_a = run(&mut a, vec![first.clone(), second.clone(), noise(29, 9.0, 100)]);
    let out_b = run(&mut b, vec![first, second, vec![]]);
    assert_eq!(out_a[0], out_b[0]);
    assert_eq!(out_a[1], out_b[1]);
}

#[test]
fn power_has_no_polarity() {
    let mut a = make(&plain(), 100);
    let mut b = make(&plain(), 100);
    let (left, right) = (noise(30, 0.5, 100), noise(31, 0.5, 100));
    run(&mut a, vec![left.clone(), right.clone()]);
    let turned: Vec<PrcFmt> = right.iter().map(|v| fx_neg(*v)).collect();
    run(&mut b, vec![left, turned]);
    assert_eq!(a.acc_broadband, b.acc_broadband);
    assert_eq!(levels(&a), levels(&b));
    assert_ne!(a.acc_lr, b.acc_lr);
}

#[test]
fn unused_channels_do_not_count_as_power() {
    let mut config = plain();
    config.channels = 3;
    config.dialogue_channels = Some(vec![0]);
    let mut some = config.clone();
    some.monitor_channels = Some(vec![0, 2]);
    let mut a = make(&config, 100);
    let mut b = make(&some, 100);
    let audio = vec![noise(32, 0.5, 100), vec![], noise(33, 0.5, 100)];
    run(&mut a, audio.clone());
    run(&mut b, audio);
    assert_eq!(levels(&a), levels(&b));
    assert_eq!(a.acc_broadband, b.acc_broadband);
}

#[test]
fn what_is_learned_does_not_depend_on_the_size_of_a_chunk() {
    let left = noise(34, 0.3, 1536);
    let mut states: Vec<String> = Vec::new();
    for size in [128, 256, 512, 1536] {
        let mut nm = make(&plain(), size);
        for start in (0..1536).step_by(size) {
            let part = left[start..start + size].to_vec();
            run(&mut nm, vec![part.clone(), part]);
        }
        states.push(learned(&nm));
    }
    assert!(states.iter().all(|s| *s == states[0]));
}

#[test]
fn cutting_a_chunk_moves_the_gain_little() {
    let mut config = plain();
    config.modulation_weight = Some(0);
    let mut whole = make(&config, 9600);
    let mut parts = make(&config, 9600);
    let audio = tone(1000.0, 0.3, 1.0, 0, 9600);
    run(&mut whole, audio.clone());
    let gains = whole.sc_gain.clone();
    let cut = |from: usize, to: usize| -> Vec<Vec<PrcFmt>> {
        audio.iter().map(|w| w[from..to].to_vec()).collect()
    };
    run(&mut parts, cut(0, 4800));
    let mut others = parts.sc_gain[..4800].to_vec();
    run(&mut parts, cut(4800, 9600));
    others.extend_from_slice(&parts.sc_gain[..4800]);
    // 0.1 s of slew twice, and the depth times 0.1 s of drift.
    let slew = 0.025;
    for j in 0..9600 {
        let db = |g: PrcFmt| 20.0 * to_real(g).log10();
        let deep = -db(others[j]) / 0.4;
        let bound = 2.0 * slew + deep * (0.1 + slew / 10.0) + 1e-6;
        assert!((db(gains[j]) - db(others[j])).abs() <= bound);
    }
    assert_ne!(gains, others);
}

/// Three channels, all monitored.
fn three_channels() -> NightModeParameters {
    let mut config = plain();
    config.channels = 3;
    config.dialogue_channels = Some(vec![0]);
    config
}

fn power_of(nm: &mut NightMode, waveforms: Vec<Vec<PrcFmt>>) -> Vec<PrcFmt> {
    let audio = chunk(waveforms);
    let frames = nm.active_frames(&audio).unwrap();
    nm.measure_power(&audio, frames);
    nm.sc_gain[..frames].to_vec()
}

#[test]
fn power_has_no_polarity_whichever_channels_are_turned() {
    let audio = vec![noise(40, 0.5, 90), noise(41, 0.7, 90), noise(42, 0.9, 90)];
    let wanted = power_of(&mut make(&three_channels(), 90), audio.clone());
    assert!(wanted.iter().any(|p| *p > 0));
    for turned in 1..8 {
        let mut other = audio.clone();
        for (c, wave) in other.iter_mut().enumerate() {
            if turned >> c & 1 == 1 {
                for v in wave.iter_mut() {
                    *v = fx_neg(*v);
                }
            }
        }
        assert_eq!(power_of(&mut make(&three_channels(), 90), other), wanted);
    }
}

#[test]
fn power_is_never_negative() {
    for level in [0.0, 1e-20, 0.1, 1.0, 1e9, 1e14] {
        let mut nm = make(&three_channels(), 64);
        let audio = vec![noise(43, level, 64), vec![], noise(44, -level, 64)];
        assert!(power_of(&mut nm, audio).iter().all(|p| *p >= 0));
    }
}

#[test]
fn equal_channels_have_the_power_of_one() {
    let wave = noise(45, 0.8, 80);
    let mut alone = three_channels();
    alone.monitor_channels = Some(vec![0]);
    let one = power_of(
        &mut make(&alone, 80),
        vec![wave.clone(), wave.clone(), wave.clone()],
    );
    let three = power_of(
        &mut make(&three_channels(), 80),
        vec![wave.clone(), wave.clone(), wave.clone()],
    );
    let two = power_of(
        &mut make(&three_channels(), 80),
        vec![wave.clone(), vec![], wave.clone()],
    );
    for j in 0..80 {
        assert!(one[j] - 3 * one[j] / ONE - 2 <= three[j] && three[j] <= one[j]);
        assert!(one[j] - 2 * one[j] / ONE - 2 <= two[j] && two[j] <= one[j]);
    }
    assert!(one.iter().any(|p| *p > HALF / 4));
}

#[test]
fn filters_of_monitored_channels_are_gentle() {
    for rate in [400, 8000, 44100, 48000, 192000, 768000] {
        let c = make_sidechain_highpass(rate, 1)[0].coeffs;
        assert!(fx_abs(c.a1) <= ONE && fx_abs(c.b0) <= ONE && fx_abs(c.b1) <= ONE);
        assert_eq!((c.a2, c.b2), (0, 0));
        assert!(c.b0 > 0 && c.b1 == -c.b0);
    }
}

/// Plays audio in chunks of one size. Returns what comes out, and the gain of every frame.
fn play(
    nm: &mut NightMode,
    audio: &[Vec<PrcFmt>],
    size: usize,
) -> (Vec<Vec<PrcFmt>>, Vec<PrcFmt>) {
    let frames = audio[0].len();
    let mut out: Vec<Vec<PrcFmt>> = vec![Vec::new(); audio.len()];
    let mut gains: Vec<PrcFmt> = Vec::new();
    for start in (0..frames).step_by(size) {
        let end = frames.min(start + size);
        let part = run(nm, audio.iter().map(|w| w[start..end].to_vec()).collect());
        for (c, wave) in part.iter().enumerate() {
            out[c].extend_from_slice(wave);
        }
        gains.extend_from_slice(&nm.sc_gain[..end - start]);
    }
    (out, gains)
}

#[test]
fn with_the_detector_off_the_size_of_a_chunk_makes_no_difference() {
    let mut config = pinned(-40.0);
    config.dialogue_protection = Some(0);
    config.presence_gain = Some(3 * ONE);
    let audio = vec![noise(46, 0.3, 2000), noise(47, 0.2, 2000)];
    let mut one = make(&config, 2000);
    let (wanted, gains) = play(&mut one, &audio, 2000);
    assert!(!one.clipping);
    assert_ne!(wanted, audio);
    for size in [1, 7, 128, 1000, 1999] {
        let mut nm = make(&config, size);
        let (out, others) = play(&mut nm, &audio, size);
        assert_eq!(out, wanted);
        assert_eq!(others, gains);
        assert_eq!(state(&nm), state(&one));
    }
}

#[test]
fn the_size_of_a_chunk_moves_the_gain_little() {
    for (config, slewing) in [(plain(), true), (pinned(-27.0), false)] {
        let mut config = config;
        config.modulation_weight = Some(0);
        let audio = tone(1000.0, 0.3, 1.0, 0, 9600);
        let mut small = make(&config, 100);
        let mut large = make(&config, 2400);
        let (_, gains) = play(&mut small, &audio, 100);
        let (_, others) = play(&mut large, &audio, 2400);
        assert_ne!(gains, others);
        // As many hops as can end in the longer chunk.
        let hops = ((small.hop_frames - 1 + 2399) / small.hop_frames) as f64;
        let slew = if slewing {
            to_real(small.reference_step) * hops
        } else {
            0.0
        };
        let rise = 1.0 - to_real(small.confidence_rise);
        for j in 0..9600 {
            let db = |g: PrcFmt| 20.0 * to_real(g).log10();
            // Protection leaves at least 0.4 of the depth.
            let deep = -db(others[j]) / 0.4;
            let bound = 2.0 * slew + deep * (rise * hops + slew / 10.0) + 1e-6;
            assert!((db(gains[j]) - db(others[j])).abs() <= bound);
        }
    }
}

#[test]
fn confidence_moves_at_its_pace() {
    let mut nm = make(&plain(), 480);
    let slower = nm.confidence_rise.min(nm.confidence_fall);
    for n in 0..40 {
        let before = nm.conf_hop;
        run(&mut nm, tone(700.0, 0.2, 1.0, n * 120, 120));
        assert!(fx_abs(nm.conf_hop - before) <= ONE - slower);
    }
    assert_eq!(nm.hops_measured, 40);
    assert!(nm.conf_hop > 0);
}

#[test]
fn without_weight_the_swing_decides_nothing() {
    let mut config = plain();
    config.modulation_weight = Some(0);
    let mut a = make(&config, 2);
    let mut b = make(&config, 2);
    b.speech_db_slow = fx(-11.0);
    b.modulation_energy = fx(9.0);
    b.modulation_bandpass.s1 = fx(3.0);
    b.modulation_bandpass.s2 = fx(-2.0);
    for n in 0..100 {
        for nm in [&mut a, &mut b] {
            nm.acc_lr = ONE;
            nm.acc_left = ONE;
            nm.acc_right = ONE;
            nm.acc_mid_speech = ONE;
            nm.acc_mid_full = ONE;
            finish_hop_at(nm, -20.0 - (n % 7) as f64);
        }
        assert_eq!(a.conf_hop, b.conf_hop);
        assert_eq!(a.reference_db, b.reference_db);
        assert_eq!((a.gate_open, a.gate_hold), (b.gate_open, b.gate_hold));
        assert_eq!((a.hop_level_db, a.hops_measured), (b.hop_level_db, b.hops_measured));
    }
    assert!(a.gate_open);
    assert_ne!(a.modulation_energy, b.modulation_energy);
}

#[test]
fn a_hop_can_be_ended_early() {
    let mut nm = make(&plain(), 64);
    run(&mut nm, vec![noise(48, 0.5, 64), noise(49, 0.5, 64)]);
    assert_eq!(nm.hop_count, 64);
    let mean = to_real(nm.acc_broadband) / nm.hop_frames as f64;
    nm.finish_hop();
    assert!((to_real(nm.hop_level_db) - 10.0 * mean.log10()).abs() < 1e-6);
    assert_eq!((nm.hop_count, nm.hops_measured), (0, 1));
    assert_eq!((nm.acc_broadband, nm.acc_mid_full, nm.acc_mid_speech), (0, 0, 0));
    assert_eq!((nm.acc_lr, nm.acc_left, nm.acc_right), (0, 0, 0));
}

#[test]
fn each_stage_writes_its_own_scratch() {
    let mut nm = make(&pinned(-40.0), 50);
    for (n, scratch) in [
        &mut nm.sc_gain,
        &mut nm.sc_tmp,
        &mut nm.sc_left,
        &mut nm.sc_right,
        &mut nm.sc_mid,
        &mut nm.sc_bass,
        &mut nm.sc_presence,
    ]
    .into_iter()
    .enumerate()
    {
        scratch.iter_mut().for_each(|v| *v = 1000 + n as PrcFmt);
    }
    let mut audio = chunk(vec![noise(50, 0.5, 30), noise(51, 0.5, 30)]);
    let mut before = nm.clone();
    nm.measure_power(&audio, 30);
    assert_eq!(nm.sc_gain[30..], before.sc_gain[30..]);
    assert_ne!(nm.sc_gain[..30], before.sc_gain[..30]);
    assert_eq!(nm.sc_tmp[30..], before.sc_tmp[30..]);
    assert_eq!((&nm.sc_left, &nm.sc_right), (&before.sc_left, &before.sc_right));
    assert_eq!((&nm.sc_mid, &nm.sc_bass), (&before.sc_mid, &before.sc_bass));
    assert_eq!(nm.sc_presence, before.sc_presence);
    before = nm.clone();
    nm.measure_detector(&audio, 30);
    assert_eq!((&nm.sc_gain, &nm.sc_tmp), (&before.sc_gain, &before.sc_tmp));
    assert_eq!(nm.sc_left[30..], before.sc_left[30..]);
    assert_ne!(nm.sc_left[..30], before.sc_left[..30]);
    assert_eq!(nm.sc_right[30..], before.sc_right[30..]);
    assert_eq!(nm.sc_mid[30..], before.sc_mid[30..]);
    assert_eq!((&nm.sc_bass, &nm.sc_presence), (&before.sc_bass, &before.sc_presence));
    before = nm.clone();
    nm.compute_gain(30);
    assert_eq!(nm.sc_gain[30..], before.sc_gain[30..]);
    assert_ne!(nm.sc_gain[..30], before.sc_gain[..30]);
    assert_eq!(nm.sc_bass[30..], before.sc_bass[30..]);
    assert_eq!(nm.sc_presence[30..], before.sc_presence[30..]);
    assert_eq!((&nm.sc_tmp, &nm.sc_left), (&before.sc_tmp, &before.sc_left));
    assert_eq!((&nm.sc_right, &nm.sc_mid), (&before.sc_right, &before.sc_mid));
    before = nm.clone();
    nm.apply(&mut audio, 30);
    assert_eq!(
        (&nm.sc_gain, &nm.sc_tmp, &nm.sc_left, &nm.sc_right),
        (&before.sc_gain, &before.sc_tmp, &before.sc_left, &before.sc_right)
    );
    assert_eq!(
        (&nm.sc_mid, &nm.sc_bass, &nm.sc_presence),
        (&before.sc_mid, &before.sc_bass, &before.sc_presence)
    );
}

#[test]
fn a_new_configuration_keeps_what_was_learned() {
    let mut nm = make(&plain(), 1000);
    run(&mut nm, vec![noise(18, 0.5, 1000), noise(18, 0.5, 1000)]);
    let before = nm.clone();
    let mut config = plain();
    config.bass_frequency = Some(200 * ONE);
    config.presence_frequency = Some(3000 * ONE);
    config.amount = Some(40 * ONE);
    nm.update_parameters(night_mode_config(&config));
    assert_eq!(learned(&nm), learned(&before));
    assert_eq!(levels(&nm), levels(&before));
    assert_eq!(nm.conf_smooth, before.conf_smooth);
    assert_eq!(nm.clipping, before.clipping);
    for (after, before) in nm.bass_lowpass.iter().zip(before.bass_lowpass.iter()) {
        assert_eq!((after.s1, after.s2), (before.s1, before.s2));
        assert_ne!(after.coeffs, before.coeffs);
    }
}

#[test]
fn another_number_of_channels_makes_filters_anew() {
    let mut nm = make(&plain(), 100);
    run(&mut nm, vec![noise(19, 0.5, 100), noise(20, 0.5, 100)]);
    let mut config = plain();
    config.process_channels = Some(vec![0]);
    config.monitor_channels = Some(vec![1]);
    nm.update_parameters(night_mode_config(&config));
    assert_eq!(nm.bass_lowpass.len(), 1);
    assert_eq!(nm.presence_bandpass.len(), 1);
    assert_eq!(nm.sidechain_highpass.len(), 1);
    assert_eq!((nm.bass_lowpass[0].s1, nm.sidechain_highpass[0].s1), (0, 0));
}

#[test]
fn a_configuration_in_force_changes_nothing() {
    let mut nm = make(&plain(), 100);
    run(&mut nm, vec![noise(21, 0.5, 100), noise(22, 0.5, 100)]);
    let before = state(&nm);
    nm.update_parameters(night_mode_config(&plain()));
    assert_eq!(state(&nm), before);
    let mut other = pinned(-20.0);
    other.process_channels = Some(vec![1]);
    nm.update_parameters(night_mode_config(&other));
    let once = state(&nm);
    nm.update_parameters(night_mode_config(&other));
    assert_eq!(state(&nm), once);
}

#[test]
fn an_early_update_is_a_fresh_start() {
    let mut config = pinned(-20.0);
    config.bass_frequency = Some(100 * ONE);
    config.monitor_channels = Some(vec![1]);
    config.ceiling = Some(-3 * ONE);
    let mut nm = make(&plain(), 64);
    nm.update_parameters(night_mode_config(&config));
    assert_eq!(state(&nm), state(&make(&config, 64)));
    assert_eq!(nm.name(), "test");
}

#[test]
fn chunks_without_the_channels_are_not_accepted() {
    let nm = make(&plain(), 10);
    assert!(nm.accepts(&chunk(vec![vec![0; 10], vec![0; 10]])));
    assert!(nm.accepts(&chunk(vec![vec![0; 10], vec![]])));
    assert!(nm.accepts(&chunk(vec![vec![], vec![]])));
    assert!(!nm.accepts(&chunk(vec![vec![0; 10]])));
    assert!(!nm.accepts(&chunk(vec![vec![0; 10], vec![0; 5]])));
    let mut config = plain();
    config.channels = 3;
    config.dialogue_channels = Some(vec![2]);
    let nm = make(&config, 10);
    assert!(nm.accepts(&chunk(vec![vec![0; 10], vec![0; 5], vec![0; 2]])));
    assert!(!nm.accepts(&chunk(vec![vec![0; 10], vec![0; 10]])));
}
