//! Accepted configurations make healthy processors, and nothing that is heard makes them sick.
use crate::config::NightModeParameters;
use crate::decibels::{lemma_coeff_share, lemma_linear_ordered, lemma_linear_zero};
use crate::filters::{Biquad, BiquadCoefficients};
use crate::fixed::{
    diff, lemma_prod_ordered, lemma_prod_share, lemma_quot_share, lemma_quot_sign,
    lemma_smoothed_between, negated, prod, sum, whole, PrcFmt, ONE,
};
use crate::gain::{slope_of, slow_target, Followers, Guide, Work};
use crate::hops::{Estimate, Frame, Listener, Sums};
use crate::model::{tuned_to, Model};
use crate::output::{shelved, Output};
use crate::settings::{
    bass_design, hop_frames_of, hop_rate_of, presence_design, sidechain_design, Settings, Setup,
};
use crate::sidechain::heard;
use crate::tuning::{
    CONFIDENCE_FALL_S, CONFIDENCE_RISE_S, CONFIDENCE_TO_GAIN_S, FAST_ATTACK_S, FAST_RELEASE_S,
    HUNDRED_PERCENT, LEVEL_WINDOW_S, MODULATION_SMOOTH_S, REFERENCE_MAX_DB, REFERENCE_MIN_DB,
    SCENE_RELEASE_S,
};
use crate::validation::rejection;
use vstd::prelude::*;

verus! {

/// Every setup is valid.
pub proof fn law_setup_is_valid(channels: usize, samplerate: usize, chunksize: usize)
    ensures
        Setup::of(channels, samplerate, chunksize).valid(),
{
    let rate = whole(samplerate as int);
    let hop_rate = hop_rate_of(samplerate, hop_frames_of(samplerate));
    lemma_quot_sign(rate, whole(hop_frames_of(samplerate) as int));
    lemma_coeff_share(FAST_ATTACK_S, rate);
    lemma_coeff_share(FAST_RELEASE_S, rate);
    lemma_coeff_share(CONFIDENCE_RISE_S, hop_rate);
    lemma_coeff_share(CONFIDENCE_FALL_S, hop_rate);
    lemma_coeff_share(CONFIDENCE_TO_GAIN_S, rate);
    lemma_coeff_share(MODULATION_SMOOTH_S, hop_rate);
}

/// The settings of an accepted configuration are valid.
pub proof fn law_accepted_settings_are_valid(
    config: NightModeParameters,
    samplerate: usize,
    hop_frames: usize,
)
    requires
        rejection(samplerate, config) is None,
    ensures
        Settings::of(config, samplerate, hop_frames).valid(),
{
    let rate = whole(samplerate as int);
    let hop_rate = hop_rate_of(samplerate, hop_frames);
    lemma_quot_sign(rate, whole(hop_frames as int));
    lemma_quot_share(config.amount(), HUNDRED_PERCENT);
    lemma_quot_share(config.transient_softening(), HUNDRED_PERCENT);
    lemma_quot_share(config.dialogue_protection(), HUNDRED_PERCENT);
    lemma_quot_sign(config.reference_slew(), hop_rate);
    lemma_linear_zero();
    lemma_linear_ordered(config.ceiling(), 0);
    lemma_linear_ordered(negated(config.bass_reduction()), 0);
    lemma_linear_ordered(0, config.presence_gain());
    lemma_coeff_share(config.attack(), rate);
    lemma_coeff_share(config.release(), rate);
    lemma_coeff_share(SCENE_RELEASE_S, rate);
    lemma_coeff_share(LEVEL_WINDOW_S, rate);
}

/// A processor made from an accepted configuration is healthy.
pub proof fn law_fresh_is_healthy(
    name: Seq<char>,
    config: NightModeParameters,
    samplerate: usize,
    chunksize: usize,
)
    requires
        rejection(samplerate, config) is None,
    ensures
        Model::fresh(name, config, samplerate, chunksize).healthy(),
{
    law_setup_is_valid(config.channels, samplerate, chunksize);
    law_accepted_settings_are_valid(config, samplerate, hop_frames_of(samplerate));
}

/// An accepted configuration keeps a processor healthy.
pub proof fn law_update_keeps_health(m: Model, config: NightModeParameters)
    requires
        m.healthy(),
        rejection(m.setup.samplerate, config) is None,
    ensures
        m.updated(config).healthy(),
{
    law_accepted_settings_are_valid(config, m.setup.samplerate, m.setup.hop_frames);
}

/// Each cue, and the confidence that is drawn from them, lies between zero and one.
pub proof fn law_raw_confidence_is_a_share(e: Estimate, sums: Sums, weight: PrcFmt)
    requires
        0 <= weight <= ONE,
    ensures
        0 <= sums.centred() <= ONE,
        0 <= sums.speechlike() <= ONE,
        0 <= e.modulation() <= ONE,
        0 <= e.raw_confidence(sums, weight) <= ONE,
{
    lemma_prod_share(sums.centred(), sums.speechlike());
    lemma_prod_share(weight, e.modulation());
    let factor = sum(diff(ONE, weight), prod(weight, e.modulation()));
    lemma_prod_share(prod(sums.centred(), sums.speechlike()), factor);
}

/// One hop keeps the confidence between zero and one, the reference in its window, and a
/// pinned reference where it is.
pub proof fn law_hop_keeps_health(e: Estimate, sums: Sums, s: Settings, u: Setup)
    requires
        s.valid(),
        u.valid(),
        0 <= e.confidence <= ONE,
        REFERENCE_MIN_DB <= e.reference_db <= REFERENCE_MAX_DB,
    ensures
        0 <= e.after_hop(sums, s, u).confidence <= ONE,
        REFERENCE_MIN_DB <= e.after_hop(sums, s, u).reference_db
            <= REFERENCE_MAX_DB,
        s.reference_pinned is Some ==> e.after_hop(sums, s, u).reference_db == e.reference_db,
{
    let level_db = sums.level_db(u.hop_frames);
    let swung = e.after_swing(sums.speech_db(u.hop_frames), u);
    let measured = Estimate { level_db, hops: e.hops.wrapping_add(1), ..swung };
    let raw = measured.raw_confidence(sums, s.modulation_weight);
    law_raw_confidence_is_a_share(measured, sums, s.modulation_weight);
    lemma_smoothed_between(u.confidence_rise, e.confidence, raw, 0, ONE);
    lemma_smoothed_between(u.confidence_fall, e.confidence, raw, 0, ONE);
}

/// So do any number of frames. The hop under way never holds a whole hop.
pub proof fn law_frames_keep_health(l: Listener, frames: Seq<Frame>, n: int, s: Settings, u: Setup)
    requires
        s.valid(),
        u.valid(),
        l.sums.count < u.hop_frames,
        0 <= l.estimate.confidence <= ONE,
        REFERENCE_MIN_DB <= l.estimate.reference_db
            <= REFERENCE_MAX_DB,
    ensures
        l.after_frames(frames, n, s, u).sums.count < u.hop_frames,
        0 <= l.after_frames(frames, n, s, u).estimate.confidence <= ONE,
        REFERENCE_MIN_DB <= l.after_frames(frames, n, s, u).estimate.reference_db
            <= REFERENCE_MAX_DB,
        s.reference_pinned is Some ==> l.after_frames(frames, n, s, u).estimate.reference_db
            == l.estimate.reference_db,
    decreases n,
{
    if n > 0 {
        law_frames_keep_health(l, frames, n - 1, s, u);
        let before = l.after_frames(frames, n - 1, s, u);
        law_hop_keeps_health(before.estimate, before.sums.with(frames[n - 1]), s, u);
    }
}

/// The slow stage never aims for a boost.
pub proof fn lemma_target_is_no_boost(slow_db: PrcFmt, s: Settings, reference_db: PrcFmt)
    requires
        s.ratio >= ONE,
    ensures
        0 <= slope_of(s.ratio) <= ONE,
        slow_target(slow_db, s, reference_db) <= 0,
{
    lemma_quot_share(diff(s.ratio, ONE), s.ratio);
    let threshold = sum(reference_db, s.headroom);
    if slow_db > threshold {
        lemma_prod_ordered(negated(diff(slow_db, threshold)), 0, slope_of(s.ratio));
    }
}

/// One frame keeps the slow stage from boosting, and the smoothed confidence between zero
/// and one.
pub proof fn law_frame_keeps_followers(f: Followers, power: PrcFmt, s: Settings, u: Setup, g: Guide)
    requires
        s.valid(),
        u.valid(),
        0 <= g.confidence <= ONE,
        0 <= f.conf_smooth <= ONE,
        f.reduction_db <= 0,
    ensures
        0 <= f.after_frame(power, s, u, g).conf_smooth <= ONE,
        f.after_frame(power, s, u, g).reduction_db <= 0,
{
    let followed = f.following(power, g.confidence, s, u);
    let target = slow_target(followed.slow_db(), s, g.reference_db);
    lemma_smoothed_between(u.confidence_to_gain, f.conf_smooth, g.confidence, 0, ONE);
    lemma_target_is_no_boost(followed.slow_db(), s, g.reference_db);
    lemma_smoothed_between(s.slow_attack, f.reduction_db, target, i128::MIN, 0);
    lemma_smoothed_between(s.scene_release, f.reduction_db, target, i128::MIN, 0);
    lemma_smoothed_between(s.slow_release, f.reduction_db, target, i128::MIN, 0);
}

/// So do any number of frames.
pub proof fn law_frames_keep_followers(
    f: Followers,
    power: Seq<PrcFmt>,
    n: int,
    s: Settings,
    u: Setup,
    g: Guide,
)
    requires
        s.valid(),
        u.valid(),
        0 <= g.confidence <= ONE,
        0 <= f.conf_smooth <= ONE,
        f.reduction_db <= 0,
    ensures
        0 <= f.after_frames(power, n, s, u, g).conf_smooth <= ONE,
        f.after_frames(power, n, s, u, g).reduction_db <= 0,
    decreases n,
{
    if n > 0 {
        law_frames_keep_followers(f, power, n - 1, s, u, g);
        law_frame_keeps_followers(
            f.after_frames(power, n - 1, s, u, g),
            power[n - 1],
            s,
            u,
            g,
        );
    }
}

proof fn lemma_filter_counts(o: Output, n: int, works: Seq<Work>, s: Settings)
    requires
        n <= o.lowpass.len(),
        n <= o.bandpass.len(),
    ensures
        o.after_channels(n, works, s).lowpass.len() == o.lowpass.len(),
        o.after_channels(n, works, s).bandpass.len() == o.bandpass.len(),
    decreases n,
{
    if n > 0 {
        lemma_filter_counts(o, n - 1, works, s);
    }
}

/// A filter keeps its tuning.
proof fn lemma_filter_keeps_tuning(f: Biquad, wave: Seq<PrcFmt>, n: int)
    ensures
        f.after_wave(wave, n).coeffs == f.coeffs,
    decreases n,
{
    if n > 0 {
        lemma_filter_keeps_tuning(f, wave, n - 1);
    }
}

proof fn lemma_hops_keep_tuning(l: Listener, frames: Seq<Frame>, n: int, s: Settings, u: Setup)
    ensures
        l.after_frames(frames, n, s, u).estimate.bandpass.coeffs == l.estimate.bandpass.coeffs,
    decreases n,
{
    if n > 0 {
        lemma_hops_keep_tuning(l, frames, n - 1, s, u);
    }
}

proof fn lemma_channels_keep_tuning(
    o: Output,
    n: int,
    works: Seq<Work>,
    s: Settings,
    low: BiquadCoefficients,
    band: BiquadCoefficients,
)
    requires
        0 <= n <= o.lowpass.len(),
        n <= o.bandpass.len(),
        tuned_to(o.lowpass, low),
        tuned_to(o.bandpass, band),
    ensures
        tuned_to(o.after_channels(n, works, s).lowpass, low),
        tuned_to(o.after_channels(n, works, s).bandpass, band),
    decreases n,
{
    if n > 0 {
        lemma_channels_keep_tuning(o, n - 1, works, s, low, band);
        lemma_filter_counts(o, n - 1, works, s);
        let before = o.after_channels(n - 1, works, s);
        let ch = s.process_channels[n - 1] as int;
        let wave = heard(before.waves[ch], works.len() as int);
        lemma_filter_keeps_tuning(before.lowpass[n - 1], wave, wave.len() as int);
        let shelf = shelved(wave, before.lowpass[n - 1], works, s.shelving());
        lemma_filter_keeps_tuning(before.bandpass[n - 1], shelf, shelf.len() as int);
    }
}

/// What is heard leaves every filter with its tuning.
proof fn lemma_measured_keeps_tuning(m: Model, waves: Seq<Seq<PrcFmt>>, frames: int)
    requires
        m.wf(),
        m.tuned(),
    ensures
        m.measured(waves, frames).tuned(),
        m.measured(waves, frames).bank.bass_lowpass == m.bank.bass_lowpass,
        m.measured(waves, frames).bank.presence_bandpass == m.bank.presence_bandpass,
        m.measured(waves, frames).settings == m.settings,
        m.measured(waves, frames).setup == m.setup,
{
    let side = m.sidechain(waves, frames);
    lemma_hops_keep_tuning(m.listener, side, side.len() as int, m.settings, m.setup);
    let after = m.measured(waves, frames);
    assert forall|i: int| 0 <= i < after.bank.sidechain_highpass.len() implies (
    #[trigger] after.bank.sidechain_highpass[i]).coeffs == sidechain_design(
        m.setup.samplerate,
    ) by {
        let wave = heard(waves[m.settings.monitor_channels[i] as int], frames);
        lemma_filter_keeps_tuning(m.bank.sidechain_highpass[i], wave, wave.len() as int);
        assert(m.bank.sidechain_highpass[i].coeffs == sidechain_design(m.setup.samplerate));
    }
    let (left, right) = (m.side(waves, frames, false), m.side(waves, frames, true));
    lemma_filter_keeps_tuning(m.bank.speech_highpass[0], left, left.len() as int);
    lemma_filter_keeps_tuning(m.bank.speech_highpass[1], right, right.len() as int);
    let (low, high) = (m.above_low(waves, frames, false), m.above_low(waves, frames, true));
    lemma_filter_keeps_tuning(m.bank.speech_lowpass[0], low, low.len() as int);
    lemma_filter_keeps_tuning(m.bank.speech_lowpass[1], high, high.len() as int);
}

/// A chunk leaves every filter with its tuning.
pub proof fn law_chunk_keeps_tuning(m: Model, waves: Seq<Seq<PrcFmt>>)
    requires
        m.wf(),
        m.tuned(),
    ensures
        m.after_chunk(waves).tuned(),
{
    if let Some(frames) = m.active_frames(waves) {
        lemma_measured_keeps_tuning(m, waves, frames);
        let start = Output {
            waves,
            lowpass: m.bank.bass_lowpass,
            bandpass: m.bank.presence_bandpass,
            clipped: false,
        };
        lemma_channels_keep_tuning(
            start,
            m.settings.process_channels.len() as int,
            m.chunk_works(waves, frames),
            m.settings,
            bass_design(m.setup.samplerate, m.settings.bass_frequency),
            presence_design(
                m.setup.samplerate,
                m.settings.presence_frequency,
                m.settings.presence_q,
            ),
        );
    }
}

/// A chunk keeps a processor healthy, and its settings as they are.
pub proof fn law_chunk_keeps_health(m: Model, waves: Seq<Seq<PrcFmt>>)
    requires
        m.healthy(),
    ensures
        m.after_chunk(waves).healthy(),
        m.after_chunk(waves).settings == m.settings,
        m.after_chunk(waves).setup == m.setup,
        m.after_chunk(waves).name == m.name,
{
    law_chunk_keeps_tuning(m, waves);
    if let Some(frames) = m.active_frames(waves) {
        let side = m.sidechain(waves, frames);
        let power = m.power(waves, frames);
        let measured = m.measured(waves, frames);
        law_frames_keep_health(m.listener, side, side.len() as int, m.settings, m.setup);
        law_frames_keep_followers(
            m.followers,
            power,
            power.len() as int,
            m.settings,
            m.setup,
            measured.guide(),
        );
        let start = Output {
            waves,
            lowpass: m.bank.bass_lowpass,
            bandpass: m.bank.presence_bandpass,
            clipped: false,
        };
        lemma_filter_counts(
            start,
            m.settings.process_channels.len() as int,
            m.chunk_works(waves, frames),
            m.settings,
        );
    }
}

} // verus!
