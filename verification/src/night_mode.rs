//! Night mode: a dialogue-preserving dynamics processor for watching films quietly.
//!
//! The whole sidechain is feedforward, derived only from the unmodified input samples. The
//! dialogue reference, the confidence estimate and both envelope followers are therefore
//! functions of the input, and the output can never influence them.
use crate::audiochunk::AudioChunk;
use crate::config::{NightModeParameters, Processor};
use crate::decibels::{db_to_linear, level_db, smoothing_coeff, POWER_FLOOR};
use crate::filters::{Biquad, BiquadCoefficients, BiquadParameters, Limiter};
use crate::fixed::{
    fx_abs, fx_add, fx_clamp, fx_div, fx_mul, fx_neg, fx_ramp, fx_round, fx_smooth, fx_sqrt, fx_sub,
    fx_whole, lemma_prod_zero, sum, whole, PrcFmt, HALF, ONE,
};
use crate::gain::{slope_of, Followers, Work};
use crate::hops::{Estimate, Frame, Listener, Sums};
use crate::model::{fresh_filters, retuned, Bank, Model};
use crate::output::{finish_channel, works_in, Output};
use crate::settings::{
    bass_depth_of, bass_design, listed_or_all, modulation_design, presence_depth_of,
    presence_design, sidechain_design, speech_design, Settings, Setup,
};
use crate::sidechain::{
    all_within, copy_frames, cut_to_band, find_length, measure_powers, mix_channels,
    silence_frames, square_centre, square_frames, swept,
};
use crate::tuning::{
    BAND_FRACTION_MIN, BAND_FRACTION_SPAN, BASS_FULL_AT_DB, CONFIDENCE_FALL_S, CONFIDENCE_RISE_S,
    CONFIDENCE_TO_GAIN_S, FAST_ATTACK_S, FAST_HEADROOM_DB, FAST_RELEASE_S, FAST_SLOPE,
    GATE_CLOSE_CONFIDENCE, GATE_HOLD_S, GATE_OPEN_CONFIDENCE, HOP_RATE_HZ, HUNDRED_PERCENT,
    INITIAL_REFERENCE_DB, LEVEL_WINDOW_S, MODULATION_FREQ_HZ, MODULATION_FULL_DB, MODULATION_Q,
    MODULATION_SMOOTH_S, PROTECTION_FADE_DB, PROTECTION_FULL_ABOVE_DB, REFERENCE_MAX_DB,
    REFERENCE_MIN_DB, RELEASE_CATCHUP_CLEAR_DB, RELEASE_CATCHUP_DB, RHO_MIN, RHO_SPAN,
    SCENE_RELEASE_S, SIDECHAIN_HIGHPASS_HZ, SILENT_LEVEL_DB, SPEECH_HIGH_HZ, SPEECH_LOW_HZ,
    SPEECH_Q,
};
use crate::validation::ConfigError;
use vstd::prelude::*;

verus! {

/// Where dialogue is looked for.
#[derive(Clone, Debug)]
pub enum DetectorMode {
    /// Phantom centre derived from a stereo pair.
    Stereo,
    /// One or more discrete dialogue channels.
    Discrete(Vec<usize>),
}

impl View for DetectorMode {
    type V = Option<Seq<usize>>;

    open spec fn view(&self) -> Option<Seq<usize>> {
        match *self {
            DetectorMode::Stereo => None,
            DetectorMode::Discrete(list) => Some(list@),
        }
    }
}

/// The night mode processor.
#[derive(Clone, Debug)]
pub struct NightMode {
    pub name: String,
    pub channels: usize,
    pub samplerate: usize,
    pub monitor_channels: Vec<usize>,
    pub process_channels: Vec<usize>,
    pub detector: DetectorMode,
    pub amount: PrcFmt,
    pub max_attenuation: PrcFmt,
    pub bass_reduction: PrcFmt,
    pub bass_frequency: PrcFmt,
    pub headroom: PrcFmt,
    pub ratio: PrcFmt,
    pub transient_softening: PrcFmt,
    pub dialogue_protection: PrcFmt,
    pub presence_gain: PrcFmt,
    pub presence_frequency: PrcFmt,
    pub presence_q: PrcFmt,
    pub modulation_weight: PrcFmt,
    pub silence_threshold: PrcFmt,
    pub reference_pinned: Option<PrcFmt>,
    pub reference_slew: PrcFmt,
    pub limiter: Limiter,
    pub slow_attack: PrcFmt,
    pub slow_release: PrcFmt,
    pub scene_release: PrcFmt,
    pub level_smooth: PrcFmt,
    pub fast_attack: PrcFmt,
    pub fast_release: PrcFmt,
    // Persistent state. Survives update_parameters.
    pub reference_db: PrcFmt,
    pub env_slow_power: PrcFmt,
    pub env_fast_power: PrcFmt,
    pub reduction_db: PrcFmt,
    pub catching_up: bool,
    pub sidechain_highpass: Vec<Biquad>,
    pub clipping: bool,
    // Hop state. The sums carry across chunk boundaries, so a hop is always the same length
    // in frames no matter how the chunks fall.
    pub hop_frames: usize,
    pub hop_count: usize,
    pub acc_broadband: PrcFmt,
    pub acc_mid_full: PrcFmt,
    pub acc_mid_speech: PrcFmt,
    pub acc_lr: PrcFmt,
    pub acc_left: PrcFmt,
    pub acc_right: PrcFmt,
    pub hop_level_db: PrcFmt,
    pub hops_measured: usize,
    // Dialogue confidence. conf_hop is updated once per hop, conf_smooth follows it per
    // frame and is the only thing the gain law is allowed to see.
    pub speech_highpass: Vec<Biquad>,
    pub speech_lowpass: Vec<Biquad>,
    pub confidence_rise: PrcFmt,
    pub confidence_fall: PrcFmt,
    pub confidence_to_gain: PrcFmt,
    pub conf_hop: PrcFmt,
    pub conf_smooth: PrcFmt,
    pub modulation_bandpass: Biquad,
    pub modulation_smooth: PrcFmt,
    pub speech_db_slow: PrcFmt,
    pub modulation_energy: PrcFmt,
    // Reference tracking. A fixed step per hop rather than an average, so the rate of change
    // has a stated ceiling and one misjudged passage cannot drag it far.
    pub reference_step: PrcFmt,
    pub gate_hold_hops: usize,
    pub gate_open: bool,
    pub gate_hold: usize,
    // Dynamic bass shelf. The band is extracted with fixed coefficients and scaled by a
    // per-frame factor, so the depth can move without recomputing a coefficient.
    pub bass_lowpass: Vec<Biquad>,
    pub bass_depth_max: PrcFmt,
    // Presence lift, built the same way, with its depth taken from the confidence.
    pub presence_bandpass: Vec<Biquad>,
    pub presence_depth_max: PrcFmt,
    // Scratch, allocated once.
    pub sc_gain: Vec<PrcFmt>,
    pub sc_tmp: Vec<PrcFmt>,
    pub sc_left: Vec<PrcFmt>,
    pub sc_right: Vec<PrcFmt>,
    pub sc_mid: Vec<PrcFmt>,
    pub sc_bass: Vec<PrcFmt>,
    pub sc_presence: Vec<PrcFmt>,
}

impl View for NightMode {
    type V = Model;

    open spec fn view(&self) -> Model {
        Model {
            name: self.name@,
            setup: Setup {
                channels: self.channels,
                samplerate: self.samplerate,
                chunksize: self.sc_gain@.len() as int,
                hop_frames: self.hop_frames,
                fast_attack: self.fast_attack,
                fast_release: self.fast_release,
                confidence_rise: self.confidence_rise,
                confidence_fall: self.confidence_fall,
                confidence_to_gain: self.confidence_to_gain,
                modulation_smooth: self.modulation_smooth,
                gate_hold_hops: self.gate_hold_hops,
            },
            settings: Settings {
                monitor_channels: self.monitor_channels@,
                process_channels: self.process_channels@,
                dialogue_channels: self.detector@,
                amount: self.amount,
                max_attenuation: self.max_attenuation,
                bass_reduction: self.bass_reduction,
                bass_frequency: self.bass_frequency,
                headroom: self.headroom,
                ratio: self.ratio,
                transient_softening: self.transient_softening,
                dialogue_protection: self.dialogue_protection,
                presence_gain: self.presence_gain,
                presence_frequency: self.presence_frequency,
                presence_q: self.presence_q,
                modulation_weight: self.modulation_weight,
                silence_threshold: self.silence_threshold,
                reference_pinned: self.reference_pinned,
                reference_slew: self.reference_slew,
                reference_step: self.reference_step,
                limiter: self.limiter,
                slow_attack: self.slow_attack,
                slow_release: self.slow_release,
                scene_release: self.scene_release,
                level_smooth: self.level_smooth,
                bass_depth_max: self.bass_depth_max,
                presence_depth_max: self.presence_depth_max,
            },
            listener: Listener {
                sums: Sums {
                    count: self.hop_count,
                    broadband: self.acc_broadband,
                    mid_full: self.acc_mid_full,
                    mid_speech: self.acc_mid_speech,
                    lr: self.acc_lr,
                    left: self.acc_left,
                    right: self.acc_right,
                },
                estimate: Estimate {
                    level_db: self.hop_level_db,
                    hops: self.hops_measured,
                    confidence: self.conf_hop,
                    speech_db_slow: self.speech_db_slow,
                    bandpass: self.modulation_bandpass,
                    modulation_energy: self.modulation_energy,
                    reference_db: self.reference_db,
                    gate_open: self.gate_open,
                    gate_hold: self.gate_hold,
                },
            },
            followers: Followers {
                env_slow_power: self.env_slow_power,
                env_fast_power: self.env_fast_power,
                reduction_db: self.reduction_db,
                catching_up: self.catching_up,
                conf_smooth: self.conf_smooth,
            },
            bank: Bank {
                sidechain_highpass: self.sidechain_highpass@,
                speech_highpass: self.speech_highpass@,
                speech_lowpass: self.speech_lowpass@,
                bass_lowpass: self.bass_lowpass@,
                presence_bandpass: self.presence_bandpass@,
            },
            clipping: self.clipping,
        }
    }
}

/// `count` filters that have heard nothing yet.
fn repeat_filter(coeffs: BiquadCoefficients, count: usize) -> (r: Vec<Biquad>)
    ensures
        r@ == fresh_filters(coeffs, count as int),
{
    let mut filters: Vec<Biquad> = Vec::new();
    let mut n: usize = 0;
    while n < count
        invariant
            n <= count,
            filters@ == fresh_filters(coeffs, n as int),
        decreases count - n,
    {
        filters.push(Biquad::new(coeffs));
        n = n + 1;
        assert(filters@ =~= fresh_filters(coeffs, n as int));
    }
    filters
}

/// Swap the coefficients of every filter and keep their history, so that retuning while
/// playing does not click.
fn retune(filters: &mut Vec<Biquad>, coeffs: BiquadCoefficients)
    ensures
        final(filters)@ == retuned(old(filters)@, coeffs),
{
    let mut n: usize = 0;
    while n < filters.len()
        invariant
            n <= filters@.len(),
            filters@.len() == old(filters)@.len(),
            forall|i: int|
                0 <= i < n ==> #[trigger] filters@[i] == (Biquad { coeffs, ..old(filters)@[i] }),
            forall|i: int|
                n <= i < filters@.len() ==> #[trigger] filters@[i] == old(filters)@[i],
        decreases filters@.len() - n,
    {
        filters[n].set_coefficients(coeffs);
        n = n + 1;
    }
    assert(filters@ =~= retuned(old(filters)@, coeffs));
}

/// Shelf depth as a subtraction factor.
pub fn bass_depth(reduction_db: PrcFmt) -> (r: PrcFmt)
    ensures
        r == bass_depth_of(reduction_db),
{
    fx_sub(ONE, db_to_linear(fx_neg(reduction_db)))
}

/// Lift depth as an addition factor.
pub fn presence_depth(gain_db: PrcFmt) -> (r: PrcFmt)
    ensures
        r == presence_depth_of(gain_db),
{
    fx_sub(db_to_linear(gain_db), ONE)
}

pub fn make_presence_bandpass(samplerate: usize, freq: PrcFmt, q: PrcFmt, count: usize) -> (r: Vec<
    Biquad,
>)
    ensures
        r@ == fresh_filters(presence_design(samplerate, freq, q), count as int),
{
    let coeffs = BiquadCoefficients::from_config(samplerate, BiquadParameters::Bandpass { freq, q });
    repeat_filter(coeffs, count)
}

pub fn make_bass_lowpass(samplerate: usize, freq: PrcFmt, count: usize) -> (r: Vec<Biquad>)
    ensures
        r@ == fresh_filters(bass_design(samplerate, freq), count as int),
{
    let coeffs = BiquadCoefficients::from_config(samplerate, BiquadParameters::LowpassFO { freq });
    repeat_filter(coeffs, count)
}

/// Bandpass for the syllabic modulation estimate. Runs at hop rate, not at sample rate.
pub fn make_modulation_bandpass(hop_rate: PrcFmt) -> (r: Biquad)
    ensures
        r == Biquad::fresh(modulation_design(hop_rate)),
{
    let rate: usize = fx_round(hop_rate);
    Biquad::new(
        BiquadCoefficients::from_config(
            rate,
            BiquadParameters::Bandpass { freq: MODULATION_FREQ_HZ, q: MODULATION_Q },
        ),
    )
}

pub fn make_speech_filters(samplerate: usize, highpass: bool) -> (r: Vec<Biquad>)
    ensures
        r@ == fresh_filters(speech_design(samplerate, highpass), 2),
{
    let parameters = if highpass {
        BiquadParameters::Highpass { freq: SPEECH_LOW_HZ, q: SPEECH_Q }
    } else {
        BiquadParameters::Lowpass { freq: SPEECH_HIGH_HZ, q: SPEECH_Q }
    };
    let coeffs = BiquadCoefficients::from_config(samplerate, parameters);
    repeat_filter(coeffs, 2)
}

pub fn make_sidechain_highpass(samplerate: usize, count: usize) -> (r: Vec<Biquad>)
    ensures
        r@ == fresh_filters(sidechain_design(samplerate), count as int),
{
    let coeffs = BiquadCoefficients::from_config(
        samplerate,
        BiquadParameters::HighpassFO { freq: SIDECHAIN_HIGHPASS_HZ },
    );
    repeat_filter(coeffs, count)
}

/// The channels of a list, or all of them where it is empty.
fn fill_channels(list: Vec<usize>, channels: usize) -> (r: Vec<usize>)
    ensures
        r@ == listed_or_all(list@, channels),
{
    if list.len() > 0 {
        return list;
    }
    let mut all: Vec<usize> = Vec::new();
    let mut n: usize = 0;
    while n < channels
        invariant
            n <= channels,
            all@.len() == n,
            forall|i: int| 0 <= i < n ==> #[trigger] all@[i] == i,
        decreases channels - n,
    {
        all.push(n);
        n = n + 1;
    }
    assert(all@ =~= listed_or_all(list@, channels));
    all
}

/// Where to look for dialogue, given the dialogue channels.
fn choose_detector(dialogue_channels: Vec<usize>) -> (r: DetectorMode)
    ensures
        r@ == if dialogue_channels@.len() == 0 {
            None
        } else {
            Some(dialogue_channels@)
        },
{
    if dialogue_channels.is_empty() {
        DetectorMode::Stereo
    } else {
        DetectorMode::Discrete(dialogue_channels)
    }
}

/// Whether every entry of a list is a channel.
fn lists_channels(list: &Vec<usize>, channels: usize) -> (r: bool)
    ensures
        r == all_within(list@, channels as int),
{
    let mut n: usize = 0;
    while n < list.len()
        invariant
            n <= list@.len(),
            forall|i: int| 0 <= i < n ==> (#[trigger] list@[i]) < channels,
        decreases list@.len() - n,
    {
        if list[n] >= channels {
            return false;
        }
        n = n + 1;
    }
    true
}

impl NightMode {
    /// What holds of the processor at all times: what holds of its model, and scratch as
    /// long as a chunk.
    pub open spec fn wf(self) -> bool {
        &&& self@.wf()
        &&& self.sc_tmp@.len() == self.sc_gain@.len()
        &&& self.sc_left@.len() == self.sc_gain@.len()
        &&& self.sc_right@.len() == self.sc_gain@.len()
        &&& self.sc_mid@.len() == self.sc_gain@.len()
        &&& self.sc_bass@.len() == self.sc_gain@.len()
        &&& self.sc_presence@.len() == self.sc_gain@.len()
    }

    /// Creates a NightMode processor from a config struct.
    pub fn from_config(
        name: &str,
        config: NightModeParameters,
        samplerate: usize,
        chunksize: usize,
    ) -> (r: Self)
        ensures
            r.wf(),
            r@ == Model::fresh(name@, config, samplerate, chunksize),
    {
        let channels: usize = config.channels;
        let monitor_channels: Vec<usize> = fill_channels(config.monitor_channels(), channels);
        let process_channels: Vec<usize> = fill_channels(config.process_channels(), channels);
        let detector = choose_detector(config.dialogue_channels());
        let limiter = Limiter::from_config(config.ceiling());
        let reference_db: PrcFmt = match config.reference_level {
            Some(level) => level,
            None => INITIAL_REFERENCE_DB,
        };
        let srate: PrcFmt = fx_whole(samplerate);
        let hop_frames: usize = if samplerate < HOP_RATE_HZ {
            1
        } else {
            samplerate / HOP_RATE_HZ
        };
        let hop_rate: PrcFmt = fx_div(srate, fx_whole(hop_frames));
        let sidechain_highpass = make_sidechain_highpass(samplerate, monitor_channels.len());
        let process_channel_count: usize = process_channels.len();
        NightMode {
            name: name.to_owned(),
            channels,
            samplerate,
            monitor_channels,
            process_channels,
            detector,
            amount: fx_div(config.amount(), HUNDRED_PERCENT),
            max_attenuation: config.max_attenuation(),
            bass_reduction: config.bass_reduction(),
            bass_frequency: config.bass_frequency(),
            headroom: config.headroom(),
            ratio: config.ratio(),
            transient_softening: fx_div(config.transient_softening(), HUNDRED_PERCENT),
            dialogue_protection: fx_div(config.dialogue_protection(), HUNDRED_PERCENT),
            presence_gain: config.presence_gain(),
            presence_frequency: config.presence_frequency(),
            presence_q: config.presence_q(),
            modulation_weight: config.modulation_weight(),
            silence_threshold: config.silence_threshold(),
            reference_pinned: config.reference_level,
            reference_slew: config.reference_slew(),
            limiter,
            slow_attack: smoothing_coeff(config.attack(), srate),
            slow_release: smoothing_coeff(config.release(), srate),
            scene_release: smoothing_coeff(SCENE_RELEASE_S, srate),
            level_smooth: smoothing_coeff(LEVEL_WINDOW_S, srate),
            fast_attack: smoothing_coeff(FAST_ATTACK_S, srate),
            fast_release: smoothing_coeff(FAST_RELEASE_S, srate),
            reference_db,
            env_slow_power: 0,
            env_fast_power: 0,
            reduction_db: 0,
            catching_up: false,
            sidechain_highpass,
            clipping: false,
            hop_frames,
            hop_count: 0,
            acc_broadband: 0,
            acc_mid_full: 0,
            acc_mid_speech: 0,
            acc_lr: 0,
            acc_left: 0,
            acc_right: 0,
            hop_level_db: SILENT_LEVEL_DB,
            hops_measured: 0,
            speech_highpass: make_speech_filters(samplerate, true),
            speech_lowpass: make_speech_filters(samplerate, false),
            confidence_rise: smoothing_coeff(CONFIDENCE_RISE_S, hop_rate),
            confidence_fall: smoothing_coeff(CONFIDENCE_FALL_S, hop_rate),
            confidence_to_gain: smoothing_coeff(CONFIDENCE_TO_GAIN_S, srate),
            conf_hop: 0,
            conf_smooth: 0,
            modulation_bandpass: make_modulation_bandpass(hop_rate),
            modulation_smooth: smoothing_coeff(MODULATION_SMOOTH_S, hop_rate),
            speech_db_slow: level_db(0),
            modulation_energy: 0,
            reference_step: fx_div(config.reference_slew(), hop_rate),
            gate_hold_hops: fx_round(fx_mul(GATE_HOLD_S, hop_rate)),
            gate_open: false,
            gate_hold: 0,
            bass_lowpass: make_bass_lowpass(
                samplerate,
                config.bass_frequency(),
                process_channel_count,
            ),
            bass_depth_max: bass_depth(config.bass_reduction()),
            presence_bandpass: make_presence_bandpass(
                samplerate,
                config.presence_frequency(),
                config.presence_q(),
                process_channel_count,
            ),
            presence_depth_max: presence_depth(config.presence_gain()),
            sc_gain: vec![0; chunksize],
            sc_tmp: vec![0; chunksize],
            sc_left: vec![0; chunksize],
            sc_right: vec![0; chunksize],
            sc_mid: vec![0; chunksize],
            sc_bass: vec![0; chunksize],
            sc_presence: vec![0; chunksize],
        }
    }
}

impl NightMode {
    /// The sidechain signals in the scratch buffers.
    pub open spec fn frames_in(self, frames: int) -> Seq<Frame> {
        Seq::new(
            frames as nat,
            |j: int|
                Frame {
                    power: self.sc_gain@[j],
                    mid: self.sc_mid@[j],
                    left: self.sc_left@[j],
                    right: self.sc_right@[j],
                },
        )
    }

    /// Whether the scratch buffers hold the same.
    pub open spec fn same_scratch(self, other: Self) -> bool {
        &&& self.sc_gain@ == other.sc_gain@
        &&& self.sc_tmp@ == other.sc_tmp@
        &&& self.sc_left@ == other.sc_left@
        &&& self.sc_right@ == other.sc_right@
        &&& self.sc_mid@ == other.sc_mid@
        &&& self.sc_bass@ == other.sc_bass@
        &&& self.sc_presence@ == other.sc_presence@
    }

    /// Whether the scratch buffers hold what a chunk of `frames` frames leaves in those of
    /// `before`: the work in three of them, the signals of the detector in three, and the last
    /// filtered channels in one. Past the frames nothing changes.
    pub open spec fn scratch_filled(
        self,
        before: Self,
        waves: Seq<Seq<PrcFmt>>,
        frames: int,
    ) -> bool {
        &&& works_in(self.sc_gain@, self.sc_bass@, self.sc_presence@, frames)
            == before@.chunk_works(waves, frames)
        &&& self.sc_gain@.skip(frames) == before.sc_gain@.skip(frames)
        &&& self.sc_bass@.skip(frames) == before.sc_bass@.skip(frames)
        &&& self.sc_presence@.skip(frames) == before.sc_presence@.skip(frames)
        &&& self.sc_mid@ == before@.mid(waves, frames) + before.sc_mid@.skip(frames)
        &&& self.sc_left@ == before@.speech(waves, frames, false) + before.sc_left@.skip(frames)
        &&& self.sc_right@ == before@.speech(waves, frames, true) + before.sc_right@.skip(frames)
        &&& self.sc_tmp@ == swept(
            before.sc_tmp@,
            before.sidechain_highpass@,
            before.monitor_channels@,
            waves,
            frames,
            before.monitor_channels@.len() as int,
        )
    }

    /// Number of frames carried by this chunk, or None when no monitored channel holds any
    /// data. Unused capture channels arrive as empty vectors.
    pub fn active_frames(&self, input: &AudioChunk) -> (r: Option<usize>)
        requires
            self.wf(),
            all_within(self.monitor_channels@, input.waveforms@.len() as int),
        ensures
            r is Some <==> self@.active_frames(input.waves()) is Some,
            r matches Some(frames) ==> self@.active_frames(input.waves()) == Some(frames as int)
                && frames <= self.sc_gain@.len(),
    {
        match find_length(&self.monitor_channels, &input.waveforms) {
            Some(len) => if len < self.sc_gain.len() {
                Some(len)
            } else {
                Some(self.sc_gain.len())
            },
            None => None,
        }
    }

    /// Mean power of the monitored channels, highpassed, written to self.sc_gain.
    pub fn measure_power(&mut self, input: &AudioChunk, frames: usize)
        requires
            old(self).wf(),
            all_within(old(self).monitor_channels@, input.waveforms@.len() as int),
            frames <= old(self).sc_gain@.len(),
        ensures
            final(self).wf(),
            final(self)@ == old(self)@.with_power_measured(input.waves(), frames as int),
            final(self).sc_gain@ == old(self)@.power(input.waves(), frames as int)
                + old(self).sc_gain@.skip(frames as int),
            final(self).sc_tmp@ == swept(
                old(self).sc_tmp@,
                old(self).sidechain_highpass@,
                old(self).monitor_channels@,
                input.waves(),
                frames as int,
                old(self).monitor_channels@.len() as int,
            ),
            final(self).sc_left@ == old(self).sc_left@,
            final(self).sc_right@ == old(self).sc_right@,
            final(self).sc_mid@ == old(self).sc_mid@,
            final(self).sc_bass@ == old(self).sc_bass@,
            final(self).sc_presence@ == old(self).sc_presence@,
    {
        measure_powers(
            &mut self.sidechain_highpass,
            &self.monitor_channels,
            &input.waveforms,
            &mut self.sc_tmp,
            &mut self.sc_gain,
            frames,
        );
    }

    /// Prepare the detector signals: speech-band left and right in self.sc_left and
    /// self.sc_right, and the full-band centre power in self.sc_mid.
    ///
    /// Correlation is measured inside the speech band so that mono bass, which is mono in
    /// almost every mix, cannot pass as dialogue.
    #[verifier::rlimit(30)]
    pub fn measure_detector(&mut self, input: &AudioChunk, frames: usize)
        requires
            old(self).wf(),
            old(self)@.detector_accepts(input.waves(), frames as int),
            frames <= old(self).sc_gain@.len(),
        ensures
            final(self).wf(),
            final(self)@ == old(self)@.with_detector_measured(input.waves(), frames as int),
            final(self).sc_gain@ == old(self).sc_gain@,
            final(self).sc_tmp@ == old(self).sc_tmp@,
            final(self).sc_bass@ == old(self).sc_bass@,
            final(self).sc_presence@ == old(self).sc_presence@,
            final(self).sc_mid@ == old(self)@.mid(input.waves(), frames as int)
                + old(self).sc_mid@.skip(frames as int),
            final(self).sc_left@ == old(self)@.speech(input.waves(), frames as int, false)
                + old(self).sc_left@.skip(frames as int),
            final(self).sc_right@ == old(self)@.speech(input.waves(), frames as int, true)
                + old(self).sc_right@.skip(frames as int),
    {
        let ghost waves = input.waves();
        let ghost n = frames as int;
        let ghost m = self@;
        match &self.detector {
            DetectorMode::Stereo => {
                let left = &input.waveforms[0];
                let right = &input.waveforms[1];
                assert(waves[0] == left@ && waves[1] == right@);
                if left.is_empty() || right.is_empty() {
                    silence_frames(&mut self.sc_mid, frames);
                    silence_frames(&mut self.sc_left, frames);
                    silence_frames(&mut self.sc_right, frames);
                    return;
                }
                square_centre(&mut self.sc_mid, left, right, frames);
                copy_frames(&mut self.sc_left, left, frames);
                copy_frames(&mut self.sc_right, right, frames);
            },
            DetectorMode::Discrete(channels) => {
                mix_channels(channels, &input.waveforms, &mut self.sc_left, frames);
                square_frames(&mut self.sc_mid, &self.sc_left, frames);
                // A discrete dialogue channel is centred by definition, so the correlation
                // term is fixed at 1 by comparing the signal with itself.
                copy_frames(&mut self.sc_right, &self.sc_left, frames);
            },
        }
        assert(self.sc_mid@ =~= m.mid(waves, n) + old(self).sc_mid@.skip(n));
        assert(self.sc_left@ =~= m.side(waves, n, false) + old(self).sc_left@.skip(n));
        assert(self.sc_right@ =~= m.side(waves, n, true) + old(self).sc_right@.skip(n));
        assert(self.sc_left@.take(n) =~= m.side(waves, n, false));
        assert(self.sc_right@.take(n) =~= m.side(waves, n, true));
        cut_to_band(
            &mut self.speech_highpass,
            &mut self.speech_lowpass,
            0,
            &mut self.sc_left,
            frames,
        );
        cut_to_band(
            &mut self.speech_highpass,
            &mut self.speech_lowpass,
            1,
            &mut self.sc_right,
            frames,
        );
        assert(self.sc_left@ =~= m.speech(waves, n, false) + old(self).sc_left@.skip(n));
        assert(self.sc_right@ =~= m.speech(waves, n, true) + old(self).sc_right@.skip(n));
        proof {
            let after = m.with_detector_measured(waves, n);
            assert(self.speech_highpass@ =~= after.bank.speech_highpass);
            assert(self.speech_lowpass@ =~= after.bank.speech_lowpass);
        }
    }

    /// Accumulate the measured power into fixed-length hops, completing as many as the chunk
    /// contains and carrying the remainder over to the next chunk. Must run before
    /// compute_gain, which overwrites the power with the gain.
    pub fn accumulate_hops(&mut self, frames: usize)
        requires
            old(self).wf(),
            frames <= old(self).sc_gain@.len(),
        ensures
            final(self).wf(),
            final(self)@ == old(self)@.with_hops(old(self).frames_in(frames as int)),
            final(self).same_scratch(*old(self)),
    {
        let ghost heard = self.frames_in(frames as int);
        let mut j: usize = 0;
        while j < frames
            invariant
                j <= frames <= old(self).sc_gain@.len(),
                heard == old(self).frames_in(frames as int),
                self.wf(),
                self.same_scratch(*old(self)),
                self@ == (Model {
                    listener: old(self)@.listener.after_frames(
                        heard,
                        j as int,
                        old(self)@.settings,
                        old(self)@.setup,
                    ),
                    ..old(self)@
                }),
            decreases frames - j,
        {
            let ghost before = self@;
            let left: PrcFmt = self.sc_left[j];
            let right: PrcFmt = self.sc_right[j];
            let mid: PrcFmt = fx_mul(HALF, fx_add(left, right));
            self.acc_broadband = fx_add(self.acc_broadband, self.sc_gain[j]);
            self.acc_mid_full = fx_add(self.acc_mid_full, self.sc_mid[j]);
            self.acc_mid_speech = fx_add(self.acc_mid_speech, fx_mul(mid, mid));
            self.acc_lr = fx_add(self.acc_lr, fx_mul(left, right));
            self.acc_left = fx_add(self.acc_left, fx_mul(left, left));
            self.acc_right = fx_add(self.acc_right, fx_mul(right, right));
            self.hop_count = self.hop_count + 1;
            assert(self@ == (Model {
                listener: Listener {
                    sums: before.listener.sums.with(heard[j as int]),
                    ..before.listener
                },
                ..before
            }));
            if self.hop_count == self.hop_frames {
                self.finish_hop();
            }
            j = j + 1;
        }
    }

    /// Draw the conclusions of a complete hop, and start the next one.
    pub fn finish_hop(&mut self)
        ensures
            final(self)@ == (Model {
                listener: Listener {
                    sums: Sums::empty(),
                    estimate: old(self)@.listener.estimate.after_hop(
                        old(self)@.listener.sums,
                        old(self)@.settings,
                        old(self)@.setup,
                    ),
                },
                ..old(self)@
            }),
            final(self).same_scratch(*old(self)),
    {
        let frames: PrcFmt = fx_whole(self.hop_frames);
        self.hop_level_db = level_db(fx_div(self.acc_broadband, frames));

        // Silence carries no usable correlation or spectrum, so hold the previous estimate
        // rather than letting the noise floor move it. The same goes for a detector that is
        // switched off.
        if self.dialogue_protection != 0 && self.hop_level_db > self.silence_threshold {
            self.detect(frames);
        }

        self.acc_broadband = 0;
        self.acc_mid_full = 0;
        self.acc_mid_speech = 0;
        self.acc_lr = 0;
        self.acc_left = 0;
        self.acc_right = 0;
        self.hop_count = 0;
        self.hops_measured = self.hops_measured.wrapping_add(1);
    }

    /// Let the dialogue detector draw its conclusions from the sums of a hop of `frames`
    /// frames.
    fn detect(&mut self, frames: PrcFmt)
        requires
            frames == whole(old(self).hop_frames as int),
        ensures
            final(self)@ == (Model {
                listener: Listener {
                    estimate: ({
                        let m = old(self)@;
                        let sums = m.listener.sums;
                        let swung = m.listener.estimate.after_swing(
                            sums.speech_db(m.setup.hop_frames),
                            m.setup,
                        );
                        swung.believing(
                            swung.raw_confidence(sums, m.settings.modulation_weight),
                            m.setup,
                        ).tracking(m.settings, m.setup)
                    }),
                    ..old(self)@.listener
                },
                ..old(self)@
            }),
            final(self).same_scratch(*old(self)),
    {
        let rho: PrcFmt = fx_div(
            self.acc_lr,
            fx_sqrt(fx_add(fx_mul(self.acc_left, self.acc_right), POWER_FLOOR)),
        );
        let centred: PrcFmt = fx_ramp(rho, RHO_MIN, RHO_SPAN);
        let fraction: PrcFmt = fx_div(
            self.acc_mid_speech,
            fx_add(self.acc_mid_full, POWER_FLOOR),
        );
        let speechlike: PrcFmt = fx_ramp(fraction, BAND_FRACTION_MIN, BAND_FRACTION_SPAN);

        // Syllabic modulation: how much the speech-band level swings at speech rates.
        // Measured as a deviation from its own slow mean, so absolute level drops out.
        let speech_db: PrcFmt = level_db(fx_div(self.acc_mid_speech, frames));
        if self.speech_db_slow <= level_db(0) {
            self.speech_db_slow = speech_db;
        }
        self.speech_db_slow = fx_smooth(self.modulation_smooth, self.speech_db_slow, speech_db);
        let deviation: PrcFmt = fx_sub(speech_db, self.speech_db_slow);
        let swing: PrcFmt = self.modulation_bandpass.process_single(deviation);
        self.modulation_energy = fx_smooth(
            self.modulation_smooth,
            self.modulation_energy,
            fx_abs(swing),
        );
        let modulation: PrcFmt = fx_clamp(
            fx_div(self.modulation_energy, MODULATION_FULL_DB),
            0,
            ONE,
        );

        let weight: PrcFmt = self.modulation_weight;
        let raw: PrcFmt = fx_mul(
            fx_mul(centred, speechlike),
            fx_add(fx_sub(ONE, weight), fx_mul(weight, modulation)),
        );
        let coeff: PrcFmt = if raw > self.conf_hop {
            self.confidence_rise
        } else {
            self.confidence_fall
        };
        self.conf_hop = fx_smooth(coeff, self.conf_hop, raw);
        self.track_reference();
    }

    /// Move the dialogue reference one bounded step toward the current level, if the current
    /// level is credible as dialogue.
    ///
    /// A fixed step toward the observation rather than a weighted average: the rate of
    /// change then has a hard ceiling, and a stretch of misclassified music moves the
    /// reference by a bounded amount instead of proportionally to how wrong it was.
    pub fn track_reference(&mut self)
        ensures
            final(self)@ == (Model {
                listener: Listener {
                    estimate: old(self)@.listener.estimate.tracking(
                        old(self)@.settings,
                        old(self)@.setup,
                    ),
                    ..old(self)@.listener
                },
                ..old(self)@
            }),
            final(self).same_scratch(*old(self)),
    {
        if self.reference_pinned.is_some() {
            return;
        }
        if self.gate_hold > 0 {
            self.gate_hold = self.gate_hold - 1;
        }
        let threshold: PrcFmt = if self.gate_open {
            GATE_CLOSE_CONFIDENCE
        } else {
            GATE_OPEN_CONFIDENCE
        };
        if self.conf_hop > threshold {
            if !self.gate_open {
                self.gate_open = true;
                self.gate_hold = self.gate_hold_hops;
            }
        } else if self.gate_hold == 0 {
            self.gate_open = false;
        }
        if !self.gate_open {
            return;
        }
        // Levels outside the window are not film dialogue. Reject the observation rather
        // than following it.
        if !(REFERENCE_MIN_DB <= self.hop_level_db && self.hop_level_db <= REFERENCE_MAX_DB) {
            return;
        }
        let difference: PrcFmt = fx_sub(self.hop_level_db, self.reference_db);
        if fx_abs(difference) < self.reference_step {
            self.reference_db = self.hop_level_db;
        } else if difference >= 0 {
            self.reference_db = fx_add(self.reference_db, self.reference_step);
        } else {
            self.reference_db = fx_sub(self.reference_db, self.reference_step);
        }
        self.reference_db = fx_clamp(self.reference_db, REFERENCE_MIN_DB, REFERENCE_MAX_DB);
    }
}

impl NightMode {
    /// Turn the power in self.sc_gain into a linear gain, in place.
    ///
    /// Two stages in series with deliberately different speeds. The slow one does most of
    /// the work and is too slow to be heard moving. The fast one only catches the leading
    /// edge the slow one misses, and stays shallow so it does not flatten the attack that
    /// makes an impact sound like an impact.
    pub fn compute_gain(&mut self, frames: usize)
        requires
            old(self).wf(),
            frames <= old(self).sc_gain@.len(),
        ensures
            final(self).wf(),
            final(self)@ == old(self)@.with_gain(old(self).sc_gain@.take(frames as int)),
            works_in(
                final(self).sc_gain@,
                final(self).sc_bass@,
                final(self).sc_presence@,
                frames as int,
            ) == old(self)@.works(old(self).sc_gain@.take(frames as int)),
            final(self).sc_gain@.skip(frames as int) == old(self).sc_gain@.skip(frames as int),
            final(self).sc_bass@.skip(frames as int) == old(self).sc_bass@.skip(frames as int),
            final(self).sc_presence@.skip(frames as int) == old(self).sc_presence@.skip(
                frames as int,
            ),
            final(self).sc_tmp@ == old(self).sc_tmp@,
            final(self).sc_left@ == old(self).sc_left@,
            final(self).sc_right@ == old(self).sc_right@,
            final(self).sc_mid@ == old(self).sc_mid@,
    {
        let ghost power = self.sc_gain@.take(frames as int);
        let ghost m = self@;
        let ghost works = m.works(power);
        let threshold: PrcFmt = fx_add(self.reference_db, self.headroom);
        let slope: PrcFmt = fx_div(fx_sub(self.ratio, ONE), self.ratio);
        let fast_threshold: PrcFmt = fx_add(self.reference_db, FAST_HEADROOM_DB);
        let mut j: usize = 0;
        while j < frames
            invariant
                j <= frames <= old(self).sc_gain@.len(),
                m == old(self)@,
                power == old(self).sc_gain@.take(frames as int),
                works == m.works(power),
                threshold == sum(m.guide().reference_db, m.settings.headroom),
                slope == slope_of(m.settings.ratio),
                fast_threshold == sum(m.guide().reference_db, FAST_HEADROOM_DB),
                self.wf(),
                self@ == (Model {
                    followers: m.followers.after_frames(
                        power,
                        j as int,
                        m.settings,
                        m.setup,
                        m.guide(),
                    ),
                    ..m
                }),
                forall|i: int|
                    j <= i < self.sc_gain@.len() ==> #[trigger] self.sc_gain@[i]
                        == old(self).sc_gain@[i],
                forall|i: int|
                    frames <= i < self.sc_bass@.len() ==> #[trigger] self.sc_bass@[i]
                        == old(self).sc_bass@[i],
                forall|i: int|
                    frames <= i < self.sc_presence@.len() ==> #[trigger] self.sc_presence@[i]
                        == old(self).sc_presence@[i],
                self.sc_gain@.len() == old(self).sc_gain@.len(),
                self.sc_bass@.len() == old(self).sc_bass@.len(),
                self.sc_presence@.len() == old(self).sc_presence@.len(),
                self.sc_tmp@ == old(self).sc_tmp@,
                self.sc_left@ == old(self).sc_left@,
                self.sc_right@ == old(self).sc_right@,
                self.sc_mid@ == old(self).sc_mid@,
                forall|i: int|
                    0 <= i < j ==> (#[trigger] works[i]).gain == self.sc_gain@[i] && works[i].bass
                        == self.sc_bass@[i] && works[i].presence == self.sc_presence@[i],
            decreases frames - j,
        {
            let ghost before = self@.followers;
            let reduction: PrcFmt = self.follow_frame(
                self.sc_gain[j],
                threshold,
                slope,
                fast_threshold,
            );
            // The shelf follows how hard the processor is working, so a quiet scene gets no
            // tonal change whatsoever.
            let bass: PrcFmt = fx_mul(
                self.bass_depth_max,
                fx_clamp(fx_div(fx_neg(reduction), BASS_FULL_AT_DB), 0, ONE),
            );
            // Exactly zero whenever confidence is zero, so the processor is spectrally inert
            // on everything that is not dialogue. Without a detector nothing is dialogue.
            let presence: PrcFmt = if self.dialogue_protection != 0 {
                fx_mul(self.presence_depth_max, self.conf_smooth)
            } else {
                0
            };
            let gain: PrcFmt = db_to_linear(reduction);
            assert(works[j as int] == (Work { gain, bass, presence }));
            self.sc_bass.set(j, bass);
            self.sc_presence.set(j, presence);
            self.sc_gain.set(j, gain);
            j = j + 1;
        }
        assert(works_in(self.sc_gain@, self.sc_bass@, self.sc_presence@, frames as int) =~= works);
        assert(self.sc_gain@.skip(frames as int) =~= old(self).sc_gain@.skip(frames as int));
        assert(self.sc_bass@.skip(frames as int) =~= old(self).sc_bass@.skip(frames as int));
        assert(self.sc_presence@.skip(frames as int) =~= old(self).sc_presence@.skip(
            frames as int,
        ));
    }

    /// Let the followers hear a frame of a given power. Returns the reduction to apply, in
    /// dB.
    fn follow_frame(
        &mut self,
        power: PrcFmt,
        threshold: PrcFmt,
        slope: PrcFmt,
        fast_threshold: PrcFmt,
    ) -> (reduction: PrcFmt)
        requires
            threshold == sum(old(self).reference_db, old(self).headroom),
            slope == slope_of(old(self).ratio),
            fast_threshold == sum(old(self).reference_db, FAST_HEADROOM_DB),
        ensures
            final(self)@ == (Model {
                followers: old(self)@.followers.after_frame(
                    power,
                    old(self)@.settings,
                    old(self)@.setup,
                    old(self)@.guide(),
                ),
                ..old(self)@
            }),
            final(self).same_scratch(*old(self)),
            reduction == final(self)@.followers.applied_db(
                old(self)@.settings,
                old(self).reference_db,
            ),
    {
        // Level is measured over a short fixed window, in the power domain. A one-pole in
        // the dB domain would have to traverse the whole way up from the silence floor,
        // making a nominally fast response arbitrarily slow after a quiet passage.
        self.env_slow_power = fx_smooth(self.level_smooth, self.env_slow_power, power);
        let fast_coeff: PrcFmt = if power >= self.env_fast_power {
            self.fast_attack
        } else {
            self.fast_release
        };
        self.env_fast_power = fx_smooth(fast_coeff, self.env_fast_power, power);
        if self.env_slow_power < POWER_FLOOR {
            self.env_slow_power = 0;
        }
        if self.env_fast_power < POWER_FLOOR {
            self.env_fast_power = 0;
        }
        let slow_db: PrcFmt = level_db(self.env_slow_power);
        let fast_db: PrcFmt = level_db(self.env_fast_power);
        let slow_reduction: PrcFmt = if slow_db > threshold {
            fx_mul(fx_neg(fx_sub(slow_db, threshold)), slope)
        } else {
            0
        };
        let fast_reduction: PrcFmt = if fast_db > fast_threshold {
            fx_mul(
                fx_mul(fx_neg(fx_sub(fast_db, fast_threshold)), FAST_SLOPE),
                self.transient_softening,
            )
        } else {
            0
        };
        self.conf_smooth = fx_smooth(self.confidence_to_gain, self.conf_smooth, self.conf_hop);
        proof {
            lemma_prod_zero(self.transient_softening);
        }

        // Confidence can only ever take reduction away, never add it. How much it can take
        // away is bounded by how plausible the level is as dialogue, so a loud impact that
        // happens to measure as centred and speech-like still gets dealt with.
        let fade: PrcFmt = fx_ramp(
            slow_db,
            fx_add(self.reference_db, PROTECTION_FULL_ABOVE_DB),
            PROTECTION_FADE_DB,
        );
        let plausible: PrcFmt = fx_sub(ONE, fade);
        let protection: PrcFmt = fx_sub(
            ONE,
            fx_mul(fx_mul(self.dialogue_protection, self.conf_smooth), plausible),
        );

        // Smooth the slow stage's reduction in dB, rather than smoothing the measurement.
        // Once the applied reduction is far deeper than the signal warrants, recover at the
        // scene rate until the gap is closed, so a quiet passage after something loud is not
        // left buried.
        let gap: PrcFmt = fx_sub(slow_reduction, self.reduction_db);
        if gap > RELEASE_CATCHUP_DB {
            self.catching_up = true;
        } else if gap < RELEASE_CATCHUP_CLEAR_DB {
            self.catching_up = false;
        }
        let coeff: PrcFmt = if slow_reduction < self.reduction_db {
            self.slow_attack
        } else if self.catching_up {
            self.scene_release
        } else {
            self.slow_release
        };
        self.reduction_db = fx_smooth(coeff, self.reduction_db, slow_reduction);

        // The fast stage is deliberately not smoothed here: its own follower is already
        // fast, and putting it behind the slow stage's attack would defeat the reason it
        // exists.
        let total: PrcFmt = fx_mul(fx_add(self.reduction_db, fast_reduction), protection);
        let scaled: PrcFmt = fx_mul(total, self.amount);
        let cap: PrcFmt = fx_neg(self.max_attenuation);
        if scaled < cap {
            cap
        } else {
            scaled
        }
    }

    /// Do the work on the audio.
    pub fn apply(&mut self, input: &mut AudioChunk, frames: usize)
        requires
            old(self).wf(),
            frames <= old(self).sc_gain@.len(),
            old(self)@.settings.active() ==> all_within(
                old(self).process_channels@,
                old(input).waveforms@.len() as int,
            ),
        ensures
            ({
                let works = works_in(
                    old(self).sc_gain@,
                    old(self).sc_bass@,
                    old(self).sc_presence@,
                    frames as int,
                );
                &&& final(self)@ == old(self)@.applied(old(input).waves(), works)
                &&& final(input).waves() == old(self)@.applied_waves(old(input).waves(), works)
            }),
            final(self).wf(),
            final(self).same_scratch(*old(self)),
            *final(input) == (AudioChunk { waveforms: final(input).waveforms, ..*old(input) }),
    {
        // With no amount and no presence lift there is no gain to apply and nothing this
        // processor could have pushed over the ceiling, so leave the audio completely alone.
        // That keeps an amount of zero an honest reference even for material already
        // mastered above the ceiling.
        if self.amount == 0 && self.presence_depth_max == 0 {
            return;
        }
        let ghost m = self@;
        let ghost waves = input.waves();
        let ghost works = works_in(
            self.sc_gain@,
            self.sc_bass@,
            self.sc_presence@,
            frames as int,
        );
        let ghost start = Output {
            waves,
            lowpass: m.bank.bass_lowpass,
            bandpass: m.bank.presence_bandpass,
            clipped: false,
        };
        let shelving: bool = self.bass_depth_max > 0;
        let lifting: bool = self.presence_depth_max > 0;
        let mut clipped: bool = false;
        let mut index: usize = 0;
        while index < self.process_channels.len()
            invariant
                index <= m.settings.process_channels.len(),
                frames <= m.setup.chunksize,
                m == old(self)@,
                m.wf(),
                shelving == m.settings.shelving(),
                lifting == m.settings.lifting(),
                works == works_in(
                    old(self).sc_gain@,
                    old(self).sc_bass@,
                    old(self).sc_presence@,
                    frames as int,
                ),
                self.wf(),
                self.same_scratch(*old(self)),
                all_within(m.settings.process_channels, input.waveforms@.len() as int),
                *input == (AudioChunk { waveforms: input.waveforms, ..*old(input) }),
                self@ == (Model {
                    bank: Bank {
                        bass_lowpass: self.bass_lowpass@,
                        presence_bandpass: self.presence_bandpass@,
                        ..m.bank
                    },
                    ..m
                }),
                start.after_channels(index as int, works, m.settings) == (Output {
                    waves: input.waves(),
                    lowpass: self.bass_lowpass@,
                    bandpass: self.presence_bandpass@,
                    clipped,
                }),
            decreases m.settings.process_channels.len() - index,
        {
            let ghost before = start.after_channels(index as int, works, m.settings);
            let ch: usize = self.process_channels[index];
            assert(before.waves[ch as int] == input.waveforms@[ch as int]@);
            let hit: bool = finish_channel(
                &mut input.waveforms[ch],
                &mut self.bass_lowpass[index],
                &mut self.presence_bandpass[index],
                &self.sc_gain,
                &self.sc_bass,
                &self.sc_presence,
                frames,
                &self.limiter,
                shelving,
                lifting,
            );
            if hit {
                clipped = true;
            }
            proof {
                let after = before.after_channel(index as int, works, m.settings);
                assert(input.waves() =~= after.waves);
                assert(self.bass_lowpass@ =~= after.lowpass);
                assert(self.presence_bandpass@ =~= after.bandpass);
            }
            index = index + 1;
        }
        self.clipping = clipped;
    }

    /// The name of the processor.
    pub fn name(&self) -> (r: &str)
        ensures
            r@ == self@.name,
    {
        self.name.as_str()
    }

    /// Whether a chunk has all the channels and samples that processing it reads.
    pub fn accepts(&self, input: &AudioChunk) -> (r: bool)
        requires
            self.wf(),
        ensures
            r == self@.accepts(input.waves()),
    {
        let channels: usize = input.waveforms.len();
        if !lists_channels(&self.monitor_channels, channels) {
            return false;
        }
        let frames: usize = match self.active_frames(input) {
            Some(frames) => frames,
            None => return true,
        };
        let detector_accepts: bool = match &self.detector {
            DetectorMode::Stereo => {
                if channels < 2 {
                    return false;
                }
                let left: usize = input.waveforms[0].len();
                let right: usize = input.waveforms[1].len();
                left == 0 || right == 0 || (left >= frames && right >= frames)
            },
            DetectorMode::Discrete(list) => lists_channels(list, channels),
        };
        let inactive: bool = self.amount == 0 && self.presence_depth_max == 0;
        detector_accepts && (inactive || lists_channels(&self.process_channels, channels))
    }

    /// Process a chunk in place.
    pub fn process_chunk(&mut self, input: &mut AudioChunk) -> (r: Result<(), ConfigError>)
        requires
            old(self).wf(),
            old(self)@.accepts(old(input).waves()),
        ensures
            r is Ok,
            match old(self)@.active_frames(old(input).waves()) {
                Some(frames) => final(self).scratch_filled(*old(self), old(input).waves(), frames),
                None => final(self).same_scratch(*old(self)),
            },
            final(self).wf(),
            final(self)@ == old(self)@.after_chunk(old(input).waves()),
            final(input).waves() == old(self)@.processed(old(input).waves()),
            *final(input) == (AudioChunk { waveforms: final(input).waveforms, ..*old(input) }),
    {
        let ghost waves = input.waves();
        let ghost m = self@;
        let frames: usize = match self.active_frames(input) {
            Some(frames) => frames,
            None => return Ok(()),
        };
        let ghost n = frames as int;
        self.measure_power(input, frames);
        assert(m.with_power_measured(waves, n).mid(waves, n) == m.mid(waves, n));
        assert(m.with_power_measured(waves, n).speech(waves, n, false) == m.speech(
            waves,
            n,
            false,
        ));
        assert(m.with_power_measured(waves, n).speech(waves, n, true) == m.speech(waves, n, true));
        let ghost power = self.sc_gain@.take(n);
        assert(power =~= m.power(waves, n));
        assert(self.sc_gain@.skip(n) =~= old(self).sc_gain@.skip(n));
        self.measure_detector(input, frames);
        proof {
            assert(self.sc_gain@.take(n) == power);
            assert(self.sc_mid@.take(n) =~= m.mid(waves, n));
            assert(self.sc_left@.take(n) =~= m.speech(waves, n, false));
            assert(self.sc_right@.take(n) =~= m.speech(waves, n, true));
            let side = m.sidechain(waves, n);
            assert forall|j: int| 0 <= j < n implies self.frames_in(n)[j] == side[j] by {
                assert(self.sc_gain@[j] == self.sc_gain@.take(n)[j]);
                assert(self.sc_mid@[j] == self.sc_mid@.take(n)[j]);
                assert(self.sc_left@[j] == self.sc_left@.take(n)[j]);
                assert(self.sc_right@[j] == self.sc_right@.take(n)[j]);
            }
            assert(self.frames_in(n) =~= side);
        }
        self.accumulate_hops(frames);
        assert(self@ == m.measured(waves, n));
        self.compute_gain(frames);
        self.apply(input, frames);
        Ok(())
    }

    /// Take over a new configuration. What was learned, the followers and the history of the
    /// filters survive, so that reconfiguring while playing does not click.
    pub fn update_parameters(&mut self, config: Processor)
        requires
            old(self).wf(),
            config is NightMode,
        ensures
            final(self).wf(),
            final(self)@ == old(self)@.updated(*config->parameters),
            final(self).same_scratch(*old(self)),
    {
        let config: NightModeParameters = match config {
            Processor::NightMode { parameters, .. } => *parameters,
            Processor::Other => return,
        };
        let ghost m = self@;
        let channels: usize = config.channels;
        self.detector = choose_detector(config.dialogue_channels());
        self.monitor_channels = fill_channels(config.monitor_channels(), channels);
        self.process_channels = fill_channels(config.process_channels(), channels);
        self.amount = fx_div(config.amount(), HUNDRED_PERCENT);
        self.max_attenuation = config.max_attenuation();
        self.bass_reduction = config.bass_reduction();
        self.bass_depth_max = bass_depth(config.bass_reduction());
        if self.bass_lowpass.len() != self.process_channels.len() {
            self.bass_lowpass = make_bass_lowpass(
                self.samplerate,
                config.bass_frequency(),
                self.process_channels.len(),
            );
        } else if self.bass_frequency != config.bass_frequency() {
            let coeffs = BiquadCoefficients::from_config(
                self.samplerate,
                BiquadParameters::LowpassFO { freq: config.bass_frequency() },
            );
            retune(&mut self.bass_lowpass, coeffs);
        }
        self.bass_frequency = config.bass_frequency();
        self.headroom = config.headroom();
        self.ratio = config.ratio();
        self.transient_softening = fx_div(config.transient_softening(), HUNDRED_PERCENT);
        self.dialogue_protection = fx_div(config.dialogue_protection(), HUNDRED_PERCENT);
        self.presence_gain = config.presence_gain();
        self.presence_depth_max = presence_depth(config.presence_gain());
        if self.presence_bandpass.len() != self.process_channels.len() {
            self.presence_bandpass = make_presence_bandpass(
                self.samplerate,
                config.presence_frequency(),
                config.presence_q(),
                self.process_channels.len(),
            );
        } else if self.presence_frequency != config.presence_frequency() || self.presence_q
            != config.presence_q() {
            let coeffs = BiquadCoefficients::from_config(
                self.samplerate,
                BiquadParameters::Bandpass {
                    freq: config.presence_frequency(),
                    q: config.presence_q(),
                },
            );
            retune(&mut self.presence_bandpass, coeffs);
        }
        self.presence_frequency = config.presence_frequency();
        self.presence_q = config.presence_q();
        self.modulation_weight = config.modulation_weight();
        self.silence_threshold = config.silence_threshold();
        self.reference_slew = config.reference_slew();
        let srate: PrcFmt = fx_whole(self.samplerate);
        self.reference_step = fx_div(
            config.reference_slew(),
            fx_div(srate, fx_whole(self.hop_frames)),
        );
        self.reference_pinned = config.reference_level;
        if let Some(level) = config.reference_level {
            self.reference_db = level;
        }
        self.slow_attack = smoothing_coeff(config.attack(), srate);
        self.slow_release = smoothing_coeff(config.release(), srate);
        self.scene_release = smoothing_coeff(SCENE_RELEASE_S, srate);
        self.level_smooth = smoothing_coeff(LEVEL_WINDOW_S, srate);
        if self.sidechain_highpass.len() != self.monitor_channels.len() {
            self.sidechain_highpass = make_sidechain_highpass(
                self.samplerate,
                self.monitor_channels.len(),
            );
        }
        self.limiter = Limiter::from_config(config.ceiling());
    }
}

} // verus!
