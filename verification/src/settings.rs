//! What the processor works with: numbers that are fixed when it is made, and numbers that a
//! new configuration replaces.
use crate::config::{listed, NightModeParameters};
use crate::decibels::{coeff_of, linear_of};
use crate::filters::{BiquadCoefficients, BiquadParameters, Limiter};
use crate::fixed::{diff, negated, prod, quot, rounded, whole, PrcFmt, ONE};
use crate::tuning::{
    CONFIDENCE_FALL_S, CONFIDENCE_RISE_S, CONFIDENCE_TO_GAIN_S, FAST_ATTACK_S, FAST_RELEASE_S,
    GATE_HOLD_S, HOP_RATE_HZ, HUNDRED_PERCENT, LEVEL_WINDOW_S, MODULATION_FREQ_HZ, MODULATION_Q,
    MODULATION_SMOOTH_S, REFERENCE_MAX_DB, REFERENCE_MIN_DB, SCENE_RELEASE_S, SIDECHAIN_HIGHPASS_HZ,
    SPEECH_HIGH_HZ, SPEECH_LOW_HZ, SPEECH_Q,
};
use vstd::prelude::*;

verus! {

/// Numbers fixed when the processor is made.
pub struct Setup {
    pub channels: usize,
    pub samplerate: usize,
    /// Most frames that a chunk can have.
    pub chunksize: int,
    /// Frames per hop.
    pub hop_frames: usize,
    pub fast_attack: PrcFmt,
    pub fast_release: PrcFmt,
    pub confidence_rise: PrcFmt,
    pub confidence_fall: PrcFmt,
    pub confidence_to_gain: PrcFmt,
    pub modulation_smooth: PrcFmt,
    pub gate_hold_hops: usize,
}

/// Frames per hop: as many as come closest below the hop rate, and at least one.
pub open spec fn hop_frames_of(samplerate: usize) -> usize {
    if samplerate < HOP_RATE_HZ {
        1
    } else {
        samplerate / HOP_RATE_HZ
    }
}

/// Hops per second.
pub open spec fn hop_rate_of(samplerate: usize, hop_frames: usize) -> PrcFmt {
    quot(whole(samplerate as int), whole(hop_frames as int))
}

impl Setup {
    pub open spec fn of(channels: usize, samplerate: usize, chunksize: usize) -> Setup {
        let rate = whole(samplerate as int);
        let hop_frames = hop_frames_of(samplerate);
        let hop_rate = hop_rate_of(samplerate, hop_frames);
        Setup {
            channels,
            samplerate,
            chunksize: chunksize as int,
            hop_frames,
            fast_attack: coeff_of(FAST_ATTACK_S, rate),
            fast_release: coeff_of(FAST_RELEASE_S, rate),
            confidence_rise: coeff_of(CONFIDENCE_RISE_S, hop_rate),
            confidence_fall: coeff_of(CONFIDENCE_FALL_S, hop_rate),
            confidence_to_gain: coeff_of(CONFIDENCE_TO_GAIN_S, rate),
            modulation_smooth: coeff_of(MODULATION_SMOOTH_S, hop_rate),
            gate_hold_hops: rounded(prod(GATE_HOLD_S, hop_rate)),
        }
    }
}

impl Setup {
    /// What holds of every setup.
    pub open spec fn valid(self) -> bool {
        &&& self.hop_frames > 0
        &&& 0 <= self.fast_attack <= ONE
        &&& 0 <= self.fast_release <= ONE
        &&& 0 <= self.confidence_rise <= ONE
        &&& 0 <= self.confidence_fall <= ONE
        &&& 0 <= self.confidence_to_gain <= ONE
        &&& 0 <= self.modulation_smooth <= ONE
    }
}

/// Numbers that follow from the configuration.
#[verifier::ext_equal]
pub struct Settings {
    pub monitor_channels: Seq<usize>,
    pub process_channels: Seq<usize>,
    /// The dialogue channels. None where a stereo pair has a phantom centre instead.
    pub dialogue_channels: Option<Seq<usize>>,
    pub amount: PrcFmt,
    pub max_attenuation: PrcFmt,
    pub bass_reduction: PrcFmt,
    pub bass_frequency: PrcFmt,
    pub headroom: PrcFmt,
    pub ratio: PrcFmt,
    pub transient_softening: PrcFmt,
    pub dialogue_protection: PrcFmt,
    pub presence_gain: PrcFmt,
    pub presence_frequency: PrcFmt,
    pub presence_q: PrcFmt,
    pub modulation_weight: PrcFmt,
    pub silence_threshold: PrcFmt,
    pub reference_pinned: Option<PrcFmt>,
    pub reference_slew: PrcFmt,
    /// The most that the reference moves in one hop, in dB.
    pub reference_step: PrcFmt,
    pub limiter: Limiter,
    pub slow_attack: PrcFmt,
    pub slow_release: PrcFmt,
    pub scene_release: PrcFmt,
    pub level_smooth: PrcFmt,
    pub bass_depth_max: PrcFmt,
    pub presence_depth_max: PrcFmt,
}

/// The channels of a list, or all of them where it is empty.
pub open spec fn listed_or_all(list: Seq<usize>, channels: usize) -> Seq<usize> {
    if list.len() == 0 {
        Seq::new(channels as nat, |i: int| i as usize)
    } else {
        list
    }
}

/// Shelf depth as a subtraction factor. Subtracting `depth` times a lowpassed copy leaves a
/// gain of `1 - depth` at the lowest frequencies.
pub open spec fn bass_depth_of(reduction_db: PrcFmt) -> PrcFmt {
    diff(ONE, linear_of(negated(reduction_db)))
}

/// Lift depth as an addition factor. Adding `depth` times a bandpassed copy gives a gain of
/// `1 + depth` at the centre frequency.
pub open spec fn presence_depth_of(gain_db: PrcFmt) -> PrcFmt {
    diff(linear_of(gain_db), ONE)
}

impl Settings {
    pub open spec fn of(config: NightModeParameters, samplerate: usize, hop_frames: usize) -> Self {
        let rate = whole(samplerate as int);
        let dialogue = listed(config.dialogue_channels);
        Settings {
            monitor_channels: listed_or_all(listed(config.monitor_channels), config.channels),
            process_channels: listed_or_all(listed(config.process_channels), config.channels),
            dialogue_channels: if dialogue.len() == 0 {
                None
            } else {
                Some(dialogue)
            },
            amount: quot(config.amount(), HUNDRED_PERCENT),
            max_attenuation: config.max_attenuation(),
            bass_reduction: config.bass_reduction(),
            bass_frequency: config.bass_frequency(),
            headroom: config.headroom(),
            ratio: config.ratio(),
            transient_softening: quot(config.transient_softening(), HUNDRED_PERCENT),
            dialogue_protection: quot(config.dialogue_protection(), HUNDRED_PERCENT),
            presence_gain: config.presence_gain(),
            presence_frequency: config.presence_frequency(),
            presence_q: config.presence_q(),
            modulation_weight: config.modulation_weight(),
            silence_threshold: config.silence_threshold(),
            reference_pinned: config.reference_level,
            reference_slew: config.reference_slew(),
            reference_step: quot(config.reference_slew(), hop_rate_of(samplerate, hop_frames)),
            limiter: Limiter { clip_limit: linear_of(config.ceiling()) },
            slow_attack: coeff_of(config.attack(), rate),
            slow_release: coeff_of(config.release(), rate),
            scene_release: coeff_of(SCENE_RELEASE_S, rate),
            level_smooth: coeff_of(LEVEL_WINDOW_S, rate),
            bass_depth_max: bass_depth_of(config.bass_reduction()),
            presence_depth_max: presence_depth_of(config.presence_gain()),
        }
    }

    /// What holds of settings that stand for an accepted configuration.
    pub open spec fn valid(self) -> bool {
        &&& 0 <= self.amount <= ONE
        &&& self.max_attenuation >= 0
        &&& self.ratio >= ONE
        &&& 0 <= self.transient_softening <= ONE
        &&& 0 <= self.dialogue_protection <= ONE
        &&& 0 <= self.modulation_weight <= ONE
        &&& self.reference_pinned matches Some(level) ==> REFERENCE_MIN_DB <= level
            <= REFERENCE_MAX_DB
        &&& self.reference_step >= 0
        &&& 0 <= self.limiter.clip_limit <= ONE
        &&& 0 <= self.slow_attack <= ONE
        &&& 0 <= self.slow_release <= ONE
        &&& 0 <= self.scene_release <= ONE
        &&& 0 <= self.level_smooth <= ONE
        &&& 0 <= self.bass_depth_max <= ONE
        &&& self.presence_depth_max >= 0
    }

    /// Whether the dialogue detector is switched on.
    pub open spec fn detecting(self) -> bool {
        self.dialogue_protection != 0
    }

    /// Whether there is a bass shelf.
    pub open spec fn shelving(self) -> bool {
        self.bass_depth_max > 0
    }

    /// Whether there is a presence lift.
    pub open spec fn lifting(self) -> bool {
        self.presence_depth_max > 0
    }

    /// Whether the processor does anything to the audio.
    pub open spec fn active(self) -> bool {
        self.amount != 0 || self.presence_depth_max != 0
    }
}

/// First order highpass of the sidechain.
pub open spec fn sidechain_design(samplerate: usize) -> BiquadCoefficients {
    BiquadCoefficients::design(
        samplerate,
        BiquadParameters::HighpassFO { freq: SIDECHAIN_HIGHPASS_HZ },
    )
}

/// The lower or the upper edge of the speech band.
pub open spec fn speech_design(samplerate: usize, highpass: bool) -> BiquadCoefficients {
    BiquadCoefficients::design(
        samplerate,
        if highpass {
            BiquadParameters::Highpass { freq: SPEECH_LOW_HZ, q: SPEECH_Q }
        } else {
            BiquadParameters::Lowpass { freq: SPEECH_HIGH_HZ, q: SPEECH_Q }
        },
    )
}

/// Bandpass of the syllabic modulation estimate, run at hop rate.
pub open spec fn modulation_design(hop_rate: PrcFmt) -> BiquadCoefficients {
    BiquadCoefficients::design(
        rounded(hop_rate),
        BiquadParameters::Bandpass { freq: MODULATION_FREQ_HZ, q: MODULATION_Q },
    )
}

/// Lowpass that cuts out the bass. First order on purpose: subtracting a second order one
/// would put a bump just above the corner.
pub open spec fn bass_design(samplerate: usize, freq: PrcFmt) -> BiquadCoefficients {
    BiquadCoefficients::design(samplerate, BiquadParameters::LowpassFO { freq })
}

/// Bandpass that cuts out the presence band.
pub open spec fn presence_design(samplerate: usize, freq: PrcFmt, q: PrcFmt) -> BiquadCoefficients {
    BiquadCoefficients::design(samplerate, BiquadParameters::Bandpass { freq, q })
}

} // verus!
