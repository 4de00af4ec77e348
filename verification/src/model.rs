//! The processor as a mathematical value, and what a chunk and a new configuration do to it.
use crate::config::NightModeParameters;
use crate::decibels::level_db_of;
use crate::filters::{Biquad, BiquadCoefficients};
use crate::fixed::{PrcFmt, ONE};
use crate::gain::{Followers, Guide, Work};
use crate::hops::{Estimate, Frame, Listener, Sums};
use crate::output::Output;
use crate::settings::{
    bass_design, hop_rate_of, modulation_design, presence_design, sidechain_design, speech_design,
    Settings, Setup,
};
use crate::sidechain::{
    all_within, at_most, detectable, filters_after, first_length, left_of, mid_of, power_of,
    right_of, silence,
};
use crate::tuning::{INITIAL_REFERENCE_DB, REFERENCE_MAX_DB, REFERENCE_MIN_DB, SILENT_LEVEL_DB};
use vstd::prelude::*;

verus! {

/// The filters.
#[verifier::ext_equal]
pub struct Bank {
    /// One per monitored channel.
    pub sidechain_highpass: Seq<Biquad>,
    /// One per side.
    pub speech_highpass: Seq<Biquad>,
    /// One per side.
    pub speech_lowpass: Seq<Biquad>,
    /// One per processed channel.
    pub bass_lowpass: Seq<Biquad>,
    /// One per processed channel.
    pub presence_bandpass: Seq<Biquad>,
}

/// The processor.
#[verifier::ext_equal]
pub struct Model {
    pub name: Seq<char>,
    pub setup: Setup,
    pub settings: Settings,
    pub listener: Listener,
    pub followers: Followers,
    pub bank: Bank,
    pub clipping: bool,
}

/// `count` filters that have heard nothing yet.
pub open spec fn fresh_filters(coeffs: BiquadCoefficients, count: int) -> Seq<Biquad> {
    Seq::new(count as nat, |i: int| Biquad::fresh(coeffs))
}

/// The same filters, with other coefficients.
pub open spec fn retuned(filters: Seq<Biquad>, coeffs: BiquadCoefficients) -> Seq<Biquad> {
    Seq::new(filters.len(), |i: int| Biquad { coeffs, ..filters[i] })
}

/// `count` filters: made anew where the count changes, retuned where the tuning changes, and
/// else the same.
pub open spec fn refitted(
    filters: Seq<Biquad>,
    count: int,
    changed: bool,
    coeffs: BiquadCoefficients,
) -> Seq<Biquad> {
    if filters.len() != count {
        fresh_filters(coeffs, count)
    } else if changed {
        retuned(filters, coeffs)
    } else {
        filters
    }
}

/// Whether every filter has some coefficients.
pub open spec fn tuned_to(filters: Seq<Biquad>, coeffs: BiquadCoefficients) -> bool {
    forall|i: int| 0 <= i < filters.len() ==> (#[trigger] filters[i]).coeffs == coeffs
}

impl Model {
    /// A processor that has heard nothing yet.
    pub open spec fn fresh(
        name: Seq<char>,
        config: NightModeParameters,
        samplerate: usize,
        chunksize: usize,
    ) -> Model {
        let setup = Setup::of(config.channels, samplerate, chunksize);
        let settings = Settings::of(config, samplerate, setup.hop_frames);
        let hop_rate = hop_rate_of(samplerate, setup.hop_frames);
        Model {
            name,
            setup,
            settings,
            listener: Listener {
                sums: Sums::empty(),
                estimate: Estimate {
                    level_db: SILENT_LEVEL_DB,
                    hops: 0,
                    confidence: 0,
                    speech_db_slow: level_db_of(0),
                    bandpass: Biquad::fresh(modulation_design(hop_rate)),
                    modulation_energy: 0,
                    reference_db: match config.reference_level {
                        Some(level) => level,
                        None => INITIAL_REFERENCE_DB,
                    },
                    gate_open: false,
                    gate_hold: 0,
                },
            },
            followers: Followers {
                env_slow_power: 0,
                env_fast_power: 0,
                reduction_db: 0,
                catching_up: false,
                conf_smooth: 0,
            },
            bank: Bank {
                sidechain_highpass: fresh_filters(
                    sidechain_design(samplerate),
                    settings.monitor_channels.len() as int,
                ),
                speech_highpass: fresh_filters(speech_design(samplerate, true), 2),
                speech_lowpass: fresh_filters(speech_design(samplerate, false), 2),
                bass_lowpass: fresh_filters(
                    bass_design(samplerate, config.bass_frequency()),
                    settings.process_channels.len() as int,
                ),
                presence_bandpass: fresh_filters(
                    presence_design(samplerate, config.presence_frequency(), config.presence_q()),
                    settings.process_channels.len() as int,
                ),
            },
            clipping: false,
        }
    }

    /// What holds of the processor at all times.
    pub open spec fn wf(self) -> bool {
        &&& self.listener.sums.count < self.setup.hop_frames
        &&& self.setup.chunksize >= 0
        &&& self.bank.sidechain_highpass.len() == self.settings.monitor_channels.len()
        &&& self.bank.speech_highpass.len() == 2
        &&& self.bank.speech_lowpass.len() == 2
        &&& self.bank.bass_lowpass.len() == self.settings.process_channels.len()
        &&& self.bank.presence_bandpass.len() == self.settings.process_channels.len()
        &&& self.settings.limiter.clip_limit >= 0
    }

    /// Every filter has the tuning that the setup and the settings ask for.
    pub open spec fn tuned(self) -> bool {
        let rate = self.setup.samplerate;
        let s = self.settings;
        &&& tuned_to(self.bank.sidechain_highpass, sidechain_design(rate))
        &&& tuned_to(self.bank.speech_highpass, speech_design(rate, true))
        &&& tuned_to(self.bank.speech_lowpass, speech_design(rate, false))
        &&& tuned_to(self.bank.bass_lowpass, bass_design(rate, s.bass_frequency))
        &&& tuned_to(
            self.bank.presence_bandpass,
            presence_design(rate, s.presence_frequency, s.presence_q),
        )
        &&& self.listener.estimate.bandpass.coeffs == modulation_design(
            hop_rate_of(rate, self.setup.hop_frames),
        )
    }

    /// What holds of a processor with an accepted configuration, whatever it has heard.
    pub open spec fn healthy(self) -> bool {
        let estimate = self.listener.estimate;
        &&& self.wf()
        &&& self.tuned()
        &&& self.setup.chunksize <= usize::MAX
        &&& self.setup == Setup::of(
            self.setup.channels,
            self.setup.samplerate,
            self.setup.chunksize as usize,
        )
        &&& self.setup.valid()
        &&& self.settings.valid()
        &&& 0 <= estimate.confidence <= ONE
        &&& REFERENCE_MIN_DB <= estimate.reference_db <= REFERENCE_MAX_DB
        &&& self.settings.reference_pinned matches Some(level) ==> estimate.reference_db == level
        &&& 0 <= self.followers.conf_smooth <= ONE
        &&& self.followers.reduction_db <= 0
    }

    /// Number of frames that a chunk carries. None when no monitored channel holds any data.
    pub open spec fn active_frames(self, waves: Seq<Seq<PrcFmt>>) -> Option<int> {
        match first_length(self.settings.monitor_channels, waves, 0) {
            Some(len) => Some(at_most(len, self.setup.chunksize)),
            None => None,
        }
    }

    /// Whether a chunk has all the channels that the processor reads.
    pub open spec fn accepts(self, waves: Seq<Seq<PrcFmt>>) -> bool {
        &&& all_within(self.settings.monitor_channels, waves.len() as int)
        &&& self.active_frames(waves) matches Some(frames) ==> {
            &&& self.detector_accepts(waves, frames)
            &&& self.settings.active() ==> all_within(
                self.settings.process_channels,
                waves.len() as int,
            )
        }
    }

    /// Whether a chunk has all the samples that the detector reads. Dialogue channels may be
    /// short or empty; of a stereo pair both sides are as long as the chunk, or one is empty.
    pub open spec fn detector_accepts(self, waves: Seq<Seq<PrcFmt>>, frames: int) -> bool {
        match self.settings.dialogue_channels {
            Some(list) => all_within(list, waves.len() as int),
            None => {
                &&& waves.len() >= 2
                &&& waves[0].len() > 0 && waves[1].len() > 0 ==> waves[0].len() >= frames
                    && waves[1].len() >= frames
            },
        }
    }

    /// Power of the monitored channels.
    pub open spec fn power(self, waves: Seq<Seq<PrcFmt>>, frames: int) -> Seq<PrcFmt> {
        power_of(
            self.bank.sidechain_highpass,
            self.settings.monitor_channels,
            waves,
            frames,
        )
    }

    /// Whether the detector has anything to hear.
    pub open spec fn detects(self, waves: Seq<Seq<PrcFmt>>) -> bool {
        detectable(self.settings.dialogue_channels, waves)
    }

    /// One side of the image, as the detector takes it.
    pub open spec fn side(self, waves: Seq<Seq<PrcFmt>>, frames: int, right: bool) -> Seq<PrcFmt> {
        if right {
            right_of(self.settings.dialogue_channels, waves, frames)
        } else {
            left_of(self.settings.dialogue_channels, waves, frames)
        }
    }

    /// One side without what lies below the speech band.
    pub open spec fn above_low(
        self,
        waves: Seq<Seq<PrcFmt>>,
        frames: int,
        right: bool,
    ) -> Seq<PrcFmt> {
        self.bank.speech_highpass[if right { 1 } else { 0 }].filtered(
            self.side(waves, frames, right),
        )
    }

    /// One side within the speech band.
    pub open spec fn speech(self, waves: Seq<Seq<PrcFmt>>, frames: int, right: bool) -> Seq<
        PrcFmt,
    > {
        if self.detects(waves) {
            self.bank.speech_lowpass[if right { 1 } else { 0 }].filtered(
                self.above_low(waves, frames, right),
            )
        } else {
            silence(frames)
        }
    }

    /// Full band power of the centre.
    pub open spec fn mid(self, waves: Seq<Seq<PrcFmt>>, frames: int) -> Seq<PrcFmt> {
        if self.detects(waves) {
            mid_of(self.settings.dialogue_channels, waves, frames)
        } else {
            silence(frames)
        }
    }

    /// The sidechain signals of a chunk.
    pub open spec fn sidechain(self, waves: Seq<Seq<PrcFmt>>, frames: int) -> Seq<Frame> {
        Seq::new(
            frames as nat,
            |j: int|
                Frame {
                    power: self.power(waves, frames)[j],
                    mid: self.mid(waves, frames)[j],
                    left: self.speech(waves, frames, false)[j],
                    right: self.speech(waves, frames, true)[j],
                },
        )
    }

    /// After the powers of a chunk have been measured.
    pub open spec fn with_power_measured(self, waves: Seq<Seq<PrcFmt>>, frames: int) -> Model {
        Model {
            bank: Bank {
                sidechain_highpass: filters_after(
                    self.bank.sidechain_highpass,
                    self.settings.monitor_channels,
                    waves,
                    frames,
                ),
                ..self.bank
            },
            ..self
        }
    }

    /// After the detector signals of a chunk have been measured.
    pub open spec fn with_detector_measured(self, waves: Seq<Seq<PrcFmt>>, frames: int) -> Model {
        if self.detects(waves) {
            Model {
                bank: Bank {
                    speech_highpass: seq![
                        self.bank.speech_highpass[0].after_all(self.side(waves, frames, false)),
                        self.bank.speech_highpass[1].after_all(self.side(waves, frames, true)),
                    ],
                    speech_lowpass: seq![
                        self.bank.speech_lowpass[0].after_all(
                            self.above_low(waves, frames, false),
                        ),
                        self.bank.speech_lowpass[1].after_all(self.above_low(waves, frames, true)),
                    ],
                    ..self.bank
                },
                ..self
            }
        } else {
            self
        }
    }

    /// After the frames of a chunk have gone into hops.
    pub open spec fn with_hops(self, frames: Seq<Frame>) -> Model {
        Model {
            listener: self.listener.after_frames(
                frames,
                frames.len() as int,
                self.settings,
                self.setup,
            ),
            ..self
        }
    }

    /// After a chunk has been heard, before anything is done to it.
    pub open spec fn measured(self, waves: Seq<Seq<PrcFmt>>, frames: int) -> Model {
        self.with_power_measured(waves, frames).with_detector_measured(waves, frames).with_hops(
            self.sidechain(waves, frames),
        )
    }

    /// What the gain law is told.
    pub open spec fn guide(self) -> Guide {
        Guide {
            reference_db: self.listener.estimate.reference_db,
            confidence: self.listener.estimate.confidence,
        }
    }

    /// After the gain law has run over some powers.
    pub open spec fn with_gain(self, power: Seq<PrcFmt>) -> Model {
        Model {
            followers: self.followers.after_frames(
                power,
                power.len() as int,
                self.settings,
                self.setup,
                self.guide(),
            ),
            ..self
        }
    }

    /// What the gain law has done with each frame of some powers.
    pub open spec fn works(self, power: Seq<PrcFmt>) -> Seq<Work> {
        self.followers.works(power, self.settings, self.setup, self.guide())
    }

    /// The audio and the output filters after some work.
    pub open spec fn output(self, waves: Seq<Seq<PrcFmt>>, works: Seq<Work>) -> Output {
        Output {
            waves,
            lowpass: self.bank.bass_lowpass,
            bandpass: self.bank.presence_bandpass,
            clipped: false,
        }.after_channels(self.settings.process_channels.len() as int, works, self.settings)
    }

    /// After some work has been done. Nothing happens to an inactive processor.
    pub open spec fn applied(self, waves: Seq<Seq<PrcFmt>>, works: Seq<Work>) -> Model {
        if self.settings.active() {
            let output = self.output(waves, works);
            Model {
                bank: Bank {
                    bass_lowpass: output.lowpass,
                    presence_bandpass: output.bandpass,
                    ..self.bank
                },
                clipping: output.clipped,
                ..self
            }
        } else {
            self
        }
    }

    /// The audio after some work has been done.
    pub open spec fn applied_waves(self, waves: Seq<Seq<PrcFmt>>, works: Seq<Work>) -> Seq<
        Seq<PrcFmt>,
    > {
        if self.settings.active() {
            self.output(waves, works).waves
        } else {
            waves
        }
    }

    /// The work on a chunk.
    pub open spec fn chunk_works(self, waves: Seq<Seq<PrcFmt>>, frames: int) -> Seq<Work> {
        self.measured(waves, frames).works(self.power(waves, frames))
    }

    /// After a chunk.
    pub open spec fn after_chunk(self, waves: Seq<Seq<PrcFmt>>) -> Model {
        match self.active_frames(waves) {
            Some(frames) => self.measured(waves, frames).with_gain(
                self.power(waves, frames),
            ).applied(waves, self.chunk_works(waves, frames)),
            None => self,
        }
    }

    /// What becomes of a chunk.
    pub open spec fn processed(self, waves: Seq<Seq<PrcFmt>>) -> Seq<Seq<PrcFmt>> {
        match self.active_frames(waves) {
            Some(frames) => self.measured(waves, frames).with_gain(
                self.power(waves, frames),
            ).applied_waves(waves, self.chunk_works(waves, frames)),
            None => waves,
        }
    }

    /// With a new configuration. Everything learned and every filter's history stays, except
    /// for filters that are now too many or too few.
    pub open spec fn updated(self, config: NightModeParameters) -> Model {
        let settings = Settings::of(config, self.setup.samplerate, self.setup.hop_frames);
        Model {
            settings,
            listener: Listener {
                estimate: Estimate {
                    reference_db: match config.reference_level {
                        Some(level) => level,
                        None => self.listener.estimate.reference_db,
                    },
                    ..self.listener.estimate
                },
                ..self.listener
            },
            bank: Bank {
                sidechain_highpass: refitted(
                    self.bank.sidechain_highpass,
                    settings.monitor_channels.len() as int,
                    false,
                    sidechain_design(self.setup.samplerate),
                ),
                bass_lowpass: refitted(
                    self.bank.bass_lowpass,
                    settings.process_channels.len() as int,
                    self.settings.bass_frequency != settings.bass_frequency,
                    bass_design(self.setup.samplerate, settings.bass_frequency),
                ),
                presence_bandpass: refitted(
                    self.bank.presence_bandpass,
                    settings.process_channels.len() as int,
                    self.settings.presence_frequency != settings.presence_frequency
                        || self.settings.presence_q != settings.presence_q,
                    presence_design(
                        self.setup.samplerate,
                        settings.presence_frequency,
                        settings.presence_q,
                    ),
                ),
                ..self.bank
            },
            ..self
        }
    }
}

} // verus!
