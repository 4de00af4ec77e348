//! Settings of the processor, as a configuration gives them.
use crate::fixed::{PrcFmt, ONE};
use vstd::prelude::*;

verus! {

/// Default of `amount`: 100.
pub const DEFAULT_AMOUNT: PrcFmt = 100 * ONE;

/// Default of `max_attenuation`: 28.
pub const DEFAULT_MAX_ATTENUATION: PrcFmt = 28 * ONE;

/// Default of `bass_reduction`: 10.
pub const DEFAULT_BASS_REDUCTION: PrcFmt = 10 * ONE;

/// Default of `headroom`: 0.
pub const DEFAULT_HEADROOM: PrcFmt = 0;

/// Default of `ratio`: 12.
pub const DEFAULT_RATIO: PrcFmt = 12 * ONE;

/// Default of `transient_softening`: 100.
pub const DEFAULT_TRANSIENT_SOFTENING: PrcFmt = 100 * ONE;

/// Default of `dialogue_protection`: 60.
pub const DEFAULT_DIALOGUE_PROTECTION: PrcFmt = 60 * ONE;

/// Default of `presence_gain`: 0.
pub const DEFAULT_PRESENCE_GAIN: PrcFmt = 0;

/// Default of `presence_frequency`: 2500.
pub const DEFAULT_PRESENCE_FREQUENCY: PrcFmt = 2500 * ONE;

/// Default of `presence_q`: 0.7.
pub const DEFAULT_PRESENCE_Q: PrcFmt = 0xb333_3333_3333_3333_3333;

/// Default of `attack`: 0.15.
pub const DEFAULT_ATTACK: PrcFmt = 0x2666_6666_6666_6666_6666;

/// Default of `release`: 1.5.
pub const DEFAULT_RELEASE: PrcFmt = 0x1_8000_0000_0000_0000_0000;

/// Default of `reference_slew`: 0.25.
pub const DEFAULT_REFERENCE_SLEW: PrcFmt = 0x4000_0000_0000_0000_0000;

/// Default of `modulation_weight`: 0.5.
pub const DEFAULT_MODULATION_WEIGHT: PrcFmt = 0x8000_0000_0000_0000_0000;

/// Default of `bass_frequency`: 120.
pub const DEFAULT_BASS_FREQUENCY: PrcFmt = 120 * ONE;

/// Default of `silence_threshold`: -70.
pub const DEFAULT_SILENCE_THRESHOLD: PrcFmt = -70 * ONE;

/// Default of `ceiling`: -1.
pub const DEFAULT_CEILING: PrcFmt = -1 * ONE;

/// Settings of the night mode processor. Whatever is not set has a default.
#[derive(Clone, Debug)]
pub struct NightModeParameters {
    /// Number of channels.
    pub channels: usize,
    /// How much of the effect to apply, in percent.
    pub amount: Option<PrcFmt>,
    /// Hard limit on the total reduction, in dB.
    pub max_attenuation: Option<PrcFmt>,
    /// Extra reduction below `bass_frequency`, in dB.
    pub bass_reduction: Option<PrcFmt>,
    /// Channels that carry dialogue. Needed unless there are just two channels.
    pub dialogue_channels: Option<Vec<usize>>,
    /// How far above the dialogue level reduction begins, in dB.
    pub headroom: Option<PrcFmt>,
    /// Compression ratio of the slow stage.
    pub ratio: Option<PrcFmt>,
    /// Depth of the fast stage, in percent.
    pub transient_softening: Option<PrcFmt>,
    /// How strongly dialogue is spared, in percent. At zero the detector is switched off.
    pub dialogue_protection: Option<PrcFmt>,
    /// Boost around `presence_frequency` on dialogue, in dB.
    pub presence_gain: Option<PrcFmt>,
    /// Centre of the presence boost, in Hz.
    pub presence_frequency: Option<PrcFmt>,
    /// Q of the presence boost.
    pub presence_q: Option<PrcFmt>,
    /// Time constant of the slow stage as it deepens, in seconds.
    pub attack: Option<PrcFmt>,
    /// Time constant of the slow stage as it lets go, in seconds.
    pub release: Option<PrcFmt>,
    /// Pins the dialogue reference to a level, in dB above full scale.
    pub reference_level: Option<PrcFmt>,
    /// The fastest the dialogue reference may move, in dB per second.
    pub reference_slew: Option<PrcFmt>,
    /// How much the syllabic modulation cue counts, from 0 to 1.
    pub modulation_weight: Option<PrcFmt>,
    /// Corner of the bass reduction, in Hz.
    pub bass_frequency: Option<PrcFmt>,
    /// Level at and below which the detector stops updating, in dB.
    pub silence_threshold: Option<PrcFmt>,
    /// Output ceiling, in dB above full scale.
    pub ceiling: Option<PrcFmt>,
    /// Channels used when estimating the level. All of them, unless set.
    pub monitor_channels: Option<Vec<usize>>,
    /// Channels to process. All of them, unless set.
    pub process_channels: Option<Vec<usize>>,
}

/// Settings of a processor in a pipeline.
#[derive(Clone, Debug)]
pub enum Processor {
    NightMode { description: Option<String>, parameters: Box<NightModeParameters> },
    /// A processor of any other kind.
    Other,
}

/// A setting, or its default.
pub open spec fn chosen(value: Option<PrcFmt>, default: PrcFmt) -> PrcFmt {
    match value {
        Some(v) => v,
        None => default,
    }
}

/// The channels of a list that need not be set.
pub open spec fn listed(list: Option<Vec<usize>>) -> Seq<usize> {
    match list {
        Some(v) => v@,
        None => Seq::empty(),
    }
}

fn choose_or(value: Option<PrcFmt>, default: PrcFmt) -> (r: PrcFmt)
    ensures
        r == chosen(value, default),
{
    match value {
        Some(v) => v,
        None => default,
    }
}

fn copy_list(list: &Option<Vec<usize>>) -> (r: Vec<usize>)
    ensures
        r@ == listed(*list),
{
    match list {
        Some(v) => v.clone(),
        None => Vec::new(),
    }
}

impl NightModeParameters {
    #[verifier::allow_in_spec]
    pub fn amount(&self) -> PrcFmt
        returns
            chosen(self.amount, DEFAULT_AMOUNT),
    {
        choose_or(self.amount, DEFAULT_AMOUNT)
    }

    #[verifier::allow_in_spec]
    pub fn max_attenuation(&self) -> PrcFmt
        returns
            chosen(self.max_attenuation, DEFAULT_MAX_ATTENUATION),
    {
        choose_or(self.max_attenuation, DEFAULT_MAX_ATTENUATION)
    }

    #[verifier::allow_in_spec]
    pub fn bass_reduction(&self) -> PrcFmt
        returns
            chosen(self.bass_reduction, DEFAULT_BASS_REDUCTION),
    {
        choose_or(self.bass_reduction, DEFAULT_BASS_REDUCTION)
    }

    #[verifier::allow_in_spec]
    pub fn headroom(&self) -> PrcFmt
        returns
            chosen(self.headroom, DEFAULT_HEADROOM),
    {
        choose_or(self.headroom, DEFAULT_HEADROOM)
    }

    #[verifier::allow_in_spec]
    pub fn ratio(&self) -> PrcFmt
        returns
            chosen(self.ratio, DEFAULT_RATIO),
    {
        choose_or(self.ratio, DEFAULT_RATIO)
    }

    #[verifier::allow_in_spec]
    pub fn transient_softening(&self) -> PrcFmt
        returns
            chosen(self.transient_softening, DEFAULT_TRANSIENT_SOFTENING),
    {
        choose_or(self.transient_softening, DEFAULT_TRANSIENT_SOFTENING)
    }

    #[verifier::allow_in_spec]
    pub fn dialogue_protection(&self) -> PrcFmt
        returns
            chosen(self.dialogue_protection, DEFAULT_DIALOGUE_PROTECTION),
    {
        choose_or(self.dialogue_protection, DEFAULT_DIALOGUE_PROTECTION)
    }

    #[verifier::allow_in_spec]
    pub fn presence_gain(&self) -> PrcFmt
        returns
            chosen(self.presence_gain, DEFAULT_PRESENCE_GAIN),
    {
        choose_or(self.presence_gain, DEFAULT_PRESENCE_GAIN)
    }

    #[verifier::allow_in_spec]
    pub fn presence_frequency(&self) -> PrcFmt
        returns
            chosen(self.presence_frequency, DEFAULT_PRESENCE_FREQUENCY),
    {
        choose_or(self.presence_frequency, DEFAULT_PRESENCE_FREQUENCY)
    }

    #[verifier::allow_in_spec]
    pub fn presence_q(&self) -> PrcFmt
        returns
            chosen(self.presence_q, DEFAULT_PRESENCE_Q),
    {
        choose_or(self.presence_q, DEFAULT_PRESENCE_Q)
    }

    #[verifier::allow_in_spec]
    pub fn attack(&self) -> PrcFmt
        returns
            chosen(self.attack, DEFAULT_ATTACK),
    {
        choose_or(self.attack, DEFAULT_ATTACK)
    }

    #[verifier::allow_in_spec]
    pub fn release(&self) -> PrcFmt
        returns
            chosen(self.release, DEFAULT_RELEASE),
    {
        choose_or(self.release, DEFAULT_RELEASE)
    }

    #[verifier::allow_in_spec]
    pub fn reference_slew(&self) -> PrcFmt
        returns
            chosen(self.reference_slew, DEFAULT_REFERENCE_SLEW),
    {
        choose_or(self.reference_slew, DEFAULT_REFERENCE_SLEW)
    }

    #[verifier::allow_in_spec]
    pub fn modulation_weight(&self) -> PrcFmt
        returns
            chosen(self.modulation_weight, DEFAULT_MODULATION_WEIGHT),
    {
        choose_or(self.modulation_weight, DEFAULT_MODULATION_WEIGHT)
    }

    #[verifier::allow_in_spec]
    pub fn bass_frequency(&self) -> PrcFmt
        returns
            chosen(self.bass_frequency, DEFAULT_BASS_FREQUENCY),
    {
        choose_or(self.bass_frequency, DEFAULT_BASS_FREQUENCY)
    }

    #[verifier::allow_in_spec]
    pub fn silence_threshold(&self) -> PrcFmt
        returns
            chosen(self.silence_threshold, DEFAULT_SILENCE_THRESHOLD),
    {
        choose_or(self.silence_threshold, DEFAULT_SILENCE_THRESHOLD)
    }

    #[verifier::allow_in_spec]
    pub fn ceiling(&self) -> PrcFmt
        returns
            chosen(self.ceiling, DEFAULT_CEILING),
    {
        choose_or(self.ceiling, DEFAULT_CEILING)
    }

    pub fn dialogue_channels(&self) -> (r: Vec<usize>)
        ensures
            r@ == listed(self.dialogue_channels),
    {
        copy_list(&self.dialogue_channels)
    }

    pub fn monitor_channels(&self) -> (r: Vec<usize>)
        ensures
            r@ == listed(self.monitor_channels),
    {
        copy_list(&self.monitor_channels)
    }

    pub fn process_channels(&self) -> (r: Vec<usize>)
        ensures
            r@ == listed(self.process_channels),
    {
        copy_list(&self.process_channels)
    }
}

} // verus!
