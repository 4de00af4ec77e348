//! Every setting does what it is named after, and nothing else has a say in it.
use crate::config::{listed, NightModeParameters};
use crate::decibels::{lemma_linear_ordered, lemma_linear_zero, linear_of};
use crate::filters::{Biquad, BiquadCoefficients, BiquadParameters};
use crate::fixed::{negated, prod, quot, rounded, stands_for, whole, PrcFmt, HALF, ONE};
use crate::laws::constants::lemma_cut_scaled;
use crate::laws::detection::summed;
use crate::laws::pacing::{law_hop_rate_is_bounded, ordinary};
use crate::model::Model;
use crate::settings::{
    bass_design, hop_frames_of, hop_rate_of, modulation_design, presence_design, sidechain_design,
    speech_design, Settings, Setup,
};
use crate::sidechain::all_within;
use crate::tuning::{GATE_HOLD_S, MODULATION_FREQ_HZ, MODULATION_Q, SPEECH_Q};
use crate::validation::{beyond, first_beyond, rejection, ConfigError, PRESENCE_Q_MIN};
use vstd::prelude::*;

verus! {

/// What is set is used.
pub proof fn law_what_is_set_is_used(config: NightModeParameters, v: PrcFmt)
    ensures
        config.amount == Some(v) ==> config.amount() == v,
        config.max_attenuation == Some(v) ==> config.max_attenuation() == v,
        config.bass_reduction == Some(v) ==> config.bass_reduction() == v,
        config.headroom == Some(v) ==> config.headroom() == v,
        config.ratio == Some(v) ==> config.ratio() == v,
        config.transient_softening == Some(v) ==> config.transient_softening() == v,
        config.dialogue_protection == Some(v) ==> config.dialogue_protection() == v,
        config.presence_gain == Some(v) ==> config.presence_gain() == v,
        config.presence_frequency == Some(v) ==> config.presence_frequency() == v,
        config.presence_q == Some(v) ==> config.presence_q() == v,
        config.attack == Some(v) ==> config.attack() == v,
        config.release == Some(v) ==> config.release() == v,
        config.reference_slew == Some(v) ==> config.reference_slew() == v,
        config.modulation_weight == Some(v) ==> config.modulation_weight() == v,
        config.bass_frequency == Some(v) ==> config.bass_frequency() == v,
        config.silence_threshold == Some(v) ==> config.silence_threshold() == v,
        config.ceiling == Some(v) ==> config.ceiling() == v,
{
}

/// What is not set has its default.
pub proof fn law_what_is_not_set_has_its_default(config: NightModeParameters)
    ensures
        config.amount is None ==> config.amount() == 100 * ONE,
        config.max_attenuation is None ==> config.max_attenuation() == 28 * ONE,
        config.bass_reduction is None ==> config.bass_reduction() == 10 * ONE,
        config.headroom is None ==> config.headroom() == 0,
        config.ratio is None ==> config.ratio() == 12 * ONE,
        config.transient_softening is None ==> config.transient_softening() == 100 * ONE,
        config.dialogue_protection is None ==> config.dialogue_protection() == 60 * ONE,
        config.presence_gain is None ==> config.presence_gain() == 0,
        config.presence_frequency is None ==> config.presence_frequency() == 2500 * ONE,
        config.presence_q is None ==> stands_for(config.presence_q(), 7, 10),
        config.attack is None ==> stands_for(config.attack(), 15, 100),
        config.release is None ==> stands_for(config.release(), 15, 10),
        config.reference_slew is None ==> stands_for(config.reference_slew(), 25, 100),
        config.modulation_weight is None ==> stands_for(config.modulation_weight(), 5, 10),
        config.bass_frequency is None ==> config.bass_frequency() == 120 * ONE,
        config.silence_threshold is None ==> config.silence_threshold() == -70 * ONE,
        config.ceiling is None ==> config.ceiling() == -1 * ONE,
{
}

/// The processor works with the settings as they are configured, in dB, Hz and channels.
pub proof fn law_settings_are_those_configured(
    config: NightModeParameters,
    samplerate: usize,
    hop_frames: usize,
)
    ensures
        ({
            let s = Settings::of(config, samplerate, hop_frames);
            &&& s.max_attenuation == config.max_attenuation()
            &&& s.headroom == config.headroom()
            &&& s.ratio == config.ratio()
            &&& s.modulation_weight == config.modulation_weight()
            &&& s.silence_threshold == config.silence_threshold()
            &&& s.bass_frequency == config.bass_frequency()
            &&& s.presence_frequency == config.presence_frequency()
            &&& s.presence_q == config.presence_q()
            &&& s.reference_pinned == config.reference_level
            &&& s.limiter.clip_limit == linear_of(config.ceiling())
            &&& listed(config.monitor_channels).len() > 0 ==> s.monitor_channels == listed(
                config.monitor_channels,
            )
            &&& listed(config.process_channels).len() > 0 ==> s.process_channels == listed(
                config.process_channels,
            )
            &&& listed(config.dialogue_channels).len() > 0 ==> s.dialogue_channels == Some(
                listed(config.dialogue_channels),
            )
            &&& listed(config.dialogue_channels).len() == 0 ==> s.dialogue_channels is None
        }),
{
}

/// Where no channels are listed, all of them are monitored and processed.
pub proof fn law_all_channels_unless_listed(
    config: NightModeParameters,
    samplerate: usize,
    hop_frames: usize,
    c: usize,
)
    requires
        c < config.channels,
    ensures
        ({
            let s = Settings::of(config, samplerate, hop_frames);
            &&& listed(config.monitor_channels).len() == 0 ==> s.monitor_channels.len()
                == config.channels && s.monitor_channels[c as int] == c
            &&& listed(config.process_channels).len() == 0 ==> s.process_channels.len()
                == config.channels && s.process_channels[c as int] == c
        }),
{
}

/// Settings in percent become shares: a hundred times the share is the setting, up to rounding.
pub proof fn law_percent_are_shares(
    config: NightModeParameters,
    samplerate: usize,
    hop_frames: usize,
)
    requires
        rejection(samplerate, config) is None,
    ensures
        ({
            let s = Settings::of(config, samplerate, hop_frames);
            &&& 100 * s.amount <= config.amount() < 100 * (s.amount + 1)
            &&& 100 * s.transient_softening <= config.transient_softening() < 100 * (
            s.transient_softening + 1)
            &&& 100 * s.dialogue_protection <= config.dialogue_protection() < 100 * (
            s.dialogue_protection + 1)
        }),
{
    reveal(quot);
    lemma_cut_scaled(config.amount() as int, 100);
    lemma_cut_scaled(config.transient_softening() as int, 100);
    lemma_cut_scaled(config.dialogue_protection() as int, 100);
}

/// The full shelf leaves of the lowest frequencies what the bass reduction leaves, and the full
/// lift makes of its centre what the presence gain makes.
pub proof fn law_depths_are_the_configured_gains(
    config: NightModeParameters,
    samplerate: usize,
    hop_frames: usize,
)
    requires
        rejection(samplerate, config) is None,
    ensures
        ({
            let s = Settings::of(config, samplerate, hop_frames);
            &&& ONE - s.bass_depth_max == linear_of((-config.bass_reduction()) as PrcFmt)
            &&& linear_of(config.presence_gain()) < i128::MAX ==> ONE + s.presence_depth_max
                == linear_of(config.presence_gain())
        }),
{
    lemma_linear_zero();
    lemma_linear_ordered(negated(config.bass_reduction()), 0);
    lemma_linear_ordered(0, config.presence_gain());
}

/// The reference may move by as much in a hop as makes the configured slew in a second, and by
/// no less, up to a step.
pub proof fn law_step_is_the_slew_per_hop(config: NightModeParameters, samplerate: usize)
    requires
        ordinary(samplerate),
        config.reference_slew() > 0,
    ensures
        ({
            let s = Settings::of(config, samplerate, hop_frames_of(samplerate));
            let rate = hop_rate_of(samplerate, hop_frames_of(samplerate));
            s.reference_step * rate <= config.reference_slew() * ONE < (s.reference_step + 1) * rate
        }),
{
    reveal(quot);
    law_hop_rate_is_bounded(samplerate);
    let d = hop_rate_of(samplerate, hop_frames_of(samplerate)) as int;
    let v = config.reference_slew() as int;
    let n = v * ONE;
    let q = n / d;
    vstd::arithmetic::div_mod::lemma_fundamental_div_mod(n, d);
    vstd::arithmetic::div_mod::lemma_mod_bound(n, d);
    vstd::arithmetic::div_mod::lemma_div_pos_is_pos(n, d);
    assert(q <= v) by (nonlinear_arith)
        requires
            d * q <= v * ONE,
            d >= ONE,
            v > 0,
            q >= 0,
    {
        if q > v {
            assert(d * q >= ONE * q);
        }
    }
    assert(q * d == d * q && (q + 1) * d == d * q + d) by (nonlinear_arith);
}

/// Trust, once granted, lasts as many hops as come closest to 0.3 seconds.
pub proof fn law_hold_lasts_its_time(channels: usize, samplerate: usize, chunksize: usize)
    requires
        ordinary(samplerate),
    ensures
        ({
            let hops = Setup::of(channels, samplerate, chunksize).gate_hold_hops;
            let rate = hop_rate_of(samplerate, hop_frames_of(samplerate));
            -(ONE * ONE) <= 2 * (hops * (ONE * ONE)) - 2 * (GATE_HOLD_S * rate) <= ONE * ONE + 2
                * ONE
        }),
{
    law_hop_rate_is_bounded(samplerate);
    let rate = hop_rate_of(samplerate, hop_frames_of(samplerate));
    let p = prod(GATE_HOLD_S, rate) as int;
    let n = GATE_HOLD_S * rate;
    assert(n >= 0 && n <= ONE * (800 * ONE));
    assert(p * ONE <= n < (p + 1) * ONE);
    let hops = rounded(p as PrcFmt) as int;
    assert(hops == (p + HALF) / (ONE as int));
    assert(hops * ONE <= p + HALF < (hops + 1) * ONE);
}

/// Hops last 2.5 ms: as many frames as come closest below, and at least one.
pub proof fn law_hops_last_their_time(channels: usize, samplerate: usize, chunksize: usize)
    ensures
        ({
            let u = Setup::of(channels, samplerate, chunksize);
            &&& u.hop_frames >= 1
            &&& samplerate >= 400 ==> 400 * u.hop_frames <= samplerate < 400 * (u.hop_frames + 1)
            &&& samplerate < 400 ==> u.hop_frames == 1
            &&& u.samplerate == samplerate
            &&& u.channels == channels
            &&& u.chunksize == chunksize
        }),
{
}

/// The filters are tuned to the frequencies that they are meant for: 60 Hz for the level, 300
/// to 3500 Hz for speech, 5.5 Hz for syllables, and as configured for the shelf and the lift.
pub proof fn law_filters_have_their_tuning(
    samplerate: usize,
    hop_rate: PrcFmt,
    f: PrcFmt,
    q: PrcFmt,
)
    ensures
        sidechain_design(samplerate) == BiquadCoefficients::design(
            samplerate,
            BiquadParameters::HighpassFO { freq: whole(60) },
        ),
        speech_design(samplerate, true) == BiquadCoefficients::design(
            samplerate,
            BiquadParameters::Highpass { freq: whole(300), q: SPEECH_Q },
        ),
        speech_design(samplerate, false) == BiquadCoefficients::design(
            samplerate,
            BiquadParameters::Lowpass { freq: whole(3500), q: SPEECH_Q },
        ),
        modulation_design(hop_rate) == BiquadCoefficients::design(
            rounded(hop_rate),
            BiquadParameters::Bandpass { freq: MODULATION_FREQ_HZ, q: MODULATION_Q },
        ),
        bass_design(samplerate, f) == BiquadCoefficients::design(
            samplerate,
            BiquadParameters::LowpassFO { freq: f },
        ),
        presence_design(samplerate, f, q) == BiquadCoefficients::design(
            samplerate,
            BiquadParameters::Bandpass { freq: f, q },
        ),
        stands_for(SPEECH_Q, 707, 1000),
        stands_for(MODULATION_FREQ_HZ, 55, 10),
        stands_for(MODULATION_Q, 12, 10),
{
}

/// Whether there are as many filters as asked for, all of one design and without any history.
pub open spec fn are_new(filters: Seq<Biquad>, count: nat, coeffs: BiquadCoefficients) -> bool {
    &&& filters.len() == count
    &&& forall|i: int|
        0 <= i < count ==> {
            &&& (#[trigger] filters[i]).coeffs == coeffs
            &&& filters[i].s1 == 0
            &&& filters[i].s2 == 0
        }
}

/// A new processor has a highpass at 60 Hz for each monitored channel, a band from 300 to 3500 Hz
/// for each side, and a lowpass and a bandpass, tuned as configured, for each processed channel.
pub proof fn law_processor_starts_with_its_filters(
    name: Seq<char>,
    config: NightModeParameters,
    samplerate: usize,
    chunksize: usize,
)
    ensures
        ({
            let m = Model::fresh(name, config, samplerate, chunksize);
            let rate = hop_rate_of(samplerate, hop_frames_of(samplerate));
            &&& are_new(
                m.bank.sidechain_highpass,
                m.settings.monitor_channels.len(),
                BiquadCoefficients::design(
                    samplerate,
                    BiquadParameters::HighpassFO { freq: whole(60) },
                ),
            )
            &&& are_new(
                m.bank.speech_highpass,
                2,
                BiquadCoefficients::design(
                    samplerate,
                    BiquadParameters::Highpass { freq: whole(300), q: SPEECH_Q },
                ),
            )
            &&& are_new(
                m.bank.speech_lowpass,
                2,
                BiquadCoefficients::design(
                    samplerate,
                    BiquadParameters::Lowpass { freq: whole(3500), q: SPEECH_Q },
                ),
            )
            &&& are_new(
                m.bank.bass_lowpass,
                m.settings.process_channels.len(),
                BiquadCoefficients::design(
                    samplerate,
                    BiquadParameters::LowpassFO { freq: config.bass_frequency() },
                ),
            )
            &&& are_new(
                m.bank.presence_bandpass,
                m.settings.process_channels.len(),
                BiquadCoefficients::design(
                    samplerate,
                    BiquadParameters::Bandpass {
                        freq: config.presence_frequency(),
                        q: config.presence_q(),
                    },
                ),
            )
            &&& m.listener.estimate.bandpass.coeffs == BiquadCoefficients::design(
                rounded(rate),
                BiquadParameters::Bandpass { freq: MODULATION_FREQ_HZ, q: MODULATION_Q },
            )
        }),
{
}

/// Whether every rule for a configuration is kept.
pub open spec fn rules_are_kept(samplerate: usize, c: NightModeParameters) -> bool {
    &&& 0 < c.attack() <= c.release()
    &&& c.ratio() >= ONE
    &&& 0 <= c.amount() <= 100 * ONE
    &&& c.max_attenuation() >= 0
    &&& 0 <= c.bass_reduction() <= 10 * ONE
    &&& 0 <= c.transient_softening() <= 100 * ONE
    &&& 0 <= c.dialogue_protection() <= 100 * ONE
    &&& 0 <= c.presence_gain() <= 6 * ONE
    &&& PRESENCE_Q_MIN <= c.presence_q() <= 3 * ONE
    &&& 2 * c.presence_frequency() < samplerate * ONE
    &&& 2 * c.bass_frequency() < samplerate * ONE
    &&& 0 <= c.modulation_weight() <= ONE
    &&& c.reference_slew() > 0
    &&& -20 * ONE <= c.ceiling() <= 0
    &&& c.reference_level matches Some(level) ==> -45 * ONE <= level <= -12 * ONE
    &&& listed(c.dialogue_channels).len() > 0 || c.channels == 2
    &&& all_within(listed(c.dialogue_channels), c.channels as int)
    &&& all_within(listed(c.monitor_channels), c.channels as int)
    &&& all_within(listed(c.process_channels), c.channels as int)
}

proof fn lemma_nothing_beyond(list: Seq<usize>, channels: usize, n: int)
    requires
        0 <= n <= list.len(),
        forall|j: int| 0 <= j < n ==> list[j] < channels,
        beyond(list, channels) is None,
    ensures
        all_within(list, channels as int),
    decreases list.len() - n,
{
    if n < list.len() {
        if list[n] >= channels {
            assert(first_beyond(list, channels, n));
        } else {
            lemma_nothing_beyond(list, channels, n + 1);
        }
    }
}

proof fn lemma_beyond(list: Seq<usize>, channels: usize)
    ensures
        beyond(list, channels) is None <==> all_within(list, channels as int),
        beyond(list, channels) matches Some(c) ==> c >= channels && list.contains(c),
        beyond(list, channels) matches Some(c) ==> is_first_beyond(c, list, channels),
{
    if beyond(list, channels) is None {
        lemma_nothing_beyond(list, channels, 0);
    } else {
        let i = choose|i: int| first_beyond(list, channels, i);
        assert(first_beyond(list, channels, i));
        assert(list[i] >= channels);
    }
}

/// A configuration is accepted exactly where every rule is kept. The lowest Q is 0.3, to double
/// precision.
pub proof fn law_accepted_where_every_rule_is_kept(samplerate: usize, config: NightModeParameters)
    ensures
        rejection(samplerate, config) is None <==> rules_are_kept(samplerate, config),
        0 <= 3 * ONE - 10 * PRESENCE_Q_MIN <= 0x1000_0000,
{
    lemma_beyond(listed(config.dialogue_channels), config.channels);
    lemma_beyond(listed(config.monitor_channels), config.channels);
    lemma_beyond(listed(config.process_channels), config.channels);
}

/// A complaint is about a rule that is broken.
pub proof fn law_complaints_are_true(samplerate: usize, config: NightModeParameters)
    ensures
        ({
            let c = config;
            match rejection(samplerate, config) {
                None => true,
                Some(ConfigError::Attack) => c.attack() <= 0,
                Some(ConfigError::Release) => c.release() < c.attack(),
                Some(ConfigError::Ratio) => c.ratio() < ONE,
                Some(ConfigError::Amount) => !(0 <= c.amount() <= 100 * ONE),
                Some(ConfigError::MaxAttenuation) => c.max_attenuation() < 0,
                Some(ConfigError::BassReduction) => !(0 <= c.bass_reduction() <= 10 * ONE),
                Some(ConfigError::TransientSoftening) => !(0 <= c.transient_softening() <= 100
                    * ONE),
                Some(ConfigError::DialogueProtection) => !(0 <= c.dialogue_protection() <= 100
                    * ONE),
                Some(ConfigError::PresenceGain) => !(0 <= c.presence_gain() <= 6 * ONE),
                Some(ConfigError::PresenceQ) => !(PRESENCE_Q_MIN <= c.presence_q() <= 3 * ONE),
                Some(ConfigError::PresenceFrequency { samplerate: r }) => r == samplerate && 2
                    * c.presence_frequency() >= samplerate * ONE,
                Some(ConfigError::BassFrequency { samplerate: r }) => r == samplerate && 2
                    * c.bass_frequency() >= samplerate * ONE,
                Some(ConfigError::ModulationWeight) => !(0 <= c.modulation_weight() <= ONE),
                Some(ConfigError::ReferenceSlew) => c.reference_slew() <= 0,
                Some(ConfigError::Ceiling) => !(-20 * ONE <= c.ceiling() <= 0),
                Some(ConfigError::ReferenceLevel) => c.reference_level matches Some(level) && !(
                -45 * ONE <= level <= -12 * ONE),
                Some(ConfigError::NoDialogueChannels { channels }) => channels == c.channels
                    && channels != 2 && listed(c.dialogue_channels).len() == 0,
                Some(ConfigError::DialogueChannel { channel, channels }) => channels == c.channels
                    && channel >= channels && listed(c.dialogue_channels).contains(channel),
                Some(ConfigError::MonitorChannel { channel, channels }) => channels == c.channels
                    && channel >= channels && listed(c.monitor_channels).contains(channel),
                Some(ConfigError::ProcessChannel { channel, channels }) => channels == c.channels
                    && channel >= channels && listed(c.process_channels).contains(channel),
            }
        }),
{
    lemma_beyond(listed(config.dialogue_channels), config.channels);
    lemma_beyond(listed(config.monitor_channels), config.channels);
    lemma_beyond(listed(config.process_channels), config.channels);
}

/// The rules for a configuration, in the order in which they are looked at.
pub open spec fn rule_is_kept(k: u8, samplerate: usize, c: NightModeParameters) -> bool {
    match k {
        0 => c.attack() > 0,
        1 => c.release() >= c.attack(),
        2 => c.ratio() >= ONE,
        3 => 0 <= c.amount() <= 100 * ONE,
        4 => c.max_attenuation() >= 0,
        5 => 0 <= c.bass_reduction() <= 10 * ONE,
        6 => 0 <= c.transient_softening() <= 100 * ONE,
        7 => 0 <= c.dialogue_protection() <= 100 * ONE,
        8 => 0 <= c.presence_gain() <= 6 * ONE,
        9 => PRESENCE_Q_MIN <= c.presence_q() <= 3 * ONE,
        10 => 2 * c.presence_frequency() < samplerate * ONE,
        11 => 2 * c.bass_frequency() < samplerate * ONE,
        12 => 0 <= c.modulation_weight() <= ONE,
        13 => c.reference_slew() > 0,
        14 => -20 * ONE <= c.ceiling() <= 0,
        15 => c.reference_level matches Some(level) ==> -45 * ONE <= level <= -12 * ONE,
        16 => listed(c.dialogue_channels).len() > 0 || c.channels == 2,
        17 => all_within(listed(c.dialogue_channels), c.channels as int),
        18 => all_within(listed(c.monitor_channels), c.channels as int),
        _ => all_within(listed(c.process_channels), c.channels as int),
    }
}

/// The rule that a complaint is about.
pub open spec fn subject_of(e: ConfigError) -> u8 {
    match e {
        ConfigError::Attack => 0,
        ConfigError::Release => 1,
        ConfigError::Ratio => 2,
        ConfigError::Amount => 3,
        ConfigError::MaxAttenuation => 4,
        ConfigError::BassReduction => 5,
        ConfigError::TransientSoftening => 6,
        ConfigError::DialogueProtection => 7,
        ConfigError::PresenceGain => 8,
        ConfigError::PresenceQ => 9,
        ConfigError::PresenceFrequency { .. } => 10,
        ConfigError::BassFrequency { .. } => 11,
        ConfigError::ModulationWeight => 12,
        ConfigError::ReferenceSlew => 13,
        ConfigError::Ceiling => 14,
        ConfigError::ReferenceLevel => 15,
        ConfigError::NoDialogueChannels { .. } => 16,
        ConfigError::DialogueChannel { .. } => 17,
        ConfigError::MonitorChannel { .. } => 18,
        ConfigError::ProcessChannel { .. } => 19,
    }
}

/// Whether a channel is the first of a list that does not exist.
pub open spec fn is_first_beyond(channel: usize, list: Seq<usize>, channels: usize) -> bool {
    exists|i: int|
        {
            &&& 0 <= i < list.len()
            &&& #[trigger] list[i] == channel
            &&& channel >= channels
            &&& forall|k: int| 0 <= k < i ==> list[k] < channels
        }
}

/// A complaint is about the first rule that is broken, and names the first channel that does not
/// exist.
pub proof fn law_complaint_is_about_the_first_broken_rule(
    samplerate: usize,
    config: NightModeParameters,
)
    ensures
        rejection(samplerate, config) matches Some(e) ==> {
            &&& !rule_is_kept(subject_of(e), samplerate, config)
            &&& forall|k: u8|
                k < subject_of(e) ==> #[trigger] rule_is_kept(k, samplerate, config)
            &&& e matches ConfigError::DialogueChannel { channel, .. } ==> is_first_beyond(
                channel,
                listed(config.dialogue_channels),
                config.channels,
            )
            &&& e matches ConfigError::MonitorChannel { channel, .. } ==> is_first_beyond(
                channel,
                listed(config.monitor_channels),
                config.channels,
            )
            &&& e matches ConfigError::ProcessChannel { channel, .. } ==> is_first_beyond(
                channel,
                listed(config.process_channels),
                config.channels,
            )
        },
{
    lemma_beyond(listed(config.dialogue_channels), config.channels);
    lemma_beyond(listed(config.monitor_channels), config.channels);
    lemma_beyond(listed(config.process_channels), config.channels);
}

/// A processor starts from silence: nothing has been heard, nothing is reduced, no confidence
/// and no trust has been gained, and the reference is the one that is pinned, or else -27 dB.
pub proof fn law_processor_starts_from_silence(
    name: Seq<char>,
    config: NightModeParameters,
    samplerate: usize,
    chunksize: usize,
)
    ensures
        ({
            let m = Model::fresh(name, config, samplerate, chunksize);
            let (e, f) = (m.listener.estimate, m.followers);
            &&& m.name == name
            &&& m.listener.sums.count == 0
            &&& m.listener.sums == summed(Seq::empty(), 0)
            &&& e.level_db == -200 * ONE
            &&& e.hops == 0
            &&& e.confidence == 0
            &&& e.modulation_energy == 0
            &&& !e.gate_open && e.gate_hold == 0
            &&& config.reference_level is None ==> e.reference_db == -27 * ONE
            &&& config.reference_level matches Some(level) ==> e.reference_db == level
            &&& f.env_slow_power == 0 && f.env_fast_power == 0
            &&& f.reduction_db == 0 && !f.catching_up && f.conf_smooth == 0
            &&& !m.clipping
        }),
{
}

} // verus!
