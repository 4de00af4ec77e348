//! Laws of switching off, of having nothing to hear, and of changing the configuration.
use crate::config::{listed, NightModeParameters};
use crate::decibels::lemma_linear_zero;
use crate::filters::Biquad;
use crate::fixed::{lemma_prod_zero, lemma_quot_zero, PrcFmt, ONE};
use crate::gain::Followers;
use crate::laws::gain::{
    below_thresholds, law_quiet_frames_are_untouched, law_shelf_follows_reduction,
};
use crate::laws::output::{inert, law_chunk_passes_untouched, lemma_active_frames};
use crate::model::{tuned_to, Model};
use crate::output::too_loud;
use crate::settings::{sidechain_design, Settings};
use crate::sidechain::{all_within, first_length, heard};
use crate::tuning::HUNDRED_PERCENT;
use crate::validation::{beyond, first_beyond, rejection};
use vstd::prelude::*;

verus! {

/// With an amount of zero and no presence boost the processor is inactive.
pub proof fn law_zero_amount_switches_off(
    config: NightModeParameters,
    samplerate: usize,
    hop_frames: usize,
)
    requires
        config.amount() == 0,
        config.presence_gain() == 0,
    ensures
        !Settings::of(config, samplerate, hop_frames).active(),
{
    lemma_quot_zero(HUNDRED_PERCENT);
    lemma_linear_zero();
}

/// An inactive processor leaves the audio bit for bit as it is. It still listens, and it
/// still follows the level.
pub proof fn law_inactive_leaves_audio_alone(m: Model, waves: Seq<Seq<PrcFmt>>)
    requires
        !m.settings.active(),
    ensures
        m.processed(waves) == waves,
        m.after_chunk(waves).clipping == m.clipping,
        m.active_frames(waves) matches Some(frames) ==> m.after_chunk(waves) == m.measured(
            waves,
            frames,
        ).with_gain(m.power(waves, frames)),
{
}

/// With an amount of zero there is no reduction and no shelf, only what presence adds.
pub proof fn law_zero_amount_is_no_reduction(f: Followers, s: Settings, reference_db: PrcFmt)
    requires
        s.amount == 0,
        s.max_attenuation >= 0,
    ensures
        f.work(s, reference_db).gain == ONE,
        f.work(s, reference_db).bass == 0,
{
    lemma_prod_zero(f.total_db(s, reference_db));
    lemma_linear_zero();
    law_shelf_follows_reduction(f, s, reference_db);
}

/// Without bass reduction there is no shelf.
pub proof fn law_no_bass_reduction_is_no_shelf(
    config: NightModeParameters,
    samplerate: usize,
    hop_frames: usize,
)
    requires
        config.bass_reduction() == 0,
    ensures
        !Settings::of(config, samplerate, hop_frames).shelving(),
{
    lemma_linear_zero();
}

/// Without presence gain there is no lift.
pub proof fn law_no_presence_gain_is_no_lift(
    config: NightModeParameters,
    samplerate: usize,
    hop_frames: usize,
)
    requires
        config.presence_gain() == 0,
    ensures
        !Settings::of(config, samplerate, hop_frames).lifting(),
{
    lemma_linear_zero();
}

/// A chunk that is quiet throughout passes bit for bit, if nothing was being reduced, there is
/// no presence boost, and nothing is above the ceiling.
pub proof fn law_quiet_chunk_passes_untouched(m: Model, waves: Seq<Seq<PrcFmt>>, frames: int)
    requires
        m.healthy(),
        m.accepts(waves),
        m.active_frames(waves) == Some(frames),
        m.followers.reduction_db == 0,
        m.settings.presence_depth_max == 0,
        forall|j: int|
            0 <= j < frames ==> below_thresholds(
                #[trigger] m.followers.after_frames(
                    m.power(waves, frames),
                    j + 1,
                    m.settings,
                    m.setup,
                    m.measured(waves, frames).guide(),
                ),
                m.settings,
                m.measured(waves, frames).guide().reference_db,
            ),
        forall|i: int|
            0 <= i < m.settings.process_channels.len() ==> !too_loud(
                heard(waves[#[trigger] m.settings.process_channels[i] as int], frames),
                m.settings.limiter,
            ),
    ensures
        m.processed(waves) == waves,
        m.after_chunk(waves).followers.reduction_db == 0,
{
    let power = m.power(waves, frames);
    let guide = m.measured(waves, frames).guide();
    lemma_active_frames(m, waves);
    law_quiet_frames_are_untouched(m.followers, power, frames, m.settings, m.setup, guide);
    assert forall|j: int| 0 <= j < frames implies inert(
        #[trigger] m.chunk_works(waves, frames)[j],
    ) by {
        let work = m.followers.works(power, m.settings, m.setup, guide)[j];
        assert(work == m.chunk_works(waves, frames)[j]);
        lemma_prod_zero(
            m.followers.after_frames(
                power,
                j + 1,
                m.settings,
                m.setup,
                guide,
            ).conf_smooth,
        );
    }
    law_chunk_passes_untouched(m, waves);
}

/// There is nothing to hear where every listed channel is empty.
pub proof fn lemma_nothing_to_hear(list: Seq<usize>, waves: Seq<Seq<PrcFmt>>, n: int)
    requires
        0 <= n <= list.len(),
    ensures
        first_length(list, waves, n) is None <==> forall|i: int|
            n <= i < list.len() ==> waves[#[trigger] list[i] as int].len() == 0,
    decreases list.len() - n,
{
    if n < list.len() {
        lemma_nothing_to_hear(list, waves, n + 1);
        assert(waves[list[n] as int].len() == 0 || first_length(list, waves, n) is Some);
    }
}

/// A chunk in which every monitored channel is empty changes nothing at all.
pub proof fn law_unused_monitors_change_nothing(m: Model, waves: Seq<Seq<PrcFmt>>)
    requires
        forall|i: int|
            0 <= i < m.settings.monitor_channels.len() ==> waves[#[trigger]
                m.settings.monitor_channels[i] as int].len() == 0,
    ensures
        m.after_chunk(waves) == m,
        m.processed(waves) == waves,
{
    lemma_nothing_to_hear(m.settings.monitor_channels, waves, 0);
}

/// A new configuration loses nothing that was learned: neither the reference (unless it pins
/// one) nor the confidence, the hop under way or the reduction in force.
pub proof fn law_update_keeps_what_was_learned(m: Model, config: NightModeParameters)
    ensures
        ({
            let after = m.updated(config);
            &&& after.name == m.name
            &&& after.setup == m.setup
            &&& after.followers == m.followers
            &&& after.listener.sums == m.listener.sums
            &&& after.clipping == m.clipping
            &&& config.reference_level is None ==> after.listener == m.listener
            &&& config.reference_level matches Some(level)
                ==> after.listener.estimate.reference_db == level
            &&& after.listener.estimate.confidence == m.listener.estimate.confidence
            &&& after.listener.estimate.gate_open == m.listener.estimate.gate_open
            &&& after.listener.estimate.gate_hold == m.listener.estimate.gate_hold
            &&& after.listener.estimate.hops == m.listener.estimate.hops
        }),
{
}

/// Whether two filters have the same history.
pub open spec fn same_history(a: Biquad, b: Biquad) -> bool {
    a.s1 == b.s1 && a.s2 == b.s2
}

/// A new configuration keeps the history of every filter that it does not have to make anew.
pub proof fn law_update_keeps_filter_history(m: Model, config: NightModeParameters)
    requires
        m.wf(),
    ensures
        ({
            let after = m.updated(config);
            &&& after.bank.speech_highpass == m.bank.speech_highpass
            &&& after.bank.speech_lowpass == m.bank.speech_lowpass
            &&& after.bank.sidechain_highpass.len() == after.settings.monitor_channels.len()
            &&& after.bank.bass_lowpass.len() == after.settings.process_channels.len()
            &&& after.bank.presence_bandpass.len() == after.settings.process_channels.len()
            &&& after.settings.monitor_channels.len() == m.settings.monitor_channels.len()
                ==> after.bank.sidechain_highpass == m.bank.sidechain_highpass
            &&& after.settings.process_channels.len() == m.settings.process_channels.len()
                ==> forall|i: int|
                0 <= i < m.settings.process_channels.len() ==> same_history(
                    #[trigger] after.bank.bass_lowpass[i],
                    m.bank.bass_lowpass[i],
                )
            &&& after.settings.process_channels.len() == m.settings.process_channels.len()
                ==> forall|i: int|
                0 <= i < m.settings.process_channels.len() ==> same_history(
                    #[trigger] after.bank.presence_bandpass[i],
                    m.bank.presence_bandpass[i],
                )
        }),
{
}

/// A new configuration leaves every filter with the tuning that it asks for.
pub proof fn law_update_tunes_every_filter(m: Model, config: NightModeParameters)
    requires
        m.wf(),
        m.tuned(),
    ensures
        m.updated(config).tuned(),
{
}

/// Whether two lists of filters are as long and tuned alike.
pub open spec fn same_tuning(a: Seq<Biquad>, b: Seq<Biquad>) -> bool {
    &&& a.len() == b.len()
    &&& forall|i: int| 0 <= i < a.len() ==> (#[trigger] a[i]).coeffs == b[i].coeffs
}

/// A processor with a new configuration, whatever it was and has heard before, agrees with a
/// fresh one in all that follows from the configuration.
pub proof fn law_updated_agrees_with_fresh(m: Model, config: NightModeParameters)
    requires
        m.healthy(),
        config.channels == m.setup.channels,
    ensures
        ({
            let updated = m.updated(config);
            let fresh = Model::fresh(
                m.name,
                config,
                m.setup.samplerate,
                m.setup.chunksize as usize,
            );
            &&& updated.name == fresh.name
            &&& updated.setup == fresh.setup
            &&& updated.settings == fresh.settings
            &&& same_tuning(updated.bank.sidechain_highpass, fresh.bank.sidechain_highpass)
            &&& same_tuning(updated.bank.speech_highpass, fresh.bank.speech_highpass)
            &&& same_tuning(updated.bank.speech_lowpass, fresh.bank.speech_lowpass)
            &&& same_tuning(updated.bank.bass_lowpass, fresh.bank.bass_lowpass)
            &&& same_tuning(updated.bank.presence_bandpass, fresh.bank.presence_bandpass)
            &&& updated.listener.estimate.bandpass.coeffs
                == fresh.listener.estimate.bandpass.coeffs
            &&& config.reference_level is Some ==> updated.listener.estimate.reference_db
                == fresh.listener.estimate.reference_db
        }),
{
    law_update_tunes_every_filter(m, config);
    let updated = m.updated(config);
    assert(tuned_to(updated.bank.sidechain_highpass, sidechain_design(m.setup.samplerate)));
    assert(updated.setup == m.setup);
}

/// A configuration that is already in force changes nothing.
pub proof fn law_same_configuration_changes_nothing(m: Model, config: NightModeParameters)
    requires
        m.healthy(),
        m.settings == Settings::of(config, m.setup.samplerate, m.setup.hop_frames),
    ensures
        m.updated(config) == m,
{
}

/// Applying a configuration twice is applying it once.
pub proof fn law_update_is_idempotent(m: Model, config: NightModeParameters)
    ensures
        m.updated(config).updated(config) == m.updated(config),
{
    let once = m.updated(config);
    let twice = once.updated(config);
    assert(twice.settings == once.settings);
    assert(twice.bank.sidechain_highpass =~= once.bank.sidechain_highpass);
    assert(twice.bank.bass_lowpass =~= once.bank.bass_lowpass);
    assert(twice.bank.presence_bandpass =~= once.bank.presence_bandpass);
}

/// A processor that has heard nothing and gets a new configuration is the processor that the
/// new configuration makes, if no level was pinned before.
pub proof fn law_early_update_is_a_fresh_start(
    name: Seq<char>,
    before: NightModeParameters,
    config: NightModeParameters,
    samplerate: usize,
    chunksize: usize,
)
    requires
        before.channels == config.channels,
        before.reference_level is None || config.reference_level is Some,
    ensures
        Model::fresh(name, before, samplerate, chunksize).updated(config) == Model::fresh(
            name,
            config,
            samplerate,
            chunksize,
        ),
{
    let old_start = Model::fresh(name, before, samplerate, chunksize);
    let updated = old_start.updated(config);
    let fresh = Model::fresh(name, config, samplerate, chunksize);
    assert(updated.settings == fresh.settings);
    assert(updated.bank.sidechain_highpass =~= fresh.bank.sidechain_highpass);
    assert(updated.bank.bass_lowpass =~= fresh.bank.bass_lowpass);
    assert(updated.bank.presence_bandpass =~= fresh.bank.presence_bandpass);
}

proof fn lemma_all_within(list: Seq<usize>, channels: usize)
    requires
        beyond(list, channels) is None,
    ensures
        all_within(list, channels as int),
{
    if !all_within(list, channels as int) {
        let i = choose|i: int| 0 <= i < list.len() && (#[trigger] list[i]) >= channels;
        lemma_first_beyond(list, channels, i);
    }
}

proof fn lemma_first_beyond(list: Seq<usize>, channels: usize, i: int)
    requires
        0 <= i < list.len(),
        list[i] >= channels,
    ensures
        exists|k: int| first_beyond(list, channels, k),
    decreases i,
{
    if exists|j: int| 0 <= j < i && list[j] >= channels {
        let j = choose|j: int| 0 <= j < i && list[j] >= channels;
        lemma_first_beyond(list, channels, j);
    } else {
        assert(first_beyond(list, channels, i));
    }
}

/// Channels that are all as long, or empty, have that length.
pub proof fn lemma_first_length_is(list: Seq<usize>, waves: Seq<Seq<PrcFmt>>, n: int, len: int)
    requires
        all_within(list, waves.len() as int),
        0 <= n,
        forall|c: int|
            0 <= c < waves.len() ==> (#[trigger] waves[c]).len() == 0 || waves[c].len() == len,
    ensures
        first_length(list, waves, n) matches Some(l) ==> l == len,
    decreases list.len() - n,
{
    if n < list.len() {
        assert(list[n] < waves.len());
        assert(waves[list[n] as int].len() == 0 || waves[list[n] as int].len() == len);
        lemma_first_length_is(list, waves, n + 1, len);
    }
}

/// A processor with an accepted configuration takes every chunk that has all its channels,
/// each of them either unused or as long as the others.
pub proof fn law_accepted_processor_takes_whole_chunks(
    m: Model,
    config: NightModeParameters,
    waves: Seq<Seq<PrcFmt>>,
    len: int,
)
    requires
        rejection(m.setup.samplerate, config) is None,
        m.settings == Settings::of(config, m.setup.samplerate, m.setup.hop_frames),
        waves.len() == config.channels,
        forall|c: int|
            0 <= c < waves.len() ==> (#[trigger] waves[c]).len() == 0 || waves[c].len() == len,
    ensures
        m.accepts(waves),
{
    lemma_all_within(listed(config.dialogue_channels), config.channels);
    lemma_all_within(listed(config.monitor_channels), config.channels);
    lemma_all_within(listed(config.process_channels), config.channels);
    lemma_first_length_is(m.settings.monitor_channels, waves, 0, len);
    assert(waves.len() >= 2 ==> (waves[0].len() == 0 || waves[0].len() == len));
    assert(waves.len() >= 2 ==> (waves[1].len() == 0 || waves[1].len() == len));
}

} // verus!
