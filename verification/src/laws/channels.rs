//! What becomes of a channel, and what the detector and the level meter hear of it.
use crate::filters::{Biquad, BiquadCoefficients};
use crate::fixed::{
    clamped, lemma_prod_one, lemma_prod_share, lemma_prod_zero, negated, prod, quot, PrcFmt, HALF,
    ONE,
};
use crate::gain::Work;
use crate::laws::hearing::lemma_half;
use crate::laws::output::{all_different, covers, lemma_active_frames};
use crate::laws::reference::apart;
use crate::laws::sound::{lemma_share_of, moderate};
use crate::model::Model;
use crate::output::{driven, lifted, limited, shelved, too_loud, used, Output};
use crate::settings::Settings;
use crate::sidechain::{at_most, first_length, heard};
use crate::tuning::BASS_FULL_AT_DB;
use vstd::prelude::*;

verus! {

/// A sample comes out as the gain times what is left of it after the shelf has taken its depth
/// of the bass and the lift has added its depth of the presence, up to rounding.
pub proof fn law_sample_is_shelved_lifted_and_levelled(
    wave: Seq<PrcFmt>,
    lowpass: Biquad,
    bandpass: Biquad,
    works: Seq<Work>,
    j: int,
)
    requires
        0 <= j < wave.len(),
        moderate(4 * wave[j]),
        moderate(4 * lowpass.wave_output(wave, j)),
        moderate(4 * bandpass.wave_output(shelved(wave, lowpass, works, true), j)),
        0 <= works[j].bass <= ONE,
        0 <= works[j].presence <= ONE,
        0 <= works[j].gain <= ONE,
    ensures
        ({
            let bass = lowpass.wave_output(wave, j);
            let presence = bandpass.wave_output(shelved(wave, lowpass, works, true), j);
            apart(
                driven(wave, lowpass, bandpass, works, true, true)[j] * (ONE * ONE),
                (wave[j] * ONE - works[j].bass * bass + works[j].presence * presence)
                    * works[j].gain,
            ) <= 3 * (ONE * ONE)
        }),
{
    let shelf = shelved(wave, lowpass, works, true);
    let (bass, presence) = (lowpass.wave_output(wave, j), bandpass.wave_output(shelf, j));
    let work = works[j];
    lemma_share_of(work.bass, bass);
    lemma_share_of(work.presence, presence);
    lemma_prod_within(work.bass, bass);
    lemma_prod_within(work.presence, presence);
    let v = lifted(shelf, bandpass, works, true)[j];
    assert(v == wave[j] - prod(work.bass, bass) + prod(work.presence, presence));
    let exact = wave[j] * ONE - work.bass * bass + work.presence * presence;
    assert(apart(v * ONE, exact) <= 2 * ONE);
    lemma_share_of(work.gain, v);
    let g = work.gain as int;
    let r = driven(wave, lowpass, bandpass, works, true, true)[j] as int;
    assert(r == prod(v, work.gain));
    let w = ONE * ONE;
    assert(apart(r * ONE, g * v) <= ONE);
    assert(apart(r * w, exact * g) <= 3 * w) by (nonlinear_arith)
        requires
            -ONE <= r * ONE - g * v <= ONE,
            -2 * ONE <= v * ONE - exact <= 2 * ONE,
            0 <= g <= ONE,
            w == ONE * ONE,
            apart(r * w, exact * g) == r * w - exact * g || apart(r * w, exact * g) == exact * g
                - r * w,
    {
        assert(r * w - (g * v) * ONE <= w && (g * v) * ONE - r * w <= w) by {
            assert((r * ONE - g * v) * ONE == r * w - (g * v) * ONE);
        }
        assert((v * ONE - exact) * g <= 2 * ONE * g);
        assert((exact - v * ONE) * g <= 2 * ONE * g);
        assert(ONE * g <= w);
        assert((v * ONE - exact) * g == (g * v) * ONE - exact * g);
    }
}

/// A share of a sample is no larger than the sample.
proof fn lemma_prod_within(c: PrcFmt, v: PrcFmt)
    requires
        0 <= c <= ONE,
    ensures
        apart(prod(c, v) as int, 0) <= apart(v as int, 0),
{
    lemma_prod_share(v, c);
}

proof fn lemma_channel_alone(o: Output, i: int, n: int, works: Seq<Work>, s: Settings)
    requires
        all_different(s.process_channels),
        covers(o, s),
        0 <= i < s.process_channels.len(),
        0 <= n <= s.process_channels.len(),
    ensures
        ({
            let after = o.after_channels(n, works, s);
            let c = s.process_channels[i] as int;
            let wave = heard(o.waves[c], works.len() as int);
            let out = driven(
                wave,
                o.lowpass[i],
                o.bandpass[i],
                works,
                s.shelving(),
                s.lifting(),
            );
            &&& covers(after, s)
            &&& i >= n ==> after.waves[c] == o.waves[c] && after.lowpass[i] == o.lowpass[i]
                && after.bandpass[i] == o.bandpass[i]
            &&& i < n ==> after.waves[c] == limited(out, s.limiter) + o.waves[c].skip(
                wave.len() as int,
            )
            &&& i < n ==> after.lowpass[i] == used(o.lowpass[i], wave, s.shelving())
            &&& i < n && !s.lifting() ==> after.bandpass[i] == o.bandpass[i]
            &&& i < n && too_loud(out, s.limiter) ==> after.clipped
            &&& o.clipped ==> after.clipped
        }),
    decreases n,
{
    if n > 0 {
        lemma_channel_alone(o, i, n - 1, works, s);
        lemma_channel_alone(o, n - 1, n - 1, works, s);
        let list = s.process_channels;
        let x = o.after_channels(n - 1, works, s);
        assert(list[n - 1] < x.waves.len());
        assert(list[i] < x.waves.len());
        if n - 1 < i {
            assert(list[n - 1] != list[i]);
        } else if n - 1 > i {
            assert(list[i] != list[n - 1]);
        }
    }
}

/// A shelf or a lift of no depth makes nothing of a channel.
proof fn lemma_no_depth(
    wave: Seq<PrcFmt>,
    lowpass: Biquad,
    bandpass: Biquad,
    works: Seq<Work>,
    shelving: bool,
    lifting: bool,
)
    requires
        !shelving ==> forall|j: int| 0 <= j < wave.len() ==> (#[trigger] works[j]).bass == 0,
        !lifting ==> forall|j: int| 0 <= j < wave.len() ==> (#[trigger] works[j]).presence == 0,
    ensures
        driven(wave, lowpass, bandpass, works, true, true) == driven(
            wave,
            lowpass,
            bandpass,
            works,
            shelving,
            lifting,
        ),
        shelved(wave, lowpass, works, true) == shelved(wave, lowpass, works, shelving),
{
    let shelf = shelved(wave, lowpass, works, true);
    assert forall|j: int| 0 <= j < wave.len() && !shelving implies #[trigger] shelf[j]
        == wave[j] by {
        assert(works[j].bass == 0);
        lemma_prod_zero(lowpass.wave_output(wave, j));
    }
    assert(shelf =~= shelved(wave, lowpass, works, shelving));
    let lift = lifted(shelf, bandpass, works, true);
    assert forall|j: int| 0 <= j < wave.len() && !lifting implies #[trigger] lift[j]
        == shelf[j] by {
        assert(works[j].presence == 0);
        lemma_prod_zero(bandpass.wave_output(shelf, j));
    }
    assert(lift =~= lifted(shelf, bandpass, works, lifting));
}

/// Where the ceiling is not hit, every processed sample comes out as the gain times what the
/// shelf and the lift have made of it, by the filters of its own channel. So it is as soon as
/// there is an amount or a lift.
pub proof fn law_processed_sample_is_shelved_lifted_and_levelled(
    m: Model,
    waves: Seq<Seq<PrcFmt>>,
    i: int,
    j: int,
)
    requires
        m.wf(),
        m.settings.valid(),
        m.settings.amount > 0 || m.settings.presence_depth_max > 0,
        m.accepts(waves),
        all_different(m.settings.process_channels),
        0 <= i < m.settings.process_channels.len(),
        !m.after_chunk(waves).clipping,
        m.active_frames(waves) matches Some(frames) && {
            let wave = heard(waves[m.settings.process_channels[i] as int], frames);
            let (low, band) = (m.bank.bass_lowpass[i], m.bank.presence_bandpass[i]);
            let works = m.chunk_works(waves, frames);
            let work = works[j];
            &&& 0 <= j < wave.len()
            &&& moderate(4 * wave[j])
            &&& moderate(4 * low.wave_output(wave, j))
            &&& moderate(4 * band.wave_output(shelved(wave, low, works, true), j))
            &&& 0 <= work.bass <= ONE
            &&& 0 <= work.presence <= ONE
            &&& 0 <= work.gain <= ONE
        },
    ensures
        ({
            let frames = m.active_frames(waves)->0;
            let c = m.settings.process_channels[i] as int;
            let wave = heard(waves[c], frames);
            let works = m.chunk_works(waves, frames);
            let (low, band) = (m.bank.bass_lowpass[i], m.bank.presence_bandpass[i]);
            let bass = low.wave_output(wave, j);
            let presence = band.wave_output(shelved(wave, low, works, true), j);
            apart(
                m.processed(waves)[c][j] * (ONE * ONE),
                (waves[c][j] * ONE - works[j].bass * bass + works[j].presence * presence)
                    * works[j].gain,
            ) <= 3 * (ONE * ONE)
        }),
{
    let frames = m.active_frames(waves)->0;
    let s = m.settings;
    let c = s.process_channels[i] as int;
    let wave = heard(waves[c], frames);
    let works = m.chunk_works(waves, frames);
    assert(works.len() == frames) by {
        lemma_active_frames(m, waves);
    }
    let o = Output {
        waves,
        lowpass: m.bank.bass_lowpass,
        bandpass: m.bank.presence_bandpass,
        clipped: false,
    };
    lemma_channel_alone(o, i, s.process_channels.len() as int, works, s);
    assert forall|k: int| 0 <= k < wave.len() && s.bass_depth_max == 0 implies (
    #[trigger] works[k]).bass == 0 by {
        lemma_depthless(m, waves, frames, k);
    }
    assert forall|k: int| 0 <= k < wave.len() && s.presence_depth_max == 0 implies (
    #[trigger] works[k]).presence == 0 by {
        lemma_depthless(m, waves, frames, k);
    }
    let (low, band) = (m.bank.bass_lowpass[i], m.bank.presence_bandpass[i]);
    lemma_no_depth(wave, low, band, works, s.shelving(), s.lifting());
    law_sample_is_shelved_lifted_and_levelled(wave, low, band, works, j);
}

/// What has no depth is not asked for.
proof fn lemma_depthless(m: Model, waves: Seq<Seq<PrcFmt>>, frames: int, k: int)
    requires
        0 <= k < m.power(waves, frames).len(),
    ensures
        m.settings.bass_depth_max == 0 ==> m.chunk_works(waves, frames)[k].bass == 0,
        m.settings.presence_depth_max == 0 ==> m.chunk_works(waves, frames)[k].presence == 0,
{
    let x = m.measured(waves, frames);
    let power = m.power(waves, frames);
    let f = x.followers.after_frames(power, k + 1, x.settings, x.setup, x.guide());
    let applied = f.applied_db(x.settings, x.guide().reference_db);
    lemma_prod_zero(clamped(quot(negated(applied), BASS_FULL_AT_DB), 0, ONE));
    lemma_prod_zero(f.conf_smooth);
}

/// Filters of a shelf or a lift that has no depth stand still, and the others hear every sample.
pub proof fn law_idle_filters_stand_still(m: Model, waves: Seq<Seq<PrcFmt>>, i: int)
    requires
        m.wf(),
        m.settings.valid(),
        m.accepts(waves),
        all_different(m.settings.process_channels),
        0 <= i < m.settings.process_channels.len(),
    ensures
        m.settings.bass_depth_max == 0 ==> m.after_chunk(waves).bank.bass_lowpass[i]
            == m.bank.bass_lowpass[i],
        m.settings.presence_depth_max == 0 ==> m.after_chunk(waves).bank.presence_bandpass[i]
            == m.bank.presence_bandpass[i],
        m.active_frames(waves) matches Some(frames) ==> (m.settings.bass_depth_max > 0
            && m.settings.amount > 0 ==> m.after_chunk(waves).bank.bass_lowpass[i]
            == m.bank.bass_lowpass[i].after_all(
            heard(waves[m.settings.process_channels[i] as int], frames),
        )),
{
    if m.active_frames(waves) is Some && m.settings.active() {
        let frames = m.active_frames(waves)->0;
        let works = m.chunk_works(waves, frames);
        assert(works.len() == frames) by {
            lemma_active_frames(m, waves);
        }
        let o = Output {
            waves,
            lowpass: m.bank.bass_lowpass,
            bandpass: m.bank.presence_bandpass,
            clipped: false,
        };
        lemma_channel_alone(
            o,
            i,
            m.settings.process_channels.len() as int,
            works,
            m.settings,
        );
    }
}

/// Where the ceiling is not hit, a higher one makes no difference.
pub proof fn law_ceiling_matters_only_where_it_is_hit(
    o: Output,
    n: int,
    works: Seq<Work>,
    s: Settings,
    t: Settings,
)
    requires
        t == (Settings { limiter: t.limiter, ..s }),
        s.limiter.clip_limit <= t.limiter.clip_limit,
        !o.after_channels(n, works, s).clipped,
    ensures
        o.after_channels(n, works, t) == o.after_channels(n, works, s),
    decreases n,
{
    if n > 0 {
        law_ceiling_matters_only_where_it_is_hit(o, n - 1, works, s, t);
    }
}

/// Whether the ceiling was hit is told of the last chunk alone.
pub proof fn law_clipping_is_told_of_the_last_chunk(m: Model, waves: Seq<Seq<PrcFmt>>, before: bool)
    requires
        m.settings.active(),
        m.active_frames(waves) is Some,
    ensures
        (Model { clipping: before, ..m }).after_chunk(waves) == m.after_chunk(waves),
{
    let k = Model { clipping: before, ..m };
    let frames = m.active_frames(waves)->0;
    assert(k.sidechain(waves, frames) =~= m.sidechain(waves, frames));
    let (x, y) = (m.measured(waves, frames), k.measured(waves, frames));
    assert(y == (Model { clipping: before, ..x }));
}

/// Coefficients that let everything through as it is.
pub open spec fn transparent() -> BiquadCoefficients {
    BiquadCoefficients { a1: 0, a2: 0, b0: ONE, b1: 0, b2: 0 }
}

proof fn lemma_transparent(wave: Seq<PrcFmt>, n: int)
    requires
        0 <= n <= wave.len(),
    ensures
        Biquad::fresh(transparent()).after_wave(wave, n) == Biquad::fresh(transparent()),
        n < wave.len() ==> Biquad::fresh(transparent()).wave_output(wave, n) == wave[n],
    decreases n,
{
    if n < wave.len() {
        lemma_prod_one(wave[n]);
    }
    if n > 0 {
        lemma_transparent(wave, n - 1);
        lemma_prod_zero(wave[n - 1]);
        lemma_prod_zero(Biquad::fresh(transparent()).output(wave[n - 1]));
    }
}

/// The speech band of a side is cut out of it by the two filters of that side: with one of them
/// transparent, it is what the other one lets through of the side.
pub proof fn law_speech_band_is_cut_out_on_both_sides(
    m: Model,
    waves: Seq<Seq<PrcFmt>>,
    frames: int,
    right: bool,
    j: int,
)
    requires
        m.settings.dialogue_channels is None,
        waves.len() >= 2,
        waves[0].len() >= frames,
        waves[1].len() >= frames,
        0 <= j < frames,
    ensures
        ({
            let k: int = if right {
                1
            } else {
                0
            };
            let side = waves[k].take(frames);
            let (high, low) = (m.bank.speech_highpass[k], m.bank.speech_lowpass[k]);
            let frame = m.sidechain(waves, frames)[j];
            let speech = if right {
                frame.right
            } else {
                frame.left
            };
            &&& low == Biquad::fresh(transparent()) ==> speech == high.wave_output(side, j)
            &&& high == Biquad::fresh(transparent()) ==> speech == low.wave_output(side, j)
        }),
{
    let k: int = if right {
        1
    } else {
        0
    };
    let side = waves[k].take(frames);
    let (high, low) = (m.bank.speech_highpass[k], m.bank.speech_lowpass[k]);
    assert(m.side(waves, frames, right) == side);
    let above = high.filtered(side);
    lemma_transparent(above, j);
    if high == Biquad::fresh(transparent()) {
        assert forall|i: int| 0 <= i < side.len() implies #[trigger] above[i] == side[i] by {
            lemma_transparent(side, i);
        }
        assert(above =~= side);
    }
}

/// The centre of a stereo pair has the power of half the sum of its sides, up to rounding.
pub proof fn law_centre_is_half_the_sum(m: Model, waves: Seq<Seq<PrcFmt>>, frames: int, j: int)
    requires
        m.settings.dialogue_channels is None,
        0 <= j < frames,
        waves[0].len() >= frames,
        waves[1].len() >= frames,
        -0x10_0000_0000_0000_0000_0000_0000 <= waves[0][j] <= 0x10_0000_0000_0000_0000_0000_0000,
        -0x10_0000_0000_0000_0000_0000_0000 <= waves[1][j] <= 0x10_0000_0000_0000_0000_0000_0000,
    ensures
        ({
            let both = waves[0][j] + waves[1][j];
            apart(4 * (m.sidechain(waves, frames)[j].mid * ONE), both * both) <= 4 * ONE + 2
                * apart(both, 0)
        }),
{
    let both = waves[0][j] + waves[1][j];
    lemma_half(both, prod(HALF, both as PrcFmt));
}

/// Of a stereo pair that has only one side, the detector hears nothing.
pub proof fn law_half_a_pair_is_not_heard(m: Model, waves: Seq<Seq<PrcFmt>>, frames: int, j: int)
    requires
        m.settings.dialogue_channels is None,
        waves[0].len() == 0 || waves[1].len() == 0,
        0 <= j < frames,
    ensures
        m.sidechain(waves, frames)[j].mid == 0,
        m.sidechain(waves, frames)[j].left == 0,
        m.sidechain(waves, frames)[j].right == 0,
{
}

/// A chunk carries as many frames as its first monitored channel that is not empty, but no more
/// than fit, and none where all of them are empty.
pub proof fn law_frames_are_those_of_the_first_monitor(m: Model, waves: Seq<Seq<PrcFmt>>)
    ensures
        m.active_frames(waves) is None <==> (forall|i: int|
            0 <= i < m.settings.monitor_channels.len()
                ==> waves[#[trigger] m.settings.monitor_channels[i] as int].len() == 0),
        m.active_frames(waves) matches Some(frames) ==> exists|i: int|
            {
                &&& 0 <= i < m.settings.monitor_channels.len()
                &&& waves[#[trigger] m.settings.monitor_channels[i] as int].len() > 0
                &&& frames == at_most(
                    waves[m.settings.monitor_channels[i] as int].len() as int,
                    m.setup.chunksize,
                )
                &&& forall|k: int|
                    0 <= k < i ==> waves[#[trigger] m.settings.monitor_channels[k] as int].len()
                        == 0
            },
{
    lemma_first_length(m.settings.monitor_channels, waves, 0);
}

proof fn lemma_first_length(list: Seq<usize>, waves: Seq<Seq<PrcFmt>>, n: int)
    requires
        0 <= n <= list.len(),
    ensures
        first_length(list, waves, n) is None <==> (forall|i: int|
            n <= i < list.len() ==> waves[#[trigger] list[i] as int].len() == 0),
        first_length(list, waves, n) matches Some(len) ==> exists|i: int|
            {
                &&& n <= i < list.len()
                &&& waves[#[trigger] list[i] as int].len() > 0
                &&& len == waves[list[i] as int].len()
                &&& forall|k: int| n <= k < i ==> waves[#[trigger] list[k] as int].len() == 0
            },
    decreases list.len() - n,
{
    if n < list.len() {
        lemma_first_length(list, waves, n + 1);
        if waves[list[n] as int].len() > 0 {
            assert(first_length(list, waves, n) == Some(waves[list[n] as int].len() as int));
        } else if first_length(list, waves, n + 1) is Some {
            let len = first_length(list, waves, n + 1)->0;
            let i = choose|i: int|
                {
                    &&& n + 1 <= i < list.len()
                    &&& waves[#[trigger] list[i] as int].len() > 0
                    &&& len == waves[list[i] as int].len()
                    &&& forall|k: int|
                        n + 1 <= k < i ==> waves[#[trigger] list[k] as int].len() == 0
                };
            assert(waves[list[i] as int].len() > 0);
        }
    }
}

} // verus!
