//! How little the size of the chunks has to do with the gain.
use crate::fixed::{clamped, cut, negated, prod, quot, PrcFmt, ONE};
use crate::gain::{slow_target, Followers};
use crate::hops::Frame;
use crate::laws::chunks::{law_hops_run_on, listens_within};
use crate::laws::chunksize::{
    fed, hears, lemma_listening_at_any_size, lemma_measured_at_any_size, spliced, stream, total,
};
use crate::laws::constants::lemma_cut_scaled;
use crate::laws::cutting::{
    applied_gap, ceiling, depth, law_near_followers_apply_near_reductions, lemma_prod_apart,
    lemma_prod_near, lemma_reducing_near, lemma_smoothed_near, lemma_target_near, near, sound,
};
use crate::laws::health::{
    law_frame_keeps_followers, law_frames_keep_health, lemma_target_is_no_boost,
};
use crate::laws::moments::{
    after_moments, chained, end_of, law_frames_are_told_by_their_chunk, law_stream_is_one_chain,
    moments, told, Moment,
};
use crate::laws::reference::{
    apart, confidence_pace, law_confidence_pace_is_limited, law_reference_slew_is_limited,
    law_switched_off_detector_stands_still,
};
use crate::laws::steady::levels;
use crate::model::Model;
use crate::settings::{Settings, Setup};
use crate::tuning::BASS_FULL_AT_DB;
use vstd::prelude::*;

verus! {

/// The most hops that can end in some frames.
pub open spec fn hops_within(u: Setup, frames: int) -> int {
    (u.hop_frames - 1 + frames) / (u.hop_frames as int)
}

/// What some audio tells at two times that are not far apart.
proof fn lemma_told_near(m: Model, side: Seq<Frame>, t: int, r: int, gap: int)
    requires
        m.healthy(),
        0 <= t <= r <= side.len(),
        r - t <= gap,
    ensures
        0 <= told(m, side, t).confidence <= ONE,
        0 <= told(m, side, r).confidence <= ONE,
        apart(
            told(m, side, r).reference_db as int,
            told(m, side, t).reference_db as int,
        ) <= m.settings.reference_step * hops_within(m.setup, gap),
        m.settings.reference_pinned is Some ==> told(m, side, r).reference_db == told(
            m,
            side,
            t,
        ).reference_db,
        apart(
            told(m, side, r).confidence as int,
            told(m, side, t).confidence as int,
        ) <= confidence_pace(m.setup) * hops_within(m.setup, gap),
{
    let (l, s, u) = (m.listener, m.settings, m.setup);
    let (x, y) = (side.take(t), side.skip(t));
    assert(side =~= x + y);
    law_hops_run_on(l, x, y, t, s, u);
    law_hops_run_on(l, x, y, r, s, u);
    law_frames_keep_health(l, side, t, s, u);
    law_frames_keep_health(l, side, r, s, u);
    let then = l.after_frames(side, t, s, u);
    law_reference_slew_is_limited(then, y, r - t, s, u);
    law_confidence_pace_is_limited(then, y, r - t, s, u);
    let h = u.hop_frames as int;
    let (few, most) = ((then.sums.count + (r - t)) / h, hops_within(u, gap));
    vstd::arithmetic::div_mod::lemma_div_is_ordered(then.sums.count + (r - t), h - 1 + gap, h);
    let (step, pace) = (s.reference_step as int, confidence_pace(u));
    assert(step * few <= step * most && pace * few <= pace * most) by (nonlinear_arith)
        requires
            step >= 0,
            pace >= 0,
            few <= most,
    ;
}

/// Whether two ways of hearing the same frames are told nearly the same, and catch up in the
/// same frames.
pub open spec fn nearly_alike(
    ms: Seq<Moment>,
    os: Seq<Moment>,
    confidence: int,
    reference: int,
) -> bool {
    &&& ms.len() == os.len()
    &&& forall|i: int|
        0 <= i < ms.len() ==> {
            &&& 0 <= (#[trigger] ms[i]).guide.confidence <= ONE
            &&& 0 <= os[i].guide.confidence <= ONE
            &&& apart(ms[i].guide.confidence as int, os[i].guide.confidence as int) <= confidence
            &&& apart(ms[i].guide.reference_db as int, os[i].guide.reference_db as int)
                <= reference
            &&& ms[i].followers.catching_up == os[i].followers.catching_up
        }
}

/// One more frame of two ways that are near.
proof fn lemma_near_frame(
    x: Followers,
    y: Followers,
    v: PrcFmt,
    a: Moment,
    b: Moment,
    s: Settings,
    u: Setup,
    confidence: int,
    reduction: int,
)
    requires
        s.valid(),
        u.valid(),
        sound(x),
        sound(y),
        near(x, y, confidence, reduction),
        a.followers == x.after_frame(v, s, u, a.guide),
        b.followers == y.after_frame(v, s, u, b.guide),
        0 <= a.guide.confidence <= ONE,
        0 <= b.guide.confidence <= ONE,
        apart(a.guide.confidence as int, b.guide.confidence as int) <= confidence,
        apart(a.guide.reference_db as int, b.guide.reference_db as int) <= reduction,
        a.followers.catching_up == b.followers.catching_up,
    ensures
        sound(a.followers),
        sound(b.followers),
        near(a.followers, b.followers, confidence + 1, reduction + 1),
{
    let (g, h) = (a.guide, b.guide);
    law_frame_keeps_followers(x, v, s, u, g);
    law_frame_keeps_followers(y, v, s, u, h);
    lemma_smoothed_near(
        u.confidence_to_gain,
        x.conf_smooth,
        y.conf_smooth,
        g.confidence,
        h.confidence,
        confidence,
    );
    let (p, q) = (x.following(v, g.confidence, s, u), y.following(v, h.confidence, s, u));
    let (t, r) = (
        slow_target(p.slow_db(), s, g.reference_db),
        slow_target(q.slow_db(), s, h.reference_db),
    );
    lemma_target_is_no_boost(p.slow_db(), s, g.reference_db);
    lemma_target_is_no_boost(q.slow_db(), s, h.reference_db);
    lemma_target_near(p.slow_db(), s, g.reference_db, h.reference_db);
    lemma_reducing_near(p, q, t, r, s, reduction);
}

/// Two ways of hearing the same frames that are told nearly the same stay near for as long as
/// they last: all that grows is a step of rounding per frame.
pub proof fn law_near_chains_stay_near(
    f: Followers,
    ms: Seq<Moment>,
    os: Seq<Moment>,
    power: Seq<PrcFmt>,
    n: int,
    s: Settings,
    u: Setup,
    confidence: int,
    reference: int,
)
    requires
        s.valid(),
        u.valid(),
        sound(f),
        chained(f, ms, power, s, u),
        chained(f, os, power, s, u),
        nearly_alike(ms, os, confidence, reference),
        0 <= n <= ms.len(),
        confidence >= 0,
        reference >= 0,
    ensures
        sound(after_moments(f, ms, n)),
        sound(after_moments(f, os, n)),
        near(after_moments(f, ms, n), after_moments(f, os, n), confidence + n, reference + n),
    decreases n,
{
    if n > 0 {
        law_near_chains_stay_near(f, ms, os, power, n - 1, s, u, confidence, reference);
        let (a, b) = (ms[n - 1], os[n - 1]);
        lemma_near_frame(
            after_moments(f, ms, n - 1),
            after_moments(f, os, n - 1),
            power[n - 1],
            a,
            b,
            s,
            u,
            confidence + (n - 1),
            reference + (n - 1),
        );
    }
}

/// Two processors of which one may take longer chunks, and a stream for each that carries the
/// same audio.
pub open spec fn same_audio(
    m: Model,
    k: Model,
    chunks: Seq<Seq<Seq<PrcFmt>>>,
    lengths: Seq<int>,
    others: Seq<Seq<Seq<PrcFmt>>>,
    other_lengths: Seq<int>,
    used: Seq<bool>,
) -> bool {
    &&& k == (Model { setup: Setup { chunksize: k.setup.chunksize, ..m.setup }, ..m })
    &&& listens_within(m, used.len() as int)
    &&& hears(m, used)
    &&& stream(chunks, used, lengths, m.setup.chunksize)
    &&& stream(others, used, other_lengths, k.setup.chunksize)
    &&& spliced(chunks, chunks.len() as int) == spliced(others, others.len() as int)
    &&& total(lengths, chunks.len() as int) == total(other_lengths, others.len() as int)
}

/// Both streams as chains over the same power.
proof fn lemma_both_chains(
    m: Model,
    k: Model,
    chunks: Seq<Seq<Seq<PrcFmt>>>,
    lengths: Seq<int>,
    others: Seq<Seq<Seq<PrcFmt>>>,
    other_lengths: Seq<int>,
    used: Seq<bool>,
)
    requires
        m.wf(),
        k.wf(),
        same_audio(m, k, chunks, lengths, others, other_lengths, used),
    ensures
        ({
            let frames = total(lengths, chunks.len() as int);
            let power = m.power(spliced(chunks, chunks.len() as int), frames);
            let ms = moments(m, chunks, lengths, chunks.len() as int);
            let os = moments(k, others, other_lengths, others.len() as int);
            &&& frames > 0
            &&& ms.len() == frames
            &&& os.len() == frames
            &&& chained(m.followers, ms, power, m.settings, m.setup)
            &&& chained(m.followers, os, power, m.settings, m.setup)
            &&& fed(m, chunks, chunks.len() as int).followers == after_moments(
                m.followers,
                ms,
                frames,
            )
            &&& fed(k, others, others.len() as int).followers == after_moments(
                m.followers,
                os,
                frames,
            )
        }),
{
    let (waves, frames) = (
        spliced(chunks, chunks.len() as int),
        total(lengths, chunks.len() as int),
    );
    assert(hears(k, used));
    law_stream_is_one_chain(m, chunks, used, lengths, chunks.len() as int);
    law_stream_is_one_chain(k, others, used, other_lengths, others.len() as int);
    lemma_measured_at_any_size(m, k, waves, frames);
    let os = moments(k, others, other_lengths, others.len() as int);
    let power = m.power(waves, frames);
    assert forall|i: int| 0 <= i < os.len() implies (#[trigger] os[i]).followers == after_moments(
        m.followers,
        os,
        i,
    ).after_frame(power[i], m.settings, m.setup, os[i].guide) by {
        assert(os[i].followers == after_moments(m.followers, os, i).after_frame(
            power[i],
            m.settings,
            k.setup,
            os[i].guide,
        ));
    }
}

/// What a frame is told in both streams.
proof fn lemma_both_told(
    m: Model,
    k: Model,
    chunks: Seq<Seq<Seq<PrcFmt>>>,
    lengths: Seq<int>,
    others: Seq<Seq<Seq<PrcFmt>>>,
    other_lengths: Seq<int>,
    used: Seq<bool>,
    i: int,
)
    requires
        m.wf(),
        k.wf(),
        same_audio(m, k, chunks, lengths, others, other_lengths, used),
        0 <= i < total(lengths, chunks.len() as int),
    ensures
        ({
            let frames = total(lengths, chunks.len() as int);
            let side = m.sidechain(spliced(chunks, chunks.len() as int), frames);
            let t = end_of(lengths, chunks.len() as int, i);
            let r = end_of(other_lengths, others.len() as int, i);
            &&& side.len() == frames
            &&& i < t <= frames
            &&& t <= i + m.setup.chunksize
            &&& i < r <= frames
            &&& r <= i + k.setup.chunksize
            &&& moments(m, chunks, lengths, chunks.len() as int)[i].guide == told(m, side, t)
            &&& moments(k, others, other_lengths, others.len() as int)[i].guide == told(
                m,
                side,
                r,
            )
        }),
{
    let (waves, frames) = (
        spliced(chunks, chunks.len() as int),
        total(lengths, chunks.len() as int),
    );
    assert(hears(k, used));
    law_frames_are_told_by_their_chunk(m, chunks, used, lengths, chunks.len() as int, i);
    law_frames_are_told_by_their_chunk(k, others, used, other_lengths, others.len() as int, i);
    lemma_measured_at_any_size(m, k, waves, frames);
    lemma_listening_at_any_size(
        m.listener,
        m.sidechain(waves, frames),
        end_of(other_lengths, others.len() as int, i),
        m.settings,
        m.setup,
        k.setup,
    );
}

/// The longer of two chunk sizes.
pub open spec fn longer(p: int, q: int) -> int {
    if p < q {
        q
    } else {
        p
    }
}

/// How far apart two cuttings can put the reference, in dB: what the slew allows over the
/// longer chunk, and nothing where it is pinned.
pub open spec fn reference_gap(m: Model, chunksize: int) -> int {
    if m.settings.reference_pinned is Some {
        0
    } else {
        m.settings.reference_step * hops_within(m.setup, chunksize - 1)
    }
}

/// How far apart two cuttings can put the confidence: what its pace allows over the longer
/// chunk.
pub open spec fn belief_gap(m: Model, chunksize: int) -> int {
    confidence_pace(m.setup) * hops_within(m.setup, chunksize - 1)
}

/// Chains over the same power with the same references have the same levels.
proof fn lemma_same_levels(
    f: Followers,
    ms: Seq<Moment>,
    os: Seq<Moment>,
    power: Seq<PrcFmt>,
    n: int,
    s: Settings,
    u: Setup,
)
    requires
        chained(f, ms, power, s, u),
        chained(f, os, power, s, u),
        forall|i: int|
            0 <= i < ms.len() ==> (#[trigger] ms[i]).guide.reference_db
                == os[i].guide.reference_db,
        0 <= n <= ms.len(),
    ensures
        forall|i: int|
            0 <= i < n ==> levels((#[trigger] ms[i]).followers) == levels(os[i].followers),
        levels(after_moments(f, ms, n)) == levels(after_moments(f, os, n)),
    decreases n,
{
    if n > 0 {
        lemma_same_levels(f, ms, os, power, n - 1, s, u);
        assert(ms[n - 1].guide.reference_db == os[n - 1].guide.reference_db);
        assert(ms[n - 1].followers == after_moments(f, ms, n - 1).after_frame(
            power[n - 1],
            s,
            u,
            ms[n - 1].guide,
        ));
        assert(os[n - 1].followers == after_moments(f, os, n - 1).after_frame(
            power[n - 1],
            s,
            u,
            os[n - 1].guide,
        ));
    }
}

/// Whether two ways of hearing the same frames catch up in the same ones.
pub open spec fn catch_up_together(ms: Seq<Moment>, os: Seq<Moment>) -> bool {
    forall|i: int|
        0 <= i < ms.len() ==> (#[trigger] ms[i]).followers.catching_up
            == os[i].followers.catching_up
}

/// Two cuttings of the same audio stay near.
proof fn lemma_cuttings_stay_near(
    m: Model,
    k: Model,
    chunks: Seq<Seq<Seq<PrcFmt>>>,
    lengths: Seq<int>,
    others: Seq<Seq<Seq<PrcFmt>>>,
    other_lengths: Seq<int>,
    used: Seq<bool>,
    i: int,
)
    requires
        m.healthy(),
        k.wf(),
        same_audio(m, k, chunks, lengths, others, other_lengths, used),
        0 <= i < total(lengths, chunks.len() as int),
        m.settings.reference_pinned is None ==> catch_up_together(
            moments(m, chunks, lengths, chunks.len() as int),
            moments(k, others, other_lengths, others.len() as int),
        ),
    ensures
        ({
            let a = moments(m, chunks, lengths, chunks.len() as int)[i];
            let b = moments(k, others, other_lengths, others.len() as int)[i];
            let size = longer(m.setup.chunksize, k.setup.chunksize);
            &&& sound(a.followers)
            &&& sound(b.followers)
            &&& near(
                a.followers,
                b.followers,
                belief_gap(m, size) + (i + 1),
                reference_gap(m, size) + (i + 1),
            )
            &&& apart(a.guide.reference_db as int, b.guide.reference_db as int) <= reference_gap(
                m,
                size,
            )
        }),
{
    let frames = total(lengths, chunks.len() as int);
    let (waves, size) = (
        spliced(chunks, chunks.len() as int),
        longer(m.setup.chunksize, k.setup.chunksize),
    );
    let (belief, reference) = (belief_gap(m, size), reference_gap(m, size));
    let (f, s, u) = (m.followers, m.settings, m.setup);
    let power = m.power(waves, frames);
    let ms = moments(m, chunks, lengths, chunks.len() as int);
    let os = moments(k, others, other_lengths, others.len() as int);
    lemma_both_chains(m, k, chunks, lengths, others, other_lengths, used);
    assert forall|j: int| 0 <= j < frames implies {
        &&& 0 <= (#[trigger] ms[j]).guide.confidence <= ONE
        &&& 0 <= os[j].guide.confidence <= ONE
        &&& apart(ms[j].guide.confidence as int, os[j].guide.confidence as int) <= belief
        &&& apart(ms[j].guide.reference_db as int, os[j].guide.reference_db as int) <= reference
    } by {
        lemma_both_told(m, k, chunks, lengths, others, other_lengths, used, j);
        let side = m.sidechain(waves, frames);
        let t = end_of(lengths, chunks.len() as int, j);
        let r = end_of(other_lengths, others.len() as int, j);
        if t <= r {
            lemma_told_near(m, side, t, r, size - 1);
        } else {
            lemma_told_near(m, side, r, t, size - 1);
        }
    }
    if s.reference_pinned is Some {
        lemma_same_levels(f, ms, os, power, frames, s, u);
        assert forall|j: int| 0 <= j < frames implies (#[trigger] ms[j]).followers.catching_up
            == os[j].followers.catching_up by {
            assert(levels(ms[j].followers) == levels(os[j].followers));
        }
    }
    assert(nearly_alike(ms, os, belief, reference));
    assert(ms[i].guide.confidence >= 0);
    law_near_chains_stay_near(f, ms, os, power, i + 1, s, u, belief, reference);
}

/// The same audio, cut into any chunks of any sizes, is reduced by nearly the same in every
/// frame. Reductions differ by no more than twice what the slew allows over the longer chunk,
/// and the share of the depth that the gap between the protections makes. That gap is what the
/// pace of the confidence allows over the longer chunk, and a tenth of what the slew allows.
/// Besides, every frame adds a step of rounding. Where the reference is not pinned, the bound
/// asks that both cuttings catch up in the same frames.
pub proof fn law_chunksize_moves_the_gain_little(
    m: Model,
    k: Model,
    chunks: Seq<Seq<Seq<PrcFmt>>>,
    lengths: Seq<int>,
    others: Seq<Seq<Seq<PrcFmt>>>,
    other_lengths: Seq<int>,
    used: Seq<bool>,
    i: int,
)
    requires
        m.healthy(),
        k.wf(),
        same_audio(m, k, chunks, lengths, others, other_lengths, used),
        0 <= i < total(lengths, chunks.len() as int),
        m.settings.reference_pinned is None ==> catch_up_together(
            moments(m, chunks, lengths, chunks.len() as int),
            moments(k, others, other_lengths, others.len() as int),
        ),
    ensures
        ({
            let a = moments(m, chunks, lengths, chunks.len() as int)[i];
            let b = moments(k, others, other_lengths, others.len() as int)[i];
            let size = longer(m.setup.chunksize, k.setup.chunksize);
            apart(
                a.applied_db(m.settings) as int,
                b.applied_db(m.settings) as int,
            ) <= applied_gap(
                belief_gap(m, size) + (i + 1),
                reference_gap(m, size) + (i + 1),
                reference_gap(m, size),
                depth(b.followers, m.settings, b.guide.reference_db),
            )
        }),
{
    lemma_cuttings_stay_near(m, k, chunks, lengths, others, other_lengths, used, i);
    let size = longer(m.setup.chunksize, k.setup.chunksize);
    let (belief, reference) = (belief_gap(m, size), reference_gap(m, size));
    let a = moments(m, chunks, lengths, chunks.len() as int)[i];
    let b = moments(k, others, other_lengths, others.len() as int)[i];
    law_near_followers_apply_near_reductions(
        a.followers,
        b.followers,
        m.settings,
        a.guide.reference_db,
        b.guide.reference_db,
        belief + (i + 1),
        reference + (i + 1),
        reference,
    );
}

/// The shelf and the lift follow suit: two cuttings of the same audio put the shelf no further
/// apart than a twelfth of the dB between the reductions, and the lift no further than its depth
/// times what is between the confidences.
pub proof fn law_chunksize_moves_shelf_and_lift_little(
    m: Model,
    k: Model,
    chunks: Seq<Seq<Seq<PrcFmt>>>,
    lengths: Seq<int>,
    others: Seq<Seq<Seq<PrcFmt>>>,
    other_lengths: Seq<int>,
    used: Seq<bool>,
    i: int,
)
    requires
        m.healthy(),
        k.wf(),
        same_audio(m, k, chunks, lengths, others, other_lengths, used),
        0 <= i < total(lengths, chunks.len() as int),
        m.settings.reference_pinned is None ==> catch_up_together(
            moments(m, chunks, lengths, chunks.len() as int),
            moments(k, others, other_lengths, others.len() as int),
        ),
    ensures
        ({
            let a = moments(m, chunks, lengths, chunks.len() as int)[i];
            let b = moments(k, others, other_lengths, others.len() as int)[i];
            let s = m.settings;
            let size = longer(m.setup.chunksize, k.setup.chunksize);
            &&& apart(a.work(s).bass as int, b.work(s).bass as int) <= apart(
                a.applied_db(s) as int,
                b.applied_db(s) as int,
            ) / 12 + 1
            &&& apart(a.work(s).presence as int, b.work(s).presence as int) <= ceiling(
                s.presence_depth_max * (belief_gap(m, size) + (i + 1)),
            )
        }),
{
    lemma_cuttings_stay_near(m, k, chunks, lengths, others, other_lengths, used, i);
    let size = longer(m.setup.chunksize, k.setup.chunksize);
    let most = belief_gap(m, size) + (i + 1);
    let a = moments(m, chunks, lengths, chunks.len() as int)[i];
    let b = moments(k, others, other_lengths, others.len() as int)[i];
    let s = m.settings;
    lemma_bass_near(a.applied_db(s), b.applied_db(s), s);
    let (deep, x, y) = (s.presence_depth_max, a.followers.conf_smooth, b.followers.conf_smooth);
    lemma_prod_apart(deep, x, y, deep as int);
    let d = apart(x as int, y as int);
    assert(0 <= deep * d <= deep * most) by (nonlinear_arith)
        requires
            deep >= 0,
            0 <= d <= most,
    ;
}

/// The depths of the shelf under near reductions.
proof fn lemma_bass_near(x: PrcFmt, y: PrcFmt, s: Settings)
    requires
        0 <= s.bass_depth_max <= ONE,
    ensures
        apart(
            prod(s.bass_depth_max, clamped(quot(negated(x), BASS_FULL_AT_DB), 0, ONE)) as int,
            prod(s.bass_depth_max, clamped(quot(negated(y), BASS_FULL_AT_DB), 0, ONE)) as int,
        ) <= apart(x as int, y as int) / 12 + 1,
{
    reveal(quot);
    let (a, b) = (negated(x), negated(y));
    let d = apart(x as int, y as int);
    assert(apart(a as int, b as int) <= d);
    lemma_cut_scaled(a as int, 12);
    lemma_cut_scaled(b as int, 12);
    assert(apart(cut(a as int, 12), cut(b as int, 12)) <= d / 12 + 1);
    lemma_prod_near(
        s.bass_depth_max,
        clamped(quot(a, BASS_FULL_AT_DB), 0, ONE),
        clamped(quot(b, BASS_FULL_AT_DB), 0, ONE),
    );
}

/// Chains over the same power that are told the same are the same.
proof fn lemma_same_chain(
    f: Followers,
    ms: Seq<Moment>,
    os: Seq<Moment>,
    power: Seq<PrcFmt>,
    n: int,
    s: Settings,
    u: Setup,
)
    requires
        chained(f, ms, power, s, u),
        chained(f, os, power, s, u),
        forall|i: int| 0 <= i < ms.len() ==> (#[trigger] ms[i]).guide == os[i].guide,
        0 <= n <= ms.len(),
    ensures
        forall|i: int| 0 <= i < n ==> #[trigger] ms[i] == os[i],
        after_moments(f, ms, n) == after_moments(f, os, n),
    decreases n,
{
    if n > 0 {
        lemma_same_chain(f, ms, os, power, n - 1, s, u);
        assert(ms[n - 1].guide == os[n - 1].guide);
        assert(ms[n - 1] == os[n - 1]);
    }
}

/// With the detector off, the gain does not depend on the size of the chunks at all: the same
/// audio, cut into any chunks of any sizes, is heard the same and worked on the same in every
/// frame.
pub proof fn law_steady_gain_is_independent_of_chunksize(
    m: Model,
    k: Model,
    chunks: Seq<Seq<Seq<PrcFmt>>>,
    lengths: Seq<int>,
    others: Seq<Seq<Seq<PrcFmt>>>,
    other_lengths: Seq<int>,
    used: Seq<bool>,
)
    requires
        m.wf(),
        k.wf(),
        m.settings.dialogue_protection == 0,
        same_audio(m, k, chunks, lengths, others, other_lengths, used),
    ensures
        moments(m, chunks, lengths, chunks.len() as int) == moments(
            k,
            others,
            other_lengths,
            others.len() as int,
        ),
        fed(m, chunks, chunks.len() as int).followers == fed(
            k,
            others,
            others.len() as int,
        ).followers,
{
    let frames = total(lengths, chunks.len() as int);
    let waves = spliced(chunks, chunks.len() as int);
    let side = m.sidechain(waves, frames);
    let ms = moments(m, chunks, lengths, chunks.len() as int);
    let os = moments(k, others, other_lengths, others.len() as int);
    lemma_both_chains(m, k, chunks, lengths, others, other_lengths, used);
    assert forall|i: int| 0 <= i < ms.len() implies (#[trigger] ms[i]).guide == os[i].guide by {
        lemma_both_told(m, k, chunks, lengths, others, other_lengths, used, i);
        law_switched_off_detector_stands_still(
            m.listener,
            side,
            end_of(lengths, chunks.len() as int, i),
            m.settings,
            m.setup,
        );
        law_switched_off_detector_stands_still(
            m.listener,
            side,
            end_of(other_lengths, others.len() as int, i),
            m.settings,
            m.setup,
        );
    }
    lemma_same_chain(
        m.followers,
        ms,
        os,
        m.power(waves, frames),
        frames,
        m.settings,
        m.setup,
    );
    assert(ms =~= os);
}

} // verus!
