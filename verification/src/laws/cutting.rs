//! How far the gain can move when the audio is cut into chunks differently.
//!
//! A chunk is heard against what its own last hop has told. Cutting it in two lets the first
//! part be heard against an earlier reference and an earlier confidence. The slew limits how
//! far the references can be apart, and the second that it takes confidence to reach the gain
//! limits the rest.
use crate::fixed::{
    cut, diff, lemma_prod_share, lemma_prod_zero, lemma_quot_share, negated, prod, quot, smoothed,
    sum, PrcFmt, ONE,
};
use crate::gain::{
    fast_reduction, plausible, protection, reduction_above, slope_of, slow_target, Followers, Guide,
};
use crate::laws::chunks::{
    consecutive, joined, law_hearing_is_independent_of_chunks, lemma_chunk_is_measured,
    lemma_measured_keeps_settings, lemma_next_learned, listens_within,
};
use crate::laws::constants::lemma_cut_scaled;
use crate::laws::gain::{law_parts_are_no_boost, lemma_smoothed_toward};
use crate::laws::health::{
    law_frames_keep_followers, law_frames_keep_health, lemma_target_is_no_boost,
};
use crate::laws::reference::{apart, law_reference_slew_is_limited};
use crate::laws::steady::{
    lemma_chunk_follows, lemma_followers_run_on, lemma_frames, lemma_second_chunk,
};
use crate::model::Model;
use crate::settings::{Settings, Setup};
use crate::tuning::{FAST_HEADROOM_DB, FAST_SLOPE, PROTECTION_FADE_DB, PROTECTION_FULL_ABOVE_DB};
use vstd::prelude::*;

verus! {

/// `v / ONE`, rounded up.
pub open spec fn ceiling(v: int) -> int {
    (v + ONE - 1) / (ONE as int)
}

/// Cutting off brings numbers no further apart than rounding up does.
proof fn lemma_cut_near(a: int, b: int)
    ensures
        apart(cut(a, ONE as int), cut(b, ONE as int)) <= ceiling(apart(a, b)),
{
}

/// A share of two numbers is no further apart than the numbers.
pub proof fn lemma_prod_near(c: PrcFmt, x: PrcFmt, y: PrcFmt)
    requires
        0 <= c <= ONE,
    ensures
        apart(prod(c, x) as int, prod(c, y) as int) <= ceiling(c * apart(x as int, y as int)),
        apart(prod(x, c) as int, prod(y, c) as int) <= ceiling(c * apart(x as int, y as int)),
        ceiling(c * apart(x as int, y as int)) <= apart(x as int, y as int),
{
    let d = apart(x as int, y as int);
    lemma_cut_near(c * x, c * y);
    assert(x <= y ==> c * y - c * x == c * d && c * d >= 0) by (nonlinear_arith)
        requires
            c >= 0,
            x <= y ==> d == y - x,
    ;
    assert(x > y ==> c * x - c * y == c * d && c * d >= 0) by (nonlinear_arith)
        requires
            c >= 0,
            x > y ==> d == x - y,
    ;
    assert(c * x == x * c && c * y == y * c) by (nonlinear_arith);
    assert(0 <= c * d <= ONE * d) by (nonlinear_arith)
        requires
            0 <= c <= ONE,
            d >= 0,
    ;
}

/// Products of one number with two others.
pub proof fn lemma_prod_apart(z: PrcFmt, x: PrcFmt, y: PrcFmt, size: int)
    requires
        -size <= z <= size,
    ensures
        apart(prod(z, x) as int, prod(z, y) as int) <= ceiling(size * apart(x as int, y as int)),
{
    let d = apart(x as int, y as int);
    lemma_cut_near(z * x, z * y);
    assert(apart(z * x, z * y) <= size * d) by (nonlinear_arith)
        requires
            -size <= z <= size,
            d >= 0,
            x - y <= d,
            y - x <= d,
            d == x - y || d == y - x,
            apart(z * x, z * y) == z * x - z * y || apart(z * x, z * y) == z * y - z * x,
    {
        assert(z * x - z * y == z * (x - y));
        assert(z * d <= size * d);
        assert(-(z * d) <= size * d);
    }
}

/// Two shares that make a whole, each rounded up.
proof fn lemma_shares_near(c: int, d: int)
    requires
        0 <= c <= ONE,
        d >= 0,
    ensures
        ceiling(c * d) + ceiling((ONE - c) * d) <= d + 1,
{
    let (p, q) = (c * d, (ONE - c) * d);
    assert(p + q == ONE * d) by (nonlinear_arith)
        requires
            p == c * d,
            q == (ONE - c) * d,
    ;
}

/// Smoothing at one pace keeps what is near near.
pub proof fn lemma_smoothed_near(c: PrcFmt, x: PrcFmt, y: PrcFmt, t: PrcFmt, r: PrcFmt, d: int)
    requires
        0 <= c <= ONE,
        apart(x as int, y as int) <= d,
        apart(t as int, r as int) <= d,
    ensures
        apart(smoothed(c, x, t) as int, smoothed(c, y, r) as int) <= d + 1,
{
    let k = (ONE - c) as PrcFmt;
    let (a, b) = (apart(x as int, y as int), apart(t as int, r as int));
    lemma_prod_near(c, x, y);
    lemma_prod_near(k, t, r);
    lemma_shares_near(c as int, d);
    assert(c * a <= c * d && k * b <= k * d) by (nonlinear_arith)
        requires
            0 <= c,
            0 <= k,
            a <= d,
            b <= d,
    ;
}

/// A reduction moves no further than its threshold.
proof fn lemma_reduction_near(level_db: PrcFmt, x: PrcFmt, y: PrcFmt, slope: PrcFmt)
    requires
        0 <= slope <= ONE,
    ensures
        apart(
            reduction_above(level_db, x, slope) as int,
            reduction_above(level_db, y, slope) as int,
        ) <= apart(x as int, y as int),
{
    let p = if level_db > x {
        negated(diff(level_db, x))
    } else {
        0
    };
    let q = if level_db > y {
        negated(diff(level_db, y))
    } else {
        0
    };
    lemma_prod_zero(slope);
    lemma_prod_near(slope, p, q);
    assert(apart(p as int, q as int) <= apart(x as int, y as int));
}

/// The slow stage's targets are no further apart than the references.
pub proof fn lemma_target_near(slow_db: PrcFmt, s: Settings, x: PrcFmt, y: PrcFmt)
    requires
        s.ratio >= ONE,
    ensures
        apart(slow_target(slow_db, s, x) as int, slow_target(slow_db, s, y) as int) <= apart(
            x as int,
            y as int,
        ),
{
    lemma_quot_share(diff(s.ratio, ONE), s.ratio);
    lemma_reduction_near(slow_db, sum(x, s.headroom), sum(y, s.headroom), slope_of(s.ratio));
}

/// One move toward near targets keeps near reductions near, if both are catching up or neither.
pub proof fn lemma_reducing_near(
    f: Followers,
    k: Followers,
    target: PrcFmt,
    other: PrcFmt,
    s: Settings,
    d: int,
)
    requires
        s.valid(),
        f.reduction_db <= 0,
        k.reduction_db <= 0,
        target <= 0,
        other <= 0,
        apart(f.reduction_db as int, k.reduction_db as int) <= d,
        apart(target as int, other as int) <= d,
        f.reducing(target, s).catching_up == k.reducing(other, s).catching_up,
    ensures
        apart(
            f.reducing(target, s).reduction_db as int,
            k.reducing(other, s).reduction_db as int,
        ) <= d + 1,
{
    let (x, y) = (f.reduction_db, k.reduction_db);
    lemma_smoothed_near(s.slow_attack, x, y, target, other, d);
    lemma_smoothed_near(s.slow_release, x, y, target, other, d);
    lemma_smoothed_near(s.scene_release, x, y, target, other, d);
    lemma_smoothed_toward(s.slow_attack, x, target);
    lemma_smoothed_toward(s.slow_release, x, target);
    lemma_smoothed_toward(s.scene_release, x, target);
    lemma_smoothed_toward(s.slow_attack, y, other);
    lemma_smoothed_toward(s.slow_release, y, other);
    lemma_smoothed_toward(s.scene_release, y, other);
}

/// Whether two followers have heard the same, and are near in the rest.
pub open spec fn near(f: Followers, k: Followers, confidence: int, reduction: int) -> bool {
    &&& f.env_slow_power == k.env_slow_power
    &&& f.env_fast_power == k.env_fast_power
    &&& apart(f.conf_smooth as int, k.conf_smooth as int) <= confidence
    &&& apart(f.reduction_db as int, k.reduction_db as int) <= reduction
}

/// What the followers have to be for confidence and reduction to mean anything.
pub open spec fn sound(f: Followers) -> bool {
    0 <= f.conf_smooth <= ONE && f.reduction_db <= 0
}

/// Whether two followers catch up in the same frames.
pub open spec fn catching_up_together(
    f: Followers,
    k: Followers,
    power: Seq<PrcFmt>,
    s: Settings,
    u: Setup,
    g: Guide,
    h: Guide,
) -> bool {
    forall|n: int|
        0 < n <= power.len() ==> (#[trigger] f.after_frames(power, n, s, u, g)).catching_up
            == k.after_frames(power, n, s, u, h).catching_up
}

/// How far one frame lets the smoothed confidence drift.
pub open spec fn drift(u: Setup, g: Guide, h: Guide) -> int {
    if g.confidence == h.confidence {
        0
    } else {
        ONE - u.confidence_to_gain
    }
}

/// Followers with near guides stay near: in each frame the confidence drifts by no more than
/// the pace at which it reaches the gain, and the reduction by no more than a step.
pub proof fn law_near_guides_make_near_followers(
    f: Followers,
    k: Followers,
    power: Seq<PrcFmt>,
    n: int,
    s: Settings,
    u: Setup,
    g: Guide,
    h: Guide,
    confidence: int,
    reduction: int,
)
    requires
        s.valid(),
        u.valid(),
        0 <= n <= power.len(),
        sound(f),
        sound(k),
        0 <= g.confidence <= ONE,
        0 <= h.confidence <= ONE,
        near(f, k, confidence, reduction),
        apart(g.reference_db as int, h.reference_db as int) <= reduction,
        catching_up_together(f, k, power, s, u, g, h),
    ensures
        near(
            f.after_frames(power, n, s, u, g),
            k.after_frames(power, n, s, u, h),
            confidence + n * drift(u, g, h),
            reduction + n,
        ),
    decreases n,
{
    if n > 0 {
        law_near_guides_make_near_followers(
            f,
            k,
            power,
            n - 1,
            s,
            u,
            g,
            h,
            confidence,
            reduction,
        );
        law_frames_keep_followers(f, power, n - 1, s, u, g);
        law_frames_keep_followers(k, power, n - 1, s, u, h);
        let (x, y) = (
            f.after_frames(power, n - 1, s, u, g),
            k.after_frames(power, n - 1, s, u, h),
        );
        let v = power[n - 1];
        let c = u.confidence_to_gain;
        let w = drift(u, g, h);
        let before = confidence + (n - 1) * w;
        assert(before + w == confidence + n * w) by (nonlinear_arith)
            requires
                before == confidence + (n - 1) * w,
        ;
        let rest = (ONE - c) as PrcFmt;
        let (d, e) = (
            apart(x.conf_smooth as int, y.conf_smooth as int),
            apart(g.confidence as int, h.confidence as int),
        );
        lemma_prod_near(c, x.conf_smooth, y.conf_smooth);
        lemma_prod_near(rest, g.confidence, h.confidence);
        assert(ceiling(rest * e) <= w) by {
            assert(rest * e <= rest * ONE) by (nonlinear_arith)
                requires
                    rest >= 0,
                    e <= ONE,
            ;
            if e == 0 {
                assert(rest * e == 0) by (nonlinear_arith)
                    requires
                        e == 0,
                ;
            }
        }
        let (p, q) = (x.following(v, g.confidence, s, u), y.following(v, h.confidence, s, u));
        let (t, r) = (
            slow_target(p.slow_db(), s, g.reference_db),
            slow_target(q.slow_db(), s, h.reference_db),
        );
        lemma_target_is_no_boost(p.slow_db(), s, g.reference_db);
        lemma_target_is_no_boost(q.slow_db(), s, h.reference_db);
        lemma_target_near(p.slow_db(), s, g.reference_db, h.reference_db);
        assert(f.after_frames(power, n, s, u, g).catching_up == k.after_frames(
            power,
            n,
            s,
            u,
            h,
        ).catching_up);
        lemma_reducing_near(p, q, t, r, s, reduction + n - 1);
    }
}

/// The reduction of both stages before protection, in dB.
pub open spec fn depth(f: Followers, s: Settings, reference_db: PrcFmt) -> int {
    -sum(f.reduction_db, fast_reduction(f.fast_db(), s, reference_db))
}

/// How far apart protections can be: as far as the confidences, and a tenth of the dB between
/// the references.
pub open spec fn protection_gap(confidence: int, reference: int) -> int {
    confidence + reference / 10 + 1
}

/// How far apart the reductions that are applied can be, in dB.
pub open spec fn applied_gap(confidence: int, reduction: int, reference: int, deep: int) -> int {
    reduction + reference + ceiling(deep * protection_gap(confidence, reference))
}

proof fn lemma_plausible_near(slow_db: PrcFmt, x: PrcFmt, y: PrcFmt, reference: int)
    requires
        apart(x as int, y as int) <= reference,
    ensures
        apart(plausible(slow_db, x) as int, plausible(slow_db, y) as int) <= reference / 10 + 1,
{
    reveal(quot);
    let (a, b) = (
        diff(slow_db, sum(x, PROTECTION_FULL_ABOVE_DB)),
        diff(slow_db, sum(y, PROTECTION_FULL_ABOVE_DB)),
    );
    assert(apart(a as int, b as int) <= reference);
    lemma_cut_scaled(a as int, 10);
    lemma_cut_scaled(b as int, 10);
    assert(apart(cut(a as int, 10), cut(b as int, 10)) <= reference / 10 + 1);
    assert(apart(
        quot(a, PROTECTION_FADE_DB) as int,
        quot(b, PROTECTION_FADE_DB) as int,
    ) <= reference / 10 + 1);
}

/// Near followers under near references apply near reductions.
pub proof fn law_near_followers_apply_near_reductions(
    f: Followers,
    k: Followers,
    s: Settings,
    x: PrcFmt,
    y: PrcFmt,
    confidence: int,
    reduction: int,
    reference: int,
)
    requires
        s.valid(),
        sound(f),
        sound(k),
        near(f, k, confidence, reduction),
        apart(x as int, y as int) <= reference,
    ensures
        apart(f.applied_db(s, x) as int, k.applied_db(s, y) as int) <= applied_gap(
            confidence,
            reduction,
            reference,
            depth(k, s, y),
        ),
{
    law_parts_are_no_boost(f, s, x);
    law_parts_are_no_boost(k, s, y);
    // The fast stage.
    let fast_db = f.fast_db();
    let (fx, fy) = (sum(x, FAST_HEADROOM_DB), sum(y, FAST_HEADROOM_DB));
    lemma_reduction_near(fast_db, fx, fy, FAST_SLOPE);
    lemma_prod_near(
        s.transient_softening,
        reduction_above(fast_db, fx, FAST_SLOPE),
        reduction_above(fast_db, fy, FAST_SLOPE),
    );
    let (a, b) = (
        sum(f.reduction_db, fast_reduction(f.fast_db(), s, x)),
        sum(k.reduction_db, fast_reduction(k.fast_db(), s, y)),
    );
    assert(apart(a as int, b as int) <= reduction + reference);
    // The protection.
    let slow_db = f.slow_db();
    let (px, py) = (plausible(slow_db, x), plausible(slow_db, y));
    lemma_plausible_near(slow_db, x, y, reference);
    let dp = s.dialogue_protection;
    lemma_prod_near(dp, f.conf_smooth, k.conf_smooth);
    let (cx, cy) = (prod(dp, f.conf_smooth), prod(dp, k.conf_smooth));
    lemma_prod_share(k.conf_smooth, dp);
    lemma_prod_near(px, cx, cy);
    lemma_prod_near(cy, px, py);
    let (p, q) = (
        protection(f.conf_smooth, slow_db, s, x),
        protection(k.conf_smooth, slow_db, s, y),
    );
    assert(apart(p as int, q as int) <= protection_gap(confidence, reference));
    // Both.
    let deep = depth(k, s, y);
    let gap = protection_gap(confidence, reference);
    lemma_prod_near(p, a, b);
    lemma_prod_apart(b, p, q, deep);
    let e = apart(p as int, q as int);
    assert(deep * e <= deep * gap) by (nonlinear_arith)
        requires
            deep >= 0,
            e <= gap,
    ;
    assert(apart(f.total_db(s, x) as int, k.total_db(s, y) as int) <= reduction + reference
        + ceiling(deep * gap));
    lemma_prod_near(s.amount, f.total_db(s, x), k.total_db(s, y));
}

/// What two chunks and the one that they make are heard against: the later guides agree, and
/// the earlier reference is no further off than the slew allows over the second chunk.
proof fn lemma_guides(m: Model, a: Seq<Seq<PrcFmt>>, b: Seq<Seq<PrcFmt>>, p: int, q: int)
    requires
        m.healthy(),
        consecutive(a, b, p, q),
        listens_within(m, a.len() as int),
        m.active_frames(a) == Some(p),
        m.after_chunk(a).active_frames(b) == Some(q),
    ensures
        m.after_chunk(a).measured(b, q).guide() == m.measured(joined(a, b), p + q).guide(),
        0 <= m.measured(a, p).guide().confidence <= ONE,
        0 <= m.measured(joined(a, b), p + q).guide().confidence <= ONE,
        apart(
            m.measured(joined(a, b), p + q).guide().reference_db as int,
            m.measured(a, p).guide().reference_db as int,
        ) <= slew_over(m.measured(a, p), q),
{
    let first = m.measured(a, p);
    let then = m.after_chunk(a);
    lemma_measured_keeps_settings(m, a, p);
    lemma_next_learned(m, m, a, p);
    lemma_next_learned(then, first, b, q);
    lemma_chunk_is_measured(then, b, q);
    law_hearing_is_independent_of_chunks(m, a, b, p, q);
    let side = m.sidechain(a, p);
    law_frames_keep_health(m.listener, side, side.len() as int, m.settings, m.setup);
    let next = first.sidechain(b, q);
    law_frames_keep_health(first.listener, next, next.len() as int, m.settings, m.setup);
    law_reference_slew_is_limited(first.listener, next, q, m.settings, m.setup);
}

/// The most that the reference moves over some more frames, in dB.
pub open spec fn slew_over(m: Model, frames: int) -> int {
    m.settings.reference_step * ((m.listener.sums.count + frames) / (m.setup.hop_frames as int))
}

/// The followers after the first `n` frames of a chunk.
pub open spec fn followed(m: Model, waves: Seq<Seq<PrcFmt>>, frames: int, n: int) -> Followers {
    m.followers.after_frames(
        m.power(waves, frames),
        n,
        m.settings,
        m.setup,
        m.measured(waves, frames).guide(),
    )
}

/// The reduction that is applied in frame `j` of a chunk, in dB.
pub open spec fn applied_in(m: Model, waves: Seq<Seq<PrcFmt>>, frames: int, j: int) -> PrcFmt {
    followed(m, waves, frames, j + 1).applied_db(
        m.settings,
        m.measured(waves, frames).guide().reference_db,
    )
}

/// Whether some frames catch up alike whether they come in one piece or in two.
pub open spec fn cut_together(
    f: Followers,
    x: Seq<PrcFmt>,
    y: Seq<PrcFmt>,
    s: Settings,
    u: Setup,
    g: Guide,
    h: Guide,
) -> bool {
    let k = f.after_frames(x, x.len() as int, s, u, h);
    &&& forall|n: int|
        0 < n <= x.len() ==> (#[trigger] f.after_frames(x + y, n, s, u, g)).catching_up
            == f.after_frames(x, n, s, u, h).catching_up
    &&& forall|n: int|
        x.len() < n <= x.len() + y.len() ==> (#[trigger] f.after_frames(
            x + y,
            n,
            s,
            u,
            g,
        )).catching_up == k.after_frames(y, n - x.len(), s, u, g).catching_up
}

/// Whether a chunk catches up in the same frames whether it comes in one piece or in two.
pub open spec fn cut_catches_up_together(
    m: Model,
    a: Seq<Seq<PrcFmt>>,
    b: Seq<Seq<PrcFmt>>,
    p: int,
    q: int,
) -> bool {
    cut_together(
        m.followers,
        m.power(a, p),
        m.after_chunk(a).power(b, q),
        m.settings,
        m.setup,
        m.measured(joined(a, b), p + q).guide(),
        m.measured(a, p).guide(),
    )
}

/// What cutting asks of followers and guides.
spec fn comparable(
    f: Followers,
    x: Seq<PrcFmt>,
    y: Seq<PrcFmt>,
    s: Settings,
    u: Setup,
    g: Guide,
    h: Guide,
    slew: int,
) -> bool {
    &&& s.valid()
    &&& u.valid()
    &&& sound(f)
    &&& 0 <= g.confidence <= ONE
    &&& 0 <= h.confidence <= ONE
    &&& apart(g.reference_db as int, h.reference_db as int) <= slew
    &&& cut_together(f, x, y, s, u, g, h)
}

/// The frames of the first part.
proof fn lemma_first_part(
    f: Followers,
    x: Seq<PrcFmt>,
    y: Seq<PrcFmt>,
    n: int,
    s: Settings,
    u: Setup,
    g: Guide,
    h: Guide,
    slew: int,
)
    requires
        comparable(f, x, y, s, u, g, h, slew),
        0 <= n <= x.len(),
    ensures
        near(
            f.after_frames(x + y, n, s, u, g),
            f.after_frames(x, n, s, u, h),
            x.len() * (ONE - u.confidence_to_gain),
            slew + n,
        ),
{
    lemma_followers_run_on(f, x, y, n, s, u, g);
    assert(catching_up_together(f, f, x, s, u, g, h)) by {
        assert forall|i: int| 0 < i <= x.len() implies (#[trigger] f.after_frames(
            x,
            i,
            s,
            u,
            g,
        )).catching_up == f.after_frames(x, i, s, u, h).catching_up by {
            lemma_followers_run_on(f, x, y, i, s, u, g);
            assert(f.after_frames(x + y, i, s, u, g).catching_up == f.after_frames(
                x,
                i,
                s,
                u,
                h,
            ).catching_up);
        }
    }
    law_near_guides_make_near_followers(f, f, x, n, s, u, g, h, 0, slew);
    let (w, c, p) = (drift(u, g, h), ONE - u.confidence_to_gain, x.len() as int);
    assert(n * w <= p * c) by (nonlinear_arith)
        requires
            0 <= n <= p,
            0 <= w <= c,
    ;
}

/// The frames of the second part.
proof fn lemma_second_part(
    f: Followers,
    x: Seq<PrcFmt>,
    y: Seq<PrcFmt>,
    n: int,
    s: Settings,
    u: Setup,
    g: Guide,
    h: Guide,
    slew: int,
)
    requires
        comparable(f, x, y, s, u, g, h, slew),
        0 <= n <= y.len(),
    ensures
        near(
            f.after_frames(x + y, x.len() + n, s, u, g),
            f.after_frames(x, x.len() as int, s, u, h).after_frames(y, n, s, u, g),
            x.len() * (ONE - u.confidence_to_gain),
            slew + x.len() + n,
        ),
{
    let p = x.len() as int;
    let middle = f.after_frames(x, p, s, u, g);
    let k = f.after_frames(x, p, s, u, h);
    let most = p * (ONE - u.confidence_to_gain);
    lemma_followers_run_on(f, x, y, p, s, u, g);
    lemma_followers_run_on(f, x, y, p + n, s, u, g);
    lemma_first_part(f, x, y, p, s, u, g, h, slew);
    law_frames_keep_followers(f, x, p, s, u, g);
    law_frames_keep_followers(f, x, p, s, u, h);
    assert(catching_up_together(middle, k, y, s, u, g, g)) by {
        assert forall|i: int| 0 < i <= y.len() implies (#[trigger] middle.after_frames(
            y,
            i,
            s,
            u,
            g,
        )).catching_up == k.after_frames(y, i, s, u, g).catching_up by {
            lemma_followers_run_on(f, x, y, p + i, s, u, g);
            assert(f.after_frames(x + y, p + i, s, u, g).catching_up == k.after_frames(
                y,
                p + i - p,
                s,
                u,
                g,
            ).catching_up);
        }
    }
    law_near_guides_make_near_followers(middle, k, y, n, s, u, g, g, most, slew + p);
    assert(n * drift(u, g, g) == 0) by (nonlinear_arith)
        requires
            drift(u, g, g) == 0,
    ;
}

/// What near followers apply, with room for more frames.
proof fn lemma_applied_near(
    v: Followers,
    w: Followers,
    s: Settings,
    g: PrcFmt,
    h: PrcFmt,
    most: int,
    steps: int,
    room: int,
    slew: int,
)
    requires
        s.valid(),
        sound(v),
        sound(w),
        near(v, w, most, slew + steps),
        steps <= room,
        apart(g as int, h as int) <= slew,
    ensures
        apart(v.applied_db(s, g) as int, w.applied_db(s, h) as int) <= applied_gap(
            most,
            slew + room,
            slew,
            depth(w, s, h),
        ),
{
    law_near_followers_apply_near_reductions(v, w, s, g, h, most, slew + room, slew);
}

/// How far apart the confidences can be: each frame of the first chunk lets them drift by the
/// pace at which confidence reaches the gain.
pub open spec fn confidence_gap(m: Model, p: int) -> int {
    p * (ONE - m.setup.confidence_to_gain)
}

/// Both parts together.
proof fn lemma_both_parts(
    f: Followers,
    x: Seq<PrcFmt>,
    y: Seq<PrcFmt>,
    s: Settings,
    u: Setup,
    g: Guide,
    h: Guide,
    slew: int,
)
    requires
        comparable(f, x, y, s, u, g, h, slew),
    ensures
        ({
            let k = f.after_frames(x, x.len() as int, s, u, h);
            let (p, q) = (x.len() as int, y.len() as int);
            let most = p * (ONE - u.confidence_to_gain);
            &&& forall|j: int|
                0 <= j < p ==> apart(
                    (#[trigger] f.after_frames(x + y, j + 1, s, u, g)).applied_db(
                        s,
                        g.reference_db,
                    ) as int,
                    f.after_frames(x, j + 1, s, u, h).applied_db(s, h.reference_db) as int,
                ) <= applied_gap(
                    most,
                    slew + (p + q),
                    slew,
                    depth(f.after_frames(x, j + 1, s, u, h), s, h.reference_db),
                )
            &&& forall|j: int|
                p <= j < p + q ==> apart(
                    (#[trigger] f.after_frames(x + y, j + 1, s, u, g)).applied_db(
                        s,
                        g.reference_db,
                    ) as int,
                    k.after_frames(y, j - p + 1, s, u, g).applied_db(s, g.reference_db) as int,
                ) <= applied_gap(
                    most,
                    slew + (p + q),
                    slew,
                    depth(k.after_frames(y, j - p + 1, s, u, g), s, g.reference_db),
                )
        }),
{
    let k = f.after_frames(x, x.len() as int, s, u, h);
    let (p, q) = (x.len() as int, y.len() as int);
    let most = p * (ONE - u.confidence_to_gain);
    law_frames_keep_followers(f, x, p, s, u, h);
    assert forall|j: int| 0 <= j < p implies apart(
        (#[trigger] f.after_frames(x + y, j + 1, s, u, g)).applied_db(s, g.reference_db) as int,
        f.after_frames(x, j + 1, s, u, h).applied_db(s, h.reference_db) as int,
    ) <= applied_gap(
        most,
        slew + (p + q),
        slew,
        depth(f.after_frames(x, j + 1, s, u, h), s, h.reference_db),
    ) by {
        lemma_first_part(f, x, y, j + 1, s, u, g, h, slew);
        law_frames_keep_followers(f, x + y, j + 1, s, u, g);
        law_frames_keep_followers(f, x, j + 1, s, u, h);
        lemma_applied_near(
            f.after_frames(x + y, j + 1, s, u, g),
            f.after_frames(x, j + 1, s, u, h),
            s,
            g.reference_db,
            h.reference_db,
            most,
            j + 1,
            p + q,
            slew,
        );
    }
    assert forall|j: int| p <= j < p + q implies apart(
        (#[trigger] f.after_frames(x + y, j + 1, s, u, g)).applied_db(s, g.reference_db) as int,
        k.after_frames(y, j - p + 1, s, u, g).applied_db(s, g.reference_db) as int,
    ) <= applied_gap(
        most,
        slew + (p + q),
        slew,
        depth(k.after_frames(y, j - p + 1, s, u, g), s, g.reference_db),
    ) by {
        let n = j - p + 1;
        lemma_second_part(f, x, y, n, s, u, g, h, slew);
        assert(p + n == j + 1);
        law_frames_keep_followers(f, x + y, j + 1, s, u, g);
        law_frames_keep_followers(k, y, n, s, u, g);
        lemma_applied_near(
            f.after_frames(x + y, j + 1, s, u, g),
            k.after_frames(y, n, s, u, g),
            s,
            g.reference_db,
            g.reference_db,
            most,
            p + n,
            p + q,
            slew,
        );
    }
}

/// Cutting a chunk in two moves the reduction of no frame by more than a bound: twice what the
/// slew allows over the second part, a step per frame, and the share of the depth that the gap
/// between the protections makes. The bound holds as long as both ways catch up in the same
/// frames, and whatever the other settings are.
pub proof fn law_cutting_moves_the_gain_little(
    m: Model,
    a: Seq<Seq<PrcFmt>>,
    b: Seq<Seq<PrcFmt>>,
    p: int,
    q: int,
)
    requires
        m.healthy(),
        consecutive(a, b, p, q),
        listens_within(m, a.len() as int),
        p + q <= m.setup.chunksize,
        m.active_frames(a) is Some,
        cut_catches_up_together(m, a, b, p, q),
    ensures
        forall|j: int|
            0 <= j < p ==> apart(
                #[trigger] applied_in(m, joined(a, b), p + q, j) as int,
                applied_in(m, a, p, j) as int,
            ) <= applied_gap(
                confidence_gap(m, p),
                slew_over(m.measured(a, p), q) + (p + q),
                slew_over(m.measured(a, p), q),
                depth(
                    followed(m, a, p, j + 1),
                    m.settings,
                    m.measured(a, p).guide().reference_db,
                ),
            ),
        forall|j: int|
            p <= j < p + q ==> apart(
                #[trigger] applied_in(m, joined(a, b), p + q, j) as int,
                applied_in(m.after_chunk(a), b, q, j - p) as int,
            ) <= applied_gap(
                confidence_gap(m, p),
                slew_over(m.measured(a, p), q) + (p + q),
                slew_over(m.measured(a, p), q),
                depth(
                    followed(m.after_chunk(a), b, q, j - p + 1),
                    m.settings,
                    m.after_chunk(a).measured(b, q).guide().reference_db,
                ),
            ),
{
    let ab = joined(a, b);
    let then = m.after_chunk(a);
    lemma_frames(m, a, b, p, q);
    lemma_second_chunk(m, a, b, p, q);
    lemma_guides(m, a, b, p, q);
    lemma_chunk_follows(m, a, p);
    lemma_chunk_follows(m, ab, p + q);
    lemma_chunk_follows(then, b, q);
    lemma_both_parts(
        m.followers,
        m.power(a, p),
        then.power(b, q),
        m.settings,
        m.setup,
        m.measured(ab, p + q).guide(),
        m.measured(a, p).guide(),
        slew_over(m.measured(a, p), q),
    );
}

} // verus!
