//! Laws of the gain.
use crate::decibels::{lemma_linear_ordered, lemma_linear_zero, linear_of};
use crate::fixed::{
    clamped, cut, diff, lemma_prod_one, lemma_prod_ordered, lemma_prod_share, lemma_prod_zero,
    lemma_quot_ordered, lemma_quot_share, lemma_quot_zero, lemma_smoothed_between, negated, prod,
    quot, smoothed, sum, PrcFmt, ONE,
};
use crate::gain::{
    fast_reduction, plausible, protection, reduction_above, slope_of, slow_target, Followers, Guide,
};
use crate::laws::health::{
    law_frames_keep_followers, law_frames_keep_health, lemma_target_is_no_boost,
};
use crate::model::Model;
use crate::settings::{Settings, Setup};
use crate::tuning::{
    BASS_FULL_AT_DB, FAST_HEADROOM_DB, FAST_SLOPE, PROTECTION_FADE_DB, PROTECTION_FULL_ABOVE_DB,
    REFERENCE_MIN_DB, RELEASE_CATCHUP_CLEAR_DB, RELEASE_CATCHUP_DB,
};
use vstd::prelude::*;

verus! {

/// The share that confidence leaves lies between zero and one, and the fast stage never
/// boosts.
pub proof fn law_parts_are_no_boost(f: Followers, s: Settings, reference_db: PrcFmt)
    requires
        s.valid(),
        0 <= f.conf_smooth <= ONE,
    ensures
        0 <= plausible(f.slow_db(), reference_db) <= ONE,
        0 <= protection(f.conf_smooth, f.slow_db(), s, reference_db) <= ONE,
        fast_reduction(f.fast_db(), s, reference_db) <= 0,
{
    let likely = plausible(f.slow_db(), reference_db);
    lemma_prod_share(s.dialogue_protection, f.conf_smooth);
    lemma_prod_share(prod(s.dialogue_protection, f.conf_smooth), likely);
    let threshold = sum(reference_db, FAST_HEADROOM_DB);
    let raw = reduction_above(f.fast_db(), threshold, FAST_SLOPE);
    if f.fast_db() > threshold {
        lemma_prod_ordered(negated(diff(f.fast_db(), threshold)), 0, FAST_SLOPE);
    }
    lemma_prod_ordered(raw, 0, s.transient_softening);
}

/// The reduction is never a boost and never exceeds the cap, whatever is heard. The gain, the
/// shelf and the lift stay within their bounds.
pub proof fn law_attenuation_is_bounded(f: Followers, s: Settings, reference_db: PrcFmt)
    requires
        s.valid(),
        0 <= f.conf_smooth <= ONE,
        f.reduction_db <= 0,
    ensures
        -s.max_attenuation <= f.applied_db(s, reference_db) <= 0,
        linear_of(negated(s.max_attenuation)) <= f.work(s, reference_db).gain <= ONE,
        0 <= f.work(s, reference_db).bass <= s.bass_depth_max,
        0 <= f.work(s, reference_db).presence <= s.presence_depth_max,
{
    law_parts_are_no_boost(f, s, reference_db);
    let both = sum(f.reduction_db, fast_reduction(f.fast_db(), s, reference_db));
    let left = protection(f.conf_smooth, f.slow_db(), s, reference_db);
    lemma_prod_ordered(both, 0, left);
    lemma_prod_ordered(f.total_db(s, reference_db), 0, s.amount);
    let applied = f.applied_db(s, reference_db);
    lemma_linear_zero();
    lemma_linear_ordered(applied, 0);
    lemma_linear_ordered(negated(s.max_attenuation), applied);
    lemma_prod_share(
        s.bass_depth_max,
        clamped(quot(negated(applied), BASS_FULL_AT_DB), 0, ONE),
    );
    lemma_prod_share(s.presence_depth_max, f.conf_smooth);
}

/// So it is in every frame of every chunk.
pub proof fn law_chunk_attenuation_is_bounded(
    m: Model,
    waves: Seq<Seq<PrcFmt>>,
    frames: int,
    j: int,
)
    requires
        m.healthy(),
        0 <= j < frames,
    ensures
        ({
            let work = m.chunk_works(waves, frames)[j];
            &&& linear_of(negated(m.settings.max_attenuation)) <= work.gain <= ONE
            &&& 0 <= work.bass <= m.settings.bass_depth_max
            &&& 0 <= work.presence <= m.settings.presence_depth_max
        }),
{
    let side = m.sidechain(waves, frames);
    let power = m.power(waves, frames);
    let g = m.measured(waves, frames).guide();
    law_frames_keep_health(m.listener, side, side.len() as int, m.settings, m.setup);
    law_frames_keep_followers(m.followers, power, j + 1, m.settings, m.setup, g);
    law_attenuation_is_bounded(
        m.followers.after_frames(power, j + 1, m.settings, m.setup, g),
        m.settings,
        g.reference_db,
    );
}

/// With dialogue protection off, the reduction does not depend on the confidence.
pub proof fn law_detector_can_be_switched_off(
    f: Followers,
    s: Settings,
    reference_db: PrcFmt,
    conf: PrcFmt,
)
    requires
        s.dialogue_protection == 0,
    ensures
        protection(f.conf_smooth, f.slow_db(), s, reference_db) == ONE,
        f.applied_db(s, reference_db) == (Followers { conf_smooth: conf, ..f }).applied_db(
            s,
            reference_db,
        ),
{
    let likely = plausible(f.slow_db(), reference_db);
    lemma_prod_zero(f.conf_smooth);
    lemma_prod_zero(conf);
    lemma_prod_zero(likely);
}

/// Confidence can only take reduction away: there is never more of it than with dialogue
/// protection off.
pub proof fn law_confidence_only_spares(f: Followers, s: Settings, reference_db: PrcFmt)
    requires
        s.valid(),
        0 <= f.conf_smooth <= ONE,
        f.reduction_db <= 0,
    ensures
        ({
            let plain = Settings { dialogue_protection: 0, ..s };
            &&& f.applied_db(s, reference_db) >= f.applied_db(plain, reference_db)
            &&& f.work(s, reference_db).gain >= f.work(plain, reference_db).gain
        }),
{
    let plain = Settings { dialogue_protection: 0, ..s };
    law_detector_can_be_switched_off(f, plain, reference_db, 0);
    law_parts_are_no_boost(f, s, reference_db);
    let both = sum(f.reduction_db, fast_reduction(f.fast_db(), s, reference_db));
    lemma_prod_one(both);
    lemma_prod_share(both, protection(f.conf_smooth, f.slow_db(), s, reference_db));
    lemma_prod_ordered(both, f.total_db(s, reference_db), s.amount);
    lemma_linear_ordered(f.applied_db(plain, reference_db), f.applied_db(s, reference_db));
}

/// More confidence never makes more reduction.
pub proof fn law_confidence_is_monotone(
    f: Followers,
    s: Settings,
    reference_db: PrcFmt,
    conf: PrcFmt,
)
    requires
        s.valid(),
        0 <= f.conf_smooth <= conf <= ONE,
        f.reduction_db <= 0,
    ensures
        f.applied_db(s, reference_db) <= (Followers { conf_smooth: conf, ..f }).applied_db(
            s,
            reference_db,
        ),
{
    let surer = Followers { conf_smooth: conf, ..f };
    law_parts_are_no_boost(f, s, reference_db);
    law_parts_are_no_boost(surer, s, reference_db);
    let likely = plausible(f.slow_db(), reference_db);
    lemma_prod_ordered(f.conf_smooth, conf, s.dialogue_protection);
    lemma_prod_ordered(
        prod(s.dialogue_protection, f.conf_smooth),
        prod(s.dialogue_protection, conf),
        likely,
    );
    let both = sum(f.reduction_db, fast_reduction(f.fast_db(), s, reference_db));
    lemma_prod_falls(
        both,
        protection(conf, f.slow_db(), s, reference_db),
        protection(f.conf_smooth, f.slow_db(), s, reference_db),
    );
    lemma_prod_ordered(f.total_db(s, reference_db), surer.total_db(s, reference_db), s.amount);
}

/// A larger factor makes a negative number smaller.
proof fn lemma_prod_falls(x: PrcFmt, a: PrcFmt, b: PrcFmt)
    requires
        x <= 0,
        0 <= a <= b <= ONE,
    ensures
        prod(x, b) <= prod(x, a) <= 0,
{
    assert(x * b <= x * a <= 0) by (nonlinear_arith)
        requires
            x <= 0,
            0 <= a <= b,
    ;
    lemma_prod_share(x, a);
    lemma_prod_share(x, b);
    vstd::arithmetic::div_mod::lemma_div_is_ordered(-(x * a), -(x * b), ONE as int);
}

/// Nothing far above the dialogue reference is protected, however confident the detector
/// is: from 25 dB above it on, the whole reduction stays.
pub proof fn law_loud_content_is_not_protected(f: Followers, s: Settings, reference_db: PrcFmt)
    requires
        f.slow_db() >= reference_db + PROTECTION_FULL_ABOVE_DB + PROTECTION_FADE_DB,
        reference_db >= REFERENCE_MIN_DB,
    ensures
        plausible(f.slow_db(), reference_db) == 0,
        protection(f.conf_smooth, f.slow_db(), s, reference_db) == ONE,
{
    let above = diff(f.slow_db(), sum(reference_db, PROTECTION_FULL_ABOVE_DB));
    lemma_quot_ordered(PROTECTION_FADE_DB, above, PROTECTION_FADE_DB);
    lemma_quot_share(PROTECTION_FADE_DB, PROTECTION_FADE_DB);
    lemma_prod_zero(prod(s.dialogue_protection, f.conf_smooth));
}

/// Content up to 15 dB above the dialogue reference is protected in full.
pub proof fn law_plausible_content_is_fully_protected(slow_db: PrcFmt, reference_db: PrcFmt)
    requires
        slow_db <= sum(reference_db, PROTECTION_FULL_ABOVE_DB),
    ensures
        plausible(slow_db, reference_db) == ONE,
{
    let above = diff(slow_db, sum(reference_db, PROTECTION_FULL_ABOVE_DB));
    lemma_quot_ordered(above, 0, PROTECTION_FADE_DB);
}

/// The amount scales the reduction in dB: the reductions at two amounts are as the amounts,
/// up to a step in each. So half the amount is half as many dB.
pub proof fn law_amount_scales_decibels(
    f: Followers,
    s: Settings,
    t: Settings,
    reference_db: PrcFmt,
)
    requires
        s.valid(),
        t == (Settings { amount: t.amount, ..s }),
        0 <= t.amount <= ONE,
        0 <= f.conf_smooth <= ONE,
        f.reduction_db <= 0,
        f.applied_db(s, reference_db) > -s.max_attenuation,
        f.applied_db(t, reference_db) > -s.max_attenuation,
    ensures
        -s.amount <= f.applied_db(s, reference_db) * t.amount - f.applied_db(t, reference_db)
            * s.amount <= t.amount,
{
    law_attenuation_is_bounded(f, s, reference_db);
    law_parts_are_no_boost(f, s, reference_db);
    let both = sum(f.reduction_db, fast_reduction(f.fast_db(), s, reference_db));
    lemma_prod_share(both, protection(f.conf_smooth, f.slow_db(), s, reference_db));
    let x = f.total_db(s, reference_db);
    lemma_prod_share(x, s.amount);
    lemma_prod_share(x, t.amount);
    lemma_proportional(x as int, s.amount as int, t.amount as int);
}

proof fn lemma_proportional(x: int, b: int, a: int)
    requires
        x <= 0,
        a >= 0,
        b >= 0,
    ensures
        -b <= cut(x * b, ONE as int) * a - cut(x * a, ONE as int) * b <= a,
{
    let p = cut(x * b, ONE as int);
    let q = cut(x * a, ONE as int);
    assert(x * b <= 0 && x * a <= 0) by (nonlinear_arith)
        requires
            x <= 0,
            a >= 0,
            b >= 0,
    ;
    let r = p * ONE - x * b;
    let t = q * ONE - x * a;
    assert(0 <= r < ONE);
    assert(0 <= t < ONE);
    assert((p * a - q * b) * ONE == a * r - b * t) by (nonlinear_arith)
        requires
            r == p * ONE - x * b,
            t == q * ONE - x * a,
    ;
    assert(-b * ONE <= a * r - b * t <= a * ONE) by (nonlinear_arith)
        requires
            0 <= r < ONE,
            0 <= t < ONE,
            a >= 0,
            b >= 0,
    ;
}

/// A larger amount never makes less reduction.
pub proof fn law_amount_is_monotone(f: Followers, s: Settings, t: Settings, reference_db: PrcFmt)
    requires
        s.valid(),
        t == (Settings { amount: t.amount, ..s }),
        s.amount <= t.amount <= ONE,
        0 <= f.conf_smooth <= ONE,
        f.reduction_db <= 0,
    ensures
        f.applied_db(t, reference_db) <= f.applied_db(s, reference_db),
{
    law_parts_are_no_boost(f, s, reference_db);
    let both = sum(f.reduction_db, fast_reduction(f.fast_db(), s, reference_db));
    lemma_prod_share(both, protection(f.conf_smooth, f.slow_db(), s, reference_db));
    lemma_prod_falls(f.total_db(s, reference_db), s.amount, t.amount);
}

/// More softening of transients never makes less reduction.
pub proof fn law_softening_is_monotone(f: Followers, s: Settings, t: Settings, reference_db: PrcFmt)
    requires
        s.valid(),
        t == (Settings { transient_softening: t.transient_softening, ..s }),
        s.transient_softening <= t.transient_softening <= ONE,
        0 <= f.conf_smooth <= ONE,
        f.reduction_db <= 0,
    ensures
        f.applied_db(t, reference_db) <= f.applied_db(s, reference_db),
{
    law_parts_are_no_boost(f, s, reference_db);
    law_parts_are_no_boost(f, t, reference_db);
    let threshold = sum(reference_db, FAST_HEADROOM_DB);
    let raw = reduction_above(f.fast_db(), threshold, FAST_SLOPE);
    if f.fast_db() > threshold {
        lemma_prod_ordered(negated(diff(f.fast_db(), threshold)), 0, FAST_SLOPE);
    }
    lemma_prod_falls(raw, s.transient_softening, t.transient_softening);
    let left = protection(f.conf_smooth, f.slow_db(), s, reference_db);
    lemma_prod_ordered(
        sum(f.reduction_db, fast_reduction(f.fast_db(), t, reference_db)),
        sum(f.reduction_db, fast_reduction(f.fast_db(), s, reference_db)),
        left,
    );
    lemma_prod_ordered(f.total_db(t, reference_db), f.total_db(s, reference_db), s.amount);
}

/// With no softening of transients the fast stage does nothing.
pub proof fn law_no_softening_is_no_fast_stage(fast_db: PrcFmt, s: Settings, reference_db: PrcFmt)
    requires
        s.transient_softening == 0,
    ensures
        fast_reduction(fast_db, s, reference_db) == 0,
{
    lemma_prod_zero(reduction_above(fast_db, sum(reference_db, FAST_HEADROOM_DB), FAST_SLOPE));
}

/// More headroom lets more through, and a louder level is turned down no less: the slow
/// stage's target falls with the level and rises with the headroom.
pub proof fn law_slow_target_is_monotone(
    quiet_db: PrcFmt,
    loud_db: PrcFmt,
    s: Settings,
    t: Settings,
    reference_db: PrcFmt,
)
    requires
        s.ratio >= ONE,
        t == (Settings { headroom: t.headroom, ..s }),
        s.headroom <= t.headroom,
        quiet_db <= loud_db,
    ensures
        slow_target(loud_db, s, reference_db) <= slow_target(quiet_db, t, reference_db),
{
    lemma_target_is_no_boost(loud_db, s, reference_db);
    let low = sum(reference_db, s.headroom);
    let high = sum(reference_db, t.headroom);
    if quiet_db > high {
        lemma_prod_ordered(
            negated(diff(loud_db, low)),
            negated(diff(quiet_db, high)),
            slope_of(s.ratio),
        );
    }
}

/// Whether a frame lies below the thresholds of both stages.
pub open spec fn below_thresholds(f: Followers, s: Settings, reference_db: PrcFmt) -> bool {
    &&& f.slow_db() <= sum(reference_db, s.headroom)
    &&& f.fast_db() <= sum(reference_db, FAST_HEADROOM_DB)
}

/// Below the thresholds, a processor that is not reducing stays so: the gain is exactly one
/// and there is no shelf.
pub proof fn law_quiet_frame_is_untouched(
    f: Followers,
    power: PrcFmt,
    s: Settings,
    u: Setup,
    g: Guide,
)
    requires
        s.valid(),
        f.reduction_db == 0,
        below_thresholds(f.after_frame(power, s, u, g), s, g.reference_db),
    ensures
        ({
            let after = f.after_frame(power, s, u, g);
            &&& after.reduction_db == 0
            &&& after.applied_db(s, g.reference_db) == 0
            &&& after.work(s, g.reference_db).gain == ONE
            &&& after.work(s, g.reference_db).bass == 0
        }),
{
    let after = f.after_frame(power, s, u, g);
    let followed = f.following(power, g.confidence, s, u);
    assert(slow_target(followed.slow_db(), s, g.reference_db) == 0);
    lemma_prod_zero(s.slow_attack);
    lemma_prod_zero(s.slow_release);
    lemma_prod_zero(s.scene_release);
    lemma_prod_zero(diff(ONE, s.slow_attack));
    lemma_prod_zero(diff(ONE, s.slow_release));
    lemma_prod_zero(diff(ONE, s.scene_release));
    assert(after.reduction_db == 0);
    lemma_prod_zero(s.transient_softening);
    lemma_prod_zero(protection(after.conf_smooth, after.slow_db(), s, g.reference_db));
    lemma_prod_zero(s.amount);
    lemma_linear_zero();
    lemma_quot_zero(BASS_FULL_AT_DB);
    lemma_prod_zero(s.bass_depth_max);
}

/// So it is through any number of frames below the thresholds.
pub proof fn law_quiet_frames_are_untouched(
    f: Followers,
    power: Seq<PrcFmt>,
    n: int,
    s: Settings,
    u: Setup,
    g: Guide,
)
    requires
        s.valid(),
        f.reduction_db == 0,
        0 <= n <= power.len(),
        forall|j: int|
            0 <= j < n ==> below_thresholds(
                #[trigger] f.after_frames(power, j + 1, s, u, g),
                s,
                g.reference_db,
            ),
    ensures
        f.after_frames(power, n, s, u, g).reduction_db == 0,
        forall|j: int|
            0 <= j < n ==> (#[trigger] f.works(power, s, u, g)[j]).gain == ONE && f.works(
                power,
                s,
                u,
                g,
            )[j].bass == 0,
    decreases n,
{
    if n > 0 {
        law_quiet_frames_are_untouched(f, power, n - 1, s, u, g);
        assert(below_thresholds(f.after_frames(power, n - 1 + 1, s, u, g), s, g.reference_db));
        law_quiet_frame_is_untouched(
            f.after_frames(power, n - 1, s, u, g),
            power[n - 1],
            s,
            u,
            g,
        );
    }
}

/// Without confidence there is no presence lift.
pub proof fn law_presence_needs_confidence(f: Followers, s: Settings, reference_db: PrcFmt)
    requires
        f.conf_smooth == 0,
    ensures
        f.work(s, reference_db).presence == 0,
{
    lemma_prod_zero(s.presence_depth_max);
}

/// Without a detector there is no presence lift.
pub proof fn law_presence_needs_a_detector(f: Followers, s: Settings, reference_db: PrcFmt)
    requires
        s.dialogue_protection == 0,
    ensures
        f.work(s, reference_db).presence == 0,
{
}

/// The shelf follows the reduction: none without reduction, and its full depth from 12 dB on.
pub proof fn law_shelf_follows_reduction(f: Followers, s: Settings, reference_db: PrcFmt)
    ensures
        f.applied_db(s, reference_db) >= 0 ==> f.work(s, reference_db).bass == 0,
        f.applied_db(s, reference_db) <= -BASS_FULL_AT_DB ==> f.work(s, reference_db).bass
            == s.bass_depth_max,
{
    let applied = f.applied_db(s, reference_db);
    lemma_prod_zero(s.bass_depth_max);
    lemma_prod_one(s.bass_depth_max);
    if applied >= 0 {
        lemma_quot_ordered(negated(applied), 0, BASS_FULL_AT_DB);
    }
    if applied <= -BASS_FULL_AT_DB {
        lemma_quot_ordered(BASS_FULL_AT_DB, negated(applied), BASS_FULL_AT_DB);
        lemma_quot_share(BASS_FULL_AT_DB, BASS_FULL_AT_DB);
    }
}

/// The reduction moves toward its target and not past it, up to a step, at the pace that
/// attack or release sets.
pub proof fn law_reduction_moves_toward_its_target(f: Followers, target: PrcFmt, s: Settings)
    requires
        s.valid(),
        f.reduction_db <= 0,
        target <= 0,
    ensures
        ({
            let after = f.reducing(target, s).reduction_db;
            &&& target <= f.reduction_db ==> target <= after <= f.reduction_db + 1
            &&& f.reduction_db <= target ==> f.reduction_db <= after <= target + 1
        }),
{
    lemma_smoothed_toward(s.slow_attack, f.reduction_db, target);
    lemma_smoothed_toward(s.slow_release, f.reduction_db, target);
    lemma_smoothed_toward(s.scene_release, f.reduction_db, target);
}

/// Smoothing moves toward what is new and not past it, up to a step.
pub proof fn lemma_smoothed_toward(c: PrcFmt, x: PrcFmt, y: PrcFmt)
    requires
        0 <= c <= ONE,
        x <= 0,
        y <= 0,
    ensures
        x <= y ==> x <= smoothed(c, x, y) <= y + 1,
        y <= x ==> y <= smoothed(c, x, y) <= x + 1,
{
    let d = (ONE - c) as PrcFmt;
    lemma_smoothed_between(c, x, y, if x < y { x } else { y }, 0);
    lemma_prod_share(x, c);
    lemma_prod_share(y, d);
    let high = if x < y { y } else { x };
    assert(c * x + d * y <= ONE * high) by (nonlinear_arith)
        requires
            x <= high,
            y <= high,
            0 <= c,
            0 <= d,
            c + d == ONE,
    ;
    assert(c * x <= 0 && d * y <= 0) by (nonlinear_arith)
        requires
            x <= 0,
            y <= 0,
            0 <= c,
            0 <= d,
    ;
    assert(ONE * x <= c * x && ONE * y <= d * y) by (nonlinear_arith)
        requires
            x <= 0,
            y <= 0,
            c <= ONE,
            d <= ONE,
    ;
    let (p, q) = (cut(c * x, ONE as int), cut(d * y, ONE as int));
    assert(ONE * p < c * x + ONE);
    assert(ONE * q < d * y + ONE);
    assert(prod(c, x) == p && prod(d, y) == q);
}

/// Deep reduction that is no longer due is let go at the scene rate: from a gap of 6 dB on,
/// and until less than half a dB is left.
pub proof fn law_catching_up_has_hysteresis(f: Followers, target: PrcFmt, s: Settings)
    ensures
        ({
            let after = f.reducing(target, s);
            let gap = diff(target, f.reduction_db);
            &&& gap > RELEASE_CATCHUP_DB ==> after.catching_up
            &&& gap < RELEASE_CATCHUP_CLEAR_DB ==> !after.catching_up
            &&& RELEASE_CATCHUP_CLEAR_DB <= gap <= RELEASE_CATCHUP_DB ==> after.catching_up
                == f.catching_up
            &&& after.catching_up && target >= f.reduction_db ==> after.reduction_db == smoothed(
                s.scene_release,
                f.reduction_db,
                target,
            )
        }),
{
}

} // verus!
