//! What the two stages take off, what protection leaves of it, and what comes with it.
use crate::decibels::linear_of;
use crate::fixed::{
    clamped, diff, lemma_prod_one, lemma_prod_share, lemma_prod_zero, lemma_quot_share, negated,
    prod, quot, sum, PrcFmt, ONE,
};
use crate::gain::{fast_reduction, plausible, protection, slope_of, slow_target, Followers};
use crate::laws::constants::lemma_cut_scaled;
use crate::laws::gain::{law_parts_are_no_boost, law_plausible_content_is_fully_protected};
use crate::laws::reference::apart;
use crate::settings::Settings;
use crate::tuning::{
    BASS_FULL_AT_DB, FAST_HEADROOM_DB, FAST_SLOPE, PROTECTION_FULL_ABOVE_DB, REFERENCE_MAX_DB,
    REFERENCE_MIN_DB,
};
use vstd::prelude::*;

verus! {

/// What a product with a share cuts off.
pub proof fn lemma_prod_cuts(a: PrcFmt, b: PrcFmt)
    requires
        a >= 0,
        0 <= b <= ONE,
    ensures
        0 <= prod(a, b) <= a,
        prod(b, a) == prod(a, b),
        prod(a, b) * ONE <= a * b < (prod(a, b) + 1) * ONE,
        prod((-a) as PrcFmt, b) == -prod(a, b),
{
    assert(0 <= a * b <= a * ONE) by (nonlinear_arith)
        requires
            a >= 0,
            0 <= b <= ONE,
    ;
    assert(a * b == b * a && (-a) * b == -(a * b)) by (nonlinear_arith);
    vstd::arithmetic::div_mod::lemma_div_is_ordered(a * b, a * ONE, ONE as int);
    vstd::arithmetic::div_mod::lemma_div_by_multiple(a as int, ONE as int);
}

/// What two products in a row cut off.
proof fn lemma_two_products(a: PrcFmt, b: PrcFmt, c: PrcFmt, v: int)
    requires
        a >= 0,
        0 <= b <= ONE,
        0 <= c <= ONE,
        v == prod(prod(a, b), c),
    ensures
        0 <= v <= a,
        v * (ONE * ONE) <= a * (b * c) < (v + 2) * (ONE * ONE),
{
    let s = ONE as int;
    lemma_prod_cuts(a, b);
    let p = prod(a, b) as int;
    lemma_prod_cuts(p as PrcFmt, c);
    assert(v * (s * s) <= a * (b * c) < (v + 2) * (s * s)) by (nonlinear_arith)
        requires
            p * s <= a * b < (p + 1) * s,
            v * s <= p * c < (v + 1) * s,
            0 <= c <= s,
            s > 0,
    {
        assert((v * s) * s <= (p * c) * s);
        assert((p * s) * c <= (a * b) * c);
        assert((a * b) * c <= ((p + 1) * s) * c);
        assert(((p + 1) * s) * c == (p * c) * s + s * c);
        assert(s * c <= s * s);
        assert((p * c) * s < ((v + 1) * s) * s);
        assert((a * b) * c == a * (b * c));
    }
}

/// Protection never takes away more than the configured share of the reduction, and takes away
/// exactly that share where the detector is sure and the level is plausible: up to 15 dB above
/// the reference.
pub proof fn law_protection_is_the_configured_share(
    conf: PrcFmt,
    slow_db: PrcFmt,
    s: Settings,
    reference_db: PrcFmt,
)
    requires
        s.valid(),
        0 <= conf <= ONE,
    ensures
        ONE - s.dialogue_protection <= protection(conf, slow_db, s, reference_db) <= ONE,
        conf == ONE && slow_db <= sum(reference_db, PROTECTION_FULL_ABOVE_DB) ==> protection(
            conf,
            slow_db,
            s,
            reference_db,
        ) == ONE - s.dialogue_protection,
        conf == 0 ==> protection(conf, slow_db, s, reference_db) == ONE,
{
    let likely = plausible(slow_db, reference_db);
    lemma_prod_share(s.dialogue_protection, conf);
    let p = prod(s.dialogue_protection, conf);
    lemma_prod_share(p, likely);
    lemma_prod_one(s.dialogue_protection);
    lemma_prod_zero(s.dialogue_protection);
    lemma_prod_zero(likely);
    if slow_db <= sum(reference_db, PROTECTION_FULL_ABOVE_DB) {
        law_plausible_content_is_fully_protected(slow_db, reference_db);
        lemma_prod_one(p);
    }
}

/// What protection takes away is in proportion to the configured share and to the confidence:
/// at two shares and two confidences it is as their products, up to two steps.
pub proof fn law_protection_is_in_proportion(
    conf: PrcFmt,
    other: PrcFmt,
    slow_db: PrcFmt,
    s: Settings,
    t: Settings,
    reference_db: PrcFmt,
)
    requires
        s.valid(),
        t.valid(),
        0 <= conf <= ONE,
        0 <= other <= ONE,
    ensures
        ({
            let a = ONE - protection(conf, slow_db, s, reference_db);
            let b = ONE - protection(other, slow_db, t, reference_db);
            let (p, q) = (s.dialogue_protection * conf, t.dialogue_protection * other);
            &&& a * q <= b * p + 2 * p
            &&& b * p <= a * q + 2 * q
        }),
{
    let likely = plausible(slow_db, reference_db);
    let (sp, tp) = (s.dialogue_protection, t.dialogue_protection);
    let a = ONE - protection(conf, slow_db, s, reference_db);
    let b = ONE - protection(other, slow_db, t, reference_db);
    let w = ONE * ONE;
    lemma_prod_share(sp, conf);
    lemma_prod_share(tp, other);
    lemma_prod_share(prod(sp, conf), likely);
    lemma_prod_share(prod(tp, other), likely);
    lemma_two_products(sp, conf, likely, a);
    lemma_two_products(tp, other, likely, b);
    let (p, q, l) = (sp * conf, tp * other, likely as int);
    assert(p >= 0 && q >= 0) by (nonlinear_arith)
        requires
            p == sp * conf,
            q == tp * other,
            sp >= 0,
            tp >= 0,
            conf >= 0,
            other >= 0,
    ;
    assert(sp * (conf * likely) == p * l && tp * (other * likely) == q * l) by (nonlinear_arith)
        requires
            p == sp * conf,
            q == tp * other,
            l == likely,
    ;
    assert(a * q <= b * p + 2 * p && b * p <= a * q + 2 * q) by (nonlinear_arith)
        requires
            a * w <= p * l < (a + 2) * w,
            b * w <= q * l < (b + 2) * w,
            p >= 0,
            q >= 0,
            w > 0,
    {
        assert((a * w) * q <= (p * l) * q);
        assert((q * l) * p <= ((b + 2) * w) * p);
        assert((a * q) * w <= ((b + 2) * p) * w);
        assert((b * w) * p <= (q * l) * p);
        assert((p * l) * q <= ((a + 2) * w) * q);
        assert((b * p) * w <= ((a + 2) * q) * w);
    }
}

/// How plausible a level is as dialogue fades evenly from 15 to 25 dB above the reference.
pub proof fn law_plausibility_fades_evenly(slow_db: PrcFmt, reference_db: PrcFmt)
    requires
        REFERENCE_MIN_DB <= reference_db <= REFERENCE_MAX_DB,
    ensures
        ({
            let above = slow_db - reference_db;
            let likely = plausible(slow_db, reference_db);
            &&& above <= 15 * ONE ==> likely == ONE
            &&& above >= 25 * ONE ==> likely == 0
            &&& 15 * ONE <= above <= 25 * ONE ==> 25 * ONE - above <= 10 * likely <= 25 * ONE
                - above + 10
        }),
{
    reveal(quot);
    let d = diff(slow_db, sum(reference_db, PROTECTION_FULL_ABOVE_DB));
    lemma_cut_scaled(d as int, 10);
}

/// Without protection, at the full amount and clear of the cap, what is applied is what both
/// stages take off, one after the other.
pub proof fn law_stages_act_in_series(f: Followers, s: Settings, reference_db: PrcFmt)
    requires
        s.valid(),
        s.amount == ONE,
        f.conf_smooth == 0 || s.dialogue_protection == 0,
        0 <= f.conf_smooth <= ONE,
        f.reduction_db <= 0,
    ensures
        ({
            let both = f.reduction_db + fast_reduction(f.fast_db(), s, reference_db);
            f.applied_db(s, reference_db) == if both < -s.max_attenuation {
                -s.max_attenuation
            } else {
                both
            }
        }),
{
    law_parts_are_no_boost(f, s, reference_db);
    law_protection_is_the_configured_share(f.conf_smooth, f.slow_db(), s, reference_db);
    let both = sum(f.reduction_db, fast_reduction(f.fast_db(), s, reference_db));
    lemma_prod_one(both);
}

/// The cap is on what is applied, not on what is asked for: without protection, what is applied is
/// the configured amount of what both stages take off, up to a step, or the cap where that is
/// less.
pub proof fn law_cap_is_on_what_is_applied(f: Followers, s: Settings, reference_db: PrcFmt)
    requires
        s.valid(),
        f.conf_smooth == 0 || s.dialogue_protection == 0,
        0 <= f.conf_smooth <= ONE,
        f.reduction_db <= 0,
        f.reduction_db + fast_reduction(f.fast_db(), s, reference_db) > i128::MIN,
    ensures
        ({
            let asked = -(f.reduction_db + fast_reduction(f.fast_db(), s, reference_db));
            let taken = -f.applied_db(s, reference_db);
            &&& 0 <= taken <= s.max_attenuation
            &&& taken * ONE <= asked * s.amount
            &&& taken == s.max_attenuation || asked * s.amount < (taken + 1) * ONE
        }),
{
    law_parts_are_no_boost(f, s, reference_db);
    law_protection_is_the_configured_share(f.conf_smooth, f.slow_db(), s, reference_db);
    let both = sum(f.reduction_db, fast_reduction(f.fast_db(), s, reference_db));
    lemma_prod_one(both);
    let asked = (-both) as PrcFmt;
    lemma_prod_cuts(asked, s.amount);
}

/// What is left of a reduction of both stages where the detector is sure and the level is
/// plausible: all of it but the configured share.
pub proof fn law_sure_dialogue_is_spared_its_share(f: Followers, s: Settings, reference_db: PrcFmt)
    requires
        s.valid(),
        s.amount == ONE,
        f.conf_smooth == ONE,
        f.reduction_db <= 0,
        f.slow_db() <= sum(reference_db, PROTECTION_FULL_ABOVE_DB),
        f.applied_db(s, reference_db) > -s.max_attenuation,
    ensures
        f.applied_db(s, reference_db) == prod(
            sum(f.reduction_db, fast_reduction(f.fast_db(), s, reference_db)),
            (ONE - s.dialogue_protection) as PrcFmt,
        ),
{
    law_protection_is_the_configured_share(f.conf_smooth, f.slow_db(), s, reference_db);
    lemma_prod_one(f.total_db(s, reference_db));
}

/// The slow stage takes nothing off up to the reference plus headroom. Above that it leaves of
/// each dB one part in the ratio: the ratio times what is left is what there was, up to
/// rounding.
pub proof fn law_slow_stage_compresses_by_the_ratio(
    slow_db: PrcFmt,
    s: Settings,
    reference_db: PrcFmt,
)
    requires
        s.ratio >= ONE,
        REFERENCE_MIN_DB <= reference_db <= REFERENCE_MAX_DB,
        -0x1000 * ONE <= s.headroom <= 0x1000 * ONE,
        -0x1000 * ONE <= slow_db <= 0x1000 * ONE,
    ensures
        ({
            let over = slow_db - (reference_db + s.headroom);
            let left = over + slow_target(slow_db, s, reference_db);
            &&& over <= 0 ==> slow_target(slow_db, s, reference_db) == 0
            &&& over > 0 ==> 0 <= left <= over
            &&& over > 0 ==> over * ONE <= s.ratio * left
            &&& over > 0 ==> (s.ratio * left) * ONE <= over * (ONE * ONE) + over * s.ratio
                + s.ratio * ONE
        }),
{
    reveal(quot);
    let over = slow_db - (reference_db + s.headroom);
    if over > 0 {
        let (one, r) = (ONE as int, s.ratio as int);
        let slope = slope_of(s.ratio) as int;
        lemma_quot_share(diff(s.ratio, ONE), s.ratio);
        let n = (r - one) * ONE;
        vstd::arithmetic::div_mod::lemma_fundamental_div_mod(n, r);
        vstd::arithmetic::div_mod::lemma_mod_bound(n, r);
        vstd::arithmetic::div_mod::lemma_div_pos_is_pos(n, r);
        if n == 0 {
            vstd::arithmetic::div_mod::lemma_div_of0(r);
        }
        assert(slope == n / r);
        assert(over * slope >= 0) by (nonlinear_arith)
            requires
                over >= 0,
                slope >= 0,
        ;
        let x = negated(diff(slow_db, sum(reference_db, s.headroom)));
        assert(x == -over);
        assert(x * slope == -(over * slope)) by (nonlinear_arith)
            requires
                x == -over,
        ;
        let taken = over * slope / one;
        lemma_prod_share(x, slope as PrcFmt);
        assert(slow_target(slow_db, s, reference_db) == -taken);
        let left = over - taken;
        assert(taken * one <= over * slope < (taken + 1) * one);
        assert(over * one <= r * left) by (nonlinear_arith)
            requires
                taken * one <= over * slope,
                r * slope <= (r - one) * one,
                left == over - taken,
                over > 0,
                one > 0,
                r > 0,
        {
            assert(r * (taken * one) <= r * (over * slope));
            assert(over * (r * slope) <= over * ((r - one) * one));
            assert((r * taken) * one <= (over * (r - one)) * one);
            assert(r * taken <= over * (r - one));
        }
        assert((r * left) * one <= over * (one * one) + over * r + r * one) by (nonlinear_arith)
            requires
                over * slope < (taken + 1) * one,
                (r - one) * one < r * slope + r,
                left == over - taken,
                over > 0,
                r > 0,
        {
            assert(r * (over * slope) <= r * ((taken + 1) * one));
            assert(over * ((r - one) * one) <= over * (r * slope + r));
        }
        assert(left <= over && left >= 0) by (nonlinear_arith)
            requires
                taken * one <= over * slope,
                0 <= slope <= one,
                left == over - taken,
                over > 0,
                one > 0,
                taken >= 0,
        {
            assert(over * slope <= over * one);
        }
    }
}

/// The fast stage takes nothing off up to 18 dB above the reference. Above that it takes nine
/// tenths of each dB, in proportion to the softening.
pub proof fn law_fast_stage_takes_nine_tenths(fast_db: PrcFmt, s: Settings, reference_db: PrcFmt)
    requires
        0 <= s.transient_softening <= ONE,
        REFERENCE_MIN_DB <= reference_db <= REFERENCE_MAX_DB,
        -0x1000 * ONE <= fast_db <= 0x1000 * ONE,
    ensures
        ({
            let over = fast_db - (reference_db + 18 * ONE);
            let taken = -fast_reduction(fast_db, s, reference_db);
            &&& over <= 0 ==> taken == 0
            &&& over > 0 ==> apart(10 * (taken * ONE), 9 * (over * s.transient_softening)) <= 20
                * ONE + 5 * over
        }),
{
    let over = fast_db - (reference_db + 18 * ONE);
    let soft = s.transient_softening;
    lemma_prod_zero(soft);
    if over > 0 {
        let x = negated(diff(fast_db, sum(reference_db, FAST_HEADROOM_DB)));
        let y = over as PrcFmt;
        assert(x == -y);
        lemma_prod_cuts(y, FAST_SLOPE);
        lemma_prod_cuts(prod(y, FAST_SLOPE), soft);
        let v = prod(prod(y, FAST_SLOPE), soft) as int;
        assert(fast_reduction(fast_db, s, reference_db) == -v);
        lemma_two_products(y, FAST_SLOPE, soft, v);
        let (one, f, k) = (ONE as int, FAST_SLOPE as int, soft as int);
        assert(apart(10 * (v * one), 9 * (over * k)) <= 20 * one + 5 * over) by (nonlinear_arith)
            requires
                v * (one * one) <= over * (f * k) < (v + 2) * (one * one),
                -5 <= 10 * f - 9 * one <= 5,
                0 <= k <= one,
                over > 0,
                one > 0,
                apart(10 * (v * one), 9 * (over * k)) == 10 * (v * one) - 9 * (over * k) || apart(
                    10 * (v * one),
                    9 * (over * k),
                ) == 9 * (over * k) - 10 * (v * one),
        {
            let e = 10 * f - 9 * one;
            let ok = over * k;
            assert(ok >= 0);
            assert(ok <= over * one);
            assert(10 * (over * (f * k)) == (9 * one + e) * ok);
            assert((9 * one + e) * ok == 9 * (one * ok) + e * ok);
            assert(-5 * (over * one) <= e * ok <= 5 * (over * one)) by {
                assert(e * ok <= 5 * ok);
                assert(e * ok >= -5 * ok);
            }
            assert((10 * (v * one)) * one <= (9 * ok + 5 * over) * one);
            assert((10 * (v * one) + 20 * one) * one >= (9 * ok - 5 * over) * one);
        }
    }
}

/// The gain is the factor of the reduction that is applied, the lift is the depth times the
/// confidence, and the shelf grows evenly up to its full depth at 12 dB.
pub proof fn law_work_follows_what_is_applied(f: Followers, s: Settings, reference_db: PrcFmt)
    requires
        s.valid(),
        0 <= f.conf_smooth <= ONE,
        f.reduction_db <= 0,
    ensures
        ({
            let applied = f.applied_db(s, reference_db);
            let work = f.work(s, reference_db);
            &&& work.gain == linear_of(applied)
            &&& s.dialogue_protection != 0 ==> work.presence * ONE <= s.presence_depth_max
                * f.conf_smooth < (work.presence + 1) * ONE
            &&& s.dialogue_protection == 0 ==> work.presence == 0
            &&& -12 * ONE <= applied <= 0 ==> work.bass * (12 * ONE) <= s.bass_depth_max * -applied
                < (work.bass + 2) * (12 * ONE)
        }),
{
    reveal(quot);
    let applied = f.applied_db(s, reference_db);
    let deep = s.presence_depth_max;
    lemma_prod_cuts(deep, f.conf_smooth);
    if -12 * ONE <= applied <= 0 {
        let x = negated(applied);
        lemma_cut_scaled(x as int, 12);
        let (one, b) = (ONE as int, s.bass_depth_max as int);
        let part = clamped(quot(x, BASS_FULL_AT_DB), 0, ONE) as int;
        assert(12 * part <= x < 12 * (part + 1));
        lemma_prod_cuts(s.bass_depth_max, part as PrcFmt);
        let w = prod(s.bass_depth_max, part as PrcFmt) as int;
        let y = -applied;
        assert(w * (12 * one) <= b * y < (w + 2) * (12 * one)) by (nonlinear_arith)
            requires
                w * one <= b * part < (w + 1) * one,
                12 * part <= y < 12 * (part + 1),
                0 <= b <= one,
        {
            assert(b * (12 * part) <= b * y);
            assert(b * y <= b * (12 * (part + 1)));
        }
    }
}

} // verus!
