//! What becomes of a sample: filters, shelf, lift, gain and clipper.
use crate::filters::{clip_curve, Biquad, BiquadCoefficients, Limiter, CLIP_EDGE, CUBE_FACTOR};
use crate::fixed::{prod, quot, PrcFmt, ONE};
use crate::gain::Work;
use crate::laws::power::{clear, runs_clear};
use crate::laws::reference::apart;
use crate::output::{levelled, lifted, shelved};
use vstd::prelude::*;

verus! {

/// What comes out of a filter follows from the last three samples that went in and the last two
/// that came out, by its coefficients: y = b0 x + b1 x' + b2 x'' - a1 y' - a2 y'', up to a step
/// of rounding for each product, as long as nothing saturates.
pub proof fn law_filter_keeps_its_equation(f: Biquad, wave: Seq<PrcFmt>, j: int)
    requires
        runs_clear(f, wave),
        2 <= j < wave.len(),
    ensures
        ({
            let c = f.coeffs;
            let (x, x1, x2) = (wave[j], wave[j - 1], wave[j - 2]);
            let (y, y1, y2) = (
                f.wave_output(wave, j),
                f.wave_output(wave, j - 1),
                f.wave_output(wave, j - 2),
            );
            apart(
                y * ONE,
                c.b0 * x + c.b1 * x1 + c.b2 * x2 - c.a1 * y1 - c.a2 * y2,
            ) <= 5 * ONE
        }),
{
    let c = f.coeffs;
    assert(clear(f.after_wave(wave, j), wave[j]));
    assert(clear(f.after_wave(wave, j - 1), wave[j - 1]));
    assert(clear(f.after_wave(wave, j - 2), wave[j - 2]));
    lemma_coeffs_stay(f, wave, j);
    lemma_coeffs_stay(f, wave, j - 1);
    lemma_coeffs_stay(f, wave, j - 2);
    let (g2, g1, g) = (
        f.after_wave(wave, j - 2),
        f.after_wave(wave, j - 1),
        f.after_wave(wave, j),
    );
    assert(g1 == g2.after(wave[j - 2]));
    assert(g == g1.after(wave[j - 1]));
}

proof fn lemma_coeffs_stay(f: Biquad, wave: Seq<PrcFmt>, n: int)
    ensures
        f.after_wave(wave, n).coeffs == f.coeffs,
    decreases n,
{
    if n > 0 {
        lemma_coeffs_stay(f, wave, n - 1);
    }
}

/// So it is from the start, where a filter that has heard nothing takes what came before for
/// silence.
pub proof fn law_fresh_filter_keeps_its_equation(c: BiquadCoefficients, wave: Seq<PrcFmt>)
    requires
        runs_clear(Biquad::fresh(c), wave),
        wave.len() >= 2,
    ensures
        ({
            let f = Biquad::fresh(c);
            let (x, y) = (f.wave_output(wave, 0), f.wave_output(wave, 1));
            &&& apart(x * ONE, c.b0 * wave[0]) <= ONE
            &&& apart(y * ONE, c.b0 * wave[1] + c.b1 * wave[0] - c.a1 * x) <= 3 * ONE
        }),
{
    let f = Biquad::fresh(c);
    assert(clear(f.after_wave(wave, 0), wave[0]));
    assert(clear(f.after_wave(wave, 1), wave[1]));
    assert(f.after_wave(wave, 0) == f);
    assert(f.after_wave(wave, 1) == f.after(wave[0]));
}

/// Whether a sample is far from the ends of the range.
pub open spec fn moderate(v: int) -> bool {
    -0x2000_0000_0000_0000_0000_0000_0000_0000 <= v <= 0x2000_0000_0000_0000_0000_0000_0000_0000
}

/// A share of a sample, up to a step.
pub proof fn lemma_share_of(c: PrcFmt, v: PrcFmt)
    requires
        0 <= c <= 2 * ONE,
        moderate(v as int),
    ensures
        apart(prod(c, v) * ONE, c * v) <= ONE,
        prod(v, c) == prod(c, v),
        -0x4000_0000_0000_0000_0000_0000_0000_0000 <= prod(c, v)
            <= 0x4000_0000_0000_0000_0000_0000_0000_0000,
{
    let most = 0x2000_0000_0000_0000_0000_0000_0000_0000int;
    assert(-(2 * ONE * most) <= c * v <= 2 * ONE * most) by (nonlinear_arith)
        requires
            0 <= c <= 2 * ONE,
            -most <= v <= most,
            most > 0,
    {
        assert(c * v <= c * most);
        assert(c * v >= -(c * most));
        assert(c * most <= 2 * ONE * most);
    }
    assert(c * v == v * c) by (nonlinear_arith);
}

/// The shelf takes its depth of the bass off a sample, and the bass is what the lowpass lets
/// through.
pub proof fn law_shelf_takes_off_the_bass(
    wave: Seq<PrcFmt>,
    lowpass: Biquad,
    works: Seq<Work>,
    j: int,
)
    requires
        0 <= j < wave.len(),
        moderate(wave[j] as int),
        moderate(lowpass.wave_output(wave, j) as int),
        0 <= works[j].bass <= ONE,
    ensures
        apart(
            (wave[j] - shelved(wave, lowpass, works, true)[j]) * ONE,
            works[j].bass * lowpass.wave_output(wave, j),
        ) <= ONE,
        shelved(wave, lowpass, works, false)[j] == wave[j],
{
    lemma_share_of(works[j].bass, lowpass.wave_output(wave, j));
}

/// The lift adds its depth of the presence to a sample, and the presence is what the bandpass
/// lets through.
pub proof fn law_lift_adds_the_presence(
    wave: Seq<PrcFmt>,
    bandpass: Biquad,
    works: Seq<Work>,
    j: int,
)
    requires
        0 <= j < wave.len(),
        moderate(wave[j] as int),
        moderate(bandpass.wave_output(wave, j) as int),
        0 <= works[j].presence <= 2 * ONE,
    ensures
        apart(
            (lifted(wave, bandpass, works, true)[j] - wave[j]) * ONE,
            works[j].presence * bandpass.wave_output(wave, j),
        ) <= ONE,
        lifted(wave, bandpass, works, false)[j] == wave[j],
{
    lemma_share_of(works[j].presence, bandpass.wave_output(wave, j));
}

/// The gain scales a sample.
pub proof fn law_gain_scales_a_sample(wave: Seq<PrcFmt>, works: Seq<Work>, j: int)
    requires
        0 <= j < wave.len(),
        moderate(wave[j] as int),
        0 <= works[j].gain <= ONE,
    ensures
        apart(levelled(wave, works)[j] * ONE, wave[j] * works[j].gain) <= ONE,
{
    lemma_share_of(works[j].gain, wave[j]);
    assert(wave[j] * works[j].gain == works[j].gain * wave[j]) by (nonlinear_arith);
}

/// Soft clipping up to its edge, and beyond it.
proof fn lemma_curve(x: PrcFmt)
    requires
        0 <= x <= CLIP_EDGE,
    ensures
        apart(27 * ((x - clip_curve(x)) * (ONE * ONE)), 4 * (x * (x * x))) <= 100 * (ONE * ONE),
        0 <= clip_curve(x) <= x,
        clip_curve((-x) as PrcFmt) == -clip_curve(x),
{
    let (one, s) = (ONE as int, x as int);
    assert(0 <= s * s <= CLIP_EDGE * CLIP_EDGE) by (nonlinear_arith)
        requires
            0 <= s <= CLIP_EDGE,
    ;
    let p = s * s / one;
    assert(prod(x, x) == p);
    assert(0 <= p <= 9 * ONE / 4);
    assert(0 <= p * s <= (9 * ONE / 4) * CLIP_EDGE) by (nonlinear_arith)
        requires
            0 <= s <= CLIP_EDGE,
            0 <= p <= 9 * ONE / 4,
    ;
    let q = p * s / one;
    assert(prod(p as PrcFmt, x) == q);
    assert(0 <= q <= 27 * ONE / 8);
    let r = CUBE_FACTOR * q / one;
    assert(prod(CUBE_FACTOR, q as PrcFmt) == r);
    let cube = s * (s * s);
    assert(q * (one * one) <= cube < (q + 3) * (one * one)) by (nonlinear_arith)
        requires
            p * one <= s * s < (p + 1) * one,
            q * one <= p * s < (q + 1) * one,
            cube == s * (s * s),
            0 <= s,
            s <= 2 * one,
            one > 0,
    {
        assert((q * one) * one <= (p * s) * one);
        assert((p * one) * s <= (s * s) * s);
        assert((s * s) * s <= ((p + 1) * one) * s);
        assert((p * s) * one < ((q + 1) * one) * one);
        assert(one * s <= one * (2 * one));
    }
    assert(4 * q - 92 <= 27 * r <= 4 * q + 52) by {
        assert(r * one <= CUBE_FACTOR * q < (r + 1) * one);
        assert(-13 <= 27 * CUBE_FACTOR - 4 * one <= 13);
        let e = 27 * CUBE_FACTOR - 4 * one;
        assert(27 * (CUBE_FACTOR * q) == 4 * (one * q) + e * q) by (nonlinear_arith)
            requires
                e == 27 * CUBE_FACTOR - 4 * one,
        ;
        assert(-13 * q <= e * q <= 13 * q) by (nonlinear_arith)
            requires
                -13 <= e <= 13,
                q >= 0,
        ;
    }
    let w = one * one;
    assert(apart(27 * (r * w), 4 * cube) <= 104 * w) by (nonlinear_arith)
        requires
            q * w <= cube < (q + 3) * w,
            4 * q - 92 <= 27 * r <= 4 * q + 52,
            w > 0,
            apart(27 * (r * w), 4 * cube) == 27 * (r * w) - 4 * cube || apart(
                27 * (r * w),
                4 * cube,
            ) == 4 * cube - 27 * (r * w),
    {
        assert((27 * r) * w <= (4 * q + 52) * w);
        assert((27 * r) * w >= (4 * q - 92) * w);
    }
    assert(r <= s) by {
        assert(3 * q <= 7 * s) by (nonlinear_arith)
            requires
                q * one <= p * s,
                p <= 9 * one / 4,
                s >= 0,
                one > 0,
                q >= 0,
        {
            assert(4 * (p * s) <= (9 * one) * s);
            assert(4 * (q * one) <= (9 * s) * one);
            assert(4 * q <= 9 * s);
        }
    }
    let y = (-x) as PrcFmt;
    assert(y * y == s * s && q * s == q * s) by (nonlinear_arith)
        requires
            y == -s,
    ;
    assert(p * y == -(p * s)) by (nonlinear_arith)
        requires
            y == -s,
    ;
    assert(prod(p as PrcFmt, y) == -q);
    assert(CUBE_FACTOR * (-q) == -(CUBE_FACTOR * q)) by (nonlinear_arith);
    assert(prod(CUBE_FACTOR, (-q) as PrcFmt) == -r);
}

/// Soft clipping takes four twenty-sevenths of its cube off a sample up to one and a half, and
/// is flat beyond it.
pub proof fn law_clip_curve_takes_off_a_cube(x: PrcFmt)
    requires
        0 <= x,
    ensures
        2 * x <= 3 * ONE ==> apart(27 * ((x - clip_curve(x)) * (ONE * ONE)), 4 * (x * (x * x)))
            <= 100 * (ONE * ONE),
        2 * x >= 3 * ONE ==> ONE - 8 <= clip_curve(x) <= ONE + 8,
{
    lemma_curve(CLIP_EDGE);
    if x <= CLIP_EDGE {
        lemma_curve(x);
    } else {
        assert(clip_curve(x) == clip_curve(CLIP_EDGE));
    }
    let y = CLIP_EDGE as int;
    let w = ONE * ONE;
    assert(8 * (y * (y * y)) == 27 * (ONE * w)) by (nonlinear_arith)
        requires
            2 * y == 3 * ONE,
            w == ONE * ONE,
    ;
    let d = CLIP_EDGE - clip_curve(CLIP_EDGE);
    assert(apart(27 * (d * w), 4 * (y * (y * y))) <= 100 * w);
    assert(54 * (d * w) - 27 * (ONE * w) == 27 * ((2 * d - ONE) * w)) by (nonlinear_arith);
    assert(-8 <= 2 * d - ONE <= 8) by (nonlinear_arith)
        requires
            -200 * w <= 27 * ((2 * d - ONE) * w) <= 200 * w,
            w > 0,
    ;
}

/// It treats both polarities alike.
pub proof fn law_clip_curve_is_odd(x: PrcFmt)
    requires
        x > i128::MIN,
    ensures
        clip_curve((-x) as PrcFmt) == -clip_curve(x),
{
    lemma_curve(CLIP_EDGE);
    let y: PrcFmt = if x < 0 {
        (-x) as PrcFmt
    } else {
        x
    };
    if y <= CLIP_EDGE {
        lemma_curve(y);
    }
}

/// A louder sample comes out no softer, up to rounding.
pub proof fn law_clip_curve_is_ordered(x: PrcFmt, y: PrcFmt)
    requires
        0 <= x <= y,
    ensures
        clip_curve(x) <= clip_curve(y) + 8,
{
    let (a, b): (PrcFmt, PrcFmt) = (
        if x <= CLIP_EDGE {
            x
        } else {
            CLIP_EDGE
        },
        if y <= CLIP_EDGE {
            y
        } else {
            CLIP_EDGE
        },
    );
    lemma_curve(a);
    lemma_curve(b);
    assert(clip_curve(x) == clip_curve(a) && clip_curve(y) == clip_curve(b));
    let (s, t, w) = (a as int, b as int, ONE * ONE);
    let (p, q) = (s * (s * s), t * (t * t));
    assert(4 * (q - p) <= 27 * ((t - s) * w)) by {
        assert(q - p == (t - s) * (s * s + s * t + t * t)) by (nonlinear_arith)
            requires
                p == s * (s * s),
                q == t * (t * t),
        ;
        let k = s * s + s * t + t * t;
        assert(4 * k <= 27 * w) by (nonlinear_arith)
            requires
                k == s * s + s * t + t * t,
                0 <= s <= t,
                2 * t <= 3 * ONE,
                w == ONE * ONE,
        {
            assert(s * s <= t * t);
            assert(s * t <= t * t);
            assert((2 * t) * (2 * t) <= (3 * ONE) * (3 * ONE));
        }
        assert(4 * ((t - s) * k) <= 27 * ((t - s) * w)) by (nonlinear_arith)
            requires
                4 * k <= 27 * w,
                t >= s,
        ;
    }
    let (c, d) = (clip_curve(a) as int, clip_curve(b) as int);
    assert(c <= d + 8) by (nonlinear_arith)
        requires
            4 * (q - p) <= 27 * ((t - s) * w),
            27 * ((s - c) * w) >= 4 * p - 100 * w,
            27 * ((t - d) * w) <= 4 * q + 100 * w,
            w > 0,
    {
        assert(27 * ((c - d) * w) <= 200 * w);
    }
}

/// The clipper only takes away: what comes out lies between silence and what went in.
pub proof fn law_clipper_only_takes_away(l: Limiter, v: PrcFmt)
    requires
        0 < l.clip_limit,
        0 <= v,
        v * ONE <= i128::MAX * l.clip_limit,
    ensures
        0 <= l.clipped(v) <= v,
{
    let (x, m) = (quot(v, l.clip_limit), l.clip_limit as int);
    reveal(quot);
    assert(v * ONE / m <= i128::MAX) by (nonlinear_arith)
        requires
            v * ONE <= i128::MAX * m,
            m > 0,
    ;
    assert(0 <= x && x * m <= v * ONE) by (nonlinear_arith)
        requires
            x == v * ONE / m,
            m > 0,
            v >= 0,
    ;
    lemma_curve(CLIP_EDGE);
    if x <= CLIP_EDGE {
        lemma_curve(x);
    }
    let c = clip_curve(x);
    assert(0 <= c <= x);
    assert(0 <= c * m <= x * m) by (nonlinear_arith)
        requires
            0 <= c <= x,
            m > 0,
    ;
}

/// Up to its limit it takes no more than four twenty-sevenths of a sample, and from one and a
/// half times its limit on it gives the limit.
pub proof fn law_clipper_bends_towards_its_limit(l: Limiter, v: PrcFmt)
    requires
        0 < l.clip_limit <= ONE,
        0 <= v,
        v * ONE <= i128::MAX * l.clip_limit,
    ensures
        v <= l.clip_limit ==> 27 * l.clipped(v) >= 23 * v - 200,
        2 * v >= 3 * l.clip_limit ==> l.clip_limit - 16 <= l.clipped(v) <= l.clip_limit + 16,
{
    let (x, m) = (quot(v, l.clip_limit), l.clip_limit as int);
    reveal(quot);
    assert(v * ONE / m <= i128::MAX) by (nonlinear_arith)
        requires
            v * ONE <= i128::MAX * m,
            m > 0,
    ;
    assert(0 <= x && x * m <= v * ONE < (x + 1) * m) by (nonlinear_arith)
        requires
            x == v * ONE / m,
            m > 0,
            v >= 0,
    ;
    law_clip_curve_takes_off_a_cube(x);
    law_clipper_only_takes_away(l, v);
    lemma_curve(CLIP_EDGE);
    if x <= CLIP_EDGE {
        lemma_curve(x);
    }
    let (c, r) = (clip_curve(x) as int, l.clipped(v) as int);
    assert(0 <= c <= x);
    assert(0 <= c * m <= x * m) by (nonlinear_arith)
        requires
            0 <= c <= x,
            m > 0,
    ;
    assert(r * ONE <= c * m < (r + 1) * ONE);
    if v <= l.clip_limit {
        let w = ONE * ONE;
        let s = x as int;
        assert(x <= ONE) by (nonlinear_arith)
            requires
                x * m <= v * ONE,
                v <= m,
                m > 0,
        ;
        assert(s * (s * s) <= s * w) by (nonlinear_arith)
            requires
                0 <= s <= ONE,
                w == ONE * ONE,
        {
            assert(s * s <= ONE * ONE);
        }
        assert(27 * c >= 23 * s - 100) by (nonlinear_arith)
            requires
                27 * ((s - c) * w) <= 4 * (s * (s * s)) + 100 * w,
                s * (s * s) <= s * w,
                w > 0,
        {
            assert((27 * (s - c)) * w <= (4 * s + 100) * w);
        }
        assert(27 * (c * m) >= 23 * (s * m) - 100 * m) by (nonlinear_arith)
            requires
                27 * c >= 23 * s - 100,
                m > 0,
        ;
        assert((x + 1) * m == s * m + m) by (nonlinear_arith)
            requires
                s == x,
        ;
        assert(27 * (c * m) >= 23 * (v * ONE) - 123 * ONE);
    }
    if 2 * v >= 3 * l.clip_limit {
        assert(2 * x >= 3 * ONE - 1) by (nonlinear_arith)
            requires
                v * ONE < (x + 1) * m,
                2 * v >= 3 * m,
                m > 0,
        {
            assert((3 * m) * ONE <= (2 * v) * ONE);
            assert((2 * (x + 1)) * m > (3 * ONE) * m);
        }
        assert(2 * x >= 3 * ONE);
        assert(ONE - 8 <= c <= ONE + 8);
        assert(ONE * m - 8 * m <= c * m <= ONE * m + 8 * m) by (nonlinear_arith)
            requires
                ONE - 8 <= c <= ONE + 8,
                m > 0,
        ;
    }
}

} // verus!
