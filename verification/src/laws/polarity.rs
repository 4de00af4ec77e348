//! At any common rate, the level of moderate sound does not depend on the polarity of its
//! channels.
use crate::filters::{turns_of, warped, Biquad, BiquadCoefficients, BiquadParameters};
use crate::fixed::{
    diff, lemma_quot_share, lemma_quot_sign, negated, prod, quot, sum, whole, PrcFmt, ONE,
};
use crate::laws::constants::lemma_cut_scaled;
use crate::laws::power::{
    gentle, law_moderate_sound_runs_clear, law_power_ignores_polarity, runs_clear, with_mirrored,
    with_opposite,
};
use crate::model::{Bank, Model};
use crate::settings::sidechain_design;
use crate::sidechain::{all_within, heard};
use crate::trig::{angle_of, cos_of, series_sum, series_term, sin_of, tan_of, TERMS, TWO_PI};
use crate::tuning::{HOP_RATE_HZ, SIDECHAIN_HIGHPASS_HZ};
use vstd::prelude::*;

verus! {

/// A share of a number, over a whole number that is no smaller than the share.
proof fn lemma_smaller_term(t: PrcFmt, square: PrcFmt, m: int)
    requires
        0 <= square <= m * ONE,
        0 < m <= 0x10000,
        -0x4000_0000_0000_0000_0000_0000_0000 <= t <= 0x4000_0000_0000_0000_0000_0000_0000,
        square <= 6 * ONE,
    ensures
        ({
            let next = negated(quot(prod(t, square), whole(m)));
            &&& t >= 0 ==> -t <= next <= 0
            &&& t <= 0 ==> 0 <= next <= -t
        }),
{
    reveal(quot);
    let size = if t >= 0 {
        t as int
    } else {
        -t
    };
    assert(0 <= size * square <= size * (m * ONE) && size * square <= 6 * (size * ONE)
        && size * (m * ONE) == (size * m) * ONE) by (nonlinear_arith)
        requires
            size >= 0,
            0 <= square <= m * ONE,
            square <= 6 * ONE,
    ;
    assert(t * square == size * square || t * square == -(size * square)) by (nonlinear_arith)
        requires
            t == size || t == -size,
    ;
    assert(t >= 0 ==> t * square >= 0) by (nonlinear_arith)
        requires
            square >= 0,
    ;
    assert(t <= 0 ==> t * square <= 0) by (nonlinear_arith)
        requires
            square >= 0,
    ;
    let p = size * square / (ONE as int);
    assert(0 <= p <= size * m);
    let product = prod(t, square);
    assert(product == p || product == -p);
    lemma_cut_scaled(product as int, m);
    vstd::arithmetic::div_mod::lemma_div_is_ordered(p, size * m, m);
    vstd::arithmetic::div_mod::lemma_div_by_multiple(size, m);
    vstd::arithmetic::div_mod::lemma_div_pos_is_pos(p, m);
    assert(0 <= p / m <= size);
}

/// Terms that alternate and get no larger.
pub proof fn lemma_terms_alternate(first: PrcFmt, square: PrcFmt, offset: int, k: nat)
    requires
        0 <= first <= 6 * ONE,
        0 <= offset <= 1,
        0 <= square <= (1 + offset) * (2 + offset) * ONE,
        k <= TERMS,
    ensures
        ({
            let (t, next) = (
                series_term(first, square, offset, k),
                series_term(first, square, offset, k + 1),
            );
            &&& k % 2 == 0 ==> 0 <= t <= first && -t <= next <= 0
            &&& k % 2 == 1 ==> -first <= t <= 0 && 0 <= next <= -t
        }),
    decreases k,
{
    let t = series_term(first, square, offset, k);
    let (a, b) = (2 * (k + 1) - 1 + offset, 2 * (k + 1) + offset);
    let least = (1 + offset) * (2 + offset);
    assert(least <= a * b <= 0x10000) by (nonlinear_arith)
        requires
            1 + offset <= a <= 100,
            2 + offset <= b <= 100,
            least == (1 + offset) * (2 + offset),
            0 <= offset,
    ;
    assert(least * ONE <= a * b * ONE) by (nonlinear_arith)
        requires
            least <= a * b,
    ;
    assert(least == 2 || least == 6) by (nonlinear_arith)
        requires
            least == (1 + offset) * (2 + offset),
            offset == 0 || offset == 1,
    ;
    if k > 0 {
        lemma_terms_alternate(first, square, offset, (k - 1) as nat);
    }
    lemma_smaller_term(t, square, a * b);
    assert(series_term(first, square, offset, k + 1) == negated(
        quot(prod(t, square), whole(a * b)),
    ));
}

/// The sum of an alternating series lies between zero and its first term.
proof fn lemma_series_between(first: PrcFmt, square: PrcFmt, offset: int, n: nat)
    requires
        0 <= first <= 6 * ONE,
        0 <= offset <= 1,
        0 <= square <= (1 + offset) * (2 + offset) * ONE,
        n <= TERMS,
    ensures
        ({
            let total = series_sum(first, square, offset, n);
            let next = series_term(first, square, offset, n);
            &&& 0 <= total <= first
            &&& 0 <= total + next <= first
        }),
    decreases n,
{
    lemma_terms_alternate(first, square, offset, n);
    if n > 0 {
        lemma_series_between(first, square, offset, (n - 1) as nat);
        lemma_terms_alternate(first, square, offset, (n - 1) as nat);
    }
}

/// Neither the sine nor the cosine of up to a fifth of a turn is negative, so the tangent is
/// not either.
pub proof fn law_small_turns_have_a_tangent(turns: PrcFmt)
    requires
        0 <= 5 * turns <= ONE,
    ensures
        sin_of(turns) >= 0,
        cos_of(turns) >= 0,
        tan_of(turns) >= 0,
{
    let x = angle_of(turns);
    assert(turns as int % ONE as int == turns) by {
        vstd::arithmetic::div_mod::lemma_small_mod(turns as nat, ONE as nat);
    }
    assert(0 <= turns * TWO_PI && 5 * (turns * TWO_PI) <= ONE * TWO_PI) by (nonlinear_arith)
        requires
            0 <= 5 * turns <= ONE,
            TWO_PI >= 0,
    ;
    assert(0 <= x && 5 * x <= TWO_PI);
    assert(0 <= x * x && 25 * (x * x) <= TWO_PI * TWO_PI) by (nonlinear_arith)
        requires
            0 <= x,
            5 * x <= TWO_PI,
    ;
    let square = prod(x, x);
    assert(0 <= square <= 2 * ONE);
    lemma_series_between(x, square, 1, TERMS as nat);
    lemma_series_between(ONE, square, 0, TERMS as nat);
    reveal(sin_of);
    reveal(cos_of);
    lemma_quot_sign(sin_of(turns), cos_of(turns));
}

/// First order sections of an ordinary corner add up without amplifying.
pub proof fn law_first_order_sections_are_gentle(
    samplerate: usize,
    freq: PrcFmt,
    s1: PrcFmt,
    highpass: bool,
)
    requires
        warped(freq, samplerate) >= 0,
    ensures
        ({
            let coeffs = BiquadCoefficients::design(
                samplerate,
                if highpass {
                    BiquadParameters::HighpassFO { freq }
                } else {
                    BiquadParameters::LowpassFO { freq }
                },
            );
            gentle(Biquad { coeffs, s1, s2: 0 })
        }),
{
    reveal(BiquadCoefficients::design);
    let k = warped(freq, samplerate);
    let alpha = sum(ONE, k);
    let rest = diff(ONE, k);
    lemma_share_between(rest, alpha);
    lemma_share_between(ONE, alpha);
    lemma_share_between(negated(ONE), alpha);
    lemma_share_between(k, alpha);
    lemma_share_between(negated(quot(rest, alpha)), ONE);
    lemma_share_between(quot(ONE, alpha), ONE);
    lemma_share_between(quot(negated(ONE), alpha), ONE);
    lemma_share_between(quot(k, alpha), ONE);
    lemma_quot_sign(0, ONE);
}

/// A number over one that is no smaller in size is a share.
proof fn lemma_share_between(a: PrcFmt, b: PrcFmt)
    requires
        b > 0,
        -b <= a <= b,
    ensures
        -ONE <= quot(a, b) <= ONE,
{
    if a >= 0 {
        lemma_quot_share(a, b);
    } else {
        let n = negated(a);
        lemma_quot_share(n, b);
        reveal(quot);
        assert(a * ONE == -(n * ONE)) by (nonlinear_arith)
            requires
                a == -n,
        ;
    }
}

/// At any rate from 400 Hz up, the filters of the monitored channels are gentle.
pub proof fn law_sidechain_filters_are_gentle(samplerate: usize, s1: PrcFmt)
    requires
        samplerate >= HOP_RATE_HZ,
    ensures
        gentle(Biquad { coeffs: sidechain_design(samplerate), s1, s2: 0 }),
{
    reveal(quot);
    let freq = SIDECHAIN_HIGHPASS_HZ;
    let rate = whole(samplerate as int);
    let turns = turns_of(freq, samplerate);
    assert(rate >= 400 * ONE);
    assert(0 <= turns && 5 * turns <= ONE) by {
        let n = freq * ONE;
        let d = rate as int;
        let q = n / d;
        vstd::arithmetic::div_mod::lemma_fundamental_div_mod(n, d);
        vstd::arithmetic::div_mod::lemma_mod_bound(n, d);
        vstd::arithmetic::div_mod::lemma_div_pos_is_pos(n, d);
        assert(5 * q <= ONE) by (nonlinear_arith)
            requires
                d * q <= n,
                n == 60 * ONE * ONE,
                d >= 400 * ONE,
                q >= 0,
        {
            assert(400 * ONE * q <= d * q);
        }
    }
    lemma_share_between(turns, whole(2));
    let half = quot(turns, whole(2));
    assert(0 <= half && 5 * half <= ONE) by {
        lemma_cut_scaled(turns as int, 2);
    }
    law_small_turns_have_a_tangent(half);
    law_first_order_sections_are_gentle(samplerate, freq, s1, true);
}

/// A processor whose turned monitored channels have heard the opposite.
pub open spec fn with_turned_past(m: Model, turned: Seq<bool>) -> Model {
    Model {
        bank: Bank {
            sidechain_highpass: with_mirrored(
                m.bank.sidechain_highpass,
                m.settings.monitor_channels,
                turned,
            ),
            ..m.bank
        },
        ..m
    }
}

/// Turning the sign of any channels, past and present, does not change the power that the
/// processor hears, at any rate from 400 Hz up and for any sound of a moderate peak: all that
/// it asks is that what the filters hold and 2n times the peak, over n frames, stay within half
/// of the range.
pub proof fn law_polarity_of_moderate_sound_does_not_count(
    m: Model,
    waves: Seq<Seq<PrcFmt>>,
    frames: int,
    turned: Seq<bool>,
    held: int,
    peak: int,
)
    requires
        m.wf(),
        m.tuned(),
        m.setup.samplerate >= HOP_RATE_HZ,
        frames >= 0,
        turned.len() == waves.len(),
        all_within(m.settings.monitor_channels, waves.len() as int),
        held >= 0,
        peak >= 0,
        forall|i: int|
            0 <= i < m.bank.sidechain_highpass.len() ==> -held <= (
            #[trigger] m.bank.sidechain_highpass[i]).s1 <= held
                && m.bank.sidechain_highpass[i].s2 == 0,
        forall|c: int, k: int|
            0 <= c < waves.len() && 0 <= k < waves[c].len() ==> -peak <= #[trigger] waves[c][k]
                <= peak,
        held + 2 * (frames * peak) < 0x4000_0000_0000_0000_0000_0000_0000_0000,
    ensures
        with_turned_past(m, turned).power(with_opposite(waves, turned), frames) == m.power(
            waves,
            frames,
        ),
{
    let filters = m.bank.sidechain_highpass;
    let list = m.settings.monitor_channels;
    assert forall|i: int| 0 <= i < list.len() && turned[list[i] as int] implies runs_clear(
        #[trigger] filters[i],
        heard(waves[list[i] as int], frames),
    ) by {
        let c = list[i] as int;
        assert(list[i] < waves.len());
        let wave = heard(waves[c], frames);
        let n = wave.len() as int;
        assert(n * peak <= frames * peak) by (nonlinear_arith)
            requires
                n <= frames,
                peak >= 0,
        ;
        assert forall|k: int| 0 <= k < wave.len() implies -peak <= #[trigger] wave[k]
            <= peak by {
            assert(wave[k] == waves[c][k]);
        }
        law_sidechain_filters_are_gentle(m.setup.samplerate, filters[i].s1);
        assert(filters[i] == Biquad {
            coeffs: sidechain_design(m.setup.samplerate),
            s1: filters[i].s1,
            s2: 0,
        });
        law_moderate_sound_runs_clear(filters[i], wave, held, peak);
    }
    law_power_ignores_polarity(filters, list, waves, frames, turned);
}

} // verus!
