//! Laws of the measured power.
use crate::filters::Biquad;
use crate::fixed::{lemma_prod_zero, lemma_quot_sign, negated, prod, quot, sum, whole, PrcFmt, ONE};
use crate::laws::constants::lemma_cut_scaled;
use crate::sidechain::{all_within, carrying, heard, power_of, power_sum};
use vstd::prelude::*;

verus! {

/// The entries of a list, up to the first `n`, whose channels are not empty.
pub open spec fn carried(list: Seq<usize>, waves: Seq<Seq<PrcFmt>>, n: int) -> Seq<usize>
    decreases n,
{
    if n <= 0 {
        Seq::empty()
    } else if waves[list[n - 1] as int].len() > 0 {
        carried(list, waves, n - 1).push(list[n - 1])
    } else {
        carried(list, waves, n - 1)
    }
}

/// The filters that belong to those entries.
pub open spec fn carried_filters(
    filters: Seq<Biquad>,
    list: Seq<usize>,
    waves: Seq<Seq<PrcFmt>>,
    n: int,
) -> Seq<Biquad>
    decreases n,
{
    if n <= 0 {
        Seq::empty()
    } else if waves[list[n - 1] as int].len() > 0 {
        carried_filters(filters, list, waves, n - 1).push(filters[n - 1])
    } else {
        carried_filters(filters, list, waves, n - 1)
    }
}

/// Sums over the first entries do not see what comes after them.
proof fn lemma_prefix(
    filters: Seq<Biquad>,
    list: Seq<usize>,
    filter: Biquad,
    entry: usize,
    waves: Seq<Seq<PrcFmt>>,
    frames: int,
    n: int,
    j: int,
)
    requires
        n <= list.len(),
        filters.len() == list.len(),
    ensures
        power_sum(filters.push(filter), list.push(entry), waves, frames, n, j) == power_sum(
            filters,
            list,
            waves,
            frames,
            n,
            j,
        ),
        carrying(list.push(entry), waves, n) == carrying(list, waves, n),
    decreases n,
{
    if n > 0 {
        lemma_prefix(filters, list, filter, entry, waves, frames, n - 1, j);
        assert(list.push(entry)[n - 1] == list[n - 1]);
        assert(filters.push(filter)[n - 1] == filters[n - 1]);
    }
}

proof fn lemma_carried(
    filters: Seq<Biquad>,
    list: Seq<usize>,
    waves: Seq<Seq<PrcFmt>>,
    frames: int,
    n: int,
    j: int,
)
    requires
        frames >= 0,
        0 <= n <= list.len(),
        0 <= j,
    ensures
        ({
            let kept = carried(list, waves, n);
            let theirs = carried_filters(filters, list, waves, n);
            let k = kept.len() as int;
            &&& theirs.len() == k
            &&& carrying(list, waves, n) == k
            &&& carrying(kept, waves, k) == k
            &&& power_sum(filters, list, waves, frames, n, j) == power_sum(
                theirs,
                kept,
                waves,
                frames,
                k,
                j,
            )
        }),
    decreases n,
{
    if n > 0 {
        lemma_carried(filters, list, waves, frames, n - 1, j);
        let kept = carried(list, waves, n - 1);
        let theirs = carried_filters(filters, list, waves, n - 1);
        let k = kept.len() as int;
        let wave = waves[list[n - 1] as int];
        if wave.len() > 0 {
            lemma_prefix(theirs, kept, filters[n - 1], list[n - 1], waves, frames, k, j);
            assert(kept.push(list[n - 1])[k] == list[n - 1]);
            assert(theirs.push(filters[n - 1])[k] == filters[n - 1]);
        } else {
            assert(heard(wave, frames).len() == 0);
        }
    }
}

/// Channels that are not used do not count: the power is that of the others.
pub proof fn law_unused_channels_do_not_count(
    filters: Seq<Biquad>,
    list: Seq<usize>,
    waves: Seq<Seq<PrcFmt>>,
    frames: int,
)
    requires
        frames >= 0,
    ensures
        power_of(filters, list, waves, frames) == power_of(
            carried_filters(filters, list, waves, list.len() as int),
            carried(list, waves, list.len() as int),
            waves,
            frames,
        ),
{
    let n = list.len() as int;
    let whole = power_of(filters, list, waves, frames);
    let part = power_of(
        carried_filters(filters, list, waves, n),
        carried(list, waves, n),
        waves,
        frames,
    );
    assert forall|j: int| 0 <= j < frames implies #[trigger] whole[j] == part[j] by {
        lemma_carried(filters, list, waves, frames, n, j);
    }
    assert(whole =~= part);
}

/// Whether a number is not at an end of the range.
pub open spec fn unsaturated(v: PrcFmt) -> bool {
    i128::MIN < v < i128::MAX
}

/// Whether nothing saturates in a filter as `input` goes in.
pub open spec fn clear(f: Biquad, input: PrcFmt) -> bool {
    let c = f.coeffs;
    let out = f.output(input);
    &&& unsaturated(input)
    &&& unsaturated(f.s1)
    &&& unsaturated(f.s2)
    &&& unsaturated(prod(c.b0, input))
    &&& unsaturated(out)
    &&& unsaturated(prod(c.b1, input))
    &&& unsaturated(sum(f.s2, prod(c.b1, input)))
    &&& unsaturated(prod(c.a1, out))
    &&& unsaturated(f.after(input).s1)
    &&& unsaturated(prod(c.b2, input))
    &&& unsaturated(prod(c.a2, out))
    &&& unsaturated(f.after(input).s2)
}

/// The same filter after the same past with the opposite sign.
pub open spec fn mirrored(f: Biquad) -> Biquad {
    Biquad { s1: negated(f.s1), s2: negated(f.s2), ..f }
}

/// A channel with the opposite sign.
pub open spec fn opposite(wave: Seq<PrcFmt>) -> Seq<PrcFmt> {
    Seq::new(wave.len(), |j: int| negated(wave[j]))
}

proof fn lemma_product_sign(a: PrcFmt, b: PrcFmt)
    requires
        unsaturated(b),
        unsaturated(prod(a, b)),
    ensures
        prod(a, negated(b)) == -prod(a, b),
{
    let c = negated(b);
    assert(a * c == -(a * b)) by (nonlinear_arith)
        requires
            c == -b,
    ;
}

proof fn lemma_mirror_step(f: Biquad, input: PrcFmt)
    requires
        clear(f, input),
    ensures
        mirrored(f).output(negated(input)) == -f.output(input),
        mirrored(f).after(negated(input)) == mirrored(f.after(input)),
{
    let c = f.coeffs;
    let out = f.output(input);
    lemma_product_sign(c.b0, input);
    lemma_product_sign(c.b1, input);
    lemma_product_sign(c.b2, input);
    lemma_product_sign(c.a1, out);
    lemma_product_sign(c.a2, out);
}

proof fn lemma_mirror_wave(f: Biquad, wave: Seq<PrcFmt>, n: int)
    requires
        0 <= n <= wave.len(),
        forall|j: int| 0 <= j < n ==> clear(f.after_wave(wave, j), #[trigger] wave[j]),
    ensures
        mirrored(f).after_wave(opposite(wave), n) == mirrored(f.after_wave(wave, n)),
    decreases n,
{
    if n > 0 {
        lemma_mirror_wave(f, wave, n - 1);
        assert(clear(f.after_wave(wave, n - 1), wave[n - 1]));
        lemma_mirror_step(f.after_wave(wave, n - 1), wave[n - 1]);
    }
}

/// Squares do not tell signs apart.
proof fn lemma_square_sign(a: PrcFmt, b: PrcFmt)
    requires
        b == -a,
    ensures
        prod(a, a) == prod(b, b),
{
    assert(a * a == b * b) by (nonlinear_arith)
        requires
            b == -a,
    ;
}

/// The filters of a list with those of turned channels mirrored.
pub open spec fn with_mirrored(
    filters: Seq<Biquad>,
    list: Seq<usize>,
    turned: Seq<bool>,
) -> Seq<Biquad> {
    Seq::new(
        filters.len(),
        |i: int|
            if turned[list[i] as int] {
                mirrored(filters[i])
            } else {
                filters[i]
            },
    )
}

/// The audio with some channels turned.
pub open spec fn with_opposite(waves: Seq<Seq<PrcFmt>>, turned: Seq<bool>) -> Seq<Seq<PrcFmt>> {
    Seq::new(
        waves.len(),
        |c: int|
            if turned[c] {
                opposite(waves[c])
            } else {
                waves[c]
            },
    )
}

/// Whether nothing saturates as a filter runs over a channel.
pub open spec fn runs_clear(f: Biquad, wave: Seq<PrcFmt>) -> bool {
    forall|k: int| 0 <= k < wave.len() ==> clear(f.after_wave(wave, k), #[trigger] wave[k])
}

proof fn lemma_polarity(
    filters: Seq<Biquad>,
    list: Seq<usize>,
    waves: Seq<Seq<PrcFmt>>,
    frames: int,
    turned: Seq<bool>,
    n: int,
    j: int,
)
    requires
        frames >= 0,
        0 <= j,
        turned.len() == waves.len(),
        all_within(list, waves.len() as int),
        0 <= n <= list.len(),
        filters.len() == list.len(),
        forall|i: int|
            0 <= i < list.len() && turned[list[i] as int] ==> runs_clear(
                #[trigger] filters[i],
                heard(waves[list[i] as int], frames),
            ),
    ensures
        power_sum(
            with_mirrored(filters, list, turned),
            list,
            with_opposite(waves, turned),
            frames,
            n,
            j,
        ) == power_sum(filters, list, waves, frames, n, j),
        carrying(list, with_opposite(waves, turned), n) == carrying(list, waves, n),
    decreases n,
{
    if n > 0 {
        lemma_polarity(filters, list, waves, frames, turned, n - 1, j);
        let i = n - 1;
        let c = list[i] as int;
        assert(list[i] < waves.len());
        if turned[c] {
            let wave = heard(waves[c], frames);
            assert(heard(opposite(waves[c]), frames) =~= opposite(wave));
            if j < wave.len() {
                let f = filters[i];
                assert(runs_clear(filters[i], wave));
                lemma_mirror_wave(f, wave, j);
                assert(clear(f.after_wave(wave, j), wave[j]));
                lemma_mirror_step(f.after_wave(wave, j), wave[j]);
                lemma_square_sign(
                    f.wave_output(wave, j),
                    mirrored(f).wave_output(opposite(wave), j),
                );
            }
        }
    }
}

/// Turning the sign of any monitored channels, past and present, does not change the power, as
/// long as nothing saturates in their filters: the level does not depend on how the channels
/// are correlated.
pub proof fn law_power_ignores_polarity(
    filters: Seq<Biquad>,
    list: Seq<usize>,
    waves: Seq<Seq<PrcFmt>>,
    frames: int,
    turned: Seq<bool>,
)
    requires
        frames >= 0,
        turned.len() == waves.len(),
        all_within(list, waves.len() as int),
        filters.len() == list.len(),
        forall|i: int|
            0 <= i < list.len() && turned[list[i] as int] ==> runs_clear(
                #[trigger] filters[i],
                heard(waves[list[i] as int], frames),
            ),
    ensures
        power_of(
            with_mirrored(filters, list, turned),
            list,
            with_opposite(waves, turned),
            frames,
        ) == power_of(filters, list, waves, frames),
{
    let n = list.len() as int;
    let (p, q) = (
        power_of(
            with_mirrored(filters, list, turned),
            list,
            with_opposite(waves, turned),
            frames,
        ),
        power_of(filters, list, waves, frames),
    );
    assert forall|j: int| 0 <= j < frames implies #[trigger] p[j] == q[j] by {
        lemma_polarity(filters, list, waves, frames, turned, n, j);
    }
    assert(p =~= q);
}

/// Whether a filter is of first order and does not amplify what it adds up.
pub open spec fn gentle(f: Biquad) -> bool {
    let c = f.coeffs;
    &&& -ONE <= c.a1 <= ONE
    &&& -ONE <= c.b0 <= ONE
    &&& -ONE <= c.b1 <= ONE
    &&& c.a2 == 0
    &&& c.b2 == 0
}

proof fn lemma_gentle_product(a: PrcFmt, x: PrcFmt, size: int)
    requires
        -ONE <= a <= ONE,
        -size <= x <= size,
        size <= 0x4000_0000_0000_0000_0000_0000_0000_0000,
    ensures
        -size <= prod(a, x) <= size,
{
    assert(-(ONE * size) <= a * x <= ONE * size) by (nonlinear_arith)
        requires
            -ONE <= a <= ONE,
            -size <= x <= size,
    {
        let (p, q) = (
            if a >= 0 {
                a as int
            } else {
                -a
            },
            if x >= 0 {
                x as int
            } else {
                -x
            },
        );
        assert(p * q <= ONE * size);
        assert(a * x == p * q || a * x == -(p * q));
    }
}

proof fn lemma_gentle_step(f: Biquad, input: PrcFmt, held: int, peak: int)
    requires
        gentle(f),
        f.s2 == 0,
        -held <= f.s1 <= held,
        -peak <= input <= peak,
        held >= 0,
        peak >= 0,
        held + 2 * peak < 0x4000_0000_0000_0000_0000_0000_0000_0000,
    ensures
        clear(f, input),
        gentle(f.after(input)),
        f.after(input).s2 == 0,
        -(held + 2 * peak) <= f.after(input).s1 <= held + 2 * peak,
{
    let c = f.coeffs;
    lemma_gentle_product(c.b0, input, peak);
    lemma_gentle_product(c.b1, input, peak);
    lemma_gentle_product(c.a1, f.output(input), held + peak);
    lemma_prod_zero(input);
    lemma_prod_zero(f.output(input));
}

proof fn lemma_gentle_run(f: Biquad, wave: Seq<PrcFmt>, n: int, held: int, peak: int)
    requires
        gentle(f),
        f.s2 == 0,
        -held <= f.s1 <= held,
        held >= 0,
        peak >= 0,
        0 <= n <= wave.len(),
        forall|k: int| 0 <= k < wave.len() ==> -peak <= #[trigger] wave[k] <= peak,
        held + 2 * (wave.len() * peak) < 0x4000_0000_0000_0000_0000_0000_0000_0000,
    ensures
        gentle(f.after_wave(wave, n)),
        f.after_wave(wave, n).s2 == 0,
        -(held + 2 * (n * peak)) <= f.after_wave(wave, n).s1 <= held + 2 * (n * peak),
        n < wave.len() ==> clear(f.after_wave(wave, n), wave[n]),
    decreases n,
{
    let len = wave.len() as int;
    if n > 0 {
        lemma_gentle_run(f, wave, n - 1, held, peak);
        assert((n - 1) * peak + peak == n * peak) by (nonlinear_arith);
        assert(n * peak <= len * peak) by (nonlinear_arith)
            requires
                n <= len,
                peak >= 0,
        ;
        lemma_gentle_step(
            f.after_wave(wave, n - 1),
            wave[n - 1],
            held + 2 * ((n - 1) * peak),
            peak,
        );
    }
    if n < len {
        assert(n * peak + peak <= len * peak) by (nonlinear_arith)
            requires
                n + 1 <= len,
                peak >= 0,
        ;
        assert(n * peak >= 0) by (nonlinear_arith)
            requires
                n >= 0,
                peak >= 0,
        ;
        lemma_gentle_step(f.after_wave(wave, n), wave[n], held + 2 * (n * peak), peak);
    }
}

/// Sound of a moderate peak does not saturate a first order filter: over `n` frames of a peak
/// `p` nothing gets larger than what the filter held and 2np.
pub proof fn law_moderate_sound_runs_clear(f: Biquad, wave: Seq<PrcFmt>, held: int, peak: int)
    requires
        gentle(f),
        f.s2 == 0,
        -held <= f.s1 <= held,
        held >= 0,
        peak >= 0,
        forall|k: int| 0 <= k < wave.len() ==> -peak <= #[trigger] wave[k] <= peak,
        held + 2 * (wave.len() * peak) < 0x4000_0000_0000_0000_0000_0000_0000_0000,
    ensures
        runs_clear(f, wave),
{
    assert forall|k: int| 0 <= k < wave.len() implies clear(
        f.after_wave(wave, k),
        #[trigger] wave[k],
    ) by {
        lemma_gentle_run(f, wave, k, held, peak);
    }
}

proof fn lemma_sum_not_negative(
    filters: Seq<Biquad>,
    list: Seq<usize>,
    waves: Seq<Seq<PrcFmt>>,
    frames: int,
    n: int,
    j: int,
)
    ensures
        power_sum(filters, list, waves, frames, n, j) >= 0,
    decreases n,
{
    if n > 0 {
        lemma_sum_not_negative(filters, list, waves, frames, n - 1, j);
        let wave = heard(waves[list[n - 1] as int], frames);
        let v = filters[n - 1].wave_output(wave, j);
        assert(v * v >= 0) by (nonlinear_arith);
    }
}

/// Power is never negative.
pub proof fn law_power_is_not_negative(
    filters: Seq<Biquad>,
    list: Seq<usize>,
    waves: Seq<Seq<PrcFmt>>,
    frames: int,
)
    ensures
        forall|j: int|
            0 <= j < frames ==> #[trigger] power_of(filters, list, waves, frames)[j] >= 0,
{
    let n = list.len() as int;
    let counted = carrying(list, waves, n);
    assert forall|j: int| 0 <= j < frames implies #[trigger] power_of(
        filters,
        list,
        waves,
        frames,
    )[j] >= 0 by {
        lemma_sum_not_negative(filters, list, waves, frames, n, j);
        if counted > 1 {
            let v = power_sum(filters, list, waves, frames, n, j);
            lemma_quot_sign(ONE, whole(counted));
            let scale = quot(ONE, whole(counted));
            assert(v * scale >= 0) by (nonlinear_arith)
                requires
                    v >= 0,
                    scale >= 0,
            ;
        }
    }
}

/// The power of a channel alone.
pub open spec fn lone_power(filter: Biquad, wave: Seq<PrcFmt>, frames: int, j: int) -> PrcFmt {
    let part = heard(wave, frames);
    if j < part.len() {
        let v = filter.wave_output(part, j);
        prod(v, v)
    } else {
        0
    }
}

/// A channel alone has its own power.
pub proof fn law_one_channel_has_its_own_power(
    filter: Biquad,
    channel: usize,
    waves: Seq<Seq<PrcFmt>>,
    frames: int,
)
    requires
        frames >= 0,
    ensures
        power_of(seq![filter], seq![channel], waves, frames) == Seq::new(
            frames as nat,
            |j: int| lone_power(filter, waves[channel as int], frames, j),
        ),
{
    let p = power_of(seq![filter], seq![channel], waves, frames);
    let q = Seq::new(
        frames as nat,
        |j: int| lone_power(filter, waves[channel as int], frames, j),
    );
    assert forall|j: int| 0 <= j < frames implies #[trigger] p[j] == q[j] by {
        reveal_with_fuel(power_sum, 2);
        reveal_with_fuel(carrying, 2);
        let wave = heard(waves[channel as int], frames);
        let v = filter.wave_output(wave, j);
        assert(v * v >= 0) by (nonlinear_arith);
    }
    assert(p =~= q);
}

/// Whether each channel of a list is empty, or the same as all others that are not, in its audio
/// and in the past of its filter.
pub open spec fn equal_channels(
    filters: Seq<Biquad>,
    list: Seq<usize>,
    waves: Seq<Seq<PrcFmt>>,
    filter: Biquad,
    wave: Seq<PrcFmt>,
) -> bool {
    forall|i: int|
        0 <= i < list.len() ==> waves[#[trigger] list[i] as int].len() == 0 || (
        waves[list[i] as int] == wave && filters[i] == filter)
}

proof fn lemma_equal_sum(
    filters: Seq<Biquad>,
    list: Seq<usize>,
    waves: Seq<Seq<PrcFmt>>,
    frames: int,
    filter: Biquad,
    wave: Seq<PrcFmt>,
    n: int,
    j: int,
)
    requires
        frames >= 0,
        0 <= j,
        0 <= n <= list.len(),
        equal_channels(filters, list, waves, filter, wave),
        list.len() * lone_power(filter, wave, frames, j) <= i128::MAX,
    ensures
        0 <= carrying(list, waves, n) <= n,
        power_sum(filters, list, waves, frames, n, j) == carrying(list, waves, n) * lone_power(
            filter,
            wave,
            frames,
            j,
        ),
    decreases n,
{
    let one = lone_power(filter, wave, frames, j);
    assert(one >= 0) by {
        let v = filter.wave_output(heard(wave, frames), j);
        assert(v * v >= 0) by (nonlinear_arith);
    }
    if n > 0 {
        lemma_equal_sum(filters, list, waves, frames, filter, wave, n - 1, j);
        let c = list[n - 1] as int;
        let before = carrying(list, waves, n - 1);
        let all = list.len() as int;
        assert((before + 1) * one == before * one + one) by (nonlinear_arith);
        assert((before + 1) * one <= all * one) by (nonlinear_arith)
            requires
                before + 1 <= all,
                one >= 0,
        ;
        assert(before * one >= 0) by (nonlinear_arith)
            requires
                before >= 0,
                one >= 0,
        ;
        assert(waves[c].len() == 0 || (waves[c] == wave && filters[n - 1] == filter));
        if waves[c].len() == 0 {
            assert(heard(waves[c], frames).len() == 0);
        }
    } else {
        assert(0 * one == 0) by (nonlinear_arith);
    }
}

/// Equal channels have the power of one of them, short of it by no more than two steps and one part
/// in 2^80 per channel, as long as their number and their sum can be held.
pub proof fn law_equal_channels_have_the_power_of_one(
    filters: Seq<Biquad>,
    list: Seq<usize>,
    waves: Seq<Seq<PrcFmt>>,
    frames: int,
    filter: Biquad,
    wave: Seq<PrcFmt>,
    j: int,
)
    requires
        0 <= j < frames,
        equal_channels(filters, list, waves, filter, wave),
        list.len() * lone_power(filter, wave, frames, j) <= i128::MAX,
        carrying(list, waves, list.len() as int) > 0,
        list.len() * ONE <= i128::MAX,
    ensures
        ({
            let one = lone_power(filter, wave, frames, j);
            let counted = carrying(list, waves, list.len() as int);
            let power = power_of(filters, list, waves, frames)[j];
            one - counted * one / (ONE as int) - 2 <= power <= one
        }),
{
    let n = list.len() as int;
    let k = carrying(list, waves, n);
    let one = lone_power(filter, wave, frames, j) as int;
    lemma_equal_sum(filters, list, waves, frames, filter, wave, n, j);
    assert(one >= 0) by {
        let v = filter.wave_output(heard(wave, frames), j);
        assert(v * v >= 0) by (nonlinear_arith);
    }
    assert(k * one >= 0) by (nonlinear_arith)
        requires
            k >= 0,
            one >= 0,
    ;
    if k > 1 {
        let s = ONE as int;
        assert(k * s <= n * s) by (nonlinear_arith)
            requires
                k <= n,
                s > 0,
        ;
        lemma_scale(k);
        let scale = quot(ONE, whole(k)) as int;
        let total = k * one;
        assert(total * scale <= s * one) by (nonlinear_arith)
            requires
                total == k * one,
                k * scale <= s,
                one >= 0,
        {
            assert(total * scale == (k * scale) * one);
        }
        assert(total * scale >= s * one - total) by (nonlinear_arith)
            requires
                total == k * one,
                k * scale >= s - k,
                one >= 0,
        {
            assert(total * scale == (k * scale) * one);
            assert((k * scale) * one >= (s - k) * one);
            assert((s - k) * one == s * one - k * one);
        }
        assert(total * scale >= 0) by (nonlinear_arith)
            requires
                total >= 0,
                scale >= 0,
        ;
    } else {
        assert(k == 1);
        assert(1 * one == one);
    }
}

/// The reciprocal of a number of channels.
pub proof fn lemma_scale(k: int)
    requires
        1 < k,
        k * ONE <= i128::MAX,
    ensures
        0 <= quot(ONE, whole(k)),
        ONE - k <= k * quot(ONE, whole(k)) <= ONE,
{
    reveal(quot);
    let s = ONE as int;
    assert(k * s > 0) by (nonlinear_arith)
        requires
            k > 0,
            s > 0,
    ;
    lemma_cut_scaled(s, k);
    let q = s / k;
    vstd::arithmetic::div_mod::lemma_fundamental_div_mod(s, k);
    vstd::arithmetic::div_mod::lemma_mod_bound(s, k);
    vstd::arithmetic::div_mod::lemma_div_pos_is_pos(s, k);
    assert(q <= s) by (nonlinear_arith)
        requires
            k * q <= s,
            k > 1,
            q >= 0,
    ;
}

/// A filter at rest is its own mirror image.
pub proof fn law_fresh_filters_have_no_polarity(f: Biquad)
    requires
        f.s1 == 0,
        f.s2 == 0,
    ensures
        mirrored(f) == f,
{
}

} // verus!
