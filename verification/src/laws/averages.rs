//! The power of the monitored channels and the mix of the dialogue channels are means.
use crate::filters::Biquad;
use crate::fixed::{quot, whole, PrcFmt, ONE};
use crate::laws::power::lemma_scale;
use crate::laws::reference::apart;
use crate::model::Model;
use crate::sidechain::{carrying, heard, mean_of, mix_of, mix_sum, power_of, power_sum};
use vstd::prelude::*;

verus! {

/// Whether the first `n` channels of a list all reach beyond frame `j`.
pub open spec fn reaching(list: Seq<usize>, waves: Seq<Seq<PrcFmt>>, n: int, j: int) -> bool {
    forall|i: int| 0 <= i < n ==> j < waves[(#[trigger] list[i]) as int].len()
}

/// The exact sum of the squares of frame `j` of the first `n` channels of a list, each filtered.
pub open spec fn squares(
    filters: Seq<Biquad>,
    list: Seq<usize>,
    waves: Seq<Seq<PrcFmt>>,
    frames: int,
    n: int,
    j: int,
) -> int
    decreases n,
{
    if n <= 0 {
        0
    } else {
        let v = filters[n - 1].wave_output(heard(waves[list[n - 1] as int], frames), j);
        squares(filters, list, waves, frames, n - 1, j) + v * v
    }
}

/// The exact sum of frame `j` of the first `n` channels of a list.
pub open spec fn together(list: Seq<usize>, waves: Seq<Seq<PrcFmt>>, n: int, j: int) -> int
    decreases n,
{
    if n <= 0 {
        0
    } else {
        together(list, waves, n - 1, j) + waves[list[n - 1] as int][j]
    }
}

proof fn lemma_all_carry(list: Seq<usize>, waves: Seq<Seq<PrcFmt>>, n: int, j: int)
    requires
        0 <= n <= list.len(),
        0 <= j,
        reaching(list, waves, n, j),
    ensures
        carrying(list, waves, n) == n,
    decreases n,
{
    if n > 0 {
        assert(j < waves[list[n - 1] as int].len());
        lemma_all_carry(list, waves, n - 1, j);
    }
}

proof fn lemma_squares(
    filters: Seq<Biquad>,
    list: Seq<usize>,
    waves: Seq<Seq<PrcFmt>>,
    frames: int,
    n: int,
    j: int,
)
    requires
        0 <= n <= list.len(),
        0 <= j < frames,
        reaching(list, waves, n, j),
        squares(filters, list, waves, frames, n, j) <= i128::MAX * ONE,
    ensures
        0 <= power_sum(filters, list, waves, frames, n, j),
        power_sum(filters, list, waves, frames, n, j) * ONE <= squares(
            filters,
            list,
            waves,
            frames,
            n,
            j,
        ) <= (power_sum(filters, list, waves, frames, n, j) + n) * ONE,
    decreases n,
{
    if n > 0 {
        assert(j < waves[list[n - 1] as int].len());
        let v = filters[n - 1].wave_output(heard(waves[list[n - 1] as int], frames), j);
        assert(v * v >= 0) by (nonlinear_arith);
        lemma_squares(filters, list, waves, frames, n - 1, j);
    }
}

/// The power of the monitored channels is the mean of the squares of their filtered samples, up
/// to a step for each of them and one part in `ONE` for each of them.
pub proof fn law_power_is_the_mean_of_the_squares(
    filters: Seq<Biquad>,
    list: Seq<usize>,
    waves: Seq<Seq<PrcFmt>>,
    frames: int,
    j: int,
)
    requires
        0 <= j < frames,
        list.len() > 0,
        list.len() * ONE <= i128::MAX,
        reaching(list, waves, list.len() as int, j),
        squares(filters, list, waves, frames, list.len() as int, j) <= i128::MAX * ONE,
    ensures
        ({
            let n = list.len() as int;
            let (power, exact) = (
                power_of(filters, list, waves, frames)[j] as int,
                squares(filters, list, waves, frames, n, j),
            );
            &&& n * power * ONE <= exact
            &&& exact * ONE <= (n * power + 2 * n) * (ONE * ONE) + exact * n
        }),
{
    let n = list.len() as int;
    lemma_all_carry(list, waves, n, j);
    lemma_squares(filters, list, waves, frames, n, j);
    let s = power_sum(filters, list, waves, frames, n, j);
    let power = power_of(filters, list, waves, frames)[j];
    assert(power == mean_of(s, n));
    let exact = squares(filters, list, waves, frames, n, j);
    lemma_mean_of(s, n);
    let (p, w) = (power as int, ONE * ONE);
    assert(n * p * ONE <= s * ONE);
    assert(exact * ONE <= (s + n) * w) by (nonlinear_arith)
        requires
            exact <= (s + n) * ONE,
            w == ONE * ONE,
    ;
    assert((s * ONE) * ONE <= ((n * p + n) * ONE + s * n) * ONE);
    assert((s * n) * ONE <= exact * n) by (nonlinear_arith)
        requires
            s * ONE <= exact,
            n > 0,
    ;
    assert((s + n) * w == (s * ONE) * ONE + n * w) by (nonlinear_arith)
        requires
            w == ONE * ONE,
    ;
    assert(((n * p + n) * ONE + s * n) * ONE == (n * p + n) * w + (s * n) * ONE)
        by (nonlinear_arith)
        requires
            w == ONE * ONE,
    ;
    assert((n * p + 2 * n) * w == (n * p + n) * w + n * w) by (nonlinear_arith);
}

/// The mean of a sum, from both sides.
proof fn lemma_mean_of(s: PrcFmt, n: int)
    requires
        s >= 0,
        n > 0,
        n * ONE <= i128::MAX,
    ensures
        n * mean_of(s, n) <= s,
        s * ONE <= (n * mean_of(s, n) + n) * ONE + s * n,
        0 <= mean_of(s, n),
        s > i128::MIN ==> mean_of((-s) as PrcFmt, n) == -mean_of(s, n),
{
    if n > 1 {
        lemma_scale(n);
        let q = quot(ONE, whole(n));
        let m = mean_of(s, n) as int;
        assert(q <= ONE) by (nonlinear_arith)
            requires
                n * q <= ONE,
                n > 1,
                q >= 0,
        ;
        assert(0 <= s * q <= s * ONE) by (nonlinear_arith)
            requires
                0 <= q <= ONE,
                s >= 0,
        ;
        assert(((-s) as PrcFmt) * q == -(s * q)) by (nonlinear_arith)
            requires
                (-s) as PrcFmt == -s,
        ;
        assert(m * ONE <= s * q < (m + 1) * ONE);
        assert(n * m <= s) by (nonlinear_arith)
            requires
                m * ONE <= s * q,
                n * q <= ONE,
                s >= 0,
                n > 0,
        {
            assert((n * m) * ONE <= s * (n * q));
            assert(s * (n * q) <= s * ONE);
        }
        assert(s * ONE <= (n * m + n) * ONE + s * n) by (nonlinear_arith)
            requires
                s * q <= (m + 1) * ONE,
                ONE - n <= n * q,
                s >= 0,
                n > 0,
        {
            assert(s * (n * q) <= (n * (m + 1)) * ONE);
            assert(s * (ONE - n) <= s * (n * q));
        }
    } else {
        assert(n == 1);
    }
}

/// Whether frame `j` of the first `n` channels of a list is far from the ends of the range.
pub open spec fn calm(list: Seq<usize>, waves: Seq<Seq<PrcFmt>>, n: int, j: int) -> bool {
    forall|i: int|
        0 <= i < n ==> -0x10_0000_0000_0000_0000_0000_0000 <= waves[(#[trigger] list[i]) as int][j]
            <= 0x10_0000_0000_0000_0000_0000_0000
}

proof fn lemma_together(list: Seq<usize>, waves: Seq<Seq<PrcFmt>>, n: int, j: int)
    requires
        0 <= n <= list.len(),
        n <= 0x10_0000,
        0 <= j,
        reaching(list, waves, n, j),
        calm(list, waves, n, j),
    ensures
        mix_sum(list, waves, n, j) == together(list, waves, n, j),
        -(n * 0x10_0000_0000_0000_0000_0000_0000) <= together(list, waves, n, j) <= n
            * 0x10_0000_0000_0000_0000_0000_0000,
    decreases n,
{
    if n > 0 {
        assert(j < waves[list[n - 1] as int].len());
        lemma_together(list, waves, n - 1, j);
    }
}

/// The mix of the dialogue channels is the mean of their samples, up to a step for each of them
/// and one part in `ONE` for each of them.
pub proof fn law_mix_is_the_mean_of_the_samples(
    list: Seq<usize>,
    waves: Seq<Seq<PrcFmt>>,
    frames: int,
    j: int,
)
    requires
        0 <= j < frames,
        0 < list.len() <= 0x10_0000,
        reaching(list, waves, list.len() as int, j),
        calm(list, waves, list.len() as int, j),
    ensures
        ({
            let n = list.len() as int;
            let (mix, exact) = (mix_of(list, waves, frames)[j] as int, together(list, waves, n, j));
            apart(n * mix, exact) * ONE <= apart(exact, 0) * n + n * ONE
        }),
{
    let n = list.len() as int;
    lemma_all_carry(list, waves, n, j);
    lemma_together(list, waves, n, j);
    let s = mix_sum(list, waves, n, j);
    let size: PrcFmt = if s < 0 {
        (-s) as PrcFmt
    } else {
        s
    };
    lemma_mean_of(size, n);
    let (m, t) = (mix_of(list, waves, frames)[j] as int, mean_of(size, n) as int);
    assert(m == if s < 0 {
        -t
    } else {
        t
    });
    assert(n * (-t) == -(n * t)) by (nonlinear_arith);
    assert(apart(n * m, s as int) == size - n * t);
}

/// The level is measured on the monitored channels, each through its own highpass.
pub proof fn law_monitored_channels_are_measured(
    m: Model,
    waves: Seq<Seq<PrcFmt>>,
    frames: int,
    j: int,
)
    requires
        0 <= j < frames,
        m.settings.monitor_channels.len() > 0,
        m.settings.monitor_channels.len() * ONE <= i128::MAX,
        reaching(m.settings.monitor_channels, waves, m.settings.monitor_channels.len() as int, j),
        squares(
            m.bank.sidechain_highpass,
            m.settings.monitor_channels,
            waves,
            frames,
            m.settings.monitor_channels.len() as int,
            j,
        ) <= i128::MAX * ONE,
    ensures
        ({
            let list = m.settings.monitor_channels;
            let n = list.len() as int;
            let power = m.sidechain(waves, frames)[j].power as int;
            let exact = squares(m.bank.sidechain_highpass, list, waves, frames, n, j);
            &&& n * power * ONE <= exact
            &&& exact * ONE <= (n * power + 2 * n) * (ONE * ONE) + exact * n
        }),
{
    law_power_is_the_mean_of_the_squares(
        m.bank.sidechain_highpass,
        m.settings.monitor_channels,
        waves,
        frames,
        j,
    );
}

/// Where there are dialogue channels, both sides are the mean of them, and the centre has the
/// power of that mean.
pub proof fn law_dialogue_channels_are_mixed_to_the_centre(
    m: Model,
    list: Seq<usize>,
    waves: Seq<Seq<PrcFmt>>,
    frames: int,
    j: int,
)
    requires
        m.settings.dialogue_channels == Some(list),
        0 <= j < frames,
        0 < list.len() <= 0x10_0000,
        reaching(list, waves, list.len() as int, j),
        calm(list, waves, list.len() as int, j),
    ensures
        ({
            let n = list.len() as int;
            let exact = together(list, waves, n, j);
            let (left, right, mid) = (
                m.side(waves, frames, false)[j] as int,
                m.side(waves, frames, true)[j] as int,
                m.sidechain(waves, frames)[j].mid as int,
            );
            &&& apart(n * left, exact) * ONE <= apart(exact, 0) * n + n * ONE
            &&& right == left
            &&& apart(left, 0) <= 0x8_0000_0000_0000_0000_0000_0000 ==> apart(
                mid * ONE,
                left * left,
            ) <= ONE
        }),
{
    law_mix_is_the_mean_of_the_samples(list, waves, frames, j);
    let left = mix_of(list, waves, frames)[j] as int;
    if apart(left, 0) <= 0x8_0000_0000_0000_0000_0000_0000 {
        let most = 0x8_0000_0000_0000_0000_0000_0000int;
        assert(0 <= left * left <= most * most) by (nonlinear_arith)
            requires
                -most <= left <= most,
        ;
    }
}

} // verus!
