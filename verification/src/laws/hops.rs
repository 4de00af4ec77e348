//! How many hops there are.
use crate::fixed::PrcFmt;
use crate::hops::{Frame, Listener, Sums};
use crate::laws::chunks::lemma_chunk_is_measured;
use crate::model::Model;
use crate::settings::{Settings, Setup};
use vstd::prelude::*;

verus! {

/// The hop under way has as many frames as the complete ones leave over.
pub proof fn law_hop_under_way_is_counted(
    l: Listener,
    frames: Seq<Frame>,
    n: int,
    s: Settings,
    u: Setup,
)
    requires
        0 <= n <= frames.len(),
        l.sums.count < u.hop_frames,
    ensures
        l.after_frames(frames, n, s, u).sums.count == (l.sums.count + n) % (u.hop_frames as int),
    decreases n,
{
    let h = u.hop_frames as int;
    let total = l.sums.count + n;
    if n == 0 {
        vstd::arithmetic::div_mod::lemma_small_mod(l.sums.count as nat, h as nat);
    } else {
        law_hop_under_way_is_counted(l, frames, n - 1, s, u);
        let before = l.after_frames(frames, n - 1, s, u);
        lemma_next_count(total - 1, h);
        assert(before.sums.with(frames[n - 1]).count == before.sums.count + 1);
    }
}

/// Hops are counted by frames: every `hop_frames` frames complete one.
#[verifier::rlimit(30)]
pub proof fn law_hops_are_counted(l: Listener, frames: Seq<Frame>, n: int, s: Settings, u: Setup)
    requires
        0 <= n <= frames.len(),
        l.sums.count < u.hop_frames,
        l.estimate.hops + (l.sums.count + n) / (u.hop_frames as int) <= usize::MAX,
    ensures
        l.after_frames(frames, n, s, u).sums.count == (l.sums.count + n) % (u.hop_frames as int),
        l.after_frames(frames, n, s, u).estimate.hops == l.estimate.hops + (l.sums.count + n) / (
        u.hop_frames as int),
    decreases n,
{
    let h = u.hop_frames as int;
    let total = l.sums.count + n;
    law_hop_under_way_is_counted(l, frames, n, s, u);
    if n == 0 {
        vstd::arithmetic::div_mod::lemma_basic_div(l.sums.count as int, h);
    } else {
        vstd::arithmetic::div_mod::lemma_div_is_ordered(total - 1, total, h);
        law_hops_are_counted(l, frames, n - 1, s, u);
        let before = l.after_frames(frames, n - 1, s, u);
        lemma_next_count(total - 1, h);
        assert(before.sums.with(frames[n - 1]).count == before.sums.count + 1);
    }
}

/// What one more frame does to the number of complete hops.
pub proof fn lemma_next_count(k: int, h: int)
    requires
        k >= 0,
        h > 0,
    ensures
        0 <= k % h < h,
        k % h + 1 == h ==> (k + 1) % h == 0 && (k + 1) / h == k / h + 1,
        k % h + 1 != h ==> (k + 1) % h == k % h + 1 && (k + 1) / h == k / h,
{
    vstd::arithmetic::div_mod::lemma_fundamental_div_mod(k, h);
    vstd::arithmetic::div_mod::lemma_mod_bound(k, h);
    let d = k / h;
    if k % h + 1 == h {
        assert(k + 1 == h * (d + 1)) by (nonlinear_arith)
            requires
                k == h * d + k % h,
                k % h + 1 == h,
        ;
        vstd::arithmetic::mul::lemma_mul_is_commutative(h, d + 1);
        vstd::arithmetic::div_mod::lemma_fundamental_div_mod_converse(k + 1, h, d + 1, 0);
    } else {
        vstd::arithmetic::mul::lemma_mul_is_commutative(h, d);
        vstd::arithmetic::div_mod::lemma_fundamental_div_mod_converse(k + 1, h, d, k % h + 1);
    }
}

/// A fresh processor has measured as many hops as fit into the frames of its first chunk,
/// whatever the size of the chunk.
pub proof fn law_fresh_hop_count(
    m: Model,
    waves: Seq<Seq<PrcFmt>>,
    frames: int,
)
    requires
        m.setup.hop_frames > 0,
        m.listener.sums == Sums::empty(),
        m.listener.estimate.hops == 0,
        m.active_frames(waves) == Some(frames),
        0 <= frames <= usize::MAX,
    ensures
        m.after_chunk(waves).listener.estimate.hops == frames / (m.setup.hop_frames as int),
{
    let h = m.setup.hop_frames as int;
    assert(frames / h <= frames) by {
        vstd::arithmetic::div_mod::lemma_div_is_ordered_by_denominator(frames, 1, h);
    }
    lemma_chunk_is_measured(m, waves, frames);
    law_hops_are_counted(m.listener, m.sidechain(waves, frames), frames, m.settings, m.setup);
}

} // verus!
