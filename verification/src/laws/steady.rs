//! Where the reference stands still, the gain does not depend on how the audio is cut into
//! chunks.
use crate::fixed::PrcFmt;
use crate::gain::{Followers, Guide};
use crate::laws::chunks::{
    consecutive, joined, lemma_chunk_is_measured, lemma_first_length, lemma_power, listens_within,
};
use crate::laws::reference::{
    law_pinned_reference_never_moves, law_switched_off_detector_stands_still,
};
use crate::model::Model;
use crate::settings::{Settings, Setup};
use crate::sidechain::filters_after;
use vstd::prelude::*;

verus! {

/// The part of the followers that confidence has no influence on.
pub struct Levels {
    pub env_slow_power: PrcFmt,
    pub env_fast_power: PrcFmt,
    pub reduction_db: PrcFmt,
    pub catching_up: bool,
}

pub open spec fn levels(f: Followers) -> Levels {
    Levels {
        env_slow_power: f.env_slow_power,
        env_fast_power: f.env_fast_power,
        reduction_db: f.reduction_db,
        catching_up: f.catching_up,
    }
}

/// The levels go on where they left off, whatever the confidence.
proof fn lemma_levels_run_on(
    f: Followers,
    k: Followers,
    x: Seq<PrcFmt>,
    y: Seq<PrcFmt>,
    n: int,
    s: Settings,
    u: Setup,
    together: Guide,
    first: Guide,
    second: Guide,
)
    requires
        0 <= n <= x.len() + y.len(),
        together.reference_db == first.reference_db,
        together.reference_db == second.reference_db,
        levels(k) == levels(f.after_frames(x, x.len() as int, s, u, first)),
    ensures
        n <= x.len() ==> levels(f.after_frames(x + y, n, s, u, together)) == levels(
            f.after_frames(x, n, s, u, first),
        ),
        n >= x.len() ==> levels(f.after_frames(x + y, n, s, u, together)) == levels(
            k.after_frames(y, n - x.len(), s, u, second),
        ),
    decreases n,
{
    if n > 0 {
        lemma_levels_run_on(f, k, x, y, n - 1, s, u, together, first, second);
        if n <= x.len() {
            assert((x + y)[n - 1] == x[n - 1]);
        } else {
            assert((x + y)[n - 1] == y[n - 1 - x.len()]);
        }
    }
}

/// Followers under one guide go on where they left off.
pub proof fn lemma_followers_run_on(
    f: Followers,
    x: Seq<PrcFmt>,
    y: Seq<PrcFmt>,
    n: int,
    s: Settings,
    u: Setup,
    g: Guide,
)
    requires
        0 <= n <= x.len() + y.len(),
    ensures
        n <= x.len() ==> f.after_frames(x + y, n, s, u, g) == f.after_frames(x, n, s, u, g),
        n >= x.len() ==> f.after_frames(x + y, n, s, u, g) == f.after_frames(
            x,
            x.len() as int,
            s,
            u,
            g,
        ).after_frames(y, n - x.len(), s, u, g),
    decreases n,
{
    if n > 0 {
        lemma_followers_run_on(f, x, y, n - 1, s, u, g);
        if n <= x.len() {
            assert((x + y)[n - 1] == x[n - 1]);
        } else {
            assert((x + y)[n - 1] == y[n - 1 - x.len()]);
        }
    }
}

/// The work under one guide goes on where it left off.
proof fn lemma_works_run_on(
    f: Followers,
    x: Seq<PrcFmt>,
    y: Seq<PrcFmt>,
    s: Settings,
    u: Setup,
    g: Guide,
)
    ensures
        f.works(x + y, s, u, g) == f.works(x, s, u, g) + f.after_frames(
            x,
            x.len() as int,
            s,
            u,
            g,
        ).works(y, s, u, g),
{
    let k = f.after_frames(x, x.len() as int, s, u, g);
    let parts = f.works(x, s, u, g) + k.works(y, s, u, g);
    assert forall|j: int| 0 <= j < x.len() + y.len() implies #[trigger] f.works(x + y, s, u, g)[j]
        == parts[j] by {
        lemma_followers_run_on(f, x, y, j + 1, s, u, g);
    }
    assert(f.works(x + y, s, u, g) =~= parts);
}

/// What a chunk makes of the followers, and the work that it asks for.
pub proof fn lemma_chunk_follows(m: Model, waves: Seq<Seq<PrcFmt>>, frames: int)
    requires
        m.active_frames(waves) == Some(frames),
        frames >= 0,
    ensures
        m.after_chunk(waves).followers == m.followers.after_frames(
            m.power(waves, frames),
            frames,
            m.settings,
            m.setup,
            m.measured(waves, frames).guide(),
        ),
        m.chunk_works(waves, frames) == m.followers.works(
            m.power(waves, frames),
            m.settings,
            m.setup,
            m.measured(waves, frames).guide(),
        ),
        m.power(waves, frames).len() == frames,
{
}

/// Where the reference is pinned or the detector is off, a chunk is heard against the
/// reference that was there before. Where the detector is off, so is the confidence.
proof fn lemma_steady_guide(m: Model, waves: Seq<Seq<PrcFmt>>, frames: int)
    requires
        m.active_frames(waves) == Some(frames),
        m.settings.reference_pinned is Some || m.settings.dialogue_protection == 0,
    ensures
        m.measured(waves, frames).guide().reference_db == m.guide().reference_db,
        m.after_chunk(waves).guide() == m.measured(waves, frames).guide(),
        m.settings.dialogue_protection == 0 ==> m.measured(waves, frames).guide() == m.guide(),
{
    lemma_chunk_is_measured(m, waves, frames);
    if m.settings.dialogue_protection == 0 {
        let side = m.sidechain(waves, frames);
        law_switched_off_detector_stands_still(
            m.listener,
            side,
            side.len() as int,
            m.settings,
            m.setup,
        );
    } else {
        law_pinned_reference_never_moves(m, waves);
    }
}

/// Where a chunk leaves the filters of the monitored channels.
proof fn lemma_monitor_filters(m: Model, waves: Seq<Seq<PrcFmt>>, frames: int)
    requires
        m.active_frames(waves) == Some(frames),
    ensures
        m.after_chunk(waves).bank.sidechain_highpass == filters_after(
            m.bank.sidechain_highpass,
            m.settings.monitor_channels,
            waves,
            frames,
        ),
        m.after_chunk(waves).settings == m.settings,
        m.after_chunk(waves).setup == m.setup,
{
    lemma_chunk_is_measured(m, waves, frames);
}

/// How long two chunks, and the one that they make, are.
pub proof fn lemma_frames(m: Model, a: Seq<Seq<PrcFmt>>, b: Seq<Seq<PrcFmt>>, p: int, q: int)
    requires
        consecutive(a, b, p, q),
        listens_within(m, a.len() as int),
        p + q <= m.setup.chunksize,
        m.active_frames(a) is Some,
    ensures
        m.active_frames(a) == Some(p),
        m.active_frames(b) == Some(q),
        m.active_frames(joined(a, b)) == Some(p + q),
{
    lemma_first_length(m.settings.monitor_channels, a, b, p, q, 0);
}

/// The second of two chunks is heard by a processor that has heard the first.
pub proof fn lemma_second_chunk(m: Model, a: Seq<Seq<PrcFmt>>, b: Seq<Seq<PrcFmt>>, p: int, q: int)
    requires
        m.wf(),
        consecutive(a, b, p, q),
        listens_within(m, a.len() as int),
        p + q <= m.setup.chunksize,
        m.active_frames(a) == Some(p),
        m.active_frames(b) == Some(q),
    ensures
        m.after_chunk(a).active_frames(b) == Some(q),
        m.after_chunk(a).settings == m.settings,
        m.after_chunk(a).setup == m.setup,
        m.power(joined(a, b), p + q) == m.power(a, p) + m.after_chunk(a).power(b, q),
{
    lemma_monitor_filters(m, a, p);
    lemma_power(m.bank.sidechain_highpass, m.settings.monitor_channels, a, b, p, q);
}

/// With the reference pinned or the detector off, the levels and the reduction do not depend
/// on how the audio is cut into chunks. With the detector off, neither does anything else of
/// the gain law: gain, shelf and lift are the same in every frame.
pub proof fn law_steady_gain_is_independent_of_chunks(
    m: Model,
    a: Seq<Seq<PrcFmt>>,
    b: Seq<Seq<PrcFmt>>,
    p: int,
    q: int,
)
    requires
        m.wf(),
        consecutive(a, b, p, q),
        listens_within(m, a.len() as int),
        p + q <= m.setup.chunksize,
        m.settings.reference_pinned is Some || m.settings.dialogue_protection == 0,
        m.active_frames(a) is Some,
    ensures
        levels(m.after_chunk(joined(a, b)).followers) == levels(
            m.after_chunk(a).after_chunk(b).followers,
        ),
        m.settings.dialogue_protection == 0 ==> m.after_chunk(joined(a, b)).followers
            == m.after_chunk(a).after_chunk(b).followers,
        m.settings.dialogue_protection == 0 ==> m.chunk_works(joined(a, b), p + q)
            == m.chunk_works(a, p) + m.after_chunk(a).chunk_works(b, q),
{
    let ab = joined(a, b);
    let then = m.after_chunk(a);
    lemma_frames(m, a, b, p, q);
    lemma_second_chunk(m, a, b, p, q);
    lemma_chunk_follows(m, a, p);
    lemma_chunk_follows(m, ab, p + q);
    lemma_chunk_follows(then, b, q);
    lemma_steady_guide(m, a, p);
    lemma_steady_guide(m, ab, p + q);
    lemma_steady_guide(then, b, q);
    let (s, u) = (m.settings, m.setup);
    let x = m.power(a, p);
    let y = then.power(b, q);
    let g = m.measured(ab, p + q).guide();
    lemma_levels_run_on(
        m.followers,
        then.followers,
        x,
        y,
        p + q,
        s,
        u,
        g,
        m.measured(a, p).guide(),
        then.measured(b, q).guide(),
    );
    if s.dialogue_protection == 0 {
        lemma_followers_run_on(m.followers, x, y, p + q, s, u, g);
        lemma_works_run_on(m.followers, x, y, s, u, g);
    }
}

} // verus!
