//! Exact covers: what it is to solve the puzzle, and why the search
//! misses no way to do so.

use vstd::prelude::*;
use crate::solver::mask::is_first_cell;
use crate::solver::piece::{catalog_shape, lemma_catalog_wf, piece_cells};
use crate::solver::solve::{
    frame_candidates, lemma_first_admitted, live_frames, tagged, FrameView,
};
use crate::solver::state::{consistent, placed_cells, union_cells, Placement};
use crate::solver::on_board;

verus! {

/// Whether the pieces can be laid so that they cover the cells of
/// `winning` and no others, no cell twice.
pub open spec fn solvable(winning: Set<(int, int)>) -> bool {
    exists|g: Seq<Option<Placement>>| consistent(g, winning)
}

/// Whether the arrangement `g` has the piece `idx` on the cells that the
/// piece covers at `p`.
pub open spec fn uses(g: Seq<Option<Placement>>, idx: int, p: Placement) -> bool {
    &&& 0 <= idx < 9
    &&& g[idx] is Some
    &&& piece_cells(idx, p) is Some
    &&& piece_cells(idx, p)->0 == placed_cells(g, idx)
}

/// Whether the arrangement `g` has each piece that `placements` places on
/// the cells that the piece covers there.
pub open spec fn extends(g: Seq<Option<Placement>>, placements: Seq<Option<Placement>>) -> bool {
    forall|i: int| 0 <= i < 9 ==> (#[trigger] placements[i] matches Some(p) ==> uses(g, i, p))
}

/// Whether the arrangement `g` lies ahead of the candidate `k` of a level:
/// it has the pieces of the level where the level has them, and the piece
/// of the candidate where the candidate lays it.
pub open spec fn leads_to(f: FrameView, k: int, g: Seq<Option<Placement>>) -> bool {
    &&& 0 <= k < f.pending.len()
    &&& extends(g, f.placements)
    &&& uses(g, f.pending[k].0, f.pending[k].1)
}

/// Whether the arrangement `g` lies ahead of a candidate that some level
/// has not tried yet.
pub open spec fn reachable(frames: Seq<FrameView>, g: Seq<Option<Placement>>) -> bool {
    exists|d: int, k: int| 0 <= d < frames.len() && #[trigger] leads_to(frames[d], k, g)
}

/// Whether every arrangement that covers `winning` exactly lies ahead of a
/// candidate that was not tried yet: the search has missed none so far.
pub open spec fn exhaustive(frames: Seq<FrameView>, winning: Set<(int, int)>) -> bool {
    forall|g: Seq<Option<Placement>>| #[trigger] consistent(g, winning) ==> reachable(frames, g)
}

/// What holds of each level: its pieces lie on cells of `winning` without
/// overlap, and its candidates are placements of pieces that are not
/// placed.
pub open spec fn frame_ok(f: FrameView, winning: Set<(int, int)>) -> bool {
    &&& consistent(f.placements, f.covered)
    &&& f.covered.subset_of(winning)
    &&& forall|k: int|
        0 <= k < f.pending.len() ==> 0 <= (#[trigger] f.pending[k]).0 < 9
            && f.placements[f.pending[k].0] is None
}

/// Whether each level is as `frame_ok` says.
pub open spec fn frames_ok(frames: Seq<FrameView>, winning: Set<(int, int)>) -> bool {
    forall|d: int| 0 <= d < frames.len() ==> frame_ok(#[trigger] frames[d], winning)
}

/// A level stays as it should be when candidates are taken from it.
pub proof fn lemma_frame_ok_after(f: FrameView, winning: Set<(int, int)>, n: int)
    requires
        frame_ok(f, winning),
        0 <= n <= f.pending.len(),
    ensures
        frame_ok(f.after(n), winning),
{
    let rest = f.after(n);
    assert forall|k: int| 0 <= k < rest.pending.len() implies 0 <= (#[trigger] rest.pending[k]).0
        < 9 && rest.placements[rest.pending[k].0] is None by {
        assert(rest.pending[k] == f.pending[k + n]);
    }
}

/// A candidate that an exact cover lies ahead of can be placed.
pub proof fn lemma_ahead_admitted(
    f: FrameView,
    k: int,
    g: Seq<Option<Placement>>,
    winning: Set<(int, int)>,
)
    requires
        frame_ok(f, winning),
        consistent(g, winning),
        leads_to(f, k, g),
    ensures
        f.admits(k, winning),
{
    let idx = f.pending[k].0;
    let p = f.pending[k].1;
    let cells = piece_cells(idx, p)->0;
    assert(cells == placed_cells(g, idx));
    assert forall|c: (int, int)| cells.contains(c) implies winning.contains(c) by {
        assert(placed_cells(g, idx).contains(c));
        assert(union_cells(g).contains(c));
    }
    assert forall|c: (int, int)| cells.contains(c) implies !f.covered.contains(c) by {
        if f.covered.contains(c) {
            assert(union_cells(f.placements).contains(c));
            let j = choose|j: int| 0 <= j < 9 && #[trigger] placed_cells(f.placements, j).contains(c);
            assert(f.placements[j] is Some);
            assert(j != idx);
            assert(uses(g, j, f.placements[j]->0));
            assert(placed_cells(g, j).contains(c));
            if j < idx {
                assert(placed_cells(g, j).disjoint(placed_cells(g, idx)));
            } else {
                assert(placed_cells(g, idx).disjoint(placed_cells(g, j)));
            }
        }
    }
}

/// No exact cover lies ahead of a level without a candidate that can be
/// placed, nor ahead of the candidates before the first one that can.
pub proof fn lemma_none_ahead(
    f: FrameView,
    k: int,
    g: Seq<Option<Placement>>,
    winning: Set<(int, int)>,
)
    requires
        frame_ok(f, winning),
        consistent(g, winning),
        0 <= k < f.first_admitted(winning, 0),
    ensures
        !leads_to(f, k, g),
{
    lemma_first_admitted(f, winning, 0);
    if leads_to(f, k, g) {
        lemma_ahead_admitted(f, k, g, winning);
    }
}

/// The levels above those that `live_frames` leaves have no candidate
/// that can be placed, and the deepest level that it leaves has one.
pub proof fn lemma_live_frames(frames: Seq<FrameView>, winning: Set<(int, int)>)
    ensures
        0 <= live_frames(frames, winning) <= frames.len(),
        live_frames(frames, winning) > 0 ==> frames[live_frames(frames, winning) - 1].live(winning),
        forall|j: int|
            live_frames(frames, winning) <= j < frames.len() ==> !(#[trigger] frames[j]).live(
                winning,
            ),
    decreases frames.len(),
{
    if frames.len() > 0 && !frames.last().live(winning) {
        let lower = frames.drop_last();
        lemma_live_frames(lower, winning);
        assert forall|j: int| live_frames(frames, winning) <= j < frames.len() implies !(
        #[trigger] frames[j]).live(winning) by {
            if j < lower.len() {
                assert(lower[j] == frames[j]);
            }
        }
        if live_frames(frames, winning) > 0 {
            assert(lower[live_frames(frames, winning) - 1] == frames[live_frames(frames, winning)
                - 1]);
        }
    }
}

/// A search that has missed no exact cover, and in which no level has a
/// candidate that can be placed, shows that there is no exact cover.
pub proof fn lemma_exhausted(frames: Seq<FrameView>, winning: Set<(int, int)>)
    requires
        frames_ok(frames, winning),
        exhaustive(frames, winning),
        live_frames(frames, winning) == 0,
    ensures
        !solvable(winning),
{
    lemma_live_frames(frames, winning);
    if solvable(winning) {
        let g = choose|g: Seq<Option<Placement>>| consistent(g, winning);
        assert(reachable(frames, g));
        let (d, k) = choose|d: int, k: int|
            0 <= d < frames.len() && #[trigger] leads_to(frames[d], k, g);
        assert(frame_ok(frames[d], winning));
        lemma_ahead_admitted(frames[d], k, g, winning);
        lemma_first_admitted(frames[d], winning, 0);
        assert(!frames[d].live(winning));
    }
}

/// The candidates of a fresh level are placements of pieces that are not
/// placed.
pub proof fn lemma_frame_candidates_free(
    placements: Seq<Option<Placement>>,
    from: int,
    cx: int,
    cy: int,
    k: int,
)
    requires
        0 <= from,
        0 <= k < frame_candidates(placements, from, cx, cy).len(),
    ensures
        from <= frame_candidates(placements, from, cx, cy)[k].0 < 9,
        placements[frame_candidates(placements, from, cx, cy)[k].0] is None,
        catalog_shape(frame_candidates(placements, from, cx, cy)[k].0).candidates(cx, cy).contains(
            frame_candidates(placements, from, cx, cy)[k].1,
        ),
    decreases 9 - from,
{
    if from < 9 {
        if placements[from] is None {
            let list = catalog_shape(from).candidates(cx, cy);
            let here = tagged(from, list);
            if k < here.len() {
                assert(list[k] == here[k].1);
            } else {
                lemma_frame_candidates_free(placements, from + 1, cx, cy, k - here.len());
            }
        } else {
            lemma_frame_candidates_free(placements, from + 1, cx, cy, k);
        }
    }
}

/// Each candidate of a piece that is not placed is a candidate of a fresh
/// level.
pub proof fn lemma_frame_candidates_hold(
    placements: Seq<Option<Placement>>,
    from: int,
    idx: int,
    p: Placement,
    cx: int,
    cy: int,
)
    requires
        0 <= from <= idx < 9,
        placements[idx] is None,
        catalog_shape(idx).candidates(cx, cy).contains(p),
    ensures
        frame_candidates(placements, from, cx, cy).contains((idx, p)),
    decreases idx - from,
{
    let rest = frame_candidates(placements, from + 1, cx, cy);
    if from < idx {
        lemma_frame_candidates_hold(placements, from + 1, idx, p, cx, cy);
        let t = choose|t: int| 0 <= t < rest.len() && rest[t] == (idx, p);
        if placements[from] is None {
            let here = tagged(from, catalog_shape(from).candidates(cx, cy));
            assert((here + rest)[here.len() + t] == (idx, p));
        }
    } else {
        let list = catalog_shape(idx).candidates(cx, cy);
        let here = tagged(idx, list);
        let t = choose|t: int| 0 <= t < list.len() && list[t] == p;
        assert(here[t] == (idx, p));
        assert((here + rest)[t] == (idx, p));
    }
}

/// The placement with its quarter turns counted modulo four: the piece
/// covers the same cells at both.
pub open spec fn normal(p: Placement) -> Placement {
    Placement { x: p.x, y: p.y, rotation: p.rotation % 4, flipped: p.flipped }
}

/// A fresh level is as it should be, and each exact cover that has the
/// pieces of the level where the level has them lies ahead of one of its
/// candidates: the piece with which the cover covers the cell of the level.
pub proof fn lemma_fresh_frame_reaches(
    f: FrameView,
    g: Seq<Option<Placement>>,
    winning: Set<(int, int)>,
)
    requires
        consistent(f.placements, f.covered),
        f.covered.subset_of(winning),
        on_board(f.cover.0, f.cover.1),
        is_first_cell(winning.difference(f.covered), f.cover),
        f.pending == frame_candidates(f.placements, 0, f.cover.0, f.cover.1),
        consistent(g, winning),
        extends(g, f.placements),
    ensures
        exists|k: int| leads_to(f, k, g),
{
    let c = f.cover;
    assert(winning.contains(c) && !f.covered.contains(c));
    assert(union_cells(g).contains(c));
    let idx = choose|i: int| 0 <= i < 9 && #[trigger] placed_cells(g, i).contains(c);
    let q = g[idx]->0;
    assert(g[idx] is Some);
    assert(piece_cells(idx, q) is Some);
    if f.placements[idx] is Some {
        let p = f.placements[idx]->0;
        assert(uses(g, idx, p));
        assert(placed_cells(f.placements, idx).contains(c));
        assert(union_cells(f.placements).contains(c));
    }
    let p = normal(q);
    let shape = catalog_shape(idx);
    lemma_catalog_wf(idx);
    assert(p.orientation() == q.orientation());
    assert(shape.fits(p) == shape.fits(q));
    assert(shape.cells(p) == shape.cells(q));
    assert(piece_cells(idx, p) == piece_cells(idx, q));
    shape.lemma_candidates_complete(p, c.0, c.1);
    lemma_frame_candidates_hold(f.placements, 0, idx, p, c.0, c.1);
    let k = choose|k: int| 0 <= k < f.pending.len() && f.pending[k] == (idx, p);
    assert(uses(g, idx, p));
    assert(leads_to(f, k, g));
}

/// A fresh level is as `frame_ok` says.
pub proof fn lemma_fresh_frame_ok(f: FrameView, winning: Set<(int, int)>)
    requires
        consistent(f.placements, f.covered),
        f.covered.subset_of(winning),
        f.pending == frame_candidates(f.placements, 0, f.cover.0, f.cover.1),
    ensures
        frame_ok(f, winning),
{
    assert forall|k: int| 0 <= k < f.pending.len() implies 0 <= (#[trigger] f.pending[k]).0 < 9
        && f.placements[f.pending[k].0] is None by {
        lemma_frame_candidates_free(f.placements, 0, f.cover.0, f.cover.1, k);
    }
}

/// An arrangement that has the pieces of a level where the level has them,
/// and one more piece where a candidate of the level lays it, has the
/// pieces of the state with that candidate placed where that state has
/// them.
pub proof fn lemma_extends_placed(f: FrameView, k: int, g: Seq<Option<Placement>>)
    requires
        leads_to(f, k, g),
        f.placements.len() == 9,
    ensures
        extends(g, f.placements.update(f.pending[k].0, Some(f.pending[k].1))),
{
    let idx = f.pending[k].0;
    let next = f.placements.update(idx, Some(f.pending[k].1));
    assert forall|i: int| 0 <= i < 9 implies (#[trigger] next[i] matches Some(p) ==> uses(
        g,
        i,
        p,
    )) by {
        if i != idx {
            assert(next[i] == f.placements[i]);
        }
    }
}

/// One step of the search misses no exact cover. When the levels without
/// a candidate that can be placed are given up, the first candidate of the
/// deepest level left that can be placed is taken from that level, and a
/// fresh level is opened for the state with that candidate placed, each
/// exact cover still lies ahead of a candidate.
pub proof fn lemma_step_exhaustive(
    frames: Seq<FrameView>,
    winning: Set<(int, int)>,
    fresh: FrameView,
)
    requires
        frames_ok(frames, winning),
        exhaustive(frames, winning),
        live_frames(frames, winning) > 0,
        ({
            let d = live_frames(frames, winning);
            let top = frames[d - 1];
            let k = top.first_admitted(winning, 0);
            &&& fresh.placements == top.placements.update(top.pending[k].0, Some(top.pending[k].1))
            &&& consistent(fresh.placements, fresh.covered)
            &&& fresh.covered.subset_of(winning)
            &&& on_board(fresh.cover.0, fresh.cover.1)
            &&& is_first_cell(winning.difference(fresh.covered), fresh.cover)
            &&& fresh.pending == frame_candidates(fresh.placements, 0, fresh.cover.0, fresh.cover.1)
        }),
    ensures
        ({
            let d = live_frames(frames, winning);
            let top = frames[d - 1];
            let k = top.first_admitted(winning, 0);
            let after = frames.take(d - 1).push(top.after(k + 1)).push(fresh);
            &&& frames_ok(after, winning)
            &&& exhaustive(after, winning)
        }),
{
    let d = live_frames(frames, winning);
    lemma_live_frames(frames, winning);
    let top = frames[d - 1];
    let k = top.first_admitted(winning, 0);
    lemma_first_admitted(top, winning, 0);
    let after = frames.take(d - 1).push(top.after(k + 1)).push(fresh);
    assert(frame_ok(top, winning));
    lemma_frame_ok_after(top, winning, k + 1);
    lemma_fresh_frame_ok(fresh, winning);
    assert forall|j: int| 0 <= j < after.len() implies frame_ok(#[trigger] after[j], winning) by {
        if j < d - 1 {
            assert(after[j] == frames[j]);
        }
    }
    assert forall|g: Seq<Option<Placement>>| #[trigger] consistent(g, winning) implies reachable(
        after,
        g,
    ) by {
        assert(reachable(frames, g));
        let (d0, k0) = choose|d0: int, k0: int|
            0 <= d0 < frames.len() && #[trigger] leads_to(frames[d0], k0, g);
        assert(frame_ok(frames[d0], winning));
        lemma_ahead_admitted(frames[d0], k0, g, winning);
        lemma_first_admitted(frames[d0], winning, 0);
        if d0 >= d {
            assert(!frames[d0].live(winning));
            assert(false);
        } else if d0 < d - 1 {
            assert(after[d0] == frames[d0]);
            assert(leads_to(after[d0], k0, g));
        } else {
            if k0 < k {
                lemma_none_ahead(top, k0, g, winning);
            } else if k0 > k {
                assert(top.after(k + 1).pending[k0 - k - 1] == top.pending[k0]);
                assert(after[d - 1] == top.after(k + 1));
                assert(leads_to(after[d - 1], k0 - k - 1, g));
            } else {
                lemma_extends_placed(top, k, g);
                lemma_fresh_frame_reaches(fresh, g, winning);
                let k1 = choose|k1: int| leads_to(fresh, k1, g);
                assert(after[d] == fresh);
                assert(leads_to(after[d], k1, g));
            }
        }
    }
}

/// The first level, opened on the state without a piece, misses no exact
/// cover.
pub proof fn lemma_start_exhaustive(winning: Set<(int, int)>, fresh: FrameView)
    requires
        fresh.placements.len() == 9,
        forall|i: int| 0 <= i < 9 ==> fresh.placements[i] is None,
        consistent(fresh.placements, fresh.covered),
        fresh.covered.subset_of(winning),
        on_board(fresh.cover.0, fresh.cover.1),
        is_first_cell(winning.difference(fresh.covered), fresh.cover),
        fresh.pending == frame_candidates(fresh.placements, 0, fresh.cover.0, fresh.cover.1),
    ensures
        frames_ok(seq![fresh], winning),
        exhaustive(seq![fresh], winning),
{
    let after = seq![fresh];
    lemma_fresh_frame_ok(fresh, winning);
    assert forall|g: Seq<Option<Placement>>| #[trigger] consistent(g, winning) implies reachable(
        after,
        g,
    ) by {
        lemma_fresh_frame_reaches(fresh, g, winning);
        let k1 = choose|k1: int| leads_to(fresh, k1, g);
        assert(after[0] == fresh);
        assert(leads_to(after[0], k1, g));
    }
}

} // verus!
