//! The search: a stack of frames, advanced one step at a time.

use vstd::prelude::*;
use vstd::std_specs::bits::{axiom_u64_trailing_zeros, u64_trailing_zeros};
use crate::solver::bits::{
    bit, lemma_bit_and, lemma_bit_not, lemma_bit_or, lemma_bit_single, lemma_bit_zero,
    lemma_clear_lowest, lemma_lowest_bit, lemma_nine_bits,
};
use crate::solver::cover::{
    exhaustive, frame_ok, frames_ok, lemma_exhausted, lemma_frame_candidates_free,
    lemma_live_frames, lemma_start_exhaustive, lemma_step_exhaustive, solvable,
};
use crate::solver::mask::{is_first_cell, BoardMask, TaggedMask};
use crate::solver::piece::{catalog_shape, piece_cells, pieces, Piece, PiecePositions};
use crate::solver::state::{
    consistent, count_placed, lemma_count_placed, lemma_placed_count_bound, tag_upto,
    union_cells, GameState, Placement,
};
use crate::solver::target::TargetDate;
use crate::solver::{cell_index, on_board, NUM_PIECES};

verus! {

/// A solved puzzle: the state that covers the cells to cover, the tags of
/// its cells, and the number of steps that the search took before.
#[derive(Copy, Clone, PartialEq, Eq, Debug)]
pub struct Solution {
    pub mask: TaggedMask,
    pub game: GameState,
    pub steps: usize,
}

/// What one step of the search reports.
#[derive(Copy, Clone, PartialEq, Eq, Debug)]
pub enum SolverMsg {
    /// A piece was placed; the puzzle is not solved yet.
    Unsolved(GameState, TaggedMask),
    /// A piece was placed and the puzzle is solved.
    Solved(Solution),
    /// Every way to place the pieces was tried and none solves the puzzle.
    Impossible,
}

/// One level of the search as the contracts see it: the pieces placed so
/// far, the cells that they cover, the cell that this level covers next,
/// and the candidates for it that were not tried yet, each an index of a
/// piece and a placement.
pub struct FrameView {
    pub placements: Seq<Option<Placement>>,
    pub covered: Set<(int, int)>,
    pub cover: (int, int),
    pub pending: Seq<(int, Placement)>,
}

/// The search as the contracts see it.
pub enum SearchView {
    /// No step was taken yet.
    NotStarted,
    /// The levels of the search, the deepest last.
    Searching(Seq<FrameView>),
    /// The search has reported that the puzzle is solved or impossible.
    Done,
}

/// The placements `list`, each with the index `idx` of its piece.
pub open spec fn tagged(idx: int, list: Seq<Placement>) -> Seq<(int, Placement)> {
    Seq::new(list.len(), |k: int| (idx, list[k]))
}

/// The candidates for the cell `(cx, cy)` of the pieces from `from` on
/// that are not placed: piece by piece in ascending order of the index,
/// and for each piece in the order of its candidates.
pub open spec fn frame_candidates(
    placements: Seq<Option<Placement>>,
    from: int,
    cx: int,
    cy: int,
) -> Seq<(int, Placement)>
    decreases 9 - from,
{
    if from < 0 || from >= 9 {
        Seq::empty()
    } else if placements[from] is None {
        tagged(from, catalog_shape(from).candidates(cx, cy)) + frame_candidates(
            placements,
            from + 1,
            cx,
            cy,
        )
    } else {
        frame_candidates(placements, from + 1, cx, cy)
    }
}

/// The level that the search opens on a state that does not cover all of
/// `winning` yet: it is to cover the cell of `winning` with the lowest
/// index among those not covered, and every candidate for that cell is
/// still to be tried.
pub open spec fn fresh_frame(
    placements: Seq<Option<Placement>>,
    covered: Set<(int, int)>,
    winning: Set<(int, int)>,
) -> FrameView {
    let cover = choose|c: (int, int)|
        on_board(c.0, c.1) && is_first_cell(winning.difference(covered), c);
    FrameView {
        placements,
        covered,
        cover,
        pending: frame_candidates(placements, 0, cover.0, cover.1),
    }
}

impl FrameView {
    /// Whether the candidate `k` can be placed: its piece stays on the
    /// board, on cells that are not covered and that `winning` holds.
    pub open spec fn admits(self, k: int, winning: Set<(int, int)>) -> bool {
        &&& piece_cells(self.pending[k].0, self.pending[k].1) matches Some(cells)
        &&& cells.disjoint(self.covered)
        &&& cells.subset_of(winning)
    }

    /// The first candidate from `from` on that can be placed, or the number
    /// of candidates if there is none.
    pub open spec fn first_admitted(self, winning: Set<(int, int)>, from: int) -> int
        decreases self.pending.len() - from,
    {
        if from < 0 || from >= self.pending.len() {
            self.pending.len() as int
        } else if self.admits(from, winning) {
            from
        } else {
            self.first_admitted(winning, from + 1)
        }
    }

    /// Whether a candidate of the level can be placed.
    pub open spec fn live(self, winning: Set<(int, int)>) -> bool {
        self.first_admitted(winning, 0) < self.pending.len()
    }

    /// The level after its first `n` candidates were tried.
    pub open spec fn after(self, n: int) -> FrameView {
        FrameView {
            placements: self.placements,
            covered: self.covered,
            cover: self.cover,
            pending: self.pending.skip(n),
        }
    }
}

/// The first candidate that can be placed lies between `from` and the
/// number of candidates.
pub proof fn lemma_first_admitted(f: FrameView, winning: Set<(int, int)>, from: int)
    requires
        0 <= from <= f.pending.len(),
    ensures
        from <= f.first_admitted(winning, from) <= f.pending.len(),
        f.first_admitted(winning, from) < f.pending.len() ==> f.admits(
            f.first_admitted(winning, from),
            winning,
        ),
        forall|j: int| from <= j < f.first_admitted(winning, from) ==> !f.admits(j, winning),
    decreases f.pending.len() - from,
{
    if from < f.pending.len() && !f.admits(from, winning) {
        lemma_first_admitted(f, winning, from + 1);
    }
}

/// The number of levels that are left when the levels without a candidate
/// that can be placed are given up, from the deepest: none if no level has
/// such a candidate.
pub open spec fn live_frames(frames: Seq<FrameView>, winning: Set<(int, int)>) -> int
    decreases frames.len(),
{
    if frames.len() == 0 {
        0
    } else if frames.last().live(winning) {
        frames.len() as int
    } else {
        live_frames(frames.drop_last(), winning)
    }
}

/// The most candidates that a level can hold: nine pieces with eight
/// orientations of 54 cells each.
pub open spec fn max_pending() -> int {
    3888
}

/// The weight of one candidate at a level that has `k` levels below the
/// deepest possible one.
pub open spec fn weight(k: int) -> int
    decreases k,
{
    if k <= 0 {
        1
    } else {
        3890 * weight(k - 1)
    }
}

/// A number that each step of a search lowers: the candidates not tried
/// yet, each weighted by its level so that one candidate outweighs all that
/// deeper levels can hold.
pub open spec fn fuel_of(frames: Seq<FrameView>) -> int
    decreases frames.len(),
{
    if frames.len() == 0 {
        0
    } else {
        fuel_of(frames.drop_last()) + (frames.last().pending.len() + 1) * weight(
            10 - frames.len(),
        )
    }
}

/// The fuel of a search.
pub open spec fn fuel(view: SearchView) -> int {
    match view {
        SearchView::NotStarted => weight(10),
        SearchView::Searching(frames) => fuel_of(frames),
        SearchView::Done => 0,
    }
}

/// Weights are positive, and each is 3890 times the one before.
pub proof fn lemma_weight(k: int)
    ensures
        weight(k) >= 1,
        k >= 0 ==> weight(k + 1) == 3890 * weight(k),
    decreases k,
{
    if k > 0 {
        lemma_weight(k - 1);
    }
}

/// The fuel of a stack is at least that of its lower levels, and with
/// levels that hold no more than `max_pending()` candidates each it stays
/// below the weight of one candidate of the level under the lowest.
pub proof fn lemma_fuel_bounds(frames: Seq<FrameView>, n: int)
    requires
        0 <= n <= frames.len() <= 10,
        forall|d: int| 0 <= d < frames.len() ==> (#[trigger] frames[d]).pending.len() <= max_pending(),
    ensures
        0 <= fuel_of(frames.take(n)) <= fuel_of(frames),
        frames.len() > 0 ==> 0 < fuel_of(frames),
        fuel_of(frames) + weight(10 - frames.len()) <= weight(10),
    decreases frames.len(),
{
    lemma_weight(10 - frames.len());
    if frames.len() > 0 {
        let lower = frames.drop_last();
        let top = frames.last();
        lemma_weight(10 - frames.len());
        lemma_scaled(top.pending.len() as int + 1, 3889, weight(10 - frames.len()));
        lemma_scaled(1, top.pending.len() as int + 1, weight(10 - frames.len()));
        lemma_fuel_bounds(lower, 0);
        if n == frames.len() {
            assert(frames.take(n) =~= frames);
            lemma_fuel_bounds(lower, lower.len() as int);
            assert(lower.take(lower.len() as int) =~= lower);
        } else {
            lemma_fuel_bounds(lower, n);
            assert(lower.take(n) =~= frames.take(n));
        }
    } else {
        assert(frames.take(n) =~= frames);
    }
}

/// A product with a positive factor grows with the other factor.
proof fn lemma_scaled(a: int, b: int, w: int)
    by (nonlinear_arith)
    requires
        0 <= a <= b,
        0 < w,
    ensures
        0 <= a * w <= b * w,
        (b + 1) * w == b * w + w,
{
}

/// One level of the search.
struct SolveFrame {
    state: GameState,
    cover_x: u8,
    cover_y: u8,
    // Bits of the indexes of the pieces left to try, that of the piece
    // which piece_positions is for among them.
    pieces_to_try: u64,
    piece_positions: PiecePositions,
}

/// The candidates of the pieces from `from` on whose bit is set in `bits`.
spec fn rest_from(bits: u64, from: int, cx: int, cy: int) -> Seq<(int, Placement)>
    decreases 9 - from,
{
    if from < 0 || from >= 9 {
        Seq::empty()
    } else if bit(bits, from as u64) {
        tagged(from, catalog_shape(from).candidates(cx, cy)) + rest_from(bits, from + 1, cx, cy)
    } else {
        rest_from(bits, from + 1, cx, cy)
    }
}

/// Pieces whose bit is clear add nothing.
proof fn lemma_rest_from_skip(bits: u64, from: int, to: int, cx: int, cy: int)
    requires
        0 <= from <= to,
        forall|i: int| from <= i < to && i < 9 ==> !#[trigger] bit(bits, i as u64),
    ensures
        rest_from(bits, from, cx, cy) == rest_from(bits, to, cx, cy),
    decreases to - from,
{
    if from < to {
        if from < 9 {
            assert(!bit(bits, from as u64));
            lemma_rest_from_skip(bits, from + 1, to, cx, cy);
        }
    }
}

/// The candidates from `from` on depend on the bits from `from` on only.
proof fn lemma_rest_from_agree(a: u64, b: u64, from: int, cx: int, cy: int)
    requires
        0 <= from,
        forall|i: int| from <= i < 9 ==> #[trigger] bit(a, i as u64) == bit(b, i as u64),
    ensures
        rest_from(a, from, cx, cy) == rest_from(b, from, cx, cy),
    decreases 9 - from,
{
    if from < 9 {
        assert(bit(a, from as u64) == bit(b, from as u64));
        lemma_rest_from_agree(a, b, from + 1, cx, cy);
    }
}

/// With the bits of the pieces that are not placed, the candidates are
/// those of a fresh level.
proof fn lemma_rest_from_fresh(
    bits: u64,
    placements: Seq<Option<Placement>>,
    from: int,
    cx: int,
    cy: int,
)
    requires
        0 <= from,
        forall|i: int| 0 <= i < 9 ==> #[trigger] bit(bits, i as u64) == (placements[i] is None),
    ensures
        rest_from(bits, from, cx, cy) == frame_candidates(placements, from, cx, cy),
    decreases 9 - from,
{
    if from < 9 {
        assert(bit(bits, from as u64) == (placements[from] is None));
        lemma_rest_from_fresh(bits, placements, from + 1, cx, cy);
    }
}

/// There are at most 432 candidates for each piece still to come.
proof fn lemma_rest_from_bound(bits: u64, from: int, cx: int, cy: int)
    requires
        0 <= from <= 9,
    ensures
        rest_from(bits, from, cx, cy).len() <= (9 - from) * 432,
    decreases 9 - from,
{
    if from < 9 {
        catalog_shape(from).lemma_candidates_bound(0, cx, cy);
        lemma_rest_from_bound(bits, from + 1, cx, cy);
    }
}

impl SolveFrame {
    /// The index of the piece whose placements are tried now.
    spec fn current(self) -> int {
        u64_trailing_zeros(self.pieces_to_try) as int
    }

    /// The candidates that were not tried yet.
    spec fn pending(self) -> Seq<(int, Placement)> {
        if self.pieces_to_try == 0 {
            Seq::empty()
        } else {
            tagged(self.current(), self.piece_positions@) + rest_from(
                self.pieces_to_try,
                self.current() + 1,
                self.cover_x as int,
                self.cover_y as int,
            )
        }
    }

    spec fn view(self) -> FrameView {
        FrameView {
            placements: self.state.placements(),
            covered: self.state.covered(),
            cover: (self.cover_x as int, self.cover_y as int),
            pending: self.pending(),
        }
    }

    /// The pieces left to try are pieces that are not placed, and the
    /// generator at hand is that of the first of them for the cell to cover.
    spec fn wf(self) -> bool {
        &&& self.pieces_to_try < 512
        &&& forall|i: int|
            0 <= i < 9 && #[trigger] bit(self.pieces_to_try, i as u64)
                ==> self.state.placements()[i] is None
        &&& self.cover_x < 6
        &&& self.cover_y < 9
        &&& self.piece_positions.wf()
        &&& self.piece_positions.cover() == (self.cover_x as int, self.cover_y as int)
        &&& self.pieces_to_try != 0 ==> self.piece_positions.shape() == catalog_shape(
            self.current(),
        )
        &&& consistent(self.state.placements(), self.state.covered())
        &&& self.pending().len() <= max_pending()
    }

    /// The level for a state that does not cover all of `winning_mask`.
    fn create(state: GameState, winning_mask: BoardMask, catalog: &[Piece; 9]) -> (frame: Self)
        requires
            !winning_mask@.subset_of(state.covered()),
            forall|idx: int| 0 <= idx < 9 ==> (#[trigger] catalog[idx])@ == catalog_shape(idx),
        ensures
            frame.wf(),
            frame.state == state,
            frame.view() == fresh_frame(state.placements(), state.covered(), winning_mask@),
            on_board(frame.view().cover.0, frame.view().cover.1),
            is_first_cell(winning_mask@.difference(state.covered()), frame.view().cover),
    {
        let (cover_x, cover_y) = state.mask().next_to_cover(winning_mask).unwrap();
        let free = state.available_piece_idxes();
        let mut pieces_to_try: u64 = 0;
        let mut k: usize = 0;
        proof {
            assert forall|i: int| 0 <= i < 9 implies !#[trigger] bit(pieces_to_try, i as u64) by {
                lemma_bit_zero(i as u64);
            }
        }
        while k < free.len()
            invariant
                k <= free.len(),
                pieces_to_try < 512,
                forall|t: int| 0 <= t < free.len() ==> (#[trigger] free[t]) < 9,
                forall|i: int|
                    0 <= i < 9 ==> #[trigger] bit(pieces_to_try, i as u64) == (exists|t: int|
                        0 <= t < k && free[t] == i),
            decreases free.len() - k,
        {
            let piece_idx = free[k];
            let ghost before = pieces_to_try;
            proof {
                lemma_nine_bits(before, piece_idx as u64);
            }
            pieces_to_try = pieces_to_try | (1u64 << (piece_idx as u64));
            proof {
                assert forall|i: int| 0 <= i < 9 implies #[trigger] bit(pieces_to_try, i as u64) == (
                exists|t: int| 0 <= t < k + 1 && free[t] == i) by {
                    lemma_bit_or(before, 1u64 << (piece_idx as u64), i as u64);
                    lemma_bit_single(piece_idx as u64, i as u64);
                    if bit(before, i as u64) {
                        let t = choose|t: int| 0 <= t < k && free[t] == i;
                        assert(0 <= t < k + 1 && free[t] == i);
                    }
                    if i == piece_idx {
                        assert(0 <= k < k + 1 && free[k as int] == i);
                    }
                    if exists|t: int| 0 <= t < k + 1 && free[t] == i {
                        let t = choose|t: int| 0 <= t < k + 1 && free[t] == i;
                        if t < k {
                            assert(0 <= t < k && free[t] == i);
                        }
                    }
                }
            }
            k += 1;
        }
        proof {
            assert forall|i: int| 0 <= i < 9 implies #[trigger] bit(pieces_to_try, i as u64) == (
            state.placements()[i] is None) by {
                if state.placements()[i] is None {
                    assert(free@.contains(i as usize));
                    let t = choose|t: int| 0 <= t < free.len() && free[t] == i as usize;
                    assert(0 <= t < k && free[t] == i);
                }
                if bit(pieces_to_try, i as u64) {
                    let t = choose|t: int| 0 <= t < k && free[t] == i;
                    assert(state.placements()[free[t] as int] is None);
                }
            }
            axiom_u64_trailing_zeros(pieces_to_try);
            if pieces_to_try != 0 {
                lemma_lowest_bit(pieces_to_try);
                let t = u64_trailing_zeros(pieces_to_try) as u64;
                if t >= 9 {
                    lemma_nine_bits(pieces_to_try, t);
                }
            }
        }
        let first = pieces_to_try.trailing_zeros() as usize;
        // With no piece left the level has no candidate at all, and the
        // generator is never asked.
        let piece_idx = if first < NUM_PIECES {
            first
        } else {
            0
        };
        let piece_positions = PiecePositions::new(&catalog[piece_idx], cover_x, cover_y);
        let frame = Self { state, cover_x, cover_y, pieces_to_try, piece_positions };
        proof {
            let cx = cover_x as int;
            let cy = cover_y as int;
            let open = winning_mask@.difference(state.covered());
            let chosen = choose|c: (int, int)| on_board(c.0, c.1) && is_first_cell(open, c);
            assert(on_board(cx, cy) && is_first_cell(open, (cx, cy)));
            assert(open.contains((chosen.0, chosen.1)));
            assert(open.contains((cx, cy)));
            assert(cell_index(chosen.0, chosen.1) == cell_index(cx, cy));
            assert(chosen == (cx, cy));
            lemma_rest_from_fresh(pieces_to_try, state.placements(), 0, cx, cy);
            lemma_rest_from_bound(pieces_to_try, 0, cx, cy);
            if pieces_to_try != 0 {
                assert forall|i: int| 0 <= i < first && i < 9 implies !#[trigger] bit(
                    pieces_to_try,
                    i as u64,
                ) by {
                    lemma_lowest_bit(pieces_to_try);
                }
                lemma_rest_from_skip(pieces_to_try, 0, first as int, cx, cy);
                lemma_lowest_bit(pieces_to_try);
                assert(frame.pending() =~= rest_from(pieces_to_try, first as int, cx, cy));
            } else {
                assert forall|i: int| 0 <= i < 9 implies !#[trigger] bit(pieces_to_try, i as u64) by {
                    lemma_bit_zero(i as u64);
                }
                lemma_rest_from_skip(pieces_to_try, 0, 9, cx, cy);
            }
            assert(frame.view().pending =~= frame_candidates(state.placements(), 0, cx, cy));
        }
        frame
    }

    /// Hands out the next candidate: the index of a piece that is not
    /// placed, and a placement of it that covers the cell of the level.
    fn next_piece_placement(&mut self, catalog: &[Piece; 9]) -> (r: Option<(usize, Placement)>)
        requires
            old(self).wf(),
            forall|idx: int| 0 <= idx < 9 ==> (#[trigger] catalog[idx])@ == catalog_shape(idx),
        ensures
            final(self).wf(),
            final(self).state == old(self).state,
            final(self).view().cover == old(self).view().cover,
            old(self).pending().len() == 0 ==> r is None && final(self).pending().len() == 0,
            old(self).pending().len() > 0 ==> {
                &&& r matches Some(found)
                &&& (found.0 as int, found.1) == old(self).pending()[0]
                &&& found.0 < 9
                &&& old(self).state.placements()[found.0 as int] is None
                &&& final(self).pending() == old(self).pending().skip(1)
            },
    {
        let ghost cx = self.cover_x as int;
        let ghost cy = self.cover_y as int;
        loop
            invariant
                self.wf(),
                self.state == old(self).state,
                self.cover_x == old(self).cover_x,
                self.cover_y == old(self).cover_y,
                cx == self.cover_x,
                cy == self.cover_y,
                self.pending() == old(self).pending(),
                forall|idx: int| 0 <= idx < 9 ==> (#[trigger] catalog[idx])@ == catalog_shape(idx),
            decreases self.pieces_to_try,
        {
            if self.pieces_to_try == 0 {
                return None;
            }
            let ghost before = *self;
            let ghost bits = self.pieces_to_try;
            proof {
                lemma_lowest_bit(bits);
                if u64_trailing_zeros(bits) >= 9 {
                    lemma_nine_bits(bits, u64_trailing_zeros(bits) as u64);
                }
            }
            if let Some(placement) = self.piece_positions.next_covering(self.cover_x, self.cover_y) {
                let piece_idx = self.pieces_to_try.trailing_zeros() as usize;
                proof {
                    let rest = rest_from(bits, before.current() + 1, cx, cy);
                    let head = tagged(before.current(), before.piece_positions@);
                    assert((head + rest).skip(1) =~= tagged(
                        before.current(),
                        before.piece_positions@.skip(1),
                    ) + rest);
                    assert((head + rest)[0] == head[0]);
                }
                return Some((piece_idx, placement));
            }
            // Unset the bit for this piece, and try the next one.
            proof {
                lemma_clear_lowest(bits, u64_trailing_zeros(bits) as u64);
                lemma_nine_bits(bits, 0);
            }
            self.pieces_to_try = self.pieces_to_try & (self.pieces_to_try - 1);
            let ghost cleared = self.pieces_to_try;
            let ghost gone = before.current();
            proof {
                assert(tagged(gone, before.piece_positions@) =~= Seq::empty());
                assert(before.pending() =~= rest_from(bits, gone + 1, cx, cy));
                assert forall|i: int| 0 <= i < 9 implies #[trigger] bit(cleared, i as u64) == (bit(
                    bits,
                    i as u64,
                ) && i != gone) by {
                    lemma_bit_and(bits, !(1u64 << (gone as u64)), i as u64);
                    lemma_bit_not(1u64 << (gone as u64), i as u64);
                    lemma_bit_single(gone as u64, i as u64);
                }
                lemma_rest_from_agree(bits, cleared, gone + 1, cx, cy);
                axiom_u64_trailing_zeros(cleared);
            }
            if self.pieces_to_try == 0 {
                proof {
                    assert forall|i: int| gone + 1 <= i < 9 implies !#[trigger] bit(
                        cleared,
                        i as u64,
                    ) by {
                        lemma_bit_zero(i as u64);
                    }
                    lemma_rest_from_skip(cleared, gone + 1, 9, cx, cy);
                }
                return None;
            }
            proof {
                lemma_lowest_bit(cleared);
                if u64_trailing_zeros(cleared) >= 9 {
                    lemma_nine_bits(cleared, u64_trailing_zeros(cleared) as u64);
                }
            }
            let piece_idx = self.pieces_to_try.trailing_zeros() as usize;
            self.piece_positions =
            PiecePositions::new(&catalog[piece_idx], self.cover_x, self.cover_y);
            proof {
                let now = piece_idx as int;
                assert(now != gone);
                if now < gone {
                    assert(bit(cleared, now as u64));
                    assert(bit(bits, now as u64));
                }
                assert forall|i: int| gone + 1 <= i < now && i < 9 implies !#[trigger] bit(
                    cleared,
                    i as u64,
                ) by {}
                lemma_rest_from_skip(cleared, gone + 1, now, cx, cy);
                assert(self.pending() =~= rest_from(cleared, now, cx, cy));
            }
        }
    }

    /// Tries the candidates of the level in their order until one can be
    /// placed, and returns the state with that piece placed; none if no
    /// candidate is left that can be placed.
    fn next_state(&mut self, winning_mask: BoardMask, catalog: &[Piece; 9]) -> (r: Option<GameState>)
        requires
            old(self).wf(),
            forall|idx: int| 0 <= idx < 9 ==> (#[trigger] catalog[idx])@ == catalog_shape(idx),
        ensures
            final(self).wf(),
            final(self).state == old(self).state,
            ({
                let top = old(self).view();
                let k = top.first_admitted(winning_mask@, 0);
                if k < top.pending.len() {
                    &&& r matches Some(next)
                    &&& next.placements() == top.placements.update(
                        top.pending[k].0,
                        Some(top.pending[k].1),
                    )
                    &&& consistent(next.placements(), next.covered())
                    &&& next.covered().subset_of(top.covered.union(winning_mask@))
                    &&& next.placed_count() == old(self).state.placed_count() + 1
                    &&& final(self).view() == top.after(k + 1)
                } else {
                    &&& r is None
                    &&& final(self).view() == top.after(k)
                }
            }),
    {
        let ghost top = self.view();
        let ghost n: int = 0;
        proof {
            assert(top.pending.skip(0) =~= top.pending);
        }
        loop
            invariant
                self.wf(),
                self.state == old(self).state,
                self.cover_x == old(self).cover_x,
                self.cover_y == old(self).cover_y,
                top == old(self).view(),
                0 <= n <= top.pending.len(),
                self.pending() == top.pending.skip(n),
                top.first_admitted(winning_mask@, 0) == top.first_admitted(winning_mask@, n),
                forall|idx: int| 0 <= idx < 9 ==> (#[trigger] catalog[idx])@ == catalog_shape(idx),
            decreases top.pending.len() - n,
        {
            let ghost pending = self.pending();
            match self.next_piece_placement(catalog) {
                None => {
                    proof {
                        assert(n == top.pending.len());
                        assert(self.view().pending =~= top.pending.skip(n));
                    }
                    return None;
                },
                Some((piece_idx, placement)) => {
                    proof {
                        assert(pending[0] == top.pending[n]);
                        assert(self.pending() =~= top.pending.skip(n + 1));
                    }
                    if let Some(next) = self.state.with_piece_placed_using(
                        &catalog[piece_idx],
                        piece_idx,
                        placement,
                        winning_mask,
                    ) {
                        proof {
                            assert(top.admits(n, winning_mask@));
                        }
                        return Some(next);
                    }
                    proof {
                        assert(!top.admits(n, winning_mask@));
                        n = n + 1;
                    }
                },
            }
        }
    }
}

/// The levels as the contracts see them.
spec fn views(frames: Seq<SolveFrame>) -> Seq<FrameView> {
    Seq::new(frames.len(), |d: int| frames[d].view())
}

/// Each level is well formed, the level `d` has `d` pieces placed, and it
/// covers cells of `winning` only, and not all of them.
spec fn frames_wf(frames: Seq<SolveFrame>, winning: Set<(int, int)>) -> bool {
    &&& frames.len() <= 10
    &&& forall|d: int|
        0 <= d < frames.len() ==> {
            &&& (#[trigger] frames[d]).wf()
            &&& frames[d].state.placed_count() == d
            &&& frames[d].state.covered().subset_of(winning)
            &&& frames[d].state.covered() != winning
        }
}

/// Gives up the levels that have no candidate left that can be placed,
/// from the deepest, and returns the state with the next candidate of the
/// deepest level left placed; none if no level is left.
fn backtrack(frames: &mut Vec<SolveFrame>, winning_mask: BoardMask, catalog: &[Piece; 9]) -> (r:
    Option<GameState>)
    requires
        frames_wf(old(frames)@, winning_mask@),
        forall|idx: int| 0 <= idx < 9 ==> (#[trigger] catalog[idx])@ == catalog_shape(idx),
    ensures
        frames_wf(final(frames)@, winning_mask@),
        ({
            let before = views(old(frames)@);
            let d = live_frames(before, winning_mask@);
            if d == 0 {
                &&& r is None
                &&& final(frames)@.len() == 0
            } else {
                let top = before[d - 1];
                let k = top.first_admitted(winning_mask@, 0);
                &&& 0 < d <= before.len()
                &&& 0 <= k < top.pending.len()
                &&& r matches Some(next)
                &&& next.placements() == top.placements.update(
                    top.pending[k].0,
                    Some(top.pending[k].1),
                )
                &&& consistent(next.placements(), next.covered())
                &&& next.covered().subset_of(winning_mask@)
                &&& next.placed_count() == d
                &&& views(final(frames)@) == before.take(d - 1).push(top.after(k + 1))
            }
        }),
{
    let ghost before = views(frames@);
    let ghost all = frames@;
    proof {
        assert(all.take(all.len() as int) =~= all);
    }
    loop
        invariant
            frames_wf(frames@, winning_mask@),
            before == views(old(frames)@),
            all == old(frames)@,
            frames@.len() <= all.len(),
            frames@ == all.take(frames@.len() as int),
            live_frames(before, winning_mask@) == live_frames(views(frames@), winning_mask@),
            forall|idx: int| 0 <= idx < 9 ==> (#[trigger] catalog[idx])@ == catalog_shape(idx),
        decreases frames@.len(),
    {
        let ghost here = frames@;
        let mut frame = match frames.pop() {
            Some(frame) => frame,
            None => {
                return None;
            },
        };
        let ghost top = frame.view();
        let ghost d = here.len() as int;
        proof {
            assert(views(here).last() == top);
            assert(views(here).drop_last() =~= views(frames@));
            assert(frames@ =~= all.take(d - 1));
            assert(top == before[d - 1]);
        }
        if let Some(next) = frame.next_state(winning_mask, catalog) {
            frames.push(frame);
            proof {
                let k = top.first_admitted(winning_mask@, 0);
                assert(0 <= k < top.pending.len()) by {
                    lemma_first_admitted(top, winning_mask@, 0);
                }
                assert(top.live(winning_mask@));
                assert(live_frames(views(here), winning_mask@) == d);
                assert(here[d - 1].state.covered().subset_of(winning_mask@));
                assert(next.covered().subset_of(winning_mask@));
                assert(frames@ =~= all.take(d - 1).push(frame));
                assert(views(frames@) =~= before.take(d - 1).push(top.after(k + 1)));
                assert(before.take(d - 1) =~= views(all.take(d - 1)));
            }
            return Some(next);
        }
        // No candidate of this level can be placed: the level is given up,
        // and the search goes on one level up.
    }
}

/// The number of steps that a search has taken.
struct SolverStats {
    steps: usize,
}

/// A search for a way to cover the cells of one mask, taken one step at a
/// time by `next`.
pub struct Solver {
    winning_mask: BoardMask,
    stats: SolverStats,
    frames: Option<Vec<SolveFrame>>,
    catalog: [Piece; 9],
}

impl View for Solver {
    type V = SearchView;

    closed spec fn view(&self) -> SearchView {
        match self.frames {
            None => SearchView::Done,
            Some(frames) => if frames@.len() == 0 {
                SearchView::NotStarted
            } else {
                SearchView::Searching(views(frames@))
            },
        }
    }
}

/// Whether `tags` tells of each cell of the board what is known of it in
/// the state with the given placements.
pub open spec fn tags_of(
    tags: TaggedMask,
    placements: Seq<Option<Placement>>,
    winning: Set<(int, int)>,
) -> bool {
    forall|x: int, y: int|
        on_board(x, y) ==> #[trigger] tags.tag_at(x, y) == tag_upto(placements, winning, (x, y), 9)
}

/// What a step does that places a piece. `placements` are the placements
/// after the step and `below` the levels that stay. If the placed pieces
/// cover `winning` the puzzle is solved and the search is done. Otherwise
/// a level is opened for the new state, and the step is counted.
pub open spec fn stepped(
    winning: Set<(int, int)>,
    steps: int,
    after: SearchView,
    steps_after: int,
    msg: Option<SolverMsg>,
    placements: Seq<Option<Placement>>,
    below: Seq<FrameView>,
) -> bool {
    let covered = union_cells(placements);
    &&& consistent(placements, covered)
    &&& if covered == winning {
        &&& after is Done
        &&& steps_after == steps
        &&& msg matches Some(SolverMsg::Solved(solution))
        &&& solution.steps == steps
        &&& solution.game.placements() == placements
        &&& solution.game.covered() == covered
        &&& tags_of(solution.mask, placements, winning)
    } else {
        &&& after == SearchView::Searching(below.push(fresh_frame(placements, covered, winning)))
        &&& steps_after == counted(steps)
        &&& msg matches Some(SolverMsg::Unsolved(game, tags))
        &&& game.placements() == placements
        &&& game.covered() == covered
        &&& tags_of(tags, placements, winning)
    }
}

/// The placements of a state without a piece.
pub open spec fn no_placements() -> Seq<Option<Placement>> {
    Seq::new(9, |i: int| None::<Placement>)
}

/// The placements of the state that the next step reports: none of any
/// piece at the first step; later those of the deepest level that has a
/// candidate that can be placed, with the first such candidate placed.
/// There are none if no level has such a candidate, or if the search is
/// done.
pub open spec fn step_placements(view: SearchView, winning: Set<(int, int)>) -> Option<
    Seq<Option<Placement>>,
> {
    match view {
        SearchView::Done => None,
        SearchView::NotStarted => Some(no_placements()),
        SearchView::Searching(frames) => {
            let d = live_frames(frames, winning);
            if d == 0 {
                None
            } else {
                let top = frames[d - 1];
                let k = top.first_admitted(winning, 0);
                Some(top.placements.update(top.pending[k].0, Some(top.pending[k].1)))
            }
        },
    }
}

/// The levels that the next step keeps: those up to the deepest one that
/// has a candidate that can be placed, that one without its candidates up
/// to the one that the step places.
pub open spec fn lower_frames(view: SearchView, winning: Set<(int, int)>) -> Seq<FrameView> {
    match view {
        SearchView::Searching(frames) => {
            let d = live_frames(frames, winning);
            if d == 0 {
                Seq::empty()
            } else {
                let top = frames[d - 1];
                frames.take(d - 1).push(top.after(top.first_admitted(winning, 0) + 1))
            }
        },
        _ => Seq::empty(),
    }
}

/// The search after its next step.
pub open spec fn step_view(view: SearchView, winning: Set<(int, int)>) -> SearchView {
    match step_placements(view, winning) {
        None => SearchView::Done,
        Some(placements) => if union_cells(placements) == winning {
            SearchView::Done
        } else {
            SearchView::Searching(
                lower_frames(view, winning).push(
                    fresh_frame(placements, union_cells(placements), winning),
                ),
            )
        },
    }
}

/// The count of steps after one more step: one more, as long as the
/// machine can count on.
pub open spec fn counted(steps: int) -> int {
    if steps < usize::MAX {
        steps + 1
    } else {
        steps
    }
}

/// What bounds a level at depth `d`: it has `d` pieces placed, and its
/// candidates, no more than a level can hold, are placements of pieces
/// that are not placed.
pub open spec fn level_bounded(f: FrameView, d: int) -> bool {
    &&& f.placements.len() == 9
    &&& count_placed(f.placements, 9) == d
    &&& f.pending.len() <= max_pending()
    &&& forall|k: int|
        0 <= k < f.pending.len() ==> 0 <= (#[trigger] f.pending[k]).0 < 9
            && f.placements[f.pending[k].0] is None
}

/// What bounds a search: it has at most ten levels, each bounded at its
/// depth.
pub open spec fn bounded(view: SearchView) -> bool {
    match view {
        SearchView::Searching(frames) => {
            &&& frames.len() <= 10
            &&& forall|d: int| 0 <= d < frames.len() ==> level_bounded(#[trigger] frames[d], d)
        },
        _ => true,
    }
}

/// How a search ends that is run from `view` with `steps` steps counted:
/// with the placements of the state that solves the puzzle and the count
/// of the steps before, or with nothing if the puzzle is impossible or the
/// search is done.
pub open spec fn outcome(view: SearchView, steps: int, winning: Set<(int, int)>) -> Option<
    (Seq<Option<Placement>>, int),
>
    decreases fuel(view),
    when bounded(view)
    via outcome_decreases
{
    match step_placements(view, winning) {
        None => None,
        Some(placements) => if union_cells(placements) == winning {
            Some((placements, steps))
        } else {
            outcome(step_view(view, winning), counted(steps), winning)
        },
    }
}

#[via_fn]
proof fn outcome_decreases(view: SearchView, steps: int, winning: Set<(int, int)>) {
    if step_placements(view, winning) is Some && union_cells(step_placements(view, winning)->0)
        != winning {
        lemma_step_bounded(view, winning);
    }
}

/// There are at most 432 candidates for each piece still to come.
pub proof fn lemma_frame_candidates_bound(
    placements: Seq<Option<Placement>>,
    from: int,
    cx: int,
    cy: int,
)
    requires
        0 <= from <= 9,
    ensures
        frame_candidates(placements, from, cx, cy).len() <= (9 - from) * 432,
    decreases 9 - from,
{
    if from < 9 {
        catalog_shape(from).lemma_candidates_bound(0, cx, cy);
        lemma_frame_candidates_bound(placements, from + 1, cx, cy);
    }
}

/// A step that places a piece without solving the puzzle leaves a bounded
/// search bounded and lowers its fuel: no search goes on for ever.
pub proof fn lemma_step_bounded(view: SearchView, winning: Set<(int, int)>)
    requires
        bounded(view),
        step_placements(view, winning) matches Some(placements) && union_cells(placements)
            != winning,
    ensures
        bounded(step_view(view, winning)),
        0 <= fuel(step_view(view, winning)) < fuel(view),
{
    let placements = step_placements(view, winning)->0;
    let fresh = fresh_frame(placements, union_cells(placements), winning);
    let below = lower_frames(view, winning);
    let after = below.push(fresh);
    lemma_frame_candidates_bound(placements, 0, fresh.cover.0, fresh.cover.1);
    assert forall|k: int| 0 <= k < fresh.pending.len() implies 0 <= (#[trigger] fresh.pending[k]).0
        < 9 && fresh.placements[fresh.pending[k].0] is None by {
        lemma_frame_candidates_free(placements, 0, fresh.cover.0, fresh.cover.1, k);
    }
    lemma_placed_count_bound(placements, 9);
    lemma_weight(10);
    match view {
        SearchView::Searching(frames) => {
            let d = live_frames(frames, winning);
            lemma_live_frames(frames, winning);
            let top = frames[d - 1];
            let k = top.first_admitted(winning, 0);
            lemma_first_admitted(top, winning, 0);
            assert(level_bounded(top, d - 1));
            lemma_count_placed(top.placements, top.pending[k].0, top.pending[k].1, 9);
            assert(level_bounded(fresh, d));
            assert forall|j: int| 0 <= j < after.len() implies level_bounded(
                #[trigger] after[j],
                j,
            ) by {
                if j < d - 1 {
                    assert(after[j] == frames[j]);
                } else if j == d - 1 {
                    let rest = top.after(k + 1);
                    assert(after[j] == rest);
                    assert forall|i: int| 0 <= i < rest.pending.len() implies 0 <= (
                    #[trigger] rest.pending[i]).0 < 9 && rest.placements[rest.pending[i].0] is None by {
                        assert(rest.pending[i] == top.pending[i + k + 1]);
                    }
                }
            }
            assert forall|j: int| 0 <= j < frames.len() implies (#[trigger] frames[j]).pending.len()
                <= max_pending() by {
                assert(level_bounded(frames[j], j));
            }
            lemma_step_lowers_fuel(frames, d, k);
            lemma_fuel_pushed(below, fresh);
            assert forall|j: int| 0 <= j < after.len() implies (#[trigger] after[j]).pending.len()
                <= max_pending() by {
                assert(level_bounded(after[j], j));
            }
            lemma_fuel_bounds(after, 0);
        },
        SearchView::NotStarted => {
            assert(below =~= Seq::<FrameView>::empty());
            assert(count_placed(no_placements(), 9) == 0) by {
                reveal_with_fuel(count_placed, 10);
            }
            assert(level_bounded(fresh, 0));
            lemma_fuel_pushed(below, fresh);
            assert forall|j: int| 0 <= j < after.len() implies (#[trigger] after[j]).pending.len()
                <= max_pending() by {
                assert(after[j] == fresh);
            }
            lemma_fuel_bounds(after, 0);
        },
        SearchView::Done => {},
    }
}

impl Solver {
    /// The search holds the catalog, and its levels are well formed.
    pub closed spec fn wf(&self) -> bool {
        &&& self.winning_mask.wf()
        &&& forall|idx: int| 0 <= idx < 9 ==> (#[trigger] self.catalog[idx])@ == catalog_shape(idx)
        &&& match self.frames {
            None => true,
            Some(frames) => {
                &&& frames_wf(frames@, self.winning_mask@)
                &&& frames_ok(views(frames@), self.winning_mask@)
                &&& frames@.len() > 0 ==> exhaustive(views(frames@), self.winning_mask@)
            },
        }
    }

    /// The cells that the search is to cover.
    pub closed spec fn winning(&self) -> Set<(int, int)> {
        self.winning_mask@
    }

    /// The number of steps that were counted: those that placed a piece
    /// without solving the puzzle.
    pub closed spec fn steps(&self) -> int {
        self.stats.steps as int
    }

    /// A well-formed search is bounded.
    pub proof fn lemma_bounded(&self)
        requires
            self.wf(),
        ensures
            bounded(self@),
    {
        if let Some(frames) = self.frames {
            if frames@.len() > 0 {
                let all = views(frames@);
                assert forall|d: int| 0 <= d < all.len() implies level_bounded(
                    #[trigger] all[d],
                    d,
                ) by {
                    assert(frames@[d].wf());
                    assert(frame_ok(all[d], self.winning_mask@));
                }
            }
        }
    }

    /// A search for a way to cover the cells of `winning_mask`, before its
    /// first step.
    pub fn create(winning_mask: BoardMask) -> (r: Self)
        ensures
            r.wf(),
            r@ is NotStarted,
            r.winning() == winning_mask@,
            r.steps() == 0,
    {
        proof {
            use_type_invariant(winning_mask);
        }
        Self {
            winning_mask,
            stats: SolverStats { steps: 0 },
            // There is one level for each placed piece, and one more.
            frames: Some(Vec::with_capacity(NUM_PIECES + 1)),
            catalog: pieces(),
        }
    }

    /// A search that is done before its first step.
    fn done() -> (r: Self)
        ensures
            r.wf(),
            r@ is Done,
    {
        let winning_mask = BoardMask::new();
        Self { winning_mask, stats: SolverStats { steps: 0 }, frames: None, catalog: pieces() }
    }

    /// Takes one step of the search and reports it, or reports nothing if
    /// the search is done.
    ///
    /// The first step looks at the state without a piece. Each later step
    /// gives up the levels that have no candidate left that can be placed,
    /// and then places the first candidate of the deepest level left that
    /// can be placed; with no level left the puzzle is impossible.
    pub fn next(&mut self) -> (r: Option<SolverMsg>)
        requires
            old(self).wf(),
        ensures
            final(self).wf(),
            final(self).winning() == old(self).winning(),
            match step_placements(old(self)@, old(self).winning()) {
                None => {
                    &&& final(self)@ is Done
                    &&& final(self).steps() == old(self).steps()
                    &&& r == if old(self)@ is Done {
                        None
                    } else {
                        Some(SolverMsg::Impossible)
                    }
                },
                Some(placements) => stepped(
                    old(self).winning(),
                    old(self).steps(),
                    final(self)@,
                    final(self).steps(),
                    r,
                    placements,
                    lower_frames(old(self)@, old(self).winning()),
                ),
            },
            final(self)@ == step_view(old(self)@, old(self).winning()),
            bounded(old(self)@),
            bounded(final(self)@),
            !(old(self)@ is Done) ==> 0 <= fuel(final(self)@) < fuel(old(self)@),
            r matches Some(SolverMsg::Solved(_)) ==> solvable(old(self).winning()),
            r == Some(SolverMsg::Impossible) ==> !solvable(old(self).winning()),
    {
        let ghost winning = self.winning_mask@;
        let ghost start = self@;
        proof {
            self.lemma_bounded();
        }
        let mut frames = match self.frames.take() {
            Some(frames) => frames,
            None => {
                return None;
            },
        };
        let ghost before = views(frames@);
        proof {
            use_type_invariant(self.winning_mask);
            lemma_views_bounded(frames@, winning);
            lemma_fuel_bounds(before, before.len() as int);
            lemma_weight(10 - before.len());
        }
        // The state that this step reports.
        let next_state = if frames.len() == 0 {
            let empty = GameState::default();
            proof {
                assert(empty.placements() =~= no_placements());
                assert(views(frames@) =~= Seq::<FrameView>::empty());
            }
            empty
        } else {
            match backtrack(&mut frames, self.winning_mask, &self.catalog) {
                Some(next_state) => next_state,
                None => {
                    // With the last level given up the puzzle is impossible.
                    proof {
                        lemma_exhausted(before, winning);
                    }
                    return Some(SolverMsg::Impossible);
                },
            }
        };
        let ghost below = views(frames@);
        proof {
            lemma_views_bounded(frames@, winning);
            lemma_fuel_bounds(below, below.len() as int);
            lemma_weight(10);
            lemma_placed_count_bound(next_state.placements(), 9);
            if start is Searching {
                let d = live_frames(before, winning);
                let top = before[d - 1];
                let k = top.first_admitted(winning, 0);
                lemma_step_lowers_fuel(before, d, k);
            }
        }
        let mask = next_state.mask();
        let tags = next_state.tagged_mask_using(&self.catalog, self.winning_mask);
        if mask == self.winning_mask {
            // The puzzle is solved: the search is done.
            proof {
                assert(consistent(next_state.placements(), winning));
            }
            Some(SolverMsg::Solved(Solution { game: next_state, mask: tags, steps: self.stats.steps }))
        } else {
            proof {
                if mask@ == winning {
                    mask.lemma_view_injective(self.winning_mask);
                }
                assert(!winning.subset_of(mask@)) by {
                    if winning.subset_of(mask@) {
                        assert(winning =~= mask@);
                    }
                }
            }
            let frame = SolveFrame::create(next_state, self.winning_mask, &self.catalog);
            frames.push(frame);
            proof {
                let fresh = fresh_frame(next_state.placements(), next_state.covered(), winning);
                assert(views(frames@) =~= below.push(fresh));
                assert(frame.view() == fresh);
                if start is Searching {
                    lemma_step_exhaustive(before, winning, fresh);
                } else {
                    lemma_start_exhaustive(winning, fresh);
                    assert(below.push(fresh) =~= seq![fresh]);
                }
                lemma_fuel_pushed(below, fresh);
                lemma_views_bounded(frames@, winning);
                lemma_fuel_bounds(views(frames@), 0);
            }
            if self.stats.steps < usize::MAX {
                self.stats.steps += 1;
            }
            self.frames = Some(frames);
            proof {
                self.lemma_bounded();
            }
            Some(SolverMsg::Unsolved(next_state, tags))
        }
    }

    /// Takes steps until the search is done, and returns what the last of
    /// them reported: that the puzzle is solved, or that it is impossible.
    /// Nothing is returned if the search was done before.
    pub fn last(&mut self) -> (r: Option<SolverMsg>)
        requires
            old(self).wf(),
        ensures
            final(self).wf(),
            final(self)@ is Done,
            final(self).winning() == old(self).winning(),
            r is None <==> old(self)@ is Done,
            r matches Some(msg) ==> !(msg is Unsolved),
            r matches Some(SolverMsg::Solved(solution)) ==> {
                &&& solution.game.covered() == old(self).winning()
                &&& consistent(solution.game.placements(), solution.game.covered())
            },
            r matches Some(SolverMsg::Solved(_)) ==> solvable(old(self).winning()),
            r == Some(SolverMsg::Impossible) ==> !solvable(old(self).winning()),
            match outcome(old(self)@, old(self).steps(), old(self).winning()) {
                Some((placements, steps)) => {
                    &&& r matches Some(SolverMsg::Solved(solution))
                    &&& solution.game.placements() == placements
                    &&& solution.steps == steps
                    &&& tags_of(solution.mask, placements, old(self).winning())
                },
                None => r == if old(self)@ is Done {
                    None
                } else {
                    Some(SolverMsg::Impossible)
                },
            },
    {
        let mut last: Option<SolverMsg> = None;
        proof {
            self.lemma_bounded();
        }
        loop
            invariant
                self.wf(),
                self.winning() == old(self).winning(),
                last is None ==> self@ == old(self)@,
                last matches Some(msg) ==> (msg is Unsolved <==> !(self@ is Done)),
                last is Some ==> !(old(self)@ is Done),
                last matches Some(SolverMsg::Solved(solution)) ==> {
                    &&& solution.game.covered() == old(self).winning()
                    &&& consistent(solution.game.placements(), solution.game.covered())
                },
                last matches Some(SolverMsg::Solved(_)) ==> solvable(old(self).winning()),
                last == Some(SolverMsg::Impossible) ==> !solvable(old(self).winning()),
                bounded(self@),
                bounded(old(self)@),
                !(self@ is Done) ==> outcome(self@, self.steps(), self.winning()) == outcome(
                    old(self)@,
                    old(self).steps(),
                    old(self).winning(),
                ),
                self@ is Done ==> match outcome(
                    old(self)@,
                    old(self).steps(),
                    old(self).winning(),
                ) {
                    Some((placements, steps)) => {
                        &&& last matches Some(SolverMsg::Solved(solution))
                        &&& solution.game.placements() == placements
                        &&& solution.steps == steps
                        &&& tags_of(solution.mask, placements, old(self).winning())
                    },
                    None => last == if old(self)@ is Done {
                        None
                    } else {
                        Some(SolverMsg::Impossible)
                    },
                },
            decreases fuel(self@),
        {
            match self.next() {
                None => {
                    return last;
                },
                Some(msg) => {
                    last = Some(msg);
                },
            }
        }
    }
}

/// The steps of the search for the date: a search before its first step
/// for a date that the board shows, and a search that is done, so that it
/// reports nothing, for any other date.
pub fn solve(target: TargetDate) -> (r: Solver)
    ensures
        r.wf(),
        target.on_calendar() ==> r@ is NotStarted && r.winning() == target.winning_cells() && r.steps()
            == 0,
        !target.on_calendar() ==> r@ is Done,
{
    match target.winning_mask() {
        Some(winning_mask) => Solver::create(winning_mask),
        None => Solver::done(),
    }
}

/// Well-formed levels hold no more candidates than a level can.
proof fn lemma_views_bounded(frames: Seq<SolveFrame>, winning: Set<(int, int)>)
    requires
        frames_wf(frames, winning),
    ensures
        views(frames).len() == frames.len(),
        forall|d: int|
            0 <= d < frames.len() ==> (#[trigger] views(frames)[d]).pending.len() <= max_pending(),
{
    assert forall|d: int| 0 <= d < frames.len() implies (#[trigger] views(frames)[d]).pending.len()
        <= max_pending() by {
        assert(frames[d].wf());
    }
}

/// Opening a level on top of fewer than ten adds less than the weight of
/// one candidate of the level below it.
proof fn lemma_fuel_pushed(below: Seq<FrameView>, fresh: FrameView)
    requires
        below.len() < 10,
        fresh.pending.len() <= max_pending(),
    ensures
        fuel_of(below.push(fresh)) == fuel_of(below) + (fresh.pending.len() + 1) * weight(
            9 - below.len(),
        ),
        fuel_of(below.push(fresh)) < fuel_of(below) + weight(10 - below.len()),
{
    let all = below.push(fresh);
    assert(all.drop_last() =~= below);
    assert(all.last() == fresh);
    lemma_weight(9 - below.len());
    lemma_scaled(fresh.pending.len() as int + 1, 3889, weight(9 - below.len()));
}

/// Trying candidates of the level `d - 1` and giving up the levels above
/// lowers the fuel by at least the weight of one candidate of that level.
proof fn lemma_step_lowers_fuel(before: Seq<FrameView>, d: int, k: int)
    requires
        0 < d <= before.len() <= 10,
        0 <= k < before[d - 1].pending.len(),
        forall|i: int| 0 <= i < before.len() ==> (#[trigger] before[i]).pending.len() <= max_pending(),
    ensures
        fuel_of(before.take(d - 1).push(before[d - 1].after(k + 1))) + weight(10 - d) <= fuel_of(
            before,
        ),
{
    let top = before[d - 1];
    let lower = before.take(d - 1);
    let kept = lower.push(top.after(k + 1));
    let upto = before.take(d);
    lemma_fuel_bounds(before, d);
    assert(upto.drop_last() =~= lower);
    assert(upto.last() == top);
    assert(kept.drop_last() =~= lower);
    assert(kept.last() == top.after(k + 1));
    lemma_weight(10 - d);
    let w = weight(10 - d);
    let a = top.pending.len() as int;
    assert(top.after(k + 1).pending.len() == a - k - 1);
    assert((a - k) * w + w <= (a + 1) * w) by (nonlinear_arith)
        requires
            0 <= k < a,
            w >= 1,
    ;
}

} // verus!
