//! The board as a set of cells packed into one machine word.

use vstd::prelude::*;
use vstd::std_specs::bits::u64_trailing_zeros;
use crate::solver::bits::{
    bit, lemma_bit_and, lemma_bit_not, lemma_bit_or, lemma_bit_past_board, lemma_bit_shl,
    lemma_bit_shr, lemma_bit_single, lemma_bit_zero, lemma_bits_equal, lemma_clear_lowest,
    lemma_lowest_bit, lemma_ops_within_board, lemma_row_pattern, lemma_row_repeated,
};
use crate::solver::piece::mask_for_piece;
use crate::solver::state::{placed_cells, union_cells, Placement};
use crate::solver::{
    cell_index, iter_coordinates, on_board, NUM_PIECES, PUZZLE_HEIGHT, PUZZLE_WIDTH,
};
use vstd::std_specs::convert::FromSpecImpl;

verus! {

/// Bits of a mask in which every cell of the board is covered.
pub const FILLED_BITS: u64 = 0x003F_FFFF_FFFF_FFFF;

/// One bit in the first column of each of the nine rows.
pub const ROW_UNIT: u64 = 0x0001_0410_4104_1041;

/// All cells of the board.
pub open spec fn board_cells() -> Set<(int, int)> {
    Set::new(|c: (int, int)| on_board(c.0, c.1))
}

/// The cell with row-major index `i`.
pub open spec fn cell_at(i: int) -> (int, int) {
    (i % 6, i / 6)
}

/// The cells of `s` moved by `(dx, dy)`, without those that leave the board.
pub open spec fn shifted_cells(s: Set<(int, int)>, dx: int, dy: int) -> Set<(int, int)> {
    Set::new(|c: (int, int)| on_board(c.0, c.1) && s.contains((c.0 - dx, c.1 - dy)))
}

/// Moving cells by `(dx, dy)` and then back keeps the cells of the board
/// that were still on the board after the first move, and no others:
/// nothing is carried from one row into the next.
pub proof fn lemma_shift_round_trip(s: Set<(int, int)>, dx: int, dy: int)
    ensures
        shifted_cells(shifted_cells(s, dx, dy), -dx, -dy) == Set::new(
            |c: (int, int)| s.contains(c) && on_board(c.0, c.1) && on_board(c.0 + dx, c.1 + dy),
        ),
{
    let there = shifted_cells(s, dx, dy);
    let back = shifted_cells(there, -dx, -dy);
    let kept = Set::new(
        |c: (int, int)| s.contains(c) && on_board(c.0, c.1) && on_board(c.0 + dx, c.1 + dy),
    );
    assert forall|c: (int, int)| back.contains(c) == kept.contains(c) by {
        assert(back.contains(c) == (on_board(c.0, c.1) && there.contains((c.0 + dx, c.1 + dy))));
        assert((c.0 + dx - dx, c.1 + dy - dy) == c);
    }
    assert(back =~= kept);
}

/// The cells of `s` with index `from` or more, in ascending index order.
pub open spec fn cells_from(s: Set<(int, int)>, from: int) -> Seq<(int, int)>
    decreases 54 - from,
{
    if from < 0 || from >= 54 {
        Seq::empty()
    } else if s.contains(cell_at(from)) {
        seq![cell_at(from)] + cells_from(s, from + 1)
    } else {
        cells_from(s, from + 1)
    }
}

/// The cells of `s` in ascending index order.
pub open spec fn cells_in_order(s: Set<(int, int)>) -> Seq<(int, int)> {
    cells_from(s, 0)
}

/// Whether `c` has the lowest index among the cells of `s`.
pub open spec fn is_first_cell(s: Set<(int, int)>, c: (int, int)) -> bool {
    &&& s.contains(c)
    &&& forall|x: int, y: int| #[trigger]
        s.contains((x, y)) && on_board(x, y) ==> cell_index(c.0, c.1) <= cell_index(x, y)
}

/// Skipping indexes that hold no cell of `s` does not change the sequence.
pub proof fn lemma_cells_from_skip(s: Set<(int, int)>, from: int, to: int)
    requires
        0 <= from <= to,
        forall|i: int| from <= i < to ==> !s.contains(#[trigger] cell_at(i)),
    ensures
        cells_from(s, from) == cells_from(s, to),
    decreases to - from,
{
    if from < to {
        if from < 54 {
            assert(!s.contains(cell_at(from)));
            lemma_cells_from_skip(s, from + 1, to);
        }
    }
}

/// The sequence from `from` on depends only on the cells at `from` and above.
pub proof fn lemma_cells_from_agree(s: Set<(int, int)>, t: Set<(int, int)>, from: int)
    requires
        0 <= from,
        forall|i: int| from <= i < 54 ==> s.contains(#[trigger] cell_at(i)) == t.contains(cell_at(i)),
    ensures
        cells_from(s, from) == cells_from(t, from),
    decreases 54 - from,
{
    if from < 54 {
        lemma_cells_from_agree(s, t, from + 1);
    }
}

/// What the ordered sequence holds: the board cells of `s` at `from` and
/// above, each once, in strictly ascending index order.
pub proof fn lemma_cells_from_contents(s: Set<(int, int)>, from: int)
    requires
        0 <= from,
    ensures
        cells_from(s, from).len() <= if from < 54 { 54 - from } else { 0 },
        forall|k: int| 0 <= k < cells_from(s, from).len() ==> {
            let c = #[trigger] cells_from(s, from)[k];
            on_board(c.0, c.1) && s.contains(c) && from <= cell_index(c.0, c.1)
        },
        forall|j: int, k: int| 0 <= j < k < cells_from(s, from).len() ==> {
            let a = #[trigger] cells_from(s, from)[j];
            let b = #[trigger] cells_from(s, from)[k];
            cell_index(a.0, a.1) < cell_index(b.0, b.1)
        },
        forall|x: int, y: int| on_board(x, y) && #[trigger] s.contains((x, y)) && from <= cell_index(x, y)
            ==> cells_from(s, from).contains((x, y)),
    decreases 54 - from,
{
    if from < 54 {
        lemma_cells_from_contents(s, from + 1);
        let rest = cells_from(s, from + 1);
        let all = cells_from(s, from);
        let here = cell_at(from);
        assert(cell_index(here.0, here.1) == from);
        if s.contains(here) {
            assert(all == seq![here] + rest);
            assert(all[0] == here);
            assert forall|k: int| 1 <= k < all.len() implies all[k] == rest[k - 1] by {}
            assert forall|x: int, y: int| on_board(x, y) && #[trigger] s.contains((x, y)) && from
                <= cell_index(x, y) implies all.contains((x, y)) by {
                if cell_index(x, y) == from {
                    assert((x, y) == here);
                    assert(all[0] == (x, y));
                } else {
                    assert(rest.contains((x, y)));
                    let k = choose|k: int| 0 <= k < rest.len() && rest[k] == (x, y);
                    assert(all[k + 1] == (x, y));
                }
            }
        } else {
            assert(all == rest);
            assert forall|x: int, y: int| on_board(x, y) && #[trigger] s.contains((x, y)) && from
                <= cell_index(x, y) implies all.contains((x, y)) by {
                if cell_index(x, y) == from {
                    assert((x, y) == here);
                }
            }
        }
    }
}

/// The first cell of a set heads its ordered sequence, and the rest is the
/// ordered sequence of the set without it.
pub proof fn lemma_cells_in_order_first(s: Set<(int, int)>, c: (int, int))
    requires
        on_board(c.0, c.1),
        is_first_cell(s, c),
    ensures
        cells_in_order(s).len() > 0,
        cells_in_order(s)[0] == c,
        cells_in_order(s.remove(c)) == cells_in_order(s).skip(1),
{
    let t = cell_index(c.0, c.1);
    assert(cell_at(t) == c);
    assert forall|i: int| 0 <= i < t implies !s.contains(#[trigger] cell_at(i)) by {
        let d = cell_at(i);
        assert(on_board(d.0, d.1));
        assert(cell_index(d.0, d.1) == i);
        if s.contains((d.0, d.1)) {
            assert(false);
        }
    }
    lemma_cells_from_skip(s, 0, t);
    assert(cells_from(s, t) == seq![c] + cells_from(s, t + 1));
    let r = s.remove(c);
    assert forall|i: int| 0 <= i < t + 1 implies !r.contains(#[trigger] cell_at(i)) by {
        if i < t {
            assert(!s.contains(cell_at(i)));
        }
    }
    lemma_cells_from_skip(r, 0, t + 1);
    assert forall|i: int| t + 1 <= i < 54 implies s.contains(#[trigger] cell_at(i)) == r.contains(
        cell_at(i),
    ) by {
        let d = cell_at(i);
        assert(cell_index(d.0, d.1) == i);
    }
    lemma_cells_from_agree(s, r, t + 1);
    assert(cells_in_order(s).skip(1) =~= cells_from(s, t + 1));
}

/// A set without board cells has an empty ordered sequence.
pub proof fn lemma_cells_in_order_empty(s: Set<(int, int)>)
    requires
        forall|x: int, y: int| on_board(x, y) ==> !#[trigger] s.contains((x, y)),
    ensures
        cells_in_order(s).len() == 0,
{
    assert forall|i: int| 0 <= i < 54 implies !s.contains(#[trigger] cell_at(i)) by {
        let d = cell_at(i);
        assert(on_board(d.0, d.1));
        assert(!s.contains((d.0, d.1)));
    }
    lemma_cells_from_skip(s, 0, 54);
}

/// A sequence of cells in strictly ascending index order.
pub open spec fn ascending(q: Seq<(int, int)>) -> bool {
    forall|j: int, k: int|
        0 <= j < k < q.len() ==> cell_index((#[trigger] q[j]).0, q[j].1) < cell_index(
            (#[trigger] q[k]).0,
            q[k].1,
        )
}

/// The ordered sequence of a set is the only ascending sequence that holds
/// the board cells of the set with index `from` or more, and nothing else.
pub proof fn lemma_cells_from_unique(s: Set<(int, int)>, from: int, q: Seq<(int, int)>)
    requires
        0 <= from,
        ascending(q),
        forall|k: int|
            0 <= k < q.len() ==> on_board((#[trigger] q[k]).0, q[k].1) && s.contains(q[k]) && from
                <= cell_index(q[k].0, q[k].1),
        forall|x: int, y: int|
            on_board(x, y) && #[trigger] s.contains((x, y)) && from <= cell_index(x, y)
                ==> q.contains((x, y)),
    ensures
        q == cells_from(s, from),
    decreases 54 - from,
{
    if from >= 54 {
        if q.len() > 0 {
            assert(on_board(q[0].0, q[0].1));
        }
        assert(q =~= cells_from(s, from));
    } else {
        let c = cell_at(from);
        assert(on_board(c.0, c.1) && cell_index(c.0, c.1) == from);
        if s.contains(c) {
            assert(s.contains((c.0, c.1)));
            assert(q.contains(c));
            let k = choose|k: int| 0 <= k < q.len() && q[k] == c;
            if k > 0 {
                assert(cell_index(q[0].0, q[0].1) < cell_index(q[k].0, q[k].1));
            }
            assert(q[0] == c);
            let rest = q.skip(1);
            assert forall|i: int| 0 <= i < rest.len() implies on_board(
                (#[trigger] rest[i]).0,
                rest[i].1,
            ) && s.contains(rest[i]) && from + 1 <= cell_index(rest[i].0, rest[i].1) by {
                assert(rest[i] == q[i + 1]);
                assert(cell_index(q[0].0, q[0].1) < cell_index(q[i + 1].0, q[i + 1].1));
            }
            assert forall|x: int, y: int|
                on_board(x, y) && #[trigger] s.contains((x, y)) && from + 1 <= cell_index(
                    x,
                    y,
                ) implies rest.contains((x, y)) by {
                assert(q.contains((x, y)));
                let i = choose|i: int| 0 <= i < q.len() && q[i] == (x, y);
                assert(i > 0);
                assert(rest[i - 1] == (x, y));
            }
            assert forall|i: int, j: int| 0 <= i < j < rest.len() implies cell_index(
                (#[trigger] rest[i]).0,
                rest[i].1,
            ) < cell_index((#[trigger] rest[j]).0, rest[j].1) by {
                assert(rest[i] == q[i + 1] && rest[j] == q[j + 1]);
            }
            lemma_cells_from_unique(s, from + 1, rest);
            assert(q =~= seq![c] + rest);
        } else {
            assert forall|k: int| 0 <= k < q.len() implies from + 1 <= cell_index(
                (#[trigger] q[k]).0,
                q[k].1,
            ) by {
                if cell_index(q[k].0, q[k].1) == from {
                    assert(q[k] == c);
                }
            }
            lemma_cells_from_unique(s, from + 1, q);
        }
    }
}

/// A set of board cells, one bit per cell, the cell `(x, y)` at bit
/// `y * 6 + x`. Bits past the last cell are never set.
#[derive(Copy, Clone, PartialEq, Eq, Structural, Debug)]
pub struct BoardMask {
    bits: u64,
}

impl View for BoardMask {
    type V = Set<(int, int)>;

    /// The cells that the mask covers.
    closed spec fn view(&self) -> Set<(int, int)> {
        word_cells(self.bits)
    }
}

/// The cells whose bit is set in `w`.
pub closed spec fn word_cells(w: u64) -> Set<(int, int)> {
    Set::new(|c: (int, int)| on_board(c.0, c.1) && bit(w, cell_index(c.0, c.1) as u64))
}

/// The word with the bits of the cells of `s` whose index is below `n`.
pub closed spec fn word_of(s: Set<(int, int)>, n: int) -> u64
    decreases n,
{
    if n <= 0 {
        0
    } else {
        word_of(s, n - 1) | if s.contains(cell_at(n - 1)) {
            1u64 << ((n - 1) as u64)
        } else {
            0u64
        }
    }
}

/// The bits of `word_of(s, n)` are those of the cells of `s` below `n`.
proof fn lemma_word_of(s: Set<(int, int)>, n: int)
    requires
        0 <= n <= 54,
    ensures
        word_of(s, n) <= FILLED_BITS,
        forall|i: u64| i < 64 ==> #[trigger] bit(word_of(s, n), i) == (i < n && s.contains(cell_at(i as int))),
    decreases n,
{
    if n == 0 {
        assert forall|i: u64| i < 64 implies !#[trigger] bit(word_of(s, n), i) by {
            lemma_bit_zero(i);
        }
    } else {
        lemma_word_of(s, n - 1);
        let low = word_of(s, n - 1);
        let k = (n - 1) as u64;
        let add = if s.contains(cell_at(n - 1)) {
            1u64 << k
        } else {
            0u64
        };
        lemma_ops_within_board(low, 0, k);
        assert(low | 0u64 == low) by (bit_vector);
        assert forall|i: u64| i < 64 implies #[trigger] bit(word_of(s, n), i) == (i < n
            && s.contains(cell_at(i as int))) by {
            lemma_bit_or(low, add, i);
            lemma_bit_single(k, i);
            lemma_bit_zero(i);
        }
    }
}

/// The mask that covers the board cells of `s`.
pub closed spec fn mask_of(s: Set<(int, int)>) -> BoardMask {
    BoardMask { bits: word_of(s, 54) }
}

/// `mask_of(s)` is a well-formed mask, and it covers the board cells of `s`.
pub proof fn lemma_mask_of(s: Set<(int, int)>)
    ensures
        mask_of(s).wf(),
        mask_of(s)@ == s.intersect(board_cells()),
{
    lemma_word_of(s, 54);
    let m = mask_of(s);
    assert forall|c: (int, int)| m@.contains(c) == s.intersect(board_cells()).contains(c) by {
        if on_board(c.0, c.1) {
            let i = cell_index(c.0, c.1) as u64;
            assert(cell_at(i as int) == c);
        }
    }
    assert(m@ =~= s.intersect(board_cells()));
}

/// The lowest cell of a word that is within the board and not zero.
proof fn lemma_word_first_cell(w: u64)
    requires
        w != 0,
        w <= FILLED_BITS,
    ensures
        u64_trailing_zeros(w) < 54,
        is_first_cell(word_cells(w), cell_at(u64_trailing_zeros(w) as int)),
{
    lemma_lowest_bit(w);
    let t = u64_trailing_zeros(w) as u64;
    if t >= 54 {
        lemma_bit_past_board(w, t);
    }
    let c = cell_at(t as int);
    assert(cell_index(c.0, c.1) as u64 == t);
    assert forall|x: int, y: int| #[trigger]
        word_cells(w).contains((x, y)) && on_board(x, y) implies cell_index(c.0, c.1) <= cell_index(
        x,
        y,
    ) by {
        let j = cell_index(x, y) as u64;
        if j < t {
            assert(!bit(w, j));
        }
    }
}

/// A word that is zero holds no cell.
proof fn lemma_word_empty(w: u64)
    requires
        w == 0,
    ensures
        forall|x: int, y: int| !#[trigger] word_cells(w).contains((x, y)),
{
    assert forall|x: int, y: int| !#[trigger] word_cells(w).contains((x, y)) by {
        if on_board(x, y) {
            lemma_bit_zero(cell_index(x, y) as u64);
        }
    }
}

impl BoardMask {
    /// No bit past the last cell of the board is set.
    #[verifier::type_invariant]
    pub closed spec fn wf(self) -> bool {
        self.bits <= FILLED_BITS
    }

    /// A mask covers cells of the board only.
    pub proof fn lemma_cells_on_board(self)
        ensures
            forall|x: int, y: int| #[trigger] self@.contains((x, y)) ==> on_board(x, y),
            self@.subset_of(board_cells()),
    {
    }

    /// Two well-formed masks that cover the same cells are equal.
    pub proof fn lemma_view_injective(self, other: BoardMask)
        requires
            self.wf(),
            other.wf(),
            self@ == other@,
        ensures
            self == other,
    {
        assert forall|i: u64| i < 64 implies bit(self.bits, i) == bit(other.bits, i) by {
            if i < 54 {
                let x = (i % 6) as int;
                let y = (i / 6) as int;
                assert(on_board(x, y));
                assert(cell_index(x, y) as u64 == i);
                assert(self@.contains((x, y)) == bit(self.bits, i));
                assert(other@.contains((x, y)) == bit(other.bits, i));
            } else {
                lemma_bit_past_board(self.bits, i);
                lemma_bit_past_board(other.bits, i);
            }
        }
        lemma_bits_equal(self.bits, other.bits);
    }

    /// The mask that covers no cell.
    pub fn new() -> (r: Self)
        ensures
            r@ == Set::<(int, int)>::empty(),
            r.wf(),
    {
        let r = BoardMask { bits: 0 };
        proof {
            lemma_word_empty(0);
            assert(r@ =~= Set::<(int, int)>::empty());
        }
        r
    }

    /// The cells that the placed pieces cover together. A placement at
    /// which its piece does not stay on the board counts for nothing.
    pub fn compute(positions: &[Option<Placement>; 9]) -> (r: Self)
        ensures
            r@ == union_cells(positions@),
            r.wf(),
    {
        let mut out = Self::default();
        let mut idx: usize = 0;
        while idx < NUM_PIECES
            invariant
                idx <= NUM_PIECES,
                out.wf(),
                out@ == Set::new(
                    |c: (int, int)|
                        exists|i: int| 0 <= i < idx && #[trigger] placed_cells(positions@, i).contains(c),
                ),
            decreases NUM_PIECES - idx,
        {
            let ghost before = out@;
            if let Some(placement) = positions[idx] {
                if let Some(mask) = mask_for_piece(idx, placement) {
                    out.apply(mask);
                }
            }
            proof {
                let after = Set::new(
                    |c: (int, int)|
                        exists|i: int|
                            0 <= i < idx + 1 && #[trigger] placed_cells(positions@, i).contains(c),
                );
                assert(out@ =~= before.union(placed_cells(positions@, idx as int)));
                assert forall|c: (int, int)| out@.contains(c) == after.contains(c) by {
                    if out@.contains(c) {
                        if before.contains(c) {
                            let i = choose|i: int|
                                0 <= i < idx && #[trigger] placed_cells(positions@, i).contains(c);
                            assert(placed_cells(positions@, i).contains(c));
                        } else {
                            assert(placed_cells(positions@, idx as int).contains(c));
                        }
                    }
                    if after.contains(c) {
                        let i = choose|i: int|
                            0 <= i < idx + 1 && #[trigger] placed_cells(positions@, i).contains(c);
                        if i < idx {
                            assert(before.contains(c));
                        }
                    }
                }
                assert(out@ =~= after);
            }
            idx += 1;
        }
        proof {
            assert(out@ =~= union_cells(positions@));
        }
        out
    }

    /// The mask that covers every cell of the board.
    pub fn filled() -> (r: Self)
        ensures
            r@ == board_cells(),
            r.wf(),
    {
        let r = BoardMask { bits: FILLED_BITS };
        proof {
            assert forall|c: (int, int)| r@.contains(c) == board_cells().contains(c) by {
                if on_board(c.0, c.1) {
                    let i = cell_index(c.0, c.1) as u64;
                    lemma_row_repeated(0x3F, i);
                    lemma_row_pattern(0, (i % 6) as u64);
                    assert(0x3Fu64 * ROW_UNIT == FILLED_BITS);
                    assert(0x3Fu64 >> 0u64 == 0x3Fu64) by (bit_vector);
                }
            }
            assert(r@ =~= board_cells());
        }
        r
    }

    /// The word with the one bit of the cell `(x, y)`.
    fn mask(x: usize, y: usize) -> (m: u64)
        requires
            x < PUZZLE_WIDTH,
            y < PUZZLE_HEIGHT,
        ensures
            m == 1u64 << ((y * 6 + x) as u64),
    {
        1u64 << ((y * 6 + x) as u64)
    }

    /// Whether the cell `(x, y)` is covered. A cell off the board never is.
    pub fn is_covered(self, x: usize, y: usize) -> (r: bool)
        ensures
            r == self@.contains((x as int, y as int)),
    {
        if x >= PUZZLE_WIDTH || y >= PUZZLE_HEIGHT {
            return false;
        }
        let m = Self::mask(x, y);
        proof {
            let i = (y * 6 + x) as u64;
            lemma_bit_and(self.bits, m, i);
            lemma_bit_single(i, i);
            if self.bits & m != 0 {
                lemma_lowest_bit(self.bits & m);
                let t = u64_trailing_zeros(self.bits & m) as u64;
                lemma_bit_and(self.bits, m, t);
                lemma_bit_single(i, t);
            } else {
                lemma_bit_zero(i);
            }
        }
        self.bits & m != 0
    }

    /// Covers the cell `(x, y)` or uncovers it. A cell off the board is left
    /// as it is.
    pub fn set_covered(&mut self, x: usize, y: usize, value: bool)
        ensures
            final(self)@ == if !on_board(x as int, y as int) {
                old(self)@
            } else if value {
                old(self)@.insert((x as int, y as int))
            } else {
                old(self)@.remove((x as int, y as int))
            },
            final(self).wf(),
    {
        proof {
            use_type_invariant(&*self);
        }
        if x >= PUZZLE_WIDTH || y >= PUZZLE_HEIGHT {
            return ;
        }
        let m = Self::mask(x, y);
        let ghost k = (y * 6 + x) as u64;
        let ghost before = self.bits;
        let after = if value {
            self.bits | m
        } else {
            self.bits & !m
        };
        proof {
            lemma_ops_within_board(before, !m, k);
            let target = (x as int, y as int);
            let expected = if value {
                word_cells(before).insert(target)
            } else {
                word_cells(before).remove(target)
            };
            assert forall|c: (int, int)| word_cells(after).contains(c) == expected.contains(c) by {
                if on_board(c.0, c.1) {
                    let i = cell_index(c.0, c.1) as u64;
                    lemma_bit_single(k, i);
                    lemma_bit_or(before, m, i);
                    lemma_bit_and(before, !m, i);
                    lemma_bit_not(m, i);
                }
            }
            assert(word_cells(after) =~= expected);
        }
        self.bits = after;
    }

    /// The mask moved by `(x, y)` cells. What is moved past an edge is lost:
    /// nothing comes back in on the other side of a row or of the board.
    pub fn shifted(self, x: isize, y: isize) -> (r: Self)
        ensures
            r@ == shifted_cells(self@, x as int, y as int),
            r.wf(),
    {
        proof {
            use_type_invariant(self);
        }
        if x <= -6 || x >= 6 || y <= -9 || y >= 9 {
            let r = Self::new();
            proof {
                self.lemma_cells_on_board();
                assert(r@ =~= shifted_cells(self@, x as int, y as int));
            }
            return r;
        }
        let shift: isize = y * 6 + x;
        // Cells that a plain shift of the word would carry from the end of
        // one row into the start of the next are cleared, row by row.
        let row: u64 = if x >= 0 {
            (0x3Fu64 << (x as u64)) & 0x3Fu64
        } else {
            0x3Fu64 >> ((-x) as u64)
        };
        proof {
            lemma_row_pattern(if x >= 0 { x as u64 } else { (-x) as u64 }, 0);
            lemma_row_repeated(row, 0);
        }
        let kept: u64 = row * ROW_UNIT;
        let moved: u64 = if shift > 0 {
            self.bits << (shift as u64)
        } else {
            self.bits >> ((-shift) as u64)
        };
        proof {
            lemma_ops_within_board(kept, moved, 0);
        }
        let r = BoardMask { bits: moved & kept };
        proof {
            let expected = shifted_cells(self@, x as int, y as int);
            assert forall|c: (int, int)| r@.contains(c) == expected.contains(c) by {
                if on_board(c.0, c.1) {
                    let i = cell_index(c.0, c.1) as u64;
                    let sx = c.0 - x;
                    let sy = c.1 - y;
                    lemma_bit_and(moved, kept, i);
                    lemma_row_repeated(row, i);
                    assert(i % 6 == c.0);
                    lemma_row_pattern(if x >= 0 { x as u64 } else { (-x) as u64 }, (i % 6) as u64);
                    assert(bit(kept, i) == (0 <= sx < 6));
                    if 0 <= sx < 6 {
                        let j = i - shift;
                        assert(j == sy * 6 + sx);
                        if shift > 0 {
                            lemma_bit_shl(self.bits, shift as u64, i);
                        } else {
                            lemma_bit_shr(self.bits, (-shift) as u64, i);
                        }
                        if 54 <= j < 64 {
                            lemma_bit_past_board(self.bits, j as u64);
                        }
                        if 0 <= sy < 9 {
                            assert(cell_index(sx, sy) as u64 == j);
                        }
                    }
                }
            }
            assert(r@ =~= expected);
        }
        r
    }

    /// The cells of the board that the mask does not cover.
    pub fn inverted(self) -> (r: Self)
        ensures
            r@ == board_cells().difference(self@),
            r.wf(),
    {
        let full = Self::filled();
        proof {
            lemma_ops_within_board(full.bits, !self.bits, 0);
        }
        let r = BoardMask { bits: !self.bits & full.bits };
        proof {
            let expected = board_cells().difference(self@);
            assert forall|c: (int, int)| r@.contains(c) == expected.contains(c) by {
                if on_board(c.0, c.1) {
                    let i = cell_index(c.0, c.1) as u64;
                    lemma_bit_and(!self.bits, full.bits, i);
                    lemma_bit_not(self.bits, i);
                    assert(full@.contains(c));
                }
            }
            assert(r@ =~= expected);
        }
        r
    }

    /// Whether the two masks have a cell in common.
    pub fn conflicts_with(self, other: Self) -> (r: bool)
        ensures
            r == !self@.disjoint(other@),
    {
        proof {
            use_type_invariant(self);
            let w = self.bits & other.bits;
            lemma_ops_within_board(self.bits, other.bits, 0);
            if w != 0 {
                lemma_word_first_cell(w);
                let t = u64_trailing_zeros(w) as u64;
                let c = cell_at(t as int);
                assert(cell_index(c.0, c.1) as u64 == t);
                lemma_bit_and(self.bits, other.bits, t);
                assert(self@.contains(c) && other@.contains(c));
            } else {
                assert forall|c: (int, int)| !(self@.contains(c) && other@.contains(c)) by {
                    if on_board(c.0, c.1) {
                        let i = cell_index(c.0, c.1) as u64;
                        lemma_bit_and(self.bits, other.bits, i);
                        lemma_bit_zero(i);
                    }
                }
            }
        }
        self.bits & other.bits != 0
    }

    /// Whether the mask covers a cell that `winning_mask` does not: a cell
    /// that must stay free.
    pub fn covers_winning_mask(self, winning_mask: Self) -> (r: bool)
        ensures
            r == !self@.subset_of(winning_mask@),
    {
        proof {
            use_type_invariant(self);
            let w = self.bits & !winning_mask.bits;
            lemma_ops_within_board(self.bits, !winning_mask.bits, 0);
            if w != 0 {
                lemma_word_first_cell(w);
                let t = u64_trailing_zeros(w) as u64;
                let c = cell_at(t as int);
                assert(cell_index(c.0, c.1) as u64 == t);
                lemma_bit_and(self.bits, !winning_mask.bits, t);
                lemma_bit_not(winning_mask.bits, t);
                assert(self@.contains(c) && !winning_mask@.contains(c));
            } else {
                assert forall|c: (int, int)| self@.contains(c) implies winning_mask@.contains(c) by {
                    let i = cell_index(c.0, c.1) as u64;
                    lemma_bit_and(self.bits, !winning_mask.bits, i);
                    lemma_bit_not(winning_mask.bits, i);
                    lemma_bit_zero(i);
                }
            }
        }
        self.bits & !winning_mask.bits != 0
    }

    /// Adds the cells of `other` to the mask.
    pub fn apply(&mut self, other: Self)
        ensures
            final(self)@ == old(self)@.union(other@),
            final(self).wf(),
    {
        proof {
            use_type_invariant(&*self);
            use_type_invariant(other);
        }
        let ghost before = self.bits;
        let after = self.bits | other.bits;
        proof {
            lemma_ops_within_board(before, other.bits, 0);
            let expected = word_cells(before).union(other@);
            assert forall|c: (int, int)| word_cells(after).contains(c) == expected.contains(c) by {
                if on_board(c.0, c.1) {
                    lemma_bit_or(before, other.bits, cell_index(c.0, c.1) as u64);
                }
            }
            assert(word_cells(after) =~= expected);
        }
        self.bits = after;
    }

    /// The cell of lowest index that `winning_mask` holds and the mask does
    /// not cover, if there is one.
    pub fn next_to_cover(self, winning_mask: Self) -> (r: Option<(u8, u8)>)
        ensures
            r is None <==> winning_mask@.subset_of(self@),
            r matches Some(c) ==> on_board(c.0 as int, c.1 as int) && is_first_cell(
                winning_mask@.difference(self@),
                (c.0 as int, c.1 as int),
            ),
    {
        proof {
            use_type_invariant(winning_mask);
        }
        let to_cover = !self.bits & winning_mask.bits;
        // The number of trailing zeros is the index of the lowest set bit.
        let pos = to_cover.trailing_zeros() as usize;
        let x = pos % PUZZLE_WIDTH;
        let y = pos / PUZZLE_WIDTH;
        proof {
            lemma_ops_within_board(winning_mask.bits, !self.bits, 0);
            let open = winning_mask@.difference(self@);
            assert forall|c: (int, int)| word_cells(to_cover).contains(c) == open.contains(c) by {
                if on_board(c.0, c.1) {
                    let i = cell_index(c.0, c.1) as u64;
                    lemma_bit_and(!self.bits, winning_mask.bits, i);
                    lemma_bit_not(self.bits, i);
                }
            }
            assert(word_cells(to_cover) =~= open);
            if to_cover != 0 {
                lemma_word_first_cell(to_cover);
                assert(open.contains(cell_at(pos as int)));
            } else {
                lemma_word_empty(to_cover);
                vstd::std_specs::bits::axiom_u64_trailing_zeros(to_cover);
                assert forall|c: (int, int)| winning_mask@.contains(c) implies self@.contains(c) by {
                    assert(!open.contains((c.0, c.1)));
                }
            }
        }
        if y < PUZZLE_HEIGHT {
            Some((x as u8, y as u8))
        } else {
            None
        }
    }

    /// The covered cells, to be handed out one by one in ascending index
    /// order.
    pub fn iter_covered(self) -> (r: BoardMaskIter)
        ensures
            r@ == cells_in_order(self@),
    {
        proof {
            use_type_invariant(self);
        }
        BoardMaskIter { bits: self.bits }
    }

    /// The bits of the mask, the cell `(x, y)` at bit `y * 6 + x`.
    pub fn bits(self) -> (w: u64)
        ensures
            w <= FILLED_BITS,
            forall|i: u64| i < 54 ==> #[trigger] bit(w, i) == self@.contains(cell_at(i as int)),
    {
        proof {
            use_type_invariant(self);
            assert forall|i: u64| i < 54 implies #[trigger] bit(self.bits, i) == self@.contains(
                cell_at(i as int),
            ) by {
                let c = cell_at(i as int);
                assert(cell_index(c.0, c.1) as u64 == i);
            }
        }
        self.bits
    }
}

impl Default for BoardMask {
    /// The mask that covers no cell.
    fn default() -> (r: Self)
        ensures
            r@ == Set::<(int, int)>::empty(),
            r.wf(),
    {
        BoardMask::new()
    }
}

/// The covered cells of a mask that have not been handed out yet.
#[derive(Copy, Clone)]
pub struct BoardMaskIter {
    bits: u64,
}

impl View for BoardMaskIter {
    type V = Seq<(int, int)>;

    /// The cells still to come, in the order in which they come.
    closed spec fn view(&self) -> Seq<(int, int)> {
        cells_in_order(word_cells(self.bits))
    }
}

impl BoardMaskIter {
    /// No bit past the last cell of the board is set.
    #[verifier::type_invariant]
    pub closed spec fn wf(self) -> bool {
        self.bits <= FILLED_BITS
    }

    /// The cells still to come are cells of the board, each once, in
    /// ascending index order.
    pub proof fn lemma_pending(self)
        ensures
            self@.len() <= 54,
            forall|k: int| 0 <= k < self@.len() ==> on_board((#[trigger] self@[k]).0, self@[k].1),
            forall|j: int, k: int| 0 <= j < k < self@.len() ==> cell_index(
                (#[trigger] self@[j]).0,
                self@[j].1,
            ) < cell_index((#[trigger] self@[k]).0, self@[k].1),
    {
        lemma_cells_from_contents(word_cells(self.bits), 0);
    }

    /// Hands out the next cell: the one of lowest index that is left.
    pub fn next(&mut self) -> (r: Option<(u8, u8)>)
        ensures
            old(self)@.len() == 0 ==> r is None && final(self)@ == old(self)@,
            old(self)@.len() > 0 ==> r == Some((old(self)@[0].0 as u8, old(self)@[0].1 as u8))
                && final(self)@ == old(self)@.skip(1),
            final(self).wf(),
    {
        proof {
            use_type_invariant(&*self);
        }
        let ghost before = self.bits;
        let pos = self.bits.trailing_zeros() as usize;
        proof {
            vstd::std_specs::bits::axiom_u64_trailing_zeros(before);
        }
        if pos == 64 {
            proof {
                lemma_word_empty(before);
                lemma_cells_in_order_empty(word_cells(before));
            }
            None
        } else {
            proof {
                lemma_word_first_cell(before);
                lemma_lowest_bit(before);
                lemma_clear_lowest(before, pos as u64);
            }
            // Clear the lowest set bit.
            let after = self.bits & (self.bits - 1);
            proof {
                let c = cell_at(pos as int);
                lemma_ops_within_board(before, (before - 1) as u64, 0);
                lemma_cells_in_order_first(word_cells(before), c);
                let expected = word_cells(before).remove(c);
                assert forall|d: (int, int)| word_cells(after).contains(d) == expected.contains(
                    d,
                ) by {
                    if on_board(d.0, d.1) {
                        let i = cell_index(d.0, d.1) as u64;
                        lemma_bit_and(before, !(1u64 << (pos as u64)), i);
                        lemma_bit_not(1u64 << (pos as u64), i);
                        lemma_bit_single(pos as u64, i);
                    }
                }
                assert(word_cells(after) =~= expected);
            }
            self.bits = after;
            let x = pos % PUZZLE_WIDTH;
            let y = pos / PUZZLE_WIDTH;
            Some((x as u8, y as u8))
        }
    }
}

impl Default for BoardMaskIter {
    /// An iterator with no cell to hand out.
    fn default() -> (r: Self)
        ensures
            r@.len() == 0,
    {
        let r = BoardMaskIter { bits: 0 };
        proof {
            lemma_word_empty(0);
            lemma_cells_in_order_empty(word_cells(0));
        }
        r
    }
}

/// What is known of one cell of the board when a state is shown.
#[derive(Copy, Clone, PartialEq, Eq, Structural, Debug)]
pub enum CellTag {
    /// The piece with this index covers the cell.
    Covered(u8),
    /// The cell is one of those that stay free.
    Winner,
    /// The cell is to be covered and is not covered yet.
    Uncovered,
}

/// A tag for each cell of the board.
#[derive(Copy, Clone, PartialEq, Eq, Debug)]
pub struct TaggedMask {
    cells: [[CellTag; 6]; 9],
}

impl TaggedMask {
    /// The tag of the cell `(x, y)`.
    pub closed spec fn tag_at(self, x: int, y: int) -> CellTag {
        self.cells[y][x]
    }

    /// The cells that are tagged as covered by a piece.
    pub open spec fn covered_cells(self) -> Set<(int, int)> {
        Set::new(|c: (int, int)| on_board(c.0, c.1) && self.tag_at(c.0, c.1) is Covered)
    }

    /// The tag of the cell `(x, y)`.
    pub fn get(&self, x: usize, y: usize) -> (tag: CellTag)
        requires
            on_board(x as int, y as int),
        ensures
            tag == self.tag_at(x as int, y as int),
    {
        self.cells[y][x]
    }

    /// Gives the cell `(x, y)` the tag `tag`.
    pub fn set(&mut self, x: usize, y: usize, tag: CellTag)
        requires
            on_board(x as int, y as int),
        ensures
            final(self).tag_at(x as int, y as int) == tag,
            forall|i: int, j: int|
                on_board(i, j) && (i, j) != (x as int, y as int) ==> final(self).tag_at(i, j) == old(
                    self,
                ).tag_at(i, j),
    {
        self.cells[y][x] = tag;
    }
}

impl Default for TaggedMask {
    /// Every cell is tagged as not covered.
    fn default() -> (r: Self)
        ensures
            forall|x: int, y: int| on_board(x, y) ==> r.tag_at(x, y) == CellTag::Uncovered,
    {
        Self { cells: [[CellTag::Uncovered;6];9] }
    }
}

impl From<TaggedMask> for BoardMask {
    /// The cells that are tagged as covered by a piece.
    fn from(value: TaggedMask) -> (r: Self) {
        let coordinates = iter_coordinates();
        let mut out = Self::default();
        let mut k: usize = 0;
        while k < coordinates.len()
            invariant
                k <= 54,
                coordinates.len() == 54,
                forall|i: int|
                    0 <= i < 54 ==> #[trigger] coordinates[i] == ((i % 6) as usize, (i / 6) as usize),
                out.wf(),
                out@ == Set::new(
                    |c: (int, int)| value.covered_cells().contains(c) && cell_index(c.0, c.1) < k,
                ),
            decreases 54 - k,
        {
            let (x, y) = coordinates[k];
            let covered = match value.get(x, y) {
                CellTag::Covered(_) => true,
                _ => false,
            };
            out.set_covered(x, y, covered);
            proof {
                let after = Set::new(
                    |c: (int, int)|
                        value.covered_cells().contains(c) && cell_index(c.0, c.1) < k + 1,
                );
                assert forall|c: (int, int)| out@.contains(c) == after.contains(c) by {
                    if on_board(c.0, c.1) && cell_index(c.0, c.1) == k {
                        assert(c == (x as int, y as int));
                    }
                }
                assert(out@ =~= after);
            }
            k += 1;
        }
        proof {
            lemma_mask_of(value.covered_cells());
            assert(out@ =~= value.covered_cells().intersect(board_cells()));
            out.lemma_view_injective(mask_of(value.covered_cells()));
        }
        out
    }
}

impl FromSpecImpl<TaggedMask> for BoardMask {
    open spec fn obeys_from_spec() -> bool {
        true
    }

    open spec fn from_spec(value: TaggedMask) -> BoardMask {
        mask_of(value.covered_cells())
    }
}

} // verus!
