//! Where a piece lies, and which pieces lie where.

use vstd::prelude::*;
use crate::solver::bits::lemma_pack_code;
use crate::solver::mask::{
    ascending, cells_in_order, lemma_cells_from_contents, lemma_cells_from_unique, BoardMask,
    CellTag, TaggedMask,
};
use crate::solver::piece::{
    anchor, catalog_shape, lemma_catalog_wf, mask_for_piece, piece, piece_cells, pieces, Piece,
    RotationAndFlip, Shape,
};
use crate::solver::{
    cell_index, iter_coordinates, on_board, NUM_PIECES, PUZZLE_HEIGHT, PUZZLE_WIDTH,
};

verus! {

/// Where a piece lies: the cell of the top left corner of its box, and the
/// orientation in which it lies.
#[derive(Copy, Clone, PartialEq, Eq, Structural, Debug)]
pub struct Placement {
    pub x: u8,
    pub y: u8,
    pub rotation: u8,
    pub flipped: bool,
}

impl Placement {
    /// The number of the orientation among the eight: the quarter turns,
    /// counted modulo four, twice, and one more if the piece is mirrored.
    pub open spec fn orientation(self) -> int {
        (self.rotation % 4) * 2 + if self.flipped {
            1int
        } else {
            0int
        }
    }

    /// The number of placements that `code` tells apart.
    pub const NUM_PLACEMENTS: usize = 432;

    /// The placement with the given number: the cell index eight times,
    /// and the number of the orientation.
    pub open spec fn from_code(code: int) -> Placement {
        Placement {
            x: ((code / 8) % 6) as u8,
            y: ((code / 8) / 6) as u8,
            rotation: ((code % 8) / 2) as u8,
            flipped: code % 2 == 1,
        }
    }

    /// The number of the placement among all placements with an anchor on
    /// the board, none for an anchor off the board.
    pub fn code(self) -> (r: Option<usize>)
        ensures
            r == if on_board(self.x as int, self.y as int) {
                Some((cell_index(self.x as int, self.y as int) * 8 + self.orientation()) as usize)
            } else {
                None
            },
    {
        let x = self.x as usize;
        let y = self.y as usize;
        if x >= PUZZLE_WIDTH {
            return None;
        }
        if y >= PUZZLE_HEIGHT {
            return None;
        }
        let pos_code = y * PUZZLE_WIDTH + x;
        let rotation = (self.rotation % 4) as usize;
        let flipped: usize = if self.flipped {
            1
        } else {
            0
        };
        proof {
            lemma_pack_code(pos_code as u64, rotation as u64, flipped as u64);
            assert(((pos_code as u64) << 3 | ((rotation as u64) << 1) | (flipped as u64)) as usize
                == pos_code << 3 | (rotation << 1) | flipped) by (bit_vector)
                requires
                    pos_code < 54,
                    rotation < 4,
                    flipped < 2,
            ;
        }
        Some(pos_code << 3 | (rotation << 1) | flipped)
    }

    /// All placements with an anchor on the board, in the order of their
    /// numbers.
    pub fn iter_all() -> (all: Vec<Placement>)
        ensures
            all.len() == 432,
            forall|k: int| 0 <= k < 432 ==> #[trigger] all[k] == Placement::from_code(k),
    {
        let coordinates = iter_coordinates();
        let mut all: Vec<Placement> = Vec::new();
        let mut cell: usize = 0;
        while cell < coordinates.len()
            invariant
                cell <= 54,
                coordinates.len() == 54,
                forall|i: int|
                    0 <= i < 54 ==> #[trigger] coordinates[i] == ((i % 6) as usize, (i / 6) as usize),
                all.len() == cell * 8,
                forall|k: int| 0 <= k < all.len() ==> #[trigger] all[k] == Placement::from_code(k),
            decreases 54 - cell,
        {
            let (x, y) = coordinates[cell];
            let mut rotation: u8 = 0;
            while rotation < 4
                invariant
                    rotation <= 4,
                    cell < 54,
                    x == cell % 6,
                    y == cell / 6,
                    all.len() == cell * 8 + rotation * 2,
                    forall|k: int|
                        0 <= k < all.len() ==> #[trigger] all[k] == Placement::from_code(k),
                decreases 4 - rotation,
            {
                all.push(Placement { x: x as u8, y: y as u8, flipped: false, rotation });
                all.push(Placement { x: x as u8, y: y as u8, flipped: true, rotation });
                rotation += 1;
            }
            cell += 1;
        }
        all
    }

    /// The placements of the piece with index `piece_idx` that cover the
    /// cell `(x, y)`, in the order in which the search tries them. There is
    /// none for an index from 9 on, nor for a cell off the board.
    pub fn iter_covering_coordinates(x: u8, y: u8, piece_idx: usize) -> (r: Vec<Placement>)
        ensures
            r@ == if piece_idx < 9 {
                catalog_shape(piece_idx as int).candidates(x as int, y as int)
            } else {
                Seq::<Placement>::empty()
            },
    {
        let mut out: Vec<Placement> = Vec::new();
        let piece = match piece(piece_idx) {
            Some(piece) => piece,
            None => {
                return out;
            },
        };
        let ghost shape = piece@;
        proof {
            lemma_catalog_wf(piece_idx as int);
        }
        let mut code: u8 = 0;
        while code < 8
            invariant
                code <= 8,
                shape == piece@,
                shape == catalog_shape(piece_idx as int),
                shape.wf(),
                shape.width <= 5,
                shape.height <= 5,
                out@ + shape.candidates_from(code as int, x as int, y as int) == shape.candidates(
                    x as int,
                    y as int,
                ),
            decreases 8 - code,
        {
            let rotation = code / 2;
            let flipped = code % 2 == 1;
            let (w, h) = piece.size(rotation);
            let mut offsets = piece.relative_offset_iter(rotation, flipped);
            let ghost full = offsets@;
            let ghost start = out@;
            let ghost wanted = shape.coverable(code as int, x as int, y as int);
            let ghost n: int = 0;
            let ghost last: int = -1;
            let ghost kept: Seq<(int, int)> = Seq::empty();
            proof {
                lemma_cells_from_contents(shape.offsets[code as int], 0);
                assert(start + Shape::anchors(code as int, x as int, y as int, kept) =~= start);
            }
            loop
                invariant
                    0 <= n <= full.len(),
                    code < 8,
                    rotation == code / 2,
                    flipped == (code % 2 == 1),
                    w == shape.size(code as int / 2).0,
                    h == shape.size(code as int / 2).1,
                    w <= 5,
                    h <= 5,
                    shape.wf(),
                    wanted == shape.coverable(code as int, x as int, y as int),
                    full == cells_in_order(shape.offsets[code as int]),
                    ascending(full),
                    forall|k: int|
                        0 <= k < full.len() ==> on_board((#[trigger] full[k]).0, full[k].1)
                            && shape.offsets[code as int].contains(full[k]),
                    offsets@ == full.skip(n),
                    ascending(kept),
                    -1 <= last < 54,
                    forall|t: int|
                        0 <= t < kept.len() ==> wanted.contains(#[trigger] kept[t]) && on_board(
                            kept[t].0,
                            kept[t].1,
                        ) && cell_index(kept[t].0, kept[t].1) <= last,
                    forall|k: int|
                        n <= k < full.len() ==> last < cell_index((#[trigger] full[k]).0, full[k].1),
                    forall|k: int|
                        0 <= k < n && wanted.contains(#[trigger] full[k]) ==> kept.contains(full[k]),
                    out@ == start + Shape::anchors(code as int, x as int, y as int, kept),
                ensures
                    n == full.len(),
                decreases full.len() - n,
            {
                let ghost pending = offsets@;
                let (dx, dy) = match offsets.next() {
                    Some(offset) => offset,
                    None => {
                        break ;
                    },
                };
                let ghost d = full[n];
                proof {
                    assert(pending[0] == full[n]);
                    assert(offsets@ =~= full.skip(n + 1));
                    assert forall|k: int| n + 1 <= k < full.len() implies cell_index(d.0, d.1)
                        < cell_index((#[trigger] full[k]).0, full[k].1) by {
                        assert(cell_index(full[n].0, full[n].1) < cell_index(full[k].0, full[k].1));
                    }
                }
                // Lay the cell of the piece on (x, y): the anchor is then at
                // (x - dx, y - dy), which has to be on the board with the
                // whole box of the piece.
                let mut found: Option<Placement> = None;
                if let Some(position_x) = x.checked_sub(dx) {
                    if position_x as usize + w <= PUZZLE_WIDTH {
                        if let Some(position_y) = y.checked_sub(dy) {
                            if position_y as usize + h <= PUZZLE_HEIGHT {
                                found =
                                Some(
                                    Placement { x: position_x, y: position_y, rotation, flipped },
                                );
                            }
                        }
                    }
                }
                proof {
                    assert(found is Some == wanted.contains(d));
                    if found is Some {
                        assert(found == Some(anchor(code as int, x as int, y as int, d)));
                    }
                }
                let ghost kept_before = kept;
                if let Some(placement) = found {
                    out.push(placement);
                    proof {
                        kept = kept.push(d);
                        assert(out@ =~= start + Shape::anchors(
                            code as int,
                            x as int,
                            y as int,
                            kept,
                        ));
                        assert forall|k: int|
                            0 <= k < n + 1 && wanted.contains(
                                #[trigger] full[k],
                            ) implies kept.contains(full[k]) by {
                            if k < n {
                                assert(kept_before.contains(full[k]));
                                let t = choose|t: int|
                                    0 <= t < kept_before.len() && kept_before[t] == full[k];
                                assert(kept[t] == full[k]);
                            } else {
                                assert(kept[kept.len() - 1] == full[k]);
                            }
                        }
                    }
                }
                proof {
                    last = cell_index(d.0, d.1);
                    n = n + 1;
                }
            }
            proof {
                assert forall|cx: int, cy: int|
                    on_board(cx, cy) && #[trigger] wanted.contains((cx, cy)) && 0 <= cell_index(
                        cx,
                        cy,
                    ) implies kept.contains((cx, cy)) by {
                    assert(shape.offsets[code as int].contains((cx, cy)));
                    assert(full.contains((cx, cy)));
                    let k = choose|k: int| 0 <= k < full.len() && full[k] == (cx, cy);
                    assert(wanted.contains(full[k]));
                }
                lemma_cells_from_unique(wanted, 0, kept);
                assert(shape.candidates_from(code as int, x as int, y as int) == Shape::anchors(
                    code as int,
                    x as int,
                    y as int,
                    kept,
                ) + shape.candidates_from(code + 1, x as int, y as int));
                assert(out@ + shape.candidates_from(code + 1, x as int, y as int) =~= start
                    + shape.candidates_from(code as int, x as int, y as int));
            }
            code += 1;
        }
        proof {
            assert(out@ + Seq::<Placement>::empty() =~= out@);
        }
        out
    }

    /// The orientation in which the piece lies.
    pub fn rotation_and_flip(self) -> (r: RotationAndFlip)
        ensures
            r.index() == self.orientation(),
    {
        RotationAndFlip::new(self.rotation, self.flipped)
    }
}

/// The cells that the piece with index `idx` covers where `placements`
/// has it: none if the piece is not placed, and none if it is noted at a
/// placement at which it does not stay on the board.
pub open spec fn placed_cells(placements: Seq<Option<Placement>>, idx: int) -> Set<(int, int)> {
    match placements[idx] {
        Some(p) => match piece_cells(idx, p) {
            Some(cells) => cells,
            None => Set::empty(),
        },
        None => Set::empty(),
    }
}

/// The cells that the placed pieces cover together.
pub open spec fn union_cells(placements: Seq<Option<Placement>>) -> Set<(int, int)> {
    Set::new(
        |c: (int, int)| exists|i: int| 0 <= i < 9 && #[trigger] placed_cells(placements, i).contains(c),
    )
}

/// What holds of the pieces and the covered cells of every state: each
/// placed piece stays on the board, no two placed pieces cover the same
/// cell, and the covered cells are those that the placed pieces cover.
pub open spec fn consistent(placements: Seq<Option<Placement>>, covered: Set<(int, int)>) -> bool {
    &&& placements.len() == 9
    &&& forall|i: int|
        0 <= i < 9 ==> (#[trigger] placements[i] matches Some(p) ==> piece_cells(i, p) is Some)
    &&& forall|i: int, j: int|
        0 <= i < j < 9 ==> #[trigger] placed_cells(placements, i).disjoint(
            #[trigger] placed_cells(placements, j),
        )
    &&& covered == union_cells(placements)
}

/// The number of pieces placed among the first `n`.
pub open spec fn count_placed(placements: Seq<Option<Placement>>, n: int) -> int
    decreases n,
{
    if n <= 0 {
        0
    } else {
        count_placed(placements, n - 1) + if placements[n - 1] is Some {
            1int
        } else {
            0int
        }
    }
}

/// The tag of the cell `c` after the first `n` pieces were looked at: the
/// last of them that covers the cell names it; a cell that none covers is
/// to be covered if `winning` holds it, and stays free otherwise.
pub open spec fn tag_upto(
    placements: Seq<Option<Placement>>,
    winning: Set<(int, int)>,
    c: (int, int),
    n: int,
) -> CellTag
    decreases n,
{
    if n <= 0 {
        if winning.contains(c) {
            CellTag::Uncovered
        } else {
            CellTag::Winner
        }
    } else if placed_cells(placements, n - 1).contains(c) {
        CellTag::Covered((n - 1) as u8)
    } else {
        tag_upto(placements, winning, c, n - 1)
    }
}

/// No more pieces are placed than there are.
pub proof fn lemma_placed_count_bound(placements: Seq<Option<Placement>>, n: int)
    requires
        0 <= n,
    ensures
        0 <= count_placed(placements, n) <= n,
    decreases n,
{
    if n > 0 {
        lemma_placed_count_bound(placements, n - 1);
    }
}

/// Placing one more piece raises the count of placed pieces by one, and
/// the count never passes the number of pieces looked at.
pub proof fn lemma_count_placed(placements: Seq<Option<Placement>>, idx: int, p: Placement, n: int)
    requires
        0 <= idx < placements.len(),
        0 <= n <= placements.len(),
        placements[idx] is None,
    ensures
        0 <= count_placed(placements, n) <= n,
        count_placed(placements.update(idx, Some(p)), n) == count_placed(placements, n) + if idx
            < n {
            1int
        } else {
            0int
        },
    decreases n,
{
    if n > 0 {
        lemma_count_placed(placements, idx, p, n - 1);
    }
}

/// Which pieces lie where, and the cells that they cover together.
#[derive(Copy, Clone, PartialEq, Eq, Debug)]
pub struct GameState {
    pieces: [Option<Placement>; 9],
    mask: BoardMask,
}

/// Whether two optional placements are the same.
fn same_placement(a: Option<Placement>, b: Option<Placement>) -> (same: bool)
    ensures
        same == (a == b),
{
    match (a, b) {
        (None, None) => true,
        (Some(p), Some(q)) => p == q,
        _ => false,
    }
}

impl GameState {
    /// The state is consistent: see `consistent`.
    #[verifier::type_invariant]
    pub closed spec fn wf(self) -> bool {
        consistent(self.pieces@, self.mask@)
    }

    /// The placement of each piece, none for a piece that is not placed.
    pub closed spec fn placements(self) -> Seq<Option<Placement>> {
        self.pieces@
    }

    /// The cells that are covered.
    pub closed spec fn covered(self) -> Set<(int, int)> {
        self.mask@
    }

    /// The number of pieces that are placed.
    pub open spec fn placed_count(self) -> int {
        count_placed(self.placements(), 9)
    }

    /// Whether `place_piece` changes the state: the index names a piece,
    /// the placement differs from the one that the piece has, and a piece
    /// that is to lie somewhere stays on the board there, on cells that no
    /// other piece covers and that `winning` holds.
    pub open spec fn can_place(
        self,
        idx: int,
        placement: Option<Placement>,
        winning: Set<(int, int)>,
    ) -> bool {
        &&& 0 <= idx < 9
        &&& self.placements()[idx] != placement
        &&& placement matches Some(p) ==> {
            &&& piece_cells(idx, p) matches Some(cells)
            &&& cells.disjoint(union_cells(self.placements().update(idx, None)))
            &&& cells.subset_of(winning)
        }
    }

    /// Whether the piece with index `idx`, which is not placed yet, can be
    /// laid at `p`: it stays on the board there, on cells that are not
    /// covered and that `winning` holds.
    pub open spec fn admits(self, idx: int, p: Placement, winning: Set<(int, int)>) -> bool {
        &&& piece_cells(idx, p) matches Some(cells)
        &&& cells.disjoint(self.covered())
        &&& cells.subset_of(winning)
    }

    /// The placement of each piece.
    pub fn pieces(&self) -> (r: [Option<Placement>; 9])
        ensures
            r@ == self.placements(),
    {
        self.pieces
    }

    /// The cells that are covered. In every state they are the cells that
    /// the placed pieces cover, and no two placed pieces cover the same
    /// cell.
    pub fn mask(&self) -> (r: BoardMask)
        ensures
            r@ == self.covered(),
            r.wf(),
            consistent(self.placements(), self.covered()),
    {
        proof {
            use_type_invariant(self);
            use_type_invariant(self.mask);
        }
        self.mask
    }

    /// Lays the piece with index `piece_idx` at `placement`, moves it there
    /// if it lies elsewhere, or takes it off the board if `placement` is
    /// none. Returns whether the state changed: see `can_place`.
    pub fn place_piece(
        &mut self,
        piece_idx: usize,
        placement: Option<Placement>,
        winning_mask: BoardMask,
    ) -> (changed: bool)
        ensures
            changed == old(self).can_place(piece_idx as int, placement, winning_mask@),
            changed ==> final(self).placements() == old(self).placements().update(
                piece_idx as int,
                placement,
            ),
            !changed ==> *final(self) == *old(self),
            consistent(final(self).placements(), final(self).covered()),
    {
        proof {
            use_type_invariant(&*self);
        }
        if piece_idx >= NUM_PIECES {
            return false;
        }
        // The piece is where it is asked to be already.
        if same_placement(self.pieces[piece_idx], placement) {
            return false;
        }
        let ghost before = self.pieces@;
        let ghost without = before.update(piece_idx as int, None);
        let mut without_piece = self.pieces;
        without_piece[piece_idx] = None;
        proof {
            assert(without_piece@ =~= without);
            lemma_piece_removed(before, self.mask@, piece_idx as int);
        }
        // A piece is laid on the board or moved.
        if let Some(new_placement) = placement {
            // A placement that leaves the board changes nothing.
            if let Some(mask_update) = mask_for_piece(piece_idx, new_placement) {
                // The cells that the other pieces cover.
                let mut own_mask = if self.pieces[piece_idx].is_none() {
                    // The piece is not on the board: all covered cells are those of
                    // other pieces.
                    proof {
                        assert(without =~= before);
                    }
                    self.mask
                } else {
                    // The piece is moved: the cells that it covers now do not stand
                    // in its way.
                    BoardMask::compute(&without_piece)
                };
                if !mask_update.conflicts_with(own_mask) && !mask_update.covers_winning_mask(
                    winning_mask,
                ) {
                    let mut pieces = self.pieces;
                    pieces[piece_idx] = Some(new_placement);
                    own_mask.apply(mask_update);
                    proof {
                        assert(pieces@ =~= before.update(piece_idx as int, placement));
                        lemma_piece_added(without, piece_idx as int, new_placement);
                        assert(pieces@ =~= without.update(piece_idx as int, Some(new_placement)));
                    }
                    *self = GameState { pieces, mask: own_mask };
                    return true;
                }
            }
        } else if self.pieces[piece_idx].is_some() {
            let mask = BoardMask::compute(&without_piece);
            *self = GameState { pieces: without_piece, mask };
            return true;
        }
        false
    }

    /// The state with the piece with index `piece_idx`, which is not placed
    /// yet, laid at `placement`; none if the piece does not stay on the
    /// board there, or would lie on a covered cell or on a cell that
    /// `winning_mask` does not hold.
    pub fn with_piece_placed(
        &self,
        piece_idx: usize,
        placement: Placement,
        winning_mask: BoardMask,
    ) -> (r: Option<GameState>)
        requires
            piece_idx < 9 ==> self.placements()[piece_idx as int] is None,
        ensures
            r is Some <==> self.admits(piece_idx as int, placement, winning_mask@),
            r matches Some(next) ==> {
                &&& next.placements() == self.placements().update(
                    piece_idx as int,
                    Some(placement),
                )
                &&& Some(next.covered()) == match piece_cells(piece_idx as int, placement) {
                    Some(cells) => Some(self.covered().union(cells)),
                    None => None,
                }
                &&& next.placed_count() == self.placed_count() + 1
                &&& consistent(next.placements(), next.covered())
            },
    {
        match piece(piece_idx) {
            Some(piece) => self.with_piece_placed_using(&piece, piece_idx, placement, winning_mask),
            None => None,
        }
    }

    /// As `with_piece_placed`, with the piece handed in by the caller, who
    /// holds the catalog.
    pub(crate) fn with_piece_placed_using(
        &self,
        piece: &Piece,
        piece_idx: usize,
        placement: Placement,
        winning_mask: BoardMask,
    ) -> (r: Option<GameState>)
        requires
            piece_idx < 9,
            piece@ == catalog_shape(piece_idx as int),
            self.placements()[piece_idx as int] is None,
        ensures
            r is Some <==> self.admits(piece_idx as int, placement, winning_mask@),
            r matches Some(next) ==> {
                &&& next.placements() == self.placements().update(
                    piece_idx as int,
                    Some(placement),
                )
                &&& Some(next.covered()) == match piece_cells(piece_idx as int, placement) {
                    Some(cells) => Some(self.covered().union(cells)),
                    None => None,
                }
                &&& next.placed_count() == self.placed_count() + 1
                &&& consistent(next.placements(), next.covered())
            },
    {
        proof {
            use_type_invariant(self);
        }
        let mask_update = match piece.mask(placement) {
            Some(mask_update) => mask_update,
            None => {
                return None;
            },
        };
        if mask_update.conflicts_with(self.mask) || mask_update.covers_winning_mask(winning_mask) {
            return None;
        }
        let mut pieces = self.pieces;
        pieces[piece_idx] = Some(placement);
        let mut mask = self.mask;
        mask.apply(mask_update);
        proof {
            let before = self.pieces@;
            assert(before.update(piece_idx as int, None) =~= before);
            lemma_piece_added(before, piece_idx as int, placement);
            assert(pieces@ =~= before.update(piece_idx as int, Some(placement)));
            lemma_count_placed(before, piece_idx as int, placement, 9);
        }
        Some(GameState { pieces, mask })
    }

    /// A tag for each cell: the index of the piece that covers it, or
    /// whether it is still to be covered or stays free.
    pub fn tagged_mask(&self, winning_mask: BoardMask) -> (tags: TaggedMask)
        ensures
            forall|x: int, y: int|
                on_board(x, y) ==> #[trigger] tags.tag_at(x, y) == tag_upto(
                    self.placements(),
                    winning_mask@,
                    (x, y),
                    9,
                ),
    {
        let catalog = pieces();
        self.tagged_mask_using(&catalog, winning_mask)
    }

    /// As `tagged_mask`, with the catalog handed in by the caller.
    pub(crate) fn tagged_mask_using(&self, catalog: &[Piece; 9], winning_mask: BoardMask) -> (tags:
        TaggedMask)
        requires
            forall|idx: int| 0 <= idx < 9 ==> (#[trigger] catalog[idx])@ == catalog_shape(idx),
        ensures
            forall|x: int, y: int|
                on_board(x, y) ==> #[trigger] tags.tag_at(x, y) == tag_upto(
                    self.placements(),
                    winning_mask@,
                    (x, y),
                    9,
                ),
    {
        let coordinates = iter_coordinates();
        let mut out = TaggedMask::default();
        let mut k: usize = 0;
        while k < coordinates.len()
            invariant
                k <= 54,
                coordinates.len() == 54,
                forall|i: int|
                    0 <= i < 54 ==> #[trigger] coordinates[i] == ((i % 6) as usize, (i / 6) as usize),
                forall|x: int, y: int|
                    on_board(x, y) ==> #[trigger] out.tag_at(x, y) == if cell_index(x, y) < k
                        && !winning_mask@.contains((x, y)) {
                        CellTag::Winner
                    } else {
                        CellTag::Uncovered
                    },
            decreases 54 - k,
        {
            let (x, y) = coordinates[k];
            if !winning_mask.is_covered(x, y) {
                out.set(x, y, CellTag::Winner);
            }
            k += 1;
        }
        let mut piece_idx: usize = 0;
        while piece_idx < NUM_PIECES
            invariant
                piece_idx <= NUM_PIECES,
                coordinates.len() == 54,
                forall|i: int|
                    0 <= i < 54 ==> #[trigger] coordinates[i] == ((i % 6) as usize, (i / 6) as usize),
                forall|idx: int| 0 <= idx < 9 ==> (#[trigger] catalog[idx])@ == catalog_shape(idx),
                forall|x: int, y: int|
                    on_board(x, y) ==> #[trigger] out.tag_at(x, y) == tag_upto(
                        self.placements(),
                        winning_mask@,
                        (x, y),
                        piece_idx as int,
                    ),
            decreases NUM_PIECES - piece_idx,
        {
            let ghost cells = placed_cells(self.placements(), piece_idx as int);
            let mut tagged = false;
            if let Some(placement) = self.pieces[piece_idx] {
                if let Some(mask) = catalog[piece_idx].mask(placement) {
                    tagged = true;
                    let mut k: usize = 0;
                    while k < coordinates.len()
                        invariant
                            k <= 54,
                            piece_idx < 9,
                            coordinates.len() == 54,
                            mask@ == cells,
                            forall|i: int|
                                0 <= i < 54 ==> #[trigger] coordinates[i] == (
                                    (i % 6) as usize,
                                    (i / 6) as usize,
                                ),
                            forall|x: int, y: int|
                                on_board(x, y) ==> #[trigger] out.tag_at(x, y) == if cell_index(x, y)
                                    < k && cells.contains((x, y)) {
                                    CellTag::Covered(piece_idx as u8)
                                } else {
                                    tag_upto(
                                        self.placements(),
                                        winning_mask@,
                                        (x, y),
                                        piece_idx as int,
                                    )
                                },
                        decreases 54 - k,
                    {
                        let (x, y) = coordinates[k];
                        if mask.is_covered(x, y) {
                            out.set(x, y, CellTag::Covered(piece_idx as u8));
                        }
                        k += 1;
                    }
                }
            }
            proof {
                if !tagged {
                    assert(cells =~= Set::<(int, int)>::empty());
                }
            }
            piece_idx += 1;
        }
        out
    }

    /// The indexes of the pieces that are not placed, in ascending order.
    pub fn available_piece_idxes(self) -> (free: Vec<usize>)
        ensures
            forall|k: int| 0 <= k < free.len() ==> (#[trigger] free[k]) < 9
                && self.placements()[free[k] as int] is None,
            forall|j: int, k: int| 0 <= j < k < free.len() ==> free[j] < free[k],
            forall|idx: int|
                0 <= idx < 9 && (#[trigger] self.placements()[idx]) is None ==> free@.contains(
                    idx as usize,
                ),
    {
        let mut free: Vec<usize> = Vec::new();
        let mut idx: usize = 0;
        while idx < NUM_PIECES
            invariant
                idx <= NUM_PIECES,
                forall|k: int| 0 <= k < free.len() ==> (#[trigger] free[k]) < idx
                    && self.placements()[free[k] as int] is None,
                forall|j: int, k: int| 0 <= j < k < free.len() ==> free[j] < free[k],
                forall|i: int|
                    0 <= i < idx && (#[trigger] self.placements()[i]) is None ==> free@.contains(
                        i as usize,
                    ),
            decreases NUM_PIECES - idx,
        {
            if self.pieces[idx].is_none() {
                let ghost before = free@;
                free.push(idx);
                proof {
                    assert(free[free.len() - 1] == idx);
                    assert forall|i: int|
                        0 <= i < idx + 1 && (#[trigger] self.placements()[i]) is None implies free@.contains(
                        i as usize,
                    ) by {
                        if i < idx {
                            assert(before.contains(i as usize));
                            let t = choose|t: int| 0 <= t < before.len() && before[t] == i as usize;
                            assert(free[t] == i as usize);
                        }
                    }
                }
            }
            idx += 1;
        }
        free
    }
}

impl Default for GameState {
    /// The state in which no piece is placed.
    fn default() -> (r: Self)
        ensures
            forall|idx: int| 0 <= idx < 9 ==> r.placements()[idx] is None,
            r.placements().len() == 9,
            r.covered() == Set::<(int, int)>::empty(),
            r.placed_count() == 0,
            consistent(r.placements(), r.covered()),
    {
        let pieces: [Option<Placement>; 9] = [None;9];
        let mask = BoardMask::default();
        proof {
            assert(union_cells(pieces@) =~= Set::<(int, int)>::empty());
            reveal_with_fuel(count_placed, 10);
        }
        GameState { pieces, mask }
    }
}

/// Without one of its pieces a consistent state is consistent still, and
/// covers what the other pieces cover.
proof fn lemma_piece_removed(placements: Seq<Option<Placement>>, covered: Set<(int, int)>, idx: int)
    requires
        consistent(placements, covered),
        0 <= idx < 9,
    ensures
        consistent(placements.update(idx, None), union_cells(placements.update(idx, None))),
{
    let without = placements.update(idx, None);
    assert forall|i: int| 0 <= i < 9 implies #[trigger] placed_cells(without, i) == if i == idx {
        Set::<(int, int)>::empty()
    } else {
        placed_cells(placements, i)
    } by {}
    assert forall|i: int, j: int| 0 <= i < j < 9 implies #[trigger] placed_cells(
        without,
        i,
    ).disjoint(#[trigger] placed_cells(without, j)) by {
        assert(placed_cells(placements, i).disjoint(placed_cells(placements, j)));
    }
}

/// A piece that is laid on cells that no other piece covers leaves a
/// consistent state consistent, and adds its cells to the covered ones.
proof fn lemma_piece_added(without: Seq<Option<Placement>>, idx: int, p: Placement)
    requires
        consistent(without, union_cells(without)),
        0 <= idx < 9,
        without[idx] is None,
        piece_cells(idx, p) is Some,
        piece_cells(idx, p)->0.disjoint(union_cells(without)),
    ensures
        union_cells(without.update(idx, Some(p))) == union_cells(without).union(
            piece_cells(idx, p)->0,
        ),
        consistent(without.update(idx, Some(p)), union_cells(without.update(idx, Some(p)))),
{
    let with = without.update(idx, Some(p));
    let cells = piece_cells(idx, p)->0;
    assert forall|i: int| 0 <= i < 9 implies #[trigger] placed_cells(with, i) == if i == idx {
        cells
    } else {
        placed_cells(without, i)
    } by {}
    assert forall|c: (int, int)| union_cells(with).contains(c) == union_cells(without).union(
        cells,
    ).contains(c) by {
        if union_cells(with).contains(c) {
            let i = choose|i: int| 0 <= i < 9 && #[trigger] placed_cells(with, i).contains(c);
            if i != idx {
                assert(placed_cells(without, i).contains(c));
            }
        }
        if union_cells(without).contains(c) {
            let i = choose|i: int| 0 <= i < 9 && #[trigger] placed_cells(without, i).contains(c);
            assert(placed_cells(with, i).contains(c));
        }
        if cells.contains(c) {
            assert(placed_cells(with, idx).contains(c));
        }
    }
    assert(union_cells(with) =~= union_cells(without).union(cells));
    assert forall|i: int, j: int| 0 <= i < j < 9 implies #[trigger] placed_cells(with, i).disjoint(
        #[trigger] placed_cells(with, j),
    ) by {
        if i != idx && j != idx {
            assert(placed_cells(without, i).disjoint(placed_cells(without, j)));
        } else {
            let other = if i == idx {
                j
            } else {
                i
            };
            assert forall|c: (int, int)| placed_cells(without, other).contains(c) implies !cells.contains(
                c,
            ) by {
                assert(union_cells(without).contains(c));
            }
        }
    }
}

} // verus!
