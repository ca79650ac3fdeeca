//! The nine pieces, each in its eight orientations.

use vstd::prelude::*;
use crate::solver::mask::{
    board_cells, cells_in_order, lemma_cells_from_contents, lemma_shift_round_trip, shifted_cells,
    BoardMask, BoardMaskIter,
};
use crate::solver::shape::{grid_of, Grid};
use crate::solver::state::Placement;
use crate::solver::{on_board, PUZZLE_HEIGHT, PUZZLE_WIDTH};

verus! {

/// The number of orientations of a piece.
pub const NUM_ORIENTATIONS: usize = 8;

/// One of the eight orientations of a piece: a number of quarter turns from
/// 0 to 3, and whether the piece is mirrored before it is turned. The
/// orientations are numbered by turns first: twice the turns, and one more
/// for the mirrored one.
#[derive(Copy, Clone, PartialEq, Eq, Structural, Debug)]
pub struct RotationAndFlip {
    code: u8,
}

impl RotationAndFlip {
    /// The number of orientations.
    pub const NUM: usize = 8;

    /// The number is one of the eight.
    #[verifier::type_invariant]
    pub closed spec fn wf(self) -> bool {
        self.code < 8
    }

    /// The number of the orientation, from 0 to 7.
    pub closed spec fn index(self) -> int {
        self.code as int
    }

    /// The orientation with `rotation` quarter turns, counted modulo four.
    pub fn new(rotation: u8, flipped: bool) -> (r: Self)
        ensures
            r.index() == (rotation % 4) * 2 + if flipped {
                1int
            } else {
                0int
            },
            r.wf(),
    {
        let turns: u8 = rotation % 4;
        RotationAndFlip { code: turns * 2 + if flipped { 1 } else { 0 } }
    }

    /// The number of the orientation, from 0 to 7.
    pub fn code(self) -> (c: u8)
        ensures
            c == self.index(),
            c < 8,
    {
        proof {
            use_type_invariant(self);
        }
        self.code
    }

    /// The number of quarter turns, from 0 to 3.
    pub fn rotation(self) -> (r: u8)
        ensures
            r == self.index() / 2,
            r < 4,
    {
        proof {
            use_type_invariant(self);
        }
        self.code / 2
    }

    /// Whether the piece is mirrored.
    pub fn flipped(self) -> (f: bool)
        ensures
            f == (self.index() % 2 == 1),
    {
        self.code % 2 == 1
    }

    /// The eight orientations in the order of their numbers.
    pub fn iter_all() -> (all: Vec<RotationAndFlip>)
        ensures
            all.len() == 8,
            forall|k: int| 0 <= k < 8 ==> (#[trigger] all[k]).index() == k,
    {
        let mut all: Vec<RotationAndFlip> = Vec::new();
        let mut rotation: u8 = 0;
        while rotation < 4
            invariant
                rotation <= 4,
                all.len() == rotation * 2,
                forall|k: int| 0 <= k < all.len() ==> (#[trigger] all[k]).index() == k,
            decreases 4 - rotation,
        {
            all.push(RotationAndFlip::new(rotation, false));
            all.push(RotationAndFlip::new(rotation, true));
            rotation += 1;
        }
        all
    }
}

/// What a piece is to the search: the sides of its box as it was drawn, and
/// for each of the eight orientations the cells that it fills when its box
/// lies in the top left corner of the board.
pub struct Shape {
    pub width: int,
    pub height: int,
    pub offsets: Seq<Set<(int, int)>>,
}

impl Shape {
    /// The sides of the box after `rotation` quarter turns: swapped on an
    /// odd number of turns.
    pub open spec fn size(self, rotation: int) -> (int, int) {
        if rotation % 2 == 1 {
            (self.height, self.width)
        } else {
            (self.width, self.height)
        }
    }

    /// There are eight orientations, and the cells of each lie on the board
    /// and in the box of that orientation.
    pub open spec fn wf(self) -> bool {
        &&& self.offsets.len() == 8
        &&& forall|code: int, x: int, y: int|
            0 <= code < 8 && #[trigger] self.offsets[code].contains((x, y)) ==> on_board(x, y) && x
                < self.size(code / 2).0 && y < self.size(code / 2).1
    }

    /// Whether the box of the piece, laid at the placement, stays on the
    /// board.
    pub open spec fn fits(self, p: Placement) -> bool {
        &&& p.x + self.size(p.rotation as int).0 <= 6
        &&& p.y + self.size(p.rotation as int).1 <= 9
    }

    /// The cells that the piece fills when it lies at the placement.
    pub open spec fn cells(self, p: Placement) -> Set<(int, int)> {
        shifted_cells(self.offsets[p.orientation()], p.x as int, p.y as int)
    }

    /// The cells that the piece covers at the placement, none if it does
    /// not stay on the board there.
    pub open spec fn placed(self, p: Placement) -> Option<Set<(int, int)>> {
        if self.fits(p) {
            Some(self.cells(p))
        } else {
            None
        }
    }

    /// The cells of the orientation `code` that can lie on `(cx, cy)` while
    /// the box of the piece stays on the board.
    pub open spec fn coverable(self, code: int, cx: int, cy: int) -> Set<(int, int)> {
        Set::new(
            |d: (int, int)|
                self.offsets[code].contains(d) && d.0 <= cx && d.1 <= cy && cx - d.0 + self.size(
                    code / 2,
                ).0 <= 6 && cy - d.1 + self.size(code / 2).1 <= 9,
        )
    }

    /// The placements in orientation `code` that lay each of the cells
    /// `offsets` of the piece on `(cx, cy)`, in the order of the cells.
    pub open spec fn anchors(code: int, cx: int, cy: int, offsets: Seq<(int, int)>) -> Seq<
        Placement,
    > {
        Seq::new(offsets.len(), |k: int| anchor(code, cx, cy, offsets[k]))
    }

    /// The placements that cover `(cx, cy)` in the orientations from `code`
    /// on: orientation by orientation, and within one in ascending index
    /// order of the cell of the piece that comes to lie on `(cx, cy)`.
    pub open spec fn candidates_from(self, code: int, cx: int, cy: int) -> Seq<Placement>
        decreases 8 - code,
    {
        if code < 0 || code >= 8 {
            Seq::empty()
        } else {
            Shape::anchors(code, cx, cy, cells_in_order(self.coverable(code, cx, cy)))
                + self.candidates_from(code + 1, cx, cy)
        }
    }

    /// There are at most 54 candidates for each orientation still to come.
    pub proof fn lemma_candidates_bound(self, code: int, cx: int, cy: int)
        requires
            0 <= code <= 8,
        ensures
            self.candidates_from(code, cx, cy).len() <= (8 - code) * 54,
        decreases 8 - code,
    {
        if code < 8 {
            lemma_cells_from_contents(self.coverable(code, cx, cy), 0);
            self.lemma_candidates_bound(code + 1, cx, cy);
        }
    }

    /// The candidates of one orientation are among the candidates from any
    /// orientation before it on.
    pub proof fn lemma_segment_in_candidates(
        self,
        from: int,
        code: int,
        cx: int,
        cy: int,
        p: Placement,
    )
        requires
            0 <= from <= code < 8,
            Shape::anchors(code, cx, cy, cells_in_order(self.coverable(code, cx, cy))).contains(p),
        ensures
            self.candidates_from(from, cx, cy).contains(p),
        decreases code - from,
    {
        let here = Shape::anchors(from, cx, cy, cells_in_order(self.coverable(from, cx, cy)));
        let rest = self.candidates_from(from + 1, cx, cy);
        if from < code {
            self.lemma_segment_in_candidates(from + 1, code, cx, cy, p);
            let t = choose|t: int| 0 <= t < rest.len() && rest[t] == p;
            assert((here + rest)[here.len() + t] == p);
        } else {
            let t = choose|t: int| 0 <= t < here.len() && here[t] == p;
            assert((here + rest)[t] == p);
        }
    }

    /// The candidates miss no placement: each placement with at most three
    /// quarter turns at which the piece stays on the board and covers
    /// `(cx, cy)` is among them.
    pub proof fn lemma_candidates_complete(self, p: Placement, cx: int, cy: int)
        requires
            self.wf(),
            p.rotation < 4,
            self.fits(p),
            self.cells(p).contains((cx, cy)),
        ensures
            self.candidates(cx, cy).contains(p),
    {
        let code = p.orientation();
        self.lemma_cells_of_fitting(p);
        let d = (cx - p.x, cy - p.y);
        assert(self.offsets[code].contains((cx - p.x, cy - p.y)));
        assert(code / 2 == p.rotation);
        let wanted = self.coverable(code, cx, cy);
        assert(wanted.contains((d.0, d.1)));
        lemma_cells_from_contents(wanted, 0);
        let order = cells_in_order(wanted);
        assert(order.contains((d.0, d.1)));
        let t = choose|t: int| 0 <= t < order.len() && order[t] == d;
        let list = Shape::anchors(code, cx, cy, order);
        assert(list[t] == anchor(code, cx, cy, d));
        assert(anchor(code, cx, cy, d) == p);
        self.lemma_segment_in_candidates(0, code, cx, cy, p);
    }

    /// Each candidate is a placement with at most three quarter turns at
    /// which the piece stays on the board and covers `(cx, cy)`.
    pub proof fn lemma_candidates_sound(self, from: int, cx: int, cy: int, k: int)
        requires
            self.wf(),
            0 <= from <= 8,
            0 <= k < self.candidates_from(from, cx, cy).len(),
        ensures
            ({
                let p = self.candidates_from(from, cx, cy)[k];
                &&& p.rotation < 4
                &&& self.fits(p)
                &&& self.cells(p).contains((cx, cy))
            }),
        decreases 8 - from,
    {
        let wanted = self.coverable(from, cx, cy);
        let order = cells_in_order(wanted);
        let here = Shape::anchors(from, cx, cy, order);
        let rest = self.candidates_from(from + 1, cx, cy);
        if k < here.len() {
            lemma_cells_from_contents(wanted, 0);
            let d = order[k];
            let p = here[k];
            assert(wanted.contains(d));
            assert(self.offsets[from].contains((d.0, d.1)));
            assert(p == anchor(from, cx, cy, d));
            assert(p.orientation() == from);
            self.lemma_cells_of_fitting(p);
            assert(self.offsets[p.orientation()].contains((cx - p.x, cy - p.y)));
        } else {
            self.lemma_candidates_sound(from + 1, cx, cy, k - here.len());
        }
    }

    /// All placements of the piece that cover `(cx, cy)`, in the order in
    /// which the search tries them.
    pub open spec fn candidates(self, cx: int, cy: int) -> Seq<Placement> {
        self.candidates_from(0, cx, cy)
    }

    /// A piece that fits at a placement fills there as many cells as it
    /// has: each of its cells lands on the board.
    pub proof fn lemma_cells_of_fitting(self, p: Placement)
        requires
            self.wf(),
            self.fits(p),
        ensures
            forall|x: int, y: int|
                self.cells(p).contains((x, y)) <==> #[trigger] self.offsets[p.orientation()].contains(
                    (x - p.x, y - p.y),
                ),
    {
        let code = p.orientation();
        assert((p.rotation as int) % 2 == (code / 2) % 2);
        assert forall|x: int, y: int| #[trigger]
            self.offsets[code].contains((x - p.x, y - p.y)) implies on_board(x, y) by {}
    }
}

/// The placement in orientation `code` that lays the cell `d` of the piece
/// on `(cx, cy)`.
pub open spec fn anchor(code: int, cx: int, cy: int, d: (int, int)) -> Placement {
    Placement {
        x: (cx - d.0) as u8,
        y: (cy - d.1) as u8,
        rotation: (code / 2) as u8,
        flipped: code % 2 == 1,
    }
}

/// The shape that a grid gives: in each orientation the cells of the turned
/// grid, as far as they lie on the board.
pub open spec fn shape_of(g: Grid) -> Shape {
    Shape {
        width: g.width,
        height: g.height,
        offsets: Seq::new(
            8,
            |code: int| g.oriented(code / 2, code % 2 == 1).cells.intersect(board_cells()),
        ),
    }
}

/// Every piece has eight orientations, that of the number `code` being the
/// grid mirrored if `code` is odd and turned `code / 2` quarter turns; a
/// quarter turn of it is the orientation two numbers on, and that of the
/// orientations 6 and 7 the orientations 0 and 1.
pub proof fn lemma_eight_orientations(g: Grid, code: int)
    requires
        g.wf(),
        0 <= code < 8,
    ensures
        shape_of(g).offsets.len() == 8,
        shape_of(g).offsets[code] == g.oriented(code / 2, code % 2 == 1).cells.intersect(
            board_cells(),
        ),
        g.oriented(code / 2, code % 2 == 1).rotated() == g.oriented(
            ((code + 2) % 8) / 2,
            code % 2 == 1,
        ),
        g.oriented(code / 2, code % 2 == 1).rotated_times(4) == g.oriented(
            code / 2,
            code % 2 == 1,
        ),
{
    g.lemma_orientation_turned(code / 2, code % 2 == 1);
    if code >= 6 {
        g.lemma_orientation_turned(0, code % 2 == 1);
        assert(g.oriented(4, code % 2 == 1) == g.oriented(0, code % 2 == 1));
    }
}

/// The shape of a grid is well formed.
pub proof fn lemma_shape_of_wf(g: Grid)
    requires
        g.wf(),
    ensures
        shape_of(g).wf(),
{
    let s = shape_of(g);
    assert forall|code: int, x: int, y: int|
        0 <= code < 8 && #[trigger] s.offsets[code].contains((x, y)) implies on_board(x, y) && x
        < s.size(code / 2).0 && y < s.size(code / 2).1 by {
        g.lemma_oriented_wf(code / 2, code % 2 == 1);
        assert(g.oriented(code / 2, code % 2 == 1).cells.contains((x, y)));
    }
}

/// A grid after a number of quarter turns, with its sides as they are then.
#[derive(Clone, Copy, PartialEq, Eq, Debug)]
enum RotatedMask<const W: usize, const H: usize> {
    Horizontal([[bool; W]; H]),
    Vertical([[bool; H]; W]),
}

impl<const W: usize, const H: usize> RotatedMask<W, H> {
    /// The grid that the value holds.
    spec fn grid(self) -> Grid {
        match self {
            RotatedMask::Horizontal(data) => grid_of(data),
            RotatedMask::Vertical(data) => grid_of(data),
        }
    }

    fn width(&self) -> (w: usize)
        ensures
            w == self.grid().width,
    {
        match self {
            RotatedMask::Horizontal(_) => W,
            RotatedMask::Vertical(_) => H,
        }
    }

    fn height(&self) -> (h: usize)
        ensures
            h == self.grid().height,
    {
        match self {
            RotatedMask::Horizontal(_) => H,
            RotatedMask::Vertical(_) => W,
        }
    }

    fn get(&self, x: usize, y: usize) -> (filled: bool)
        requires
            x < self.grid().width,
            y < self.grid().height,
        ensures
            filled == self.grid().cells.contains((x as int, y as int)),
    {
        match self {
            RotatedMask::Horizontal(data) => data[y][x],
            RotatedMask::Vertical(data) => data[y][x],
        }
    }
}

/// The rows with their columns in reverse order.
fn flipped<const W: usize, const H: usize, E: Copy>(data: [[E; W]; H]) -> (out: [[E; W]; H])
    ensures
        forall|x: int, y: int| 0 <= x < W && 0 <= y < H ==> out[y][x] == data[y][W - 1 - x],
{
    let half_w = W / 2;
    let mut out = data;
    let mut x: usize = 0;
    while x < half_w
        invariant
            x <= half_w,
            half_w == W / 2,
            forall|i: int, j: int|
                0 <= i < W && 0 <= j < H ==> out[j][i] == if i < x || i >= W - x {
                    data[j][W - 1 - i]
                } else {
                    data[j][i]
                },
        decreases half_w - x,
    {
        let mut y: usize = 0;
        while y < H
            invariant
                y <= H,
                x < half_w,
                half_w == W / 2,
                forall|i: int, j: int|
                    0 <= i < W && 0 <= j < H ==> out[j][i] == if i < x || i >= W - x || ((i == x
                        || i == W - 1 - x) && j < y) {
                        data[j][W - 1 - i]
                    } else {
                        data[j][i]
                    },
            decreases H - y,
        {
            out[y][x] = data[y][W - 1 - x];
            out[y][W - 1 - x] = data[y][x];
            y += 1;
        }
        x += 1;
    }
    out
}

/// The grid after a quarter turn: row `y` of the result is column
/// `W - 1 - y` of the input.
fn rotated<const W: usize, const H: usize, E: Default + Copy>(input: [[E; W]; H]) -> (output: [[
    E;
    H
]; W])
    ensures
        forall|x: int, y: int| 0 <= x < H && 0 <= y < W ==> output[y][x] == input[x][W - 1 - y],
{
    let mut output = [[E::default();H];W];
    let mut dst_x: usize = H;
    while dst_x > 0
        invariant
            dst_x <= H,
            forall|x: int, y: int|
                dst_x <= x < H && 0 <= y < W ==> output[y][x] == input[x][W - 1 - y],
        decreases dst_x,
    {
        dst_x -= 1;
        let mut dst_y: usize = 0;
        while dst_y < W
            invariant
                dst_y <= W,
                dst_x < H,
                forall|x: int, y: int|
                    0 <= x < H && 0 <= y < W && (dst_x < x || (dst_x == x && y < dst_y))
                        ==> output[y][x] == input[x][W - 1 - y],
            decreases W - dst_y,
        {
            output[dst_y][dst_x] = input[dst_x][W - dst_y - 1];
            dst_y += 1;
        }
    }
    output
}

/// The grid mirrored if `flip` is set, then turned `rotation` quarter
/// turns, counted modulo four.
fn transformed<const W: usize, const H: usize>(mask: [[bool; W]; H], rotation: u8, flip: bool) -> (r:
    RotatedMask<W, H>)
    ensures
        r.grid() == grid_of(mask).oriented(rotation as int, flip),
{
    let mut base = mask;
    if flip {
        base = flipped(mask);
        proof {
            assert(grid_of(base) =~= grid_of(mask).flipped());
        }
    }
    let ghost start = grid_of(base);
    let mut turned = RotatedMask::<W, H>::Horizontal(base);
    let turns: u8 = rotation % 4;
    let mut done: u8 = 0;
    while done < turns
        invariant
            done <= turns,
            turned.grid() == start.rotated_times(done as nat),
        decreases turns - done,
    {
        let ghost before = turned.grid();
        turned =
        match turned {
            RotatedMask::Horizontal(last_mask) => {
                let next = rotated(last_mask);
                proof {
                    assert(grid_of(next) =~= grid_of(last_mask).rotated());
                }
                RotatedMask::<W, H>::Vertical(next)
            },
            RotatedMask::Vertical(last_mask) => {
                let next = rotated(last_mask);
                proof {
                    assert(grid_of(next) =~= grid_of(last_mask).rotated());
                }
                RotatedMask::<W, H>::Horizontal(next)
            },
        };
        assert(turned.grid() == before.rotated());
        done += 1;
    }
    turned
}

/// The mask of the grid in the given orientation, its box in the top left
/// corner of the board. Cells that would lie off the board are left out.
fn mask_for_placement<const W: usize, const H: usize>(
    mask: [[bool; W]; H],
    rotation_and_flip: RotationAndFlip,
) -> (out: BoardMask)
    ensures
        out@ == grid_of(mask).oriented(
            rotation_and_flip.index() / 2,
            rotation_and_flip.index() % 2 == 1,
        ).cells.intersect(board_cells()),
        out.wf(),
{
    let rotated_mask = transformed(mask, rotation_and_flip.rotation(), rotation_and_flip.flipped());
    let piece_width = rotated_mask.width();
    let piece_height = rotated_mask.height();
    let ghost g = rotated_mask.grid();
    proof {
        grid_of(mask).lemma_oriented_wf(
            rotation_and_flip.index() / 2,
            rotation_and_flip.index() % 2 == 1,
        );
    }
    let mut out = BoardMask::default();
    let mut y: usize = 0;
    while y < piece_height
        invariant
            y <= piece_height,
            g == rotated_mask.grid(),
            g.wf(),
            piece_width == g.width,
            piece_height == g.height,
            out.wf(),
            out@ == Set::new(|c: (int, int)| on_board(c.0, c.1) && g.cells.contains(c) && c.1 < y),
        decreases piece_height - y,
    {
        let mut x: usize = 0;
        while x < piece_width
            invariant
                x <= piece_width,
                y < piece_height,
                g == rotated_mask.grid(),
                g.wf(),
                piece_width == g.width,
                piece_height == g.height,
                out.wf(),
                out@ == Set::new(
                    |c: (int, int)|
                        on_board(c.0, c.1) && g.cells.contains(c) && (c.1 < y || (c.1 == y && c.0
                            < x)),
                ),
            decreases piece_width - x,
        {
            let filled = rotated_mask.get(x, y);
            out.set_covered(x, y, filled);
            proof {
                let after = Set::new(
                    |c: (int, int)|
                        on_board(c.0, c.1) && g.cells.contains(c) && (c.1 < y || (c.1 == y && c.0
                            < x + 1)),
                );
                assert(out@ =~= after);
            }
            x += 1;
        }
        proof {
            let after = Set::new(
                |c: (int, int)| on_board(c.0, c.1) && g.cells.contains(c) && c.1 < y + 1,
            );
            assert forall|c: (int, int)| out@.contains(c) == after.contains(c) by {
                if g.cells.contains(c) {
                    assert(g.cells.contains((c.0, c.1)));
                }
            }
            assert(out@ =~= after);
        }
        y += 1;
    }
    proof {
        let all = g.cells.intersect(board_cells());
        assert forall|c: (int, int)| out@.contains(c) == all.contains(c) by {
            if g.cells.contains(c) {
                assert(g.cells.contains((c.0, c.1)));
            }
        }
        assert(out@ =~= all);
    }
    out
}

/// A piece of the puzzle: for each of its eight orientations the mask of
/// the piece with its box in the top left corner of the board, and the
/// sides of its box as it was drawn.
#[derive(Clone, Copy, PartialEq, Eq, Debug)]
pub struct Piece {
    masks: [BoardMask; 8],
    width: usize,
    height: usize,
}

impl View for Piece {
    type V = Shape;

    closed spec fn view(&self) -> Shape {
        Shape {
            width: self.width as int,
            height: self.height as int,
            offsets: Seq::new(8, |code: int| self.masks[code]@),
        }
    }
}

impl Piece {
    /// The cells of each orientation lie in the box of that orientation.
    #[verifier::type_invariant]
    pub closed spec fn wf(self) -> bool {
        self@.wf()
    }

    /// The piece drawn by `mask`, row by row from the top.
    pub fn with_mask<const W: usize, const H: usize>(mask: [[bool; W]; H]) -> (r: Self)
        ensures
            r@ == shape_of(grid_of(mask)),
            r.wf(),
    {
        let all = RotationAndFlip::iter_all();
        let mut masks = [BoardMask::new();8];
        let mut code: usize = 0;
        while code < 8
            invariant
                code <= 8,
                all.len() == 8,
                forall|k: int| 0 <= k < 8 ==> (#[trigger] all[k]).index() == k,
                forall|k: int|
                    0 <= k < code ==> (#[trigger] masks[k])@ == shape_of(grid_of(mask)).offsets[k],
            decreases 8 - code,
        {
            let board_mask = mask_for_placement(mask, all[code]);
            masks[code] = board_mask;
            code += 1;
        }
        proof {
            lemma_shape_of_wf(grid_of(mask));
            let s = Shape {
                width: W as int,
                height: H as int,
                offsets: Seq::new(8, |code: int| masks[code]@),
            };
            assert(s.offsets =~= shape_of(grid_of(mask)).offsets);
        }
        Self { masks, width: W, height: H }
    }

    /// The mask of the piece at the placement, none if the piece does not
    /// stay on the board there.
    pub fn mask(&self, placement: Placement) -> (r: Option<BoardMask>)
        ensures
            r is Some <==> self@.fits(placement),
            r matches Some(m) ==> m@ == self@.cells(placement) && m.wf(),
    {
        let rotation_and_flip = placement.rotation_and_flip();
        let (w, h) = self.size(rotation_and_flip.rotation());
        proof {
            assert((placement.rotation as int) % 2 == (rotation_and_flip.index() / 2) % 2);
        }
        if w > PUZZLE_WIDTH || placement.x as usize > PUZZLE_WIDTH - w || h > PUZZLE_HEIGHT
            || placement.y as usize > PUZZLE_HEIGHT - h {
            return None;
        }
        let mask = self.masks[rotation_and_flip.code() as usize];
        Some(mask.shifted(placement.x as isize, placement.y as isize))
    }

    /// The sides of the box after `rotation` quarter turns.
    pub fn size(&self, rotation: u8) -> (r: (usize, usize))
        ensures
            r.0 == self@.size(rotation as int).0,
            r.1 == self@.size(rotation as int).1,
    {
        let is_odd_rotation = rotation % 2 == 1;
        if is_odd_rotation {
            (self.height, self.width)
        } else {
            (self.width, self.height)
        }
    }

    /// The cells of the piece in the given orientation, its box in the top
    /// left corner of the board, to be handed out in ascending index order.
    pub fn relative_offset_iter(&self, rotation: u8, flipped: bool) -> (r: BoardMaskIter)
        ensures
            r@ == cells_in_order(
                self@.offsets[(rotation % 4) * 2 + if flipped {
                    1int
                } else {
                    0int
                }],
            ),
    {
        let rotation_and_flip = RotationAndFlip::new(rotation, flipped);
        let base_mask = self.masks[rotation_and_flip.code() as usize];
        base_mask.iter_covered()
    }
}

/// The placements of one piece that cover one cell, handed out one by one.
pub struct PiecePositions {
    piece: Piece,
    remaining_relative_positions: BoardMaskIter,
    flipped: bool,
    rotation: u8,
    cover_x: u8,
    cover_y: u8,
}

impl View for PiecePositions {
    type V = Seq<Placement>;

    /// The placements still to come, in the order in which they come.
    closed spec fn view(&self) -> Seq<Placement> {
        if self.rotation >= 4 {
            Seq::empty()
        } else {
            Shape::anchors(
                self.code(),
                self.cover_x as int,
                self.cover_y as int,
                self.remaining_relative_positions@,
            ) + self.piece@.candidates_from(
                self.code() + 1,
                self.cover_x as int,
                self.cover_y as int,
            )
        }
    }
}

impl PiecePositions {
    /// The cell to cover is on the board, and each cell of the piece that
    /// is still to come in the current orientation can lie on it.
    #[verifier::type_invariant]
    pub closed spec fn wf(self) -> bool {
        &&& self.rotation <= 4
        &&& self.cover_x < 6
        &&& self.cover_y < 9
        &&& forall|k: int|
            0 <= k < self.remaining_relative_positions@.len() ==> 0 <= (
            #[trigger] self.remaining_relative_positions@[k]).0 <= self.cover_x && 0
                <= self.remaining_relative_positions@[k].1 <= self.cover_y
    }

    /// The number of the current orientation.
    closed spec fn code(self) -> int {
        self.rotation * 2 + if self.flipped {
            1int
        } else {
            0int
        }
    }

    /// The cell that the placements cover.
    pub closed spec fn cover(self) -> (int, int) {
        (self.cover_x as int, self.cover_y as int)
    }

    /// The shape of the piece that is placed.
    pub closed spec fn shape(self) -> Shape {
        self.piece@
    }

    /// Two generators that were made for the same piece and the same cell
    /// hold the same placements in the same order, and so does a generator
    /// made for them at any other time: what a fresh generator holds
    /// depends on the piece and the cell alone.
    pub proof fn lemma_fresh_generators_agree(
        self,
        other: PiecePositions,
        shape: Shape,
        cx: int,
        cy: int,
    )
        requires
            self@ == shape.candidates(cx, cy),
            other@ == shape.candidates(cx, cy),
        ensures
            self@ == other@,
            self@.len() == other@.len(),
            forall|k: int| 0 <= k < self@.len() ==> self@[k] == other@[k],
    {
    }

    /// No more placements are to come than there are orientations and
    /// cells: at most 432.
    pub proof fn lemma_pending_bound(self)
        requires
            self.wf(),
        ensures
            self@.len() <= 432,
    {
        self.remaining_relative_positions.lemma_pending();
        if self.rotation < 4 {
            self.piece@.lemma_candidates_bound(
                self.code() + 1,
                self.cover_x as int,
                self.cover_y as int,
            );
        }
    }

    /// The cells of the piece in the given orientation that can lie on
    /// `(cover_x, cover_y)` while the piece stays on the board.
    fn board_mask_for_rotation_and_flip(
        piece: &Piece,
        rotation_and_flip: RotationAndFlip,
        cover_x: u8,
        cover_y: u8,
    ) -> (mask: BoardMask)
        requires
            cover_x < 6,
            cover_y < 9,
        ensures
            mask@ == piece@.coverable(rotation_and_flip.index(), cover_x as int, cover_y as int),
            mask.wf(),
    {
        proof {
            use_type_invariant(piece);
        }
        let base = piece.masks[rotation_and_flip.code() as usize];
        let (w, h) = piece.size(rotation_and_flip.rotation());
        let ghost want = piece@.coverable(
            rotation_and_flip.index(),
            cover_x as int,
            cover_y as int,
        );
        if w > PUZZLE_WIDTH || h > PUZZLE_HEIGHT {
            // The piece is larger than the board in this orientation.
            let none = BoardMask::new();
            proof {
                assert(none@ =~= want);
            }
            return none;
        }
        // Moving the cells up and to the left and back again drops the cells
        // of the piece that cannot lie on the cell to cover, because the
        // piece would then reach past the right or the lower edge.
        let shift_x = (cover_x as usize + w).saturating_sub(PUZZLE_WIDTH) as isize;
        let shift_y = (cover_y as usize + h).saturating_sub(PUZZLE_HEIGHT) as isize;
        let low = base.shifted(-shift_x, -shift_y).shifted(shift_x, shift_y);
        // Moving them down and to the right and back drops those for which
        // the piece would reach past the left or the upper edge.
        let back_x = (PUZZLE_WIDTH - cover_x as usize - 1) as isize;
        let back_y = (PUZZLE_HEIGHT - cover_y as usize - 1) as isize;
        let mask = low.shifted(back_x, back_y).shifted(-back_x, -back_y);
        proof {
            lemma_shift_round_trip(base@, -shift_x as int, -shift_y as int);
            assert(-(-shift_x as int) == shift_x as int && -(-shift_y as int) == shift_y as int);
            lemma_shift_round_trip(low@, back_x as int, back_y as int);
            let code = rotation_and_flip.index();
            assert forall|d: (int, int)| mask@.contains(d) == want.contains(d) by {
                if base@.contains(d) {
                    assert(piece@.offsets[code].contains((d.0, d.1)));
                }
            }
            assert(mask@ =~= want);
        }
        mask
    }

    /// The placements of `piece` that cover the cell `(cover_x, cover_y)`.
    pub fn new(piece: &Piece, cover_x: u8, cover_y: u8) -> (r: Self)
        requires
            cover_x < 6,
            cover_y < 9,
        ensures
            r@ == piece@.candidates(cover_x as int, cover_y as int),
            r.cover() == (cover_x as int, cover_y as int),
            r.shape() == piece@,
            r.wf(),
    {
        let rotation: u8 = 0;
        let flipped = false;
        let first = Self::board_mask_for_rotation_and_flip(
            piece,
            RotationAndFlip::new(rotation, flipped),
            cover_x,
            cover_y,
        );
        let remaining = first.iter_covered();
        proof {
            lemma_cells_from_contents(first@, 0);
        }
        Self {
            piece: *piece,
            remaining_relative_positions: remaining,
            flipped,
            rotation,
            cover_x,
            cover_y,
        }
    }

    /// Hands out the next placement that covers `(x, y)`, the cell that the
    /// generator was made for.
    pub fn next_covering(&mut self, x: u8, y: u8) -> (r: Option<Placement>)
        requires
            old(self).cover() == (x as int, y as int),
        ensures
            old(self)@.len() == 0 ==> r is None && final(self)@.len() == 0,
            old(self)@.len() > 0 ==> r == Some(old(self)@[0]) && final(self)@ == old(self)@.skip(1),
            final(self).cover() == old(self).cover(),
            final(self).shape() == old(self).shape(),
            final(self).wf(),
    {
        proof {
            use_type_invariant(&*self);
        }
        if self.rotation >= 4 {
            return None;
        }
        loop
            invariant
                self.wf(),
                self.rotation < 4,
                self@ == old(self)@,
                self.cover() == old(self).cover(),
                self.cover() == (x as int, y as int),
                self.shape() == old(self).shape(),
            decreases 8 - self.code(),
        {
            let ghost before = *self;
            let ghost offsets = self.remaining_relative_positions@;
            let mut remaining = self.remaining_relative_positions;
            if let Some((dx, dy)) = remaining.next() {
                proof {
                    assert forall|k: int| 0 <= k < remaining@.len() implies 0 <= (
                    #[trigger] remaining@[k]).0 <= self.cover_x && 0 <= remaining@[k].1
                        <= self.cover_y by {
                        assert(remaining@[k] == offsets[k + 1]);
                    }
                }
                self.remaining_relative_positions = remaining;
                proof {
                    let rest = self.piece@.candidates_from(self.code() + 1, x as int, y as int);
                    let head = Shape::anchors(self.code(), x as int, y as int, offsets);
                    let tail = Shape::anchors(self.code(), x as int, y as int, offsets.skip(1));
                    assert(head.len() > 0);
                    assert((head + rest).skip(1) =~= tail + rest);
                    assert(offsets[0].0 == dx && offsets[0].1 == dy);
                }
                return Some(
                    Placement { x: x - dx, y: y - dy, flipped: self.flipped, rotation: self.rotation },
                );
            }
            proof {
                assert(Shape::anchors(self.code(), x as int, y as int, offsets) =~= Seq::empty());
                assert(before@ =~= self.piece@.candidates_from(
                    before.code() + 1,
                    x as int,
                    y as int,
                ));
            }
            let flipped = !self.flipped;
            let rotation = if flipped {
                self.rotation
            } else {
                // Both mirror images were tried: turn the piece on.
                self.rotation + 1
            };
            if rotation >= 4 {
                self.flipped = flipped;
                self.rotation = rotation;
                return None;
            }
            let next = Self::board_mask_for_rotation_and_flip(
                &self.piece,
                RotationAndFlip::new(rotation, flipped),
                x,
                y,
            );
            let remaining = next.iter_covered();
            proof {
                lemma_cells_from_contents(next@, 0);
            }
            self.flipped = flipped;
            self.rotation = rotation;
            self.remaining_relative_positions = remaining;
        }
    }
}

/// The rows of the piece with index `idx` as it is drawn, from the top.
pub open spec fn shape_rows(idx: int) -> Seq<Seq<bool>> {
    if idx == 0 {
        seq![
            seq![true, true, false],
            seq![false, true, false],
            seq![true, true, true],
        ]
    } else if idx == 1 {
        seq![
            seq![true, false, false],
            seq![true, false, false],
            seq![true, true, true],
            seq![true, false, false],
        ]
    } else if idx == 2 {
        seq![
            seq![true, true, true],
            seq![true, false, false],
            seq![true, false, false],
            seq![true, false, false],
        ]
    } else if idx == 3 {
        seq![
            seq![false, true],
            seq![true, true],
            seq![false, true],
            seq![false, true],
            seq![false, true],
        ]
    } else if idx == 4 {
        seq![
            seq![true, false],
            seq![true, true],
            seq![false, true],
            seq![false, true],
        ]
    } else if idx == 5 {
        seq![
            seq![false, true],
            seq![false, true],
            seq![false, true],
            seq![false, true],
            seq![true, true],
        ]
    } else if idx == 6 {
        seq![
            seq![false, true],
            seq![false, true],
            seq![false, true],
            seq![true, true],
        ]
    } else if idx == 7 {
        seq![
            seq![false, true],
            seq![true, true],
            seq![true, true],
        ]
    } else {
        seq![
            seq![true, true, false, false],
            seq![false, true, true, true],
            seq![false, true, false, false],
        ]
    }
}

/// The grid of the piece with index `idx`.
pub open spec fn catalog_grid(idx: int) -> Grid {
    Grid::from_rows(shape_rows(idx))
}

/// The shape of the piece with index `idx`.
pub open spec fn catalog_shape(idx: int) -> Shape {
    shape_of(catalog_grid(idx))
}

/// The cells that the piece with index `idx` covers at the placement, none
/// if there is no such piece or if it does not stay on the board there.
pub open spec fn piece_cells(idx: int, p: Placement) -> Option<Set<(int, int)>> {
    if 0 <= idx < 9 {
        catalog_shape(idx).placed(p)
    } else {
        None
    }
}

/// A small index is one of the numbers below its bound.
proof fn lemma_row_index(i: int, n: int)
    requires
        0 <= i < n <= 5,
    ensures
        i == 0 || i == 1 || i == 2 || i == 3 || i == 4,
{
}

/// The grids of the catalog are well formed.
pub proof fn lemma_catalog_wf(idx: int)
    requires
        0 <= idx < 9,
    ensures
        catalog_grid(idx).wf(),
        catalog_shape(idx).wf(),
        1 <= catalog_grid(idx).width <= 5,
        1 <= catalog_grid(idx).height <= 5,
{
    let g = catalog_grid(idx);
    let rows = shape_rows(idx);
    assert forall|x: int, y: int| #[trigger] g.cells.contains((x, y)) implies 0 <= x < g.width && 0
        <= y < g.height by {
        lemma_row_index(y, rows.len() as int);
    }
    lemma_shape_of_wf(g);
}

/// The first piece:
///
///     [][]
///       []
///     [][][]
fn shape_0() -> (r: Piece)
    ensures
        r@ == catalog_shape(0),
        r.wf(),
{
    let mask = [
        [true, true, false],
        [false, true, false],
        [true, true, true],
    ];
    proof {
        let rows = shape_rows(0);
        assert(rows.len() == 3);
        assert forall|c: (int, int)| grid_of(mask).cells.contains(c) == catalog_grid(0).cells.contains(
            c,
        ) by {
            if 0 <= c.1 < 3 && 0 <= c.0 < 3 {
                lemma_row_index(c.1, 3);
                lemma_row_index(c.0, 3);
            }
        }
        assert(grid_of(mask) =~= catalog_grid(0));
    }
    Piece::with_mask(mask)
}

/// The second piece:
///
///     []
///     []
///     [][][]
///     []
fn shape_1() -> (r: Piece)
    ensures
        r@ == catalog_shape(1),
        r.wf(),
{
    let mask = [
        [true, false, false],
        [true, false, false],
        [true, true, true],
        [true, false, false],
    ];
    proof {
        let rows = shape_rows(1);
        assert(rows.len() == 4);
        assert forall|c: (int, int)| grid_of(mask).cells.contains(c) == catalog_grid(1).cells.contains(
            c,
        ) by {
            if 0 <= c.1 < 4 && 0 <= c.0 < 3 {
                lemma_row_index(c.1, 4);
                lemma_row_index(c.0, 3);
            }
        }
        assert(grid_of(mask) =~= catalog_grid(1));
    }
    Piece::with_mask(mask)
}

/// The third piece:
///
///     [][][]
///     []
///     []
///     []
fn shape_2() -> (r: Piece)
    ensures
        r@ == catalog_shape(2),
        r.wf(),
{
    let mask = [
        [true, true, true],
        [true, false, false],
        [true, false, false],
        [true, false, false],
    ];
    proof {
        let rows = shape_rows(2);
        assert(rows.len() == 4);
        assert forall|c: (int, int)| grid_of(mask).cells.contains(c) == catalog_grid(2).cells.contains(
            c,
        ) by {
            if 0 <= c.1 < 4 && 0 <= c.0 < 3 {
                lemma_row_index(c.1, 4);
                lemma_row_index(c.0, 3);
            }
        }
        assert(grid_of(mask) =~= catalog_grid(2));
    }
    Piece::with_mask(mask)
}

/// The fourth piece:
///
///       []
///     [][]
///       []
///       []
///       []
fn shape_3() -> (r: Piece)
    ensures
        r@ == catalog_shape(3),
        r.wf(),
{
    let mask = [
        [false, true],
        [true, true],
        [false, true],
        [false, true],
        [false, true],
    ];
    proof {
        let rows = shape_rows(3);
        assert(rows.len() == 5);
        assert forall|c: (int, int)| grid_of(mask).cells.contains(c) == catalog_grid(3).cells.contains(
            c,
        ) by {
            if 0 <= c.1 < 5 && 0 <= c.0 < 2 {
                lemma_row_index(c.1, 5);
                lemma_row_index(c.0, 2);
            }
        }
        assert(grid_of(mask) =~= catalog_grid(3));
    }
    Piece::with_mask(mask)
}

/// The fifth piece:
///
///     []
///     [][]
///       []
///       []
fn shape_4() -> (r: Piece)
    ensures
        r@ == catalog_shape(4),
        r.wf(),
{
    let mask = [
        [true, false],
        [true, true],
        [false, true],
        [false, true],
    ];
    proof {
        let rows = shape_rows(4);
        assert(rows.len() == 4);
        assert forall|c: (int, int)| grid_of(mask).cells.contains(c) == catalog_grid(4).cells.contains(
            c,
        ) by {
            if 0 <= c.1 < 4 && 0 <= c.0 < 2 {
                lemma_row_index(c.1, 4);
                lemma_row_index(c.0, 2);
            }
        }
        assert(grid_of(mask) =~= catalog_grid(4));
    }
    Piece::with_mask(mask)
}

/// The sixth piece:
///
///       []
///       []
///       []
///       []
///     [][]
fn shape_5() -> (r: Piece)
    ensures
        r@ == catalog_shape(5),
        r.wf(),
{
    let mask = [
        [false, true],
        [false, true],
        [false, true],
        [false, true],
        [true, true],
    ];
    proof {
        let rows = shape_rows(5);
        assert(rows.len() == 5);
        assert forall|c: (int, int)| grid_of(mask).cells.contains(c) == catalog_grid(5).cells.contains(
            c,
        ) by {
            if 0 <= c.1 < 5 && 0 <= c.0 < 2 {
                lemma_row_index(c.1, 5);
                lemma_row_index(c.0, 2);
            }
        }
        assert(grid_of(mask) =~= catalog_grid(5));
    }
    Piece::with_mask(mask)
}

/// The seventh piece:
///
///       []
///       []
///       []
///     [][]
fn shape_6() -> (r: Piece)
    ensures
        r@ == catalog_shape(6),
        r.wf(),
{
    let mask = [
        [false, true],
        [false, true],
        [false, true],
        [true, true],
    ];
    proof {
        let rows = shape_rows(6);
        assert(rows.len() == 4);
        assert forall|c: (int, int)| grid_of(mask).cells.contains(c) == catalog_grid(6).cells.contains(
            c,
        ) by {
            if 0 <= c.1 < 4 && 0 <= c.0 < 2 {
                lemma_row_index(c.1, 4);
                lemma_row_index(c.0, 2);
            }
        }
        assert(grid_of(mask) =~= catalog_grid(6));
    }
    Piece::with_mask(mask)
}

/// The eighth piece:
///
///       []
///     [][]
///     [][]
fn shape_7() -> (r: Piece)
    ensures
        r@ == catalog_shape(7),
        r.wf(),
{
    let mask = [
        [false, true],
        [true, true],
        [true, true],
    ];
    proof {
        let rows = shape_rows(7);
        assert(rows.len() == 3);
        assert forall|c: (int, int)| grid_of(mask).cells.contains(c) == catalog_grid(7).cells.contains(
            c,
        ) by {
            if 0 <= c.1 < 3 && 0 <= c.0 < 2 {
                lemma_row_index(c.1, 3);
                lemma_row_index(c.0, 2);
            }
        }
        assert(grid_of(mask) =~= catalog_grid(7));
    }
    Piece::with_mask(mask)
}

/// The ninth piece:
///
///     [][]
///       [][][]
///       []
fn shape_8() -> (r: Piece)
    ensures
        r@ == catalog_shape(8),
        r.wf(),
{
    let mask = [
        [true, true, false, false],
        [false, true, true, true],
        [false, true, false, false],
    ];
    proof {
        let rows = shape_rows(8);
        assert(rows.len() == 3);
        assert forall|c: (int, int)| grid_of(mask).cells.contains(c) == catalog_grid(8).cells.contains(
            c,
        ) by {
            if 0 <= c.1 < 3 && 0 <= c.0 < 4 {
                lemma_row_index(c.1, 3);
                lemma_row_index(c.0, 4);
            }
        }
        assert(grid_of(mask) =~= catalog_grid(8));
    }
    Piece::with_mask(mask)
}

/// The nine pieces of the puzzle, in the order of their indexes.
pub fn pieces() -> (all: [Piece; 9])
    ensures
        forall|idx: int| 0 <= idx < 9 ==> (#[trigger] all[idx])@ == catalog_shape(idx),
{
    [
        shape_0(),
        shape_1(),
        shape_2(),
        shape_3(),
        shape_4(),
        shape_5(),
        shape_6(),
        shape_7(),
        shape_8(),
    ]
}

/// The piece with the given index, none from 9 on.
pub fn piece(piece_idx: usize) -> (r: Option<Piece>)
    ensures
        r is Some <==> piece_idx < 9,
        r matches Some(p) ==> p@ == catalog_shape(piece_idx as int) && p.wf(),
{
    match piece_idx {
        0 => Some(shape_0()),
        1 => Some(shape_1()),
        2 => Some(shape_2()),
        3 => Some(shape_3()),
        4 => Some(shape_4()),
        5 => Some(shape_5()),
        6 => Some(shape_6()),
        7 => Some(shape_7()),
        8 => Some(shape_8()),
        _ => None,
    }
}

/// The mask of the piece with the given index at the placement, none if
/// there is no such piece or if it does not stay on the board there.
pub fn mask_for_piece(piece_idx: usize, placement: Placement) -> (r: Option<BoardMask>)
    ensures
        r is Some <==> piece_cells(piece_idx as int, placement) is Some,
        r matches Some(m) ==> Some(m@) == piece_cells(piece_idx as int, placement) && m.wf(),
{
    match piece(piece_idx) {
        Some(piece) => piece.mask(placement),
        None => None,
    }
}

} // verus!
