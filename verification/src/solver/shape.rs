//! The geometry of a piece: a grid of cells, its mirror image and its
//! quarter turns.

use vstd::prelude::*;

verus! {

/// The outline of a piece: a box of `width` by `height` cells and the cells
/// of the box that the piece fills.
#[verifier::ext_equal]
pub struct Grid {
    pub width: int,
    pub height: int,
    pub cells: Set<(int, int)>,
}

impl Grid {
    /// Every cell lies in the box.
    pub open spec fn wf(self) -> bool {
        &&& 0 <= self.width
        &&& 0 <= self.height
        &&& forall|x: int, y: int| #[trigger]
            self.cells.contains((x, y)) ==> 0 <= x < self.width && 0 <= y < self.height
    }

    /// The grid given row by row from the top.
    pub open spec fn from_rows(rows: Seq<Seq<bool>>) -> Grid {
        Grid {
            width: if rows.len() == 0 {
                0
            } else {
                rows[0].len() as int
            },
            height: rows.len() as int,
            cells: Set::new(
                |c: (int, int)|
                    0 <= c.1 < rows.len() && 0 <= c.0 < rows[c.1].len() && rows[c.1][c.0],
            ),
        }
    }

    /// The mirror image: the columns in reverse order.
    pub open spec fn flipped(self) -> Grid {
        Grid {
            width: self.width,
            height: self.height,
            cells: Set::new(|c: (int, int)| self.cells.contains((self.width - 1 - c.0, c.1))),
        }
    }

    /// The grid after a quarter turn: the cell `(x, y)` goes to
    /// `(y, width - 1 - x)`.
    pub open spec fn rotated(self) -> Grid {
        Grid {
            width: self.height,
            height: self.width,
            cells: Set::new(|c: (int, int)| self.cells.contains((self.width - 1 - c.1, c.0))),
        }
    }

    /// The grid after `n` quarter turns.
    pub open spec fn rotated_times(self, n: nat) -> Grid
        decreases n,
    {
        if n == 0 {
            self
        } else {
            self.rotated_times((n - 1) as nat).rotated()
        }
    }

    /// The grid in one of its eight orientations: mirrored first if `flip`
    /// is set, then turned `rotation` quarter turns, counted modulo four.
    pub open spec fn oriented(self, rotation: int, flip: bool) -> Grid {
        (if flip {
            self.flipped()
        } else {
            self
        }).rotated_times((rotation % 4) as nat)
    }

    /// The mirror image of a grid lies in the same box.
    pub proof fn lemma_flipped_wf(self)
        requires
            self.wf(),
        ensures
            self.flipped().wf(),
    {
        assert forall|x: int, y: int| #[trigger]
            self.flipped().cells.contains((x, y)) implies 0 <= x < self.width && 0 <= y
            < self.height by {
            assert(self.cells.contains((self.width - 1 - x, y)));
        }
    }

    /// A turned grid lies in the turned box.
    pub proof fn lemma_rotated_wf(self)
        requires
            self.wf(),
        ensures
            self.rotated().wf(),
    {
        assert forall|x: int, y: int| #[trigger]
            self.rotated().cells.contains((x, y)) implies 0 <= x < self.height && 0 <= y
            < self.width by {
            assert(self.cells.contains((self.width - 1 - y, x)));
        }
    }

    /// After `n` quarter turns the box has its sides swapped if `n` is odd,
    /// and the grid lies in it.
    pub proof fn lemma_rotated_times_wf(self, n: nat)
        requires
            self.wf(),
        ensures
            self.rotated_times(n).wf(),
            self.rotated_times(n).width == if n % 2 == 1 {
                self.height
            } else {
                self.width
            },
            self.rotated_times(n).height == if n % 2 == 1 {
                self.width
            } else {
                self.height
            },
        decreases n,
    {
        if n > 0 {
            self.lemma_rotated_times_wf((n - 1) as nat);
            self.rotated_times((n - 1) as nat).lemma_rotated_wf();
        }
    }

    /// Each orientation of a grid lies in its box, whose sides are swapped
    /// on an odd number of quarter turns.
    pub proof fn lemma_oriented_wf(self, rotation: int, flip: bool)
        requires
            self.wf(),
        ensures
            self.oriented(rotation, flip).wf(),
            self.oriented(rotation, flip).width == if rotation % 2 == 1 {
                self.height
            } else {
                self.width
            },
            self.oriented(rotation, flip).height == if rotation % 2 == 1 {
                self.width
            } else {
                self.height
            },
    {
        self.lemma_flipped_wf();
        let base = if flip {
            self.flipped()
        } else {
            self
        };
        base.lemma_rotated_times_wf((rotation % 4) as nat);
    }

    /// Four quarter turns bring a grid back to itself.
    pub proof fn lemma_four_rotations(self)
        requires
            self.wf(),
        ensures
            self.rotated().rotated().rotated().rotated() == self,
            self.rotated_times(4) == self,
    {
        let once = self.rotated();
        let twice = once.rotated();
        let thrice = twice.rotated();
        let back = thrice.rotated();
        assert forall|c: (int, int)| back.cells.contains(c) == self.cells.contains(c) by {
            assert(back.cells.contains(c) == thrice.cells.contains((thrice.width - 1 - c.1, c.0)));
            assert(thrice.cells.contains((self.height - 1 - c.1, c.0)) == twice.cells.contains(
                (twice.width - 1 - c.0, self.height - 1 - c.1),
            ));
            assert(twice.cells.contains((self.width - 1 - c.0, self.height - 1 - c.1))
                == once.cells.contains(
                (once.width - 1 - (self.height - 1 - c.1), self.width - 1 - c.0),
            ));
            assert(once.cells.contains((c.1, self.width - 1 - c.0)) == self.cells.contains(
                (self.width - 1 - (self.width - 1 - c.0), c.1),
            ));
        }
        assert(back =~= self);
        reveal_with_fuel(Grid::rotated_times, 5);
    }

    /// Turning a grid `n + 4` times gives what turning it `n` times gives.
    pub proof fn lemma_rotations_cycle(self, n: nat)
        requires
            self.wf(),
        ensures
            self.rotated_times(n + 4) == self.rotated_times(n),
        decreases n,
    {
        if n == 0 {
            self.lemma_four_rotations();
        } else {
            self.lemma_rotations_cycle((n - 1) as nat);
            assert(self.rotated_times(n + 4) == self.rotated_times((n + 3) as nat).rotated());
        }
    }

    /// A quarter turn takes each orientation of a grid to the orientation
    /// with one turn more, and four quarter turns take it back to itself:
    /// the orientations with 0 to 3 turns are all that turning gives.
    pub proof fn lemma_orientation_turned(self, rotation: int, flip: bool)
        requires
            self.wf(),
        ensures
            self.oriented(rotation, flip).rotated() == self.oriented(rotation + 1, flip),
            self.oriented(rotation, flip).rotated_times(4) == self.oriented(rotation, flip),
            self.oriented(rotation + 4, flip) == self.oriented(rotation, flip),
    {
        self.lemma_flipped_wf();
        let base = if flip {
            self.flipped()
        } else {
            self
        };
        let turns = (rotation % 4) as nat;
        assert(base.rotated_times(turns + 1) == base.rotated_times(turns).rotated());
        if turns == 3 {
            base.lemma_four_rotations();
            assert((rotation + 1) % 4 == 0);
        } else {
            assert((rotation + 1) % 4 == turns + 1);
        }
        self.lemma_oriented_wf(rotation, flip);
        self.oriented(rotation, flip).lemma_four_rotations();
        assert((rotation + 4) % 4 == rotation % 4);
    }

    /// Mirroring a grid twice brings it back to itself.
    pub proof fn lemma_two_flips(self)
        requires
            self.wf(),
        ensures
            self.flipped().flipped() == self,
    {
        assert forall|c: (int, int)| self.flipped().flipped().cells.contains(c)
            == self.cells.contains(c) by {
            assert(self.flipped().flipped().cells.contains(c) == self.flipped().cells.contains(
                (self.width - 1 - c.0, c.1),
            ));
            assert(self.width - 1 - (self.width - 1 - c.0) == c.0);
        }
        assert(self.flipped().flipped() =~= self);
    }
}

/// The grid that an array of rows describes.
pub open spec fn grid_of<const W: usize, const H: usize>(mask: [[bool; W]; H]) -> Grid {
    Grid {
        width: W as int,
        height: H as int,
        cells: Set::new(|c: (int, int)| 0 <= c.0 < W && 0 <= c.1 < H && mask[c.1][c.0]),
    }
}

} // verus!
