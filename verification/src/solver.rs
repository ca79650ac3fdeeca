//! The search engine: board masks, the piece catalog, the candidate
//! generator, game states and the step-by-step solver.

use std::ops::Range;
use vstd::prelude::*;

pub mod bits;
pub mod board;
pub mod cover;
pub mod mask;
pub mod piece;
pub mod state;
pub mod shape;
pub mod solve;
pub mod target;
pub mod text;

pub use board::{board_labels, BoardLabel, Month, Weekday};
pub use mask::{BoardMask, BoardMaskIter, CellTag, TaggedMask};
pub use piece::{mask_for_piece, piece, pieces, Piece, PiecePositions, RotationAndFlip};
pub use solve::{solve, Solution, Solver, SolverMsg};
pub use state::{GameState, Placement};
pub use target::{TargetDate, TargetDateIter};

verus! {

/// Number of columns of the board.
pub const PUZZLE_WIDTH: usize = 6;

/// Number of rows of the board.
pub const PUZZLE_HEIGHT: usize = 9;

/// Number of pieces in the catalog.
pub const NUM_PIECES: usize = 9;

/// Whether `(x, y)` names a cell of the board.
pub open spec fn on_board(x: int, y: int) -> bool {
    0 <= x < 6 && 0 <= y < 9
}

/// Row-major index of the cell `(x, y)`.
pub open spec fn cell_index(x: int, y: int) -> int {
    y * 6 + x
}

/// The cells of the board, row by row from the top and within each row
/// from the left.
pub fn iter_coordinates() -> (cells: Vec<(usize, usize)>)
    ensures
        cells.len() == 54,
        forall|k: int| 0 <= k < 54 ==> #[trigger] cells[k] == ((k % 6) as usize, (k / 6) as usize),
{
    let cells = iter_coordinate_range(0..PUZZLE_WIDTH, 0..PUZZLE_HEIGHT);
    proof {
        assert forall|k: int| 0 <= k < 54 implies #[trigger] cells[k] == (
            (k % 6) as usize,
            (k / 6) as usize,
        ) by {
            let i = k % 6;
            let j = k / 6;
            assert(cells[j * 6 + i] == ((0 + i) as usize, (0 + j) as usize));
        }
    }
    cells
}

/// The cells with a column in `x_range` and a row in `y_range`, row by row
/// and within each row by column.
pub fn iter_coordinate_range(x_range: Range<usize>, y_range: Range<usize>) -> (cells: Vec<
    (usize, usize),
>)
    requires
        span(y_range) * span(x_range) <= usize::MAX,
    ensures
        cells.len() == span(y_range) * span(x_range),
        forall|i: int, j: int|
            0 <= i < span(x_range) && 0 <= j < span(y_range) ==> #[trigger] cells[j * span(x_range)
                + i] == ((x_range.start + i) as usize, (y_range.start + j) as usize),
{
    let ghost width = span(x_range);
    let ghost height = span(y_range);
    let mut cells: Vec<(usize, usize)> = Vec::new();
    let mut y = y_range.start;
    while y < y_range.end
        invariant
            width == span(x_range),
            height == span(y_range),
            height * width <= usize::MAX,
            y_range.start <= y,
            y - y_range.start <= height,
            cells.len() == (y - y_range.start) * width,
            forall|i: int, j: int|
                0 <= i < width && 0 <= j < y - y_range.start ==> #[trigger] cells[j * width + i]
                    == ((x_range.start + i) as usize, (y_range.start + j) as usize),
        decreases y_range.end - y,
    {
        let ghost row = y - y_range.start;
        let mut x = x_range.start;
        while x < x_range.end
            invariant
                width == span(x_range),
                height == span(y_range),
                height * width <= usize::MAX,
                row == y - y_range.start,
                0 <= row < height,
                y < y_range.end,
                x_range.start <= x,
                x - x_range.start <= width,
                cells.len() == row * width + (x - x_range.start),
                forall|i: int, j: int|
                    0 <= i < width && 0 <= j <= row && (j < row || i < x - x_range.start)
                        ==> #[trigger] cells[j * width + i] == (
                        (x_range.start + i) as usize,
                        (y_range.start + j) as usize,
                    ),
            decreases x_range.end - x,
        {
            proof {
                lemma_grid_index(width, height, x - x_range.start, row);
            }
            let ghost before = cells@;
            cells.push((x, y));
            proof {
                assert forall|i: int, j: int|
                    0 <= i < width && 0 <= j <= row && (j < row || i < x + 1 - x_range.start)
                        implies #[trigger] cells[j * width + i] == (
                    (x_range.start + i) as usize,
                    (y_range.start + j) as usize,
                ) by {
                    lemma_grid_index(width, height, i, j);
                    if j == row && i == x - x_range.start {
                    } else {
                        if j < row {
                            lemma_grid_index(width, row, i, j);
                        }
                        assert(cells[j * width + i] == before[j * width + i]);
                    }
                }
            }
            x += 1;
        }
        proof {
            assert((row + 1) * width == row * width + width) by (nonlinear_arith);
        }
        y += 1;
    }
    cells
}

/// The number of values in a range.
pub open spec fn span(range: Range<usize>) -> int {
    if range.start < range.end {
        range.end - range.start
    } else {
        0
    }
}

/// The cell `(i, j)` of a grid that is `width` wide has, counted row by
/// row, an index below the number of the grid's cells.
proof fn lemma_grid_index(width: int, height: int, i: int, j: int)
    by (nonlinear_arith)
    requires
        0 <= i < width,
        0 <= j < height,
    ensures
        0 <= j * width + i < height * width,
        j * width + i < (j + 1) * width,
        (j + 1) * width <= height * width,
        j * width + width == (j + 1) * width,
{
}

} // verus!
