//! Masks, tags and the reports of the search as text.

use vstd::prelude::*;
use vstd::string::StringExecFns;
use crate::solver::mask::{cell_at, BoardMask, CellTag, TaggedMask};
use crate::solver::solve::SolverMsg;
use crate::solver::{iter_coordinates, PUZZLE_HEIGHT, PUZZLE_WIDTH};

verus! {

/// The character of a digit.
pub open spec fn digit(d: int) -> char {
    if d == 0 {
        '0'
    } else if d == 1 {
        '1'
    } else if d == 2 {
        '2'
    } else if d == 3 {
        '3'
    } else if d == 4 {
        '4'
    } else if d == 5 {
        '5'
    } else if d == 6 {
        '6'
    } else if d == 7 {
        '7'
    } else if d == 8 {
        '8'
    } else {
        '9'
    }
}

/// The digits of a number in base ten, without leading zeros.
pub open spec fn decimal(n: nat) -> Seq<char>
    decreases n,
{
    if n < 10 {
        seq![digit(n as int)]
    } else {
        decimal(n / 10).push(digit((n % 10) as int))
    }
}

/// The text of a board: each cell in brackets, six cells to a line, the
/// lines parted by a line feed. `glyph` gives what stands in the brackets
/// of the cell with a given index. The text starts at the cell `from`.
pub open spec fn board_text(glyph: spec_fn(int) -> Seq<char>, from: int) -> Seq<char>
    decreases 54 - from,
{
    if from < 0 || from >= 54 {
        Seq::empty()
    } else {
        seq!['['] + glyph(from) + seq![']'] + (if from % 6 == 5 && from != 53 {
            seq!['\n']
        } else {
            Seq::empty()
        }) + board_text(glyph, from + 1)
    }
}

/// What stands for a cell of a mask: a star if it is covered, a blank if
/// it is not.
pub open spec fn mask_glyph(cells: Set<(int, int)>) -> spec_fn(int) -> Seq<char> {
    |k: int|
        if cells.contains(cell_at(k)) {
            seq!['*']
        } else {
            seq![' ']
        }
}

/// What stands for a tag: the index of the piece that covers the cell, a
/// star for a cell that stays free, a blank for a cell still to cover.
pub open spec fn tag_text(tag: CellTag) -> Seq<char> {
    match tag {
        CellTag::Winner => seq!['*'],
        CellTag::Uncovered => seq![' '],
        CellTag::Covered(piece_idx) => decimal(piece_idx as nat),
    }
}

/// What stands for each cell of a board of tags.
pub open spec fn tag_glyph(tags: TaggedMask) -> spec_fn(int) -> Seq<char> {
    |k: int| tag_text(tags.tag_at(cell_at(k).0, cell_at(k).1))
}

/// The text of a report of the search.
pub open spec fn msg_text(msg: SolverMsg) -> Seq<char> {
    match msg {
        SolverMsg::Solved(solution) => "SOLVED in "@ + decimal(solution.steps as nat) + " steps\n"@
            + board_text(tag_glyph(solution.mask), 0) + seq!['\n'],
        SolverMsg::Unsolved(_, tagged_mask) => "UNSOLVED\n"@ + board_text(
            tag_glyph(tagged_mask),
            0,
        ) + seq!['\n'],
        SolverMsg::Impossible => "IMPOSSIBLE!!"@,
    }
}

/// The digit as text.
fn digit_str(d: usize) -> (s: &'static str)
    requires
        d < 10,
    ensures
        s@ == seq![digit(d as int)],
{
    proof {
        reveal_strlit("0");
        reveal_strlit("1");
        reveal_strlit("2");
        reveal_strlit("3");
        reveal_strlit("4");
        reveal_strlit("5");
        reveal_strlit("6");
        reveal_strlit("7");
        reveal_strlit("8");
        reveal_strlit("9");
    }
    let s = match d {
        0 => "0",
        1 => "1",
        2 => "2",
        3 => "3",
        4 => "4",
        5 => "5",
        6 => "6",
        7 => "7",
        8 => "8",
        _ => "9",
    };
    assert(s@ =~= seq![digit(d as int)]);
    s
}

/// Writes a number in base ten at the end of `out`.
fn append_decimal(out: &mut String, n: usize)
    ensures
        final(out)@ == old(out)@ + decimal(n as nat),
    decreases n,
{
    if n >= 10 {
        append_decimal(out, n / 10);
    }
    out.append(digit_str(n % 10));
    proof {
        if n >= 10 {
            assert(final(out)@ =~= old(out)@ + decimal(n as nat));
        }
    }
}

/// Writes the brackets of one cell with `glyph` between them, and a line
/// feed after the last cell of each line but the last.
fn append_cell(out: &mut String, k: usize, glyph: &str)
    requires
        k < 54,
    ensures
        final(out)@ == old(out)@ + seq!['['] + glyph@ + seq![']'] + (if k % 6 == 5 && k != 53 {
            seq!['\n']
        } else {
            Seq::empty()
        }),
{
    proof {
        reveal_strlit("[");
        reveal_strlit("]");
        reveal_strlit("\n");
    }
    let x = k % PUZZLE_WIDTH;
    let y = k / PUZZLE_WIDTH;
    out.append("[");
    out.append(glyph);
    out.append("]");
    if x == PUZZLE_WIDTH - 1 && y != PUZZLE_HEIGHT - 1 {
        out.append("\n");
    }
    assert(final(out)@ =~= old(out)@ + seq!['['] + glyph@ + seq![']'] + (if k % 6 == 5 && k != 53 {
        seq!['\n']
    } else {
        Seq::empty()
    }));
}

impl BoardMask {
    /// The mask as text: a star for each covered cell.
    pub fn to_string(&self) -> (text: String)
        ensures
            text@ == board_text(mask_glyph(self@), 0),
    {
        let coordinates = iter_coordinates();
        let mut out = String::new();
        let ghost glyph = mask_glyph(self@);
        proof {
            assert(out@ + board_text(glyph, 0) =~= board_text(glyph, 0));
        }
        let mut k: usize = 0;
        while k < coordinates.len()
            invariant
                k <= 54,
                coordinates.len() == 54,
                glyph == mask_glyph(self@),
                forall|i: int|
                    0 <= i < 54 ==> #[trigger] coordinates[i] == ((i % 6) as usize, (i / 6) as usize),
                out@ + board_text(glyph, k as int) == board_text(glyph, 0),
            decreases 54 - k,
        {
            let (x, y) = coordinates[k];
            let ghost before = out@;
            proof {
                reveal_strlit("*");
                reveal_strlit(" ");
            }
            let mark = if self.is_covered(x, y) {
                "*"
            } else {
                " "
            };
            proof {
                assert(cell_at(k as int) == (x as int, y as int));
                assert(mark@ =~= glyph(k as int));
            }
            append_cell(&mut out, k, mark);
            proof {
                assert(out@ + board_text(glyph, k + 1) =~= before + board_text(glyph, k as int));
            }
            k += 1;
        }
        proof {
            assert(out@ + board_text(glyph, 54) =~= out@);
        }
        out
    }
}

impl TaggedMask {
    /// The tags as text: for each cell the index of the piece that covers
    /// it, a star if it stays free, a blank if it is still to cover.
    pub fn to_string(&self) -> (text: String)
        ensures
            text@ == board_text(tag_glyph(*self), 0),
    {
        let mut out = String::new();
        self.append_to(&mut out);
        proof {
            assert(out@ =~= board_text(tag_glyph(*self), 0));
        }
        out
    }

    /// Writes the tags at the end of `out`.
    fn append_to(&self, out: &mut String)
        ensures
            final(out)@ == old(out)@ + board_text(tag_glyph(*self), 0),
    {
        let coordinates = iter_coordinates();
        let ghost glyph = tag_glyph(*self);
        let ghost start = out@;
        proof {
            assert(out@ =~= start);
        }
        let mut k: usize = 0;
        while k < coordinates.len()
            invariant
                k <= 54,
                coordinates.len() == 54,
                glyph == tag_glyph(*self),
                forall|i: int|
                    0 <= i < 54 ==> #[trigger] coordinates[i] == ((i % 6) as usize, (i / 6) as usize),
                out@ + board_text(glyph, k as int) == start + board_text(glyph, 0),
            decreases 54 - k,
        {
            let (x, y) = coordinates[k];
            let ghost before = out@;
            let mut mark = String::new();
            proof {
                reveal_strlit("*");
                reveal_strlit(" ");
            }
            match self.get(x, y) {
                CellTag::Winner => {
                    mark.append("*");
                },
                CellTag::Uncovered => {
                    mark.append(" ");
                },
                CellTag::Covered(piece_idx) => {
                    append_decimal(&mut mark, piece_idx as usize);
                },
            }
            proof {
                assert(cell_at(k as int) == (x as int, y as int));
                assert(mark@ =~= glyph(k as int));
            }
            append_cell(out, k, mark.as_str());
            proof {
                assert(out@ + board_text(glyph, k + 1) =~= before + board_text(glyph, k as int));
            }
            k += 1;
        }
        proof {
            assert(out@ + board_text(glyph, 54) =~= out@);
        }
    }
}

impl SolverMsg {
    /// The report as text.
    pub fn to_string(&self) -> (text: String)
        ensures
            text@ == msg_text(*self),
    {
        let mut out = String::new();
        proof {
            reveal_strlit("\n");
        }
        match self {
            SolverMsg::Solved(solution) => {
                out.append("SOLVED in ");
                append_decimal(&mut out, solution.steps);
                out.append(" steps\n");
                solution.mask.append_to(&mut out);
                out.append("\n");
            },
            SolverMsg::Unsolved(_, tagged_mask) => {
                out.append("UNSOLVED\n");
                tagged_mask.append_to(&mut out);
                out.append("\n");
            },
            SolverMsg::Impossible => {
                out.append("IMPOSSIBLE!!");
            },
        }
        proof {
            assert(out@ =~= msg_text(*self));
        }
        out
    }
}

} // verus!
