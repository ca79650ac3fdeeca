//! The date to solve for, and the cells that it asks to cover.

use vstd::prelude::*;
use crate::solver::board::{
    board_labels, day_cell, label_at, lemma_label_cells, BoardLabel, Month, Weekday,
};
use crate::solver::mask::{board_cells, BoardMask};
use crate::solver::{cell_index, on_board, PUZZLE_HEIGHT, PUZZLE_WIDTH};

verus! {

/// A date as the puzzle shows it: a month, a day of the month, a weekday.
#[derive(Copy, Clone, PartialEq, Eq, Structural, Hash, Debug)]
pub struct TargetDate {
    pub month: Month,
    pub day_of_week: Weekday,
    pub day_of_month: i8,
}

impl TargetDate {
    /// Whether `label` names the month, the day or the weekday of the date.
    pub open spec fn names(self, label: BoardLabel) -> bool {
        match label {
            BoardLabel::MonthLabel(month) => month == self.month,
            BoardLabel::DayLabel(day) => day == self.day_of_month,
            BoardLabel::DayOfWeekLabel(weekday) => weekday == self.day_of_week,
            BoardLabel::Unlabeled => false,
        }
    }

    /// Whether the board has a label for each part of the date.
    pub open spec fn on_calendar(self) -> bool {
        1 <= self.day_of_month <= 31
    }

    /// The cells that a solution for this date covers: all but those whose
    /// label names a part of the date.
    pub open spec fn winning_cells(self) -> Set<(int, int)> {
        Set::new(|c: (int, int)| on_board(c.0, c.1) && !self.names(label_at(c.0, c.1)))
    }

    /// The three cells that stay free for a date on the calendar.
    pub open spec fn free_cells(self) -> Set<(int, int)> {
        set![self.month.cell(), day_cell(self.day_of_month as int), self.day_of_week.cell()]
    }

    /// For a date on the calendar the cells to cover are all cells of the
    /// board but three: the month's, the day's and the weekday's.
    pub proof fn lemma_three_free_cells(self)
        requires
            self.on_calendar(),
        ensures
            self.winning_cells() == board_cells().difference(self.free_cells()),
            self.free_cells().subset_of(board_cells()),
            self.month.cell() != day_cell(self.day_of_month as int),
            self.month.cell() != self.day_of_week.cell(),
            day_cell(self.day_of_month as int) != self.day_of_week.cell(),
    {
        let expected = board_cells().difference(self.free_cells());
        assert forall|c: (int, int)| self.winning_cells().contains(c) == expected.contains(c) by {
            if on_board(c.0, c.1) {
                lemma_label_cells(c.0, c.1);
            }
        }
        assert(self.winning_cells() =~= expected);
    }

    /// The mask of the cells to cover for this date. There is none for a day
    /// that the board does not show.
    pub fn winning_mask(&self) -> (r: Option<BoardMask>)
        ensures
            r is Some <==> self.on_calendar(),
            r matches Some(mask) ==> mask@ == self.winning_cells() && mask.wf(),
    {
        if self.day_of_month > 31 || self.day_of_month < 1 {
            return None;
        }
        let labels = board_labels();
        let mut out = BoardMask::filled();

        let mut has_month = false;
        let mut has_day_of_week = false;
        let mut has_day = false;

        let ghost month_at = cell_index(self.month.cell().0, self.month.cell().1);
        let ghost weekday_at = cell_index(self.day_of_week.cell().0, self.day_of_week.cell().1);
        let ghost day_at = cell_index(
            day_cell(self.day_of_month as int).0,
            day_cell(self.day_of_month as int).1,
        );

        let mut y: usize = 0;
        while y < PUZZLE_HEIGHT
            invariant
                y <= PUZZLE_HEIGHT,
                self.on_calendar(),
                forall|i: int, j: int| on_board(i, j) ==> labels[j][i] == #[trigger] label_at(i, j),
                month_at == cell_index(self.month.cell().0, self.month.cell().1),
                weekday_at == cell_index(self.day_of_week.cell().0, self.day_of_week.cell().1),
                day_at == cell_index(
                    day_cell(self.day_of_month as int).0,
                    day_cell(self.day_of_month as int).1,
                ),
                has_month == (month_at < y * 6),
                has_day_of_week == (weekday_at < y * 6),
                has_day == (day_at < y * 6),
                out.wf(),
                out@ == Set::new(
                    |c: (int, int)|
                        on_board(c.0, c.1) && !(cell_index(c.0, c.1) < y * 6 && self.names(
                            label_at(c.0, c.1),
                        )),
                ),
            decreases PUZZLE_HEIGHT - y,
        {
            let mut x: usize = 0;
            while x < PUZZLE_WIDTH
                invariant
                    x <= PUZZLE_WIDTH,
                    y < PUZZLE_HEIGHT,
                    self.on_calendar(),
                    forall|i: int, j: int|
                        on_board(i, j) ==> labels[j][i] == #[trigger] label_at(i, j),
                    month_at == cell_index(self.month.cell().0, self.month.cell().1),
                    weekday_at == cell_index(self.day_of_week.cell().0, self.day_of_week.cell().1),
                    day_at == cell_index(
                        day_cell(self.day_of_month as int).0,
                        day_cell(self.day_of_month as int).1,
                    ),
                    has_month == (month_at < y * 6 + x),
                    has_day_of_week == (weekday_at < y * 6 + x),
                    has_day == (day_at < y * 6 + x),
                    out.wf(),
                    out@ == Set::new(
                        |c: (int, int)|
                            on_board(c.0, c.1) && !(cell_index(c.0, c.1) < y * 6 + x && self.names(
                                label_at(c.0, c.1),
                            )),
                    ),
                decreases PUZZLE_WIDTH - x,
            {
                let label = labels[y][x];
                let ghost before = out@;
                proof {
                    lemma_label_cells(x as int, y as int);
                    assert(label == label_at(x as int, y as int));
                }
                // A label that names a part of the date is met once: the
                // board prints no label twice.
                match label {
                    BoardLabel::MonthLabel(month) => {
                        if month == self.month {
                            assert(!has_month);
                            out.set_covered(x, y, false);
                            has_month = true;
                        }
                    },
                    BoardLabel::DayOfWeekLabel(weekday) => {
                        if weekday == self.day_of_week {
                            assert(!has_day_of_week);
                            out.set_covered(x, y, false);
                            has_day_of_week = true;
                        }
                    },
                    BoardLabel::DayLabel(day) => {
                        if day == self.day_of_month {
                            assert(!has_day);
                            out.set_covered(x, y, false);
                            has_day = true;
                        }
                    },
                    BoardLabel::Unlabeled => {},
                }
                proof {
                    let here = (x as int, y as int);
                    let after = Set::new(
                        |c: (int, int)|
                            on_board(c.0, c.1) && !(cell_index(c.0, c.1) < y * 6 + x + 1
                                && self.names(label_at(c.0, c.1))),
                    );
                    assert forall|c: (int, int)| out@.contains(c) == after.contains(c) by {
                        if on_board(c.0, c.1) && cell_index(c.0, c.1) == y * 6 + x {
                            assert(c == here);
                        }
                    }
                    assert(out@ =~= after);
                }
                x += 1;
            }
            y += 1;
        }
        proof {
            assert(out@ =~= self.winning_cells());
        }
        if has_month && has_day_of_week && has_day {
            Some(out)
        } else {
            None
        }
    }

    /// The date of the day after, none after the last day of December.
    pub fn next(&self, leap_year: bool) -> (r: Option<Self>)
        ensures
            r == self.following(leap_year),
    {
        let next_weekday = self.day_of_week.next();
        match self.month.next_day(self.day_of_month, leap_year) {
            Some(next_day) => Some(
                TargetDate {
                    month: self.month,
                    day_of_month: next_day,
                    day_of_week: next_weekday,
                },
            ),
            None => match self.month.next() {
                Some(next_month) => Some(
                    TargetDate { month: next_month, day_of_month: 1, day_of_week: next_weekday },
                ),
                None => None,
            },
        }
    }

    /// The date of the day after, as `next` computes it: the weekday moves
    /// on by one; the day moves on by one within the month, and past the
    /// month's last day the first day of the month after follows.
    pub open spec fn following(self, leap_year: bool) -> Option<TargetDate> {
        if self.day_of_month < self.month.days(leap_year) {
            Some(
                TargetDate {
                    month: self.month,
                    day_of_month: (self.day_of_month + 1) as i8,
                    day_of_week: self.day_of_week.following(),
                },
            )
        } else if self.month == Month::December {
            None
        } else {
            Some(
                TargetDate {
                    month: self.month.following(),
                    day_of_month: 1,
                    day_of_week: self.day_of_week.following(),
                },
            )
        }
    }
}

/// The dates from a first one to the end of its year, one by one.
pub struct TargetDateIter {
    current: Option<TargetDate>,
    leap_year: bool,
}

impl TargetDateIter {
    /// The date that `next` hands out next, none at the end.
    pub closed spec fn current(&self) -> Option<TargetDate> {
        self.current
    }

    /// Whether the year has a 29th of February.
    pub closed spec fn leap_year(&self) -> bool {
        self.leap_year
    }

    /// The dates from `start_at` on.
    pub fn create(start_at: TargetDate, leap_year: bool) -> (r: Self)
        ensures
            r.current() == Some(start_at),
            r.leap_year() == leap_year,
    {
        Self { current: Some(start_at), leap_year }
    }

    /// Hands out the current date and moves on to the day after.
    pub fn next(&mut self) -> (r: Option<TargetDate>)
        ensures
            r == old(self).current(),
            final(self).leap_year() == old(self).leap_year(),
            final(self).current() == match old(self).current() {
                Some(date) => date.following(old(self).leap_year()),
                None => None,
            },
    {
        if let Some(current) = self.current {
            self.advance();
            Some(current)
        } else {
            None
        }
    }

    /// Bounds on the number of dates still to come: none below, the length
    /// of the year above.
    pub fn size_hint(&self) -> (r: (usize, Option<usize>))
        ensures
            r == (0usize, Some(if self.leap_year() { 366usize } else { 365usize })),
    {
        (0, Some(if self.leap_year { 366 } else { 365 }))
    }

    fn advance(&mut self)
        ensures
            final(self).leap_year() == old(self).leap_year(),
            final(self).current() == match old(self).current() {
                Some(date) => date.following(old(self).leap_year()),
                None => None,
            },
    {
        let current = if let Some(current) = self.current {
            current
        } else {
            return ;
        };
        self.current = current.next(self.leap_year);
    }
}

} // verus!
