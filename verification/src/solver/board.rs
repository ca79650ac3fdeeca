//! The calendar printed on the board: months, days of the month, weekdays.

use vstd::prelude::*;
use crate::solver::on_board;

verus! {

/// A month of the year.
#[derive(Copy, Clone, PartialEq, PartialOrd, Ord, Eq, Structural, Hash, Debug)]
pub enum Month {
    January,
    February,
    March,
    April,
    May,
    June,
    July,
    August,
    September,
    October,
    November,
    December,
}

/// A day of the week.
#[derive(Copy, Clone, PartialEq, PartialOrd, Ord, Eq, Structural, Hash, Debug)]
pub enum Weekday {
    Monday,
    Tuesday,
    Wednesday,
    Thursday,
    Friday,
    Saturday,
    Sunday,
}

/// What is printed on one cell of the board.
#[derive(Copy, Clone, PartialEq, Eq, Structural, Hash, Debug)]
pub enum BoardLabel {
    MonthLabel(Month),
    DayLabel(i8),
    DayOfWeekLabel(Weekday),
    Unlabeled,
}

/// The labels of the board, row by row from the top.
pub open spec fn board_rows() -> Seq<Seq<BoardLabel>> {
    seq![
        seq![
            BoardLabel::MonthLabel(Month::January),
            BoardLabel::MonthLabel(Month::February),
            BoardLabel::MonthLabel(Month::March),
            BoardLabel::MonthLabel(Month::April),
            BoardLabel::MonthLabel(Month::May),
            BoardLabel::MonthLabel(Month::June),
        ],
        seq![
            BoardLabel::MonthLabel(Month::July),
            BoardLabel::MonthLabel(Month::August),
            BoardLabel::MonthLabel(Month::September),
            BoardLabel::MonthLabel(Month::October),
            BoardLabel::MonthLabel(Month::November),
            BoardLabel::MonthLabel(Month::December),
        ],
        seq![
            BoardLabel::DayLabel(1),
            BoardLabel::DayLabel(2),
            BoardLabel::DayLabel(3),
            BoardLabel::DayLabel(4),
            BoardLabel::DayLabel(5),
            BoardLabel::DayLabel(6),
        ],
        seq![
            BoardLabel::DayLabel(7),
            BoardLabel::DayLabel(8),
            BoardLabel::DayLabel(9),
            BoardLabel::DayLabel(10),
            BoardLabel::DayLabel(11),
            BoardLabel::DayLabel(12),
        ],
        seq![
            BoardLabel::DayLabel(13),
            BoardLabel::DayLabel(14),
            BoardLabel::DayLabel(15),
            BoardLabel::DayLabel(16),
            BoardLabel::DayLabel(17),
            BoardLabel::DayLabel(18),
        ],
        seq![
            BoardLabel::DayLabel(19),
            BoardLabel::DayLabel(20),
            BoardLabel::DayLabel(21),
            BoardLabel::DayLabel(22),
            BoardLabel::DayLabel(23),
            BoardLabel::DayLabel(24),
        ],
        seq![
            BoardLabel::DayLabel(25),
            BoardLabel::DayLabel(26),
            BoardLabel::DayLabel(27),
            BoardLabel::DayLabel(28),
            BoardLabel::DayLabel(29),
            BoardLabel::DayLabel(30),
        ],
        seq![
            BoardLabel::DayLabel(31),
            BoardLabel::Unlabeled,
            BoardLabel::Unlabeled,
            BoardLabel::DayOfWeekLabel(Weekday::Monday),
            BoardLabel::DayOfWeekLabel(Weekday::Tuesday),
            BoardLabel::DayOfWeekLabel(Weekday::Wednesday),
        ],
        seq![
            BoardLabel::Unlabeled,
            BoardLabel::Unlabeled,
            BoardLabel::DayOfWeekLabel(Weekday::Thursday),
            BoardLabel::DayOfWeekLabel(Weekday::Friday),
            BoardLabel::DayOfWeekLabel(Weekday::Saturday),
            BoardLabel::DayOfWeekLabel(Weekday::Sunday),
        ],
    ]
}

/// The label of the cell `(x, y)`.
pub open spec fn label_at(x: int, y: int) -> BoardLabel {
    board_rows()[y][x]
}

/// The labels of the board: `board_labels()[y][x]` is printed on `(x, y)`.
pub fn board_labels() -> (rows: [[BoardLabel; 6]; 9])
    ensures
        forall|x: int, y: int| on_board(x, y) ==> rows[y][x] == #[trigger] label_at(x, y),
{
    [
        [
            BoardLabel::MonthLabel(Month::January),
            BoardLabel::MonthLabel(Month::February),
            BoardLabel::MonthLabel(Month::March),
            BoardLabel::MonthLabel(Month::April),
            BoardLabel::MonthLabel(Month::May),
            BoardLabel::MonthLabel(Month::June),
        ],
        [
            BoardLabel::MonthLabel(Month::July),
            BoardLabel::MonthLabel(Month::August),
            BoardLabel::MonthLabel(Month::September),
            BoardLabel::MonthLabel(Month::October),
            BoardLabel::MonthLabel(Month::November),
            BoardLabel::MonthLabel(Month::December),
        ],
        [
            BoardLabel::DayLabel(1),
            BoardLabel::DayLabel(2),
            BoardLabel::DayLabel(3),
            BoardLabel::DayLabel(4),
            BoardLabel::DayLabel(5),
            BoardLabel::DayLabel(6),
        ],
        [
            BoardLabel::DayLabel(7),
            BoardLabel::DayLabel(8),
            BoardLabel::DayLabel(9),
            BoardLabel::DayLabel(10),
            BoardLabel::DayLabel(11),
            BoardLabel::DayLabel(12),
        ],
        [
            BoardLabel::DayLabel(13),
            BoardLabel::DayLabel(14),
            BoardLabel::DayLabel(15),
            BoardLabel::DayLabel(16),
            BoardLabel::DayLabel(17),
            BoardLabel::DayLabel(18),
        ],
        [
            BoardLabel::DayLabel(19),
            BoardLabel::DayLabel(20),
            BoardLabel::DayLabel(21),
            BoardLabel::DayLabel(22),
            BoardLabel::DayLabel(23),
            BoardLabel::DayLabel(24),
        ],
        [
            BoardLabel::DayLabel(25),
            BoardLabel::DayLabel(26),
            BoardLabel::DayLabel(27),
            BoardLabel::DayLabel(28),
            BoardLabel::DayLabel(29),
            BoardLabel::DayLabel(30),
        ],
        [
            BoardLabel::DayLabel(31),
            BoardLabel::Unlabeled,
            BoardLabel::Unlabeled,
            BoardLabel::DayOfWeekLabel(Weekday::Monday),
            BoardLabel::DayOfWeekLabel(Weekday::Tuesday),
            BoardLabel::DayOfWeekLabel(Weekday::Wednesday),
        ],
        [
            BoardLabel::Unlabeled,
            BoardLabel::Unlabeled,
            BoardLabel::DayOfWeekLabel(Weekday::Thursday),
            BoardLabel::DayOfWeekLabel(Weekday::Friday),
            BoardLabel::DayOfWeekLabel(Weekday::Saturday),
            BoardLabel::DayOfWeekLabel(Weekday::Sunday),
        ],
    ]
}

impl Month {
    /// The number of the month in the year, from 1.
    pub open spec fn ordinal(self) -> int {
        match self {
            Month::January => 1,
            Month::February => 2,
            Month::March => 3,
            Month::April => 4,
            Month::May => 5,
            Month::June => 6,
            Month::July => 7,
            Month::August => 8,
            Month::September => 9,
            Month::October => 10,
            Month::November => 11,
            Month::December => 12,
        }
    }

    /// The number of days of the month.
    pub open spec fn days(self, leap_year: bool) -> int {
        match self {
            Month::February => if leap_year { 29 } else { 28 },
            Month::April | Month::June | Month::September | Month::November => 30,
            _ => 31,
        }
    }

    /// The cell on which the month is printed.
    pub open spec fn cell(self) -> (int, int) {
        ((self.ordinal() - 1) % 6, (self.ordinal() - 1) / 6)
    }

    /// The month whose number is one more, for a month before December.
    pub closed spec fn following(self) -> Month {
        choose|m: Month| m.ordinal() == self.ordinal() + 1
    }

    /// For a month before December the month after it has the next number,
    /// and it is the only month with that number.
    pub proof fn lemma_following(self)
        requires
            self != Month::December,
        ensures
            self.following().ordinal() == self.ordinal() + 1,
            forall|m: Month| m.ordinal() == self.ordinal() + 1 ==> m == self.following(),
    {
        let after = match self {
            Month::January => Month::February,
            Month::February => Month::March,
            Month::March => Month::April,
            Month::April => Month::May,
            Month::May => Month::June,
            Month::June => Month::July,
            Month::July => Month::August,
            Month::August => Month::September,
            Month::September => Month::October,
            Month::October => Month::November,
            Month::November => Month::December,
            Month::December => Month::January,
        };
        assert(after.ordinal() == self.ordinal() + 1);
    }

    /// The month after this one, none after December.
    pub fn next(&self) -> (r: Option<Month>)
        ensures
            r is None <==> *self == Month::December,
            r matches Some(m) ==> m.ordinal() == self.ordinal() + 1 && m == self.following(),
    {
        let after = match self {
            Month::January => Month::February,
            Month::February => Month::March,
            Month::March => Month::April,
            Month::April => Month::May,
            Month::May => Month::June,
            Month::June => Month::July,
            Month::July => Month::August,
            Month::August => Month::September,
            Month::September => Month::October,
            Month::October => Month::November,
            Month::November => Month::December,
            Month::December => return None,
        };
        proof {
            assert(after.ordinal() == self.ordinal() + 1);
            assert(self.following().ordinal() == after.ordinal());
        }
        Some(after)
    }

    /// The day after `day` in this month, none after the month's last day.
    pub fn next_day(&self, day: i8, leap_year: bool) -> (r: Option<i8>)
        ensures
            r == if day >= self.days(leap_year) {
                None
            } else {
                Some((day + 1) as i8)
            },
    {
        if day >= self.number_days(leap_year) {
            None
        } else {
            Some(day + 1)
        }
    }

    /// The number of days of the month.
    pub fn number_days(&self, leap_year: bool) -> (n: i8)
        ensures
            n == self.days(leap_year),
    {
        match self {
            Month::January => 31,
            Month::February => if leap_year {
                29
            } else {
                28
            },
            Month::March => 31,
            Month::April => 30,
            Month::May => 31,
            Month::June => 30,
            Month::July => 31,
            Month::August => 31,
            Month::September => 30,
            Month::October => 31,
            Month::November => 30,
            Month::December => 31,
        }
    }
}

impl Weekday {
    /// The number of the day in the week, Monday being 1.
    pub open spec fn ordinal(self) -> int {
        match self {
            Weekday::Monday => 1,
            Weekday::Tuesday => 2,
            Weekday::Wednesday => 3,
            Weekday::Thursday => 4,
            Weekday::Friday => 5,
            Weekday::Saturday => 6,
            Weekday::Sunday => 7,
        }
    }

    /// The cell on which the weekday is printed.
    pub open spec fn cell(self) -> (int, int) {
        if self.ordinal() <= 3 {
            (self.ordinal() + 2, 7)
        } else {
            (self.ordinal() - 2, 8)
        }
    }

    /// The weekday whose number is one more, and Monday for Sunday.
    pub closed spec fn following(self) -> Weekday {
        choose|w: Weekday| w.ordinal() == self.ordinal() % 7 + 1
    }

    /// The weekday after has the next number, Monday that of the first,
    /// and it is the only weekday with that number.
    pub proof fn lemma_following(self)
        ensures
            self.following().ordinal() == self.ordinal() % 7 + 1,
            forall|w: Weekday| w.ordinal() == self.ordinal() % 7 + 1 ==> w == self.following(),
    {
        let after = match self {
            Weekday::Monday => Weekday::Tuesday,
            Weekday::Tuesday => Weekday::Wednesday,
            Weekday::Wednesday => Weekday::Thursday,
            Weekday::Thursday => Weekday::Friday,
            Weekday::Friday => Weekday::Saturday,
            Weekday::Saturday => Weekday::Sunday,
            Weekday::Sunday => Weekday::Monday,
        };
        assert(after.ordinal() == self.ordinal() % 7 + 1);
    }

    /// The day after this one, Monday after Sunday.
    pub fn next(&self) -> (r: Weekday)
        ensures
            r.ordinal() == self.ordinal() % 7 + 1,
            r == self.following(),
    {
        let after = match self {
            Weekday::Sunday => Weekday::Monday,
            Weekday::Monday => Weekday::Tuesday,
            Weekday::Tuesday => Weekday::Wednesday,
            Weekday::Wednesday => Weekday::Thursday,
            Weekday::Thursday => Weekday::Friday,
            Weekday::Friday => Weekday::Saturday,
            Weekday::Saturday => Weekday::Sunday,
        };
        proof {
            assert(after.ordinal() == self.ordinal() % 7 + 1);
            assert(self.following().ordinal() == after.ordinal());
        }
        after
    }
}

/// The cell on which the day `day` of a month is printed, for 1 to 31.
pub open spec fn day_cell(day: int) -> (int, int) {
    ((day - 1) % 6, 2 + (day - 1) / 6)
}

/// Each month, each day from 1 to 31 and each weekday is printed on exactly
/// one cell of the board, and no other day is printed at all.
pub proof fn lemma_label_cells(x: int, y: int)
    requires
        on_board(x, y),
    ensures
        forall|m: Month| label_at(x, y) == BoardLabel::MonthLabel(m) <==> (x, y) == m.cell(),
        forall|w: Weekday| label_at(x, y) == BoardLabel::DayOfWeekLabel(w) <==> (x, y) == w.cell(),
        forall|d: i8|
            label_at(x, y) == BoardLabel::DayLabel(d) <==> 1 <= d <= 31 && (x, y) == day_cell(
                d as int,
            ),
{
    let rows = board_rows();
    assert(rows.len() == 9);
    let row = rows[y];
    assert(row.len() == 6);
    assert(label_at(x, y) == row[x]);
    if y == 0 {
        lemma_row_cases(row, x);
    } else if y == 1 {
        lemma_row_cases(row, x);
    } else if y == 2 {
        lemma_row_cases(row, x);
    } else if y == 3 {
        lemma_row_cases(row, x);
    } else if y == 4 {
        lemma_row_cases(row, x);
    } else if y == 5 {
        lemma_row_cases(row, x);
    } else if y == 6 {
        lemma_row_cases(row, x);
    } else if y == 7 {
        lemma_row_cases(row, x);
    } else {
        lemma_row_cases(row, x);
    }
}

/// An index into a row of six is one of six numbers.
proof fn lemma_row_cases(row: Seq<BoardLabel>, x: int)
    requires
        0 <= x < 6,
    ensures
        row[x] == row[0] || row[x] == row[1] || row[x] == row[2] || row[x] == row[3] || row[x]
            == row[4] || row[x] == row[5],
        x == 0 || x == 1 || x == 2 || x == 3 || x == 4 || x == 5,
{
}

} // verus!
