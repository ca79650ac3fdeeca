use calendar_puzzle::solver::{
    board_labels, iter_coordinates, BoardLabel, BoardMask, Month, TargetDate, TargetDateIter,
    Weekday,
};

const MONTHS: [Month; 12] = [
    Month::January,
    Month::February,
    Month::March,
    Month::April,
    Month::May,
    Month::June,
    Month::July,
    Month::August,
    Month::September,
    Month::October,
    Month::November,
    Month::December,
];

const WEEKDAYS: [Weekday; 7] = [
    Weekday::Monday,
    Weekday::Tuesday,
    Weekday::Wednesday,
    Weekday::Thursday,
    Weekday::Friday,
    Weekday::Saturday,
    Weekday::Sunday,
];

fn date(month: Month, day_of_month: i8, day_of_week: Weekday) -> TargetDate {
    TargetDate { month, day_of_month, day_of_week }
}

fn free_cells(mask: BoardMask) -> Vec<(usize, usize)> {
    iter_coordinates().into_iter().filter(|&(x, y)| !mask.is_covered(x, y)).collect()
}

#[test]
fn month_next_runs_through_the_year() {
    for k in 0..11 {
        assert_eq!(MONTHS[k].next(), Some(MONTHS[k + 1]));
    }
    assert_eq!(Month::December.next(), None);
}

#[test]
fn weekday_next_runs_round_the_week() {
    for k in 0..7 {
        assert_eq!(WEEKDAYS[k].next(), WEEKDAYS[(k + 1) % 7]);
    }
    assert_eq!(Weekday::Sunday.next(), Weekday::Monday);
}

#[test]
fn number_of_days_of_each_month() {
    let days = [31, 28, 31, 30, 31, 30, 31, 31, 30, 31, 30, 31];
    for k in 0..12 {
        assert_eq!(MONTHS[k].number_days(false), days[k]);
        let leap = if k == 1 { 29 } else { days[k] };
        assert_eq!(MONTHS[k].number_days(true), leap);
    }
}

#[test]
fn next_day_stops_at_the_end_of_the_month() {
    assert_eq!(Month::January.next_day(1, false), Some(2));
    assert_eq!(Month::January.next_day(30, false), Some(31));
    assert_eq!(Month::January.next_day(31, false), None);
    assert_eq!(Month::February.next_day(27, false), Some(28));
    assert_eq!(Month::February.next_day(28, false), None);
    assert_eq!(Month::February.next_day(28, true), Some(29));
    assert_eq!(Month::February.next_day(29, true), None);
    assert_eq!(Month::April.next_day(30, true), None);
    assert_eq!(Month::April.next_day(29, true), Some(30));
    // Days that the month does not have.
    assert_eq!(Month::April.next_day(31, false), None);
    assert_eq!(Month::April.next_day(127, false), None);
    assert_eq!(Month::April.next_day(0, false), Some(1));
    assert_eq!(Month::April.next_day(-128, false), Some(-127));
}

#[test]
fn labels_of_the_board() {
    let labels = board_labels();
    assert_eq!(labels[0][0], BoardLabel::MonthLabel(Month::January));
    assert_eq!(labels[0][5], BoardLabel::MonthLabel(Month::June));
    assert_eq!(labels[1][0], BoardLabel::MonthLabel(Month::July));
    assert_eq!(labels[1][5], BoardLabel::MonthLabel(Month::December));
    assert_eq!(labels[2][0], BoardLabel::DayLabel(1));
    assert_eq!(labels[5][5], BoardLabel::DayLabel(24));
    assert_eq!(labels[6][5], BoardLabel::DayLabel(30));
    assert_eq!(labels[7][0], BoardLabel::DayLabel(31));
    assert_eq!(labels[7][1], BoardLabel::Unlabeled);
    assert_eq!(labels[7][2], BoardLabel::Unlabeled);
    assert_eq!(labels[7][3], BoardLabel::DayOfWeekLabel(Weekday::Monday));
    assert_eq!(labels[7][5], BoardLabel::DayOfWeekLabel(Weekday::Wednesday));
    assert_eq!(labels[8][0], BoardLabel::Unlabeled);
    assert_eq!(labels[8][1], BoardLabel::Unlabeled);
    assert_eq!(labels[8][2], BoardLabel::DayOfWeekLabel(Weekday::Thursday));
    assert_eq!(labels[8][5], BoardLabel::DayOfWeekLabel(Weekday::Sunday));
}

#[test]
fn each_label_is_printed_once() {
    let labels = board_labels();
    let count = |wanted: BoardLabel| {
        iter_coordinates().into_iter().filter(|&(x, y)| labels[y][x] == wanted).count()
    };
    for month in MONTHS {
        assert_eq!(count(BoardLabel::MonthLabel(month)), 1);
    }
    for weekday in WEEKDAYS {
        assert_eq!(count(BoardLabel::DayOfWeekLabel(weekday)), 1);
    }
    for day in 1..=31 {
        assert_eq!(count(BoardLabel::DayLabel(day)), 1);
    }
    assert_eq!(count(BoardLabel::DayLabel(0)), 0);
    assert_eq!(count(BoardLabel::DayLabel(32)), 0);
    assert_eq!(count(BoardLabel::Unlabeled), 4);
}

#[test]
fn winning_mask_leaves_the_three_cells_of_the_date_free() {
    let mask = date(Month::January, 1, Weekday::Monday).winning_mask().unwrap();
    assert_eq!(free_cells(mask), vec![(0, 0), (0, 2), (3, 7)]);
    let mask = date(Month::January, 24, Weekday::Thursday).winning_mask().unwrap();
    assert_eq!(free_cells(mask), vec![(0, 0), (5, 5), (2, 8)]);
    let mask = date(Month::December, 31, Weekday::Sunday).winning_mask().unwrap();
    assert_eq!(free_cells(mask), vec![(5, 1), (0, 7), (5, 8)]);
    let mask = date(Month::February, 29, Weekday::Saturday).winning_mask().unwrap();
    assert_eq!(free_cells(mask), vec![(1, 0), (4, 6), (4, 8)]);
}

#[test]
fn winning_mask_has_all_cells_but_three_for_every_date() {
    let labels = board_labels();
    for month in MONTHS {
        for weekday in WEEKDAYS {
            for day in 1..=31i8 {
                let mask = date(month, day, weekday).winning_mask().unwrap();
                let free = free_cells(mask);
                assert_eq!(free.len(), 3);
                assert_eq!(mask.bits().count_ones(), 51);
                for (x, y) in free {
                    let label = labels[y][x];
                    assert!(
                        label == BoardLabel::MonthLabel(month)
                            || label == BoardLabel::DayLabel(day)
                            || label == BoardLabel::DayOfWeekLabel(weekday)
                    );
                }
            }
        }
    }
}

#[test]
fn winning_mask_fails_for_a_day_that_the_board_does_not_show() {
    assert_eq!(date(Month::January, 0, Weekday::Monday).winning_mask(), None);
    assert_eq!(date(Month::January, 32, Weekday::Monday).winning_mask(), None);
    assert_eq!(date(Month::January, -1, Weekday::Monday).winning_mask(), None);
    assert_eq!(date(Month::January, i8::MAX, Weekday::Monday).winning_mask(), None);
    assert_eq!(date(Month::January, i8::MIN, Weekday::Monday).winning_mask(), None);
    // The board shows the day 30 and the day 31 whatever the month.
    assert!(date(Month::February, 30, Weekday::Monday).winning_mask().is_some());
    assert!(date(Month::February, 31, Weekday::Monday).winning_mask().is_some());
}

#[test]
fn target_date_next_moves_on_by_a_day() {
    assert_eq!(
        date(Month::January, 1, Weekday::Monday).next(false),
        Some(date(Month::January, 2, Weekday::Tuesday))
    );
    assert_eq!(
        date(Month::January, 31, Weekday::Sunday).next(false),
        Some(date(Month::February, 1, Weekday::Monday))
    );
    assert_eq!(
        date(Month::February, 28, Weekday::Wednesday).next(false),
        Some(date(Month::March, 1, Weekday::Thursday))
    );
    assert_eq!(
        date(Month::February, 28, Weekday::Wednesday).next(true),
        Some(date(Month::February, 29, Weekday::Thursday))
    );
    assert_eq!(
        date(Month::February, 29, Weekday::Thursday).next(true),
        Some(date(Month::March, 1, Weekday::Friday))
    );
    assert_eq!(date(Month::December, 31, Weekday::Friday).next(false), None);
    assert_eq!(date(Month::December, 31, Weekday::Friday).next(true), None);
    assert_eq!(
        date(Month::December, 30, Weekday::Friday).next(true),
        Some(date(Month::December, 31, Weekday::Saturday))
    );
}

#[test]
fn target_date_iter_runs_to_the_end_of_the_year() {
    let start = date(Month::January, 1, Weekday::Monday);
    let mut iter = TargetDateIter::create(start, false);
    assert_eq!(iter.size_hint(), (0, Some(365)));
    let mut dates = Vec::new();
    while let Some(next) = iter.next() {
        dates.push(next);
    }
    assert_eq!(iter.next(), None);
    assert_eq!(dates.len(), 365);
    assert_eq!(dates[0], start);
    assert_eq!(dates[1], date(Month::January, 2, Weekday::Tuesday));
    assert_eq!(dates[31], date(Month::February, 1, Weekday::Thursday));
    assert_eq!(dates[364], date(Month::December, 31, Weekday::Monday));

    let mut leap = TargetDateIter::create(start, true);
    assert_eq!(leap.size_hint(), (0, Some(366)));
    let mut count = 0;
    let mut last = None;
    while let Some(next) = leap.next() {
        count += 1;
        last = Some(next);
    }
    assert_eq!(count, 366);
    assert_eq!(last, Some(date(Month::December, 31, Weekday::Tuesday)));

    let mut short = TargetDateIter::create(date(Month::December, 30, Weekday::Friday), false);
    assert_eq!(short.next(), Some(date(Month::December, 30, Weekday::Friday)));
    assert_eq!(short.next(), Some(date(Month::December, 31, Weekday::Saturday)));
    assert_eq!(short.next(), None);
    assert_eq!(short.next(), None);
}
