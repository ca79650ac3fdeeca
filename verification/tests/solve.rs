use calendar_puzzle::solver::{
    mask_for_piece, solve, BoardMask, CellTag, GameState, Month, Placement, Solver, SolverMsg,
    TargetDate, Weekday, PUZZLE_HEIGHT, PUZZLE_WIDTH,
};

fn date(month: Month, day_of_month: i8, day_of_week: Weekday) -> TargetDate {
    TargetDate { month, day_of_month, day_of_week }
}

fn mask_of(cells: &[(usize, usize)]) -> BoardMask {
    let mut mask = BoardMask::new();
    for &(x, y) in cells {
        mask.set_covered(x, y, true);
    }
    mask
}

/// Takes the steps of a search to its end: the number of reports and the
/// last of them.
fn run(mut steps: Solver) -> (usize, Option<SolverMsg>) {
    let mut count = 0;
    let mut last = None;
    while let Some(step) = steps.next() {
        count += 1;
        last = Some(step);
    }
    assert!(steps.next().is_none());
    (count, last)
}

/// Holds a state that the search reports to what is said of every state.
fn check(state: &GameState, winning: BoardMask) {
    let pieces = state.pieces();
    let mut union = BoardMask::new();
    for idx in 0..9 {
        if let Some(placement) = pieces[idx] {
            let mask = mask_for_piece(idx, placement).unwrap();
            assert!(!mask.conflicts_with(union));
            assert!(!mask.covers_winning_mask(winning));
            union.apply(mask);
        }
    }
    assert_eq!(state.mask(), union);
}

#[test]
fn test_solve() {
    let mut steps = solve(TargetDate {
        month: Month::January,
        day_of_month: 19,
        day_of_week: Weekday::Friday,
    });
    while let Some(step) = steps.next() {
        println!("{}", step.to_string());
    }
}

#[test]
fn shift_board() {
    let mut board = BoardMask::default();
    board.set_covered(0, 0, true);
    board.set_covered(2, 1, true);
    board.set_covered(PUZZLE_WIDTH - 1, 0, true);
    board.set_covered(PUZZLE_WIDTH - 1, PUZZLE_HEIGHT - 1, true);
    let shifted = board.shifted(1, 1);

    let mut expected_board = BoardMask::default();
    expected_board.set_covered(1, 1, true);
    expected_board.set_covered(3, 2, true);
    assert_eq!(shifted.bits(), expected_board.bits());
}

#[test]
fn first_of_january_on_a_monday_is_solved() {
    let target = date(Month::January, 1, Weekday::Monday);
    let winning = target.winning_mask().unwrap();
    let (count, last) = run(solve(target));
    assert_eq!(count, 3330);
    let solution = match last {
        Some(SolverMsg::Solved(solution)) => solution,
        _ => panic!("not solved"),
    };
    assert_eq!(solution.steps, 3329);
    assert_eq!(solution.game.mask(), winning);
    assert!(solution.game.available_piece_idxes().is_empty());
    check(&solution.game, winning);
    assert!(solution.mask == solution.game.tagged_mask(winning));
    let expected = "SOLVED in 3329 steps\n\
                    [*][1][1][1][1][3]\n\
                    [7][7][7][1][3][3]\n\
                    [*][7][7][1][8][3]\n\
                    [5][5][8][8][8][3]\n\
                    [5][6][6][8][4][3]\n\
                    [5][6][2][8][4][4]\n\
                    [5][6][2][0][0][4]\n\
                    [5][6][2][*][0][4]\n\
                    [2][2][2][0][0][0]\n";
    assert_eq!(last.unwrap().to_string(), expected);
}

#[test]
fn the_24th_of_january_on_a_thursday_takes_more_steps() {
    let easy = run(solve(date(Month::January, 1, Weekday::Monday)));
    let target = date(Month::January, 24, Weekday::Thursday);
    let winning = target.winning_mask().unwrap();
    let (count, last) = run(solve(target));
    let solution = match last {
        Some(SolverMsg::Solved(solution)) => solution,
        _ => panic!("not solved"),
    };
    assert!(count > easy.0);
    assert_eq!(count, 216480);
    assert_eq!(solution.steps, 216479);
    assert_eq!(solution.game.mask(), winning);
    check(&solution.game, winning);
}

#[test]
fn other_dates_are_solved() {
    let dates = [
        date(Month::January, 19, Weekday::Friday),
        date(Month::February, 29, Weekday::Saturday),
        date(Month::June, 17, Weekday::Wednesday),
        date(Month::December, 31, Weekday::Friday),
    ];
    let counts = [21841, 3668, 7778, 14694];
    for (target, expected) in dates.iter().zip(counts) {
        let winning = target.winning_mask().unwrap();
        let (count, last) = run(solve(*target));
        assert_eq!(count, expected);
        match last {
            Some(SolverMsg::Solved(solution)) => {
                assert_eq!(solution.steps + 1, count);
                assert_eq!(solution.game.mask(), winning);
                check(&solution.game, winning);
            },
            _ => panic!("not solved"),
        }
    }
}

#[test]
fn a_day_that_the_board_does_not_show_gives_no_steps() {
    for day in [0, 32, -5, i8::MAX, i8::MIN] {
        let mut steps = solve(date(Month::February, day, Weekday::Tuesday));
        assert!(steps.next().is_none());
        assert!(steps.next().is_none());
        assert!(steps.last().is_none());
    }
}

#[test]
fn the_30th_of_february_is_a_date_of_the_board() {
    // The board shows the month, the day 30 and the weekday, so there are
    // three cells to leave free and a search to run.
    let target = date(Month::February, 30, Weekday::Tuesday);
    let winning = target.winning_mask().unwrap();
    assert_eq!(winning.bits().count_ones(), 51);
    assert!(!winning.is_covered(1, 0));
    assert!(!winning.is_covered(5, 6));
    assert!(!winning.is_covered(4, 7));
    let mut steps = solve(target);
    assert!(matches!(steps.next(), Some(SolverMsg::Unsolved(_, _))));
}

#[test]
fn the_first_step_reports_the_state_without_a_piece() {
    let target = date(Month::January, 1, Weekday::Monday);
    let winning = target.winning_mask().unwrap();
    let mut steps = solve(target);
    match steps.next() {
        Some(SolverMsg::Unsolved(state, tags)) => {
            assert!(state == GameState::default());
            assert!(tags == GameState::default().tagged_mask(winning));
            assert_eq!(tags.get(0, 0), CellTag::Winner);
            assert_eq!(tags.get(1, 0), CellTag::Uncovered);
        },
        _ => panic!("not an unsolved state"),
    }
    // The second step covers the lowest cell that is to cover, (1, 0), with
    // the first placement of the first piece that fits.
    match steps.next() {
        Some(SolverMsg::Unsolved(state, tags)) => {
            let placement = Placement { x: 1, y: 0, rotation: 0, flipped: false };
            let mut expected = [None; 9];
            expected[0] = Some(placement);
            assert_eq!(state.pieces(), expected);
            assert_eq!(state.mask(), mask_for_piece(0, placement).unwrap());
            assert_eq!(tags.get(1, 0), CellTag::Covered(0));
            let text = "UNSOLVED\n\
                        [*][0][0][ ][ ][ ]\n\
                        [ ][ ][0][ ][ ][ ]\n\
                        [*][0][0][0][ ][ ]\n\
                        [ ][ ][ ][ ][ ][ ]\n\
                        [ ][ ][ ][ ][ ][ ]\n\
                        [ ][ ][ ][ ][ ][ ]\n\
                        [ ][ ][ ][ ][ ][ ]\n\
                        [ ][ ][ ][*][ ][ ]\n\
                        [ ][ ][ ][ ][ ][ ]\n";
            assert_eq!(SolverMsg::Unsolved(state, tags).to_string(), text);
        },
        _ => panic!("not an unsolved state"),
    }
}

#[test]
fn every_reported_state_is_consistent_and_builds_on_a_reported_one() {
    let target = date(Month::January, 1, Weekday::Monday);
    let winning = target.winning_mask().unwrap();
    let mut steps = solve(target);
    let mut unsolved = 0usize;
    while let Some(step) = steps.next() {
        match step {
            SolverMsg::Unsolved(state, tags) => {
                check(&state, winning);
                assert!(state.mask() != winning);
                assert_eq!(BoardMask::from(tags), state.mask());
                assert_eq!(9 - state.available_piece_idxes().len(), state.pieces().iter().flatten().count());
                unsolved += 1;
            },
            SolverMsg::Solved(solution) => {
                check(&solution.game, winning);
                assert_eq!(solution.steps, unsolved);
            },
            SolverMsg::Impossible => panic!("impossible"),
        }
    }
    assert_eq!(unsolved, 3329);
}

#[test]
fn a_search_for_no_cells_is_solved_at_once() {
    let mut steps = Solver::create(BoardMask::new());
    match steps.next() {
        Some(SolverMsg::Solved(solution)) => {
            assert_eq!(solution.steps, 0);
            assert!(solution.game == GameState::default());
            let text = solution.mask.to_string();
            assert!(text.starts_with("[*][*][*][*][*][*]\n"));
            assert_eq!(text.matches("[*]").count(), 54);
        },
        _ => panic!("not solved"),
    }
    assert!(steps.next().is_none());
}

#[test]
fn a_search_for_the_cells_of_one_piece_places_that_piece() {
    let winning = mask_of(&[(1, 0), (0, 1), (1, 1), (0, 2), (1, 2)]);
    let mut steps = Solver::create(winning);
    assert!(matches!(steps.next(), Some(SolverMsg::Unsolved(_, _))));
    match steps.next() {
        Some(SolverMsg::Solved(solution)) => {
            assert_eq!(solution.steps, 1);
            let mut expected = [None; 9];
            expected[7] = Some(Placement { x: 0, y: 0, rotation: 0, flipped: false });
            assert_eq!(solution.game.pieces(), expected);
            assert_eq!(solution.game.mask(), winning);
        },
        _ => panic!("not solved"),
    }
    assert!(steps.next().is_none());
}

#[test]
fn a_search_that_cannot_succeed_is_impossible() {
    // No piece has the shape of four cells in a row.
    let (count, last) = run(Solver::create(mask_of(&[(0, 0), (1, 0), (2, 0), (3, 0)])));
    assert_eq!(count, 2);
    assert!(last == Some(SolverMsg::Impossible));
    assert_eq!(SolverMsg::Impossible.to_string(), "IMPOSSIBLE!!");
    // One piece fits, but a lone cell is left: the piece is placed, given
    // up again, and nothing else fits.
    let with_lone_cell = mask_of(&[(1, 0), (0, 1), (1, 1), (0, 2), (1, 2), (5, 8)]);
    let (count, last) = run(Solver::create(with_lone_cell));
    assert_eq!(count, 3);
    assert!(last == Some(SolverMsg::Impossible));
    // More cells than the pieces have.
    let (_, last) = run(Solver::create(mask_of(&[(0, 0)])));
    assert!(last == Some(SolverMsg::Impossible));
}

#[test]
fn the_whole_board_is_impossible() {
    // The pieces have 51 cells together, the board has 54.
    let mut steps = Solver::create(BoardMask::filled());
    let mut count = 0usize;
    let mut unsolved_with_all_pieces = 0usize;
    let mut last = None;
    while let Some(step) = steps.next() {
        if let SolverMsg::Unsolved(state, _) = step {
            if state.available_piece_idxes().is_empty() {
                unsolved_with_all_pieces += 1;
            }
        }
        count += 1;
        last = Some(step);
        if count > 50_000_000 {
            break;
        }
    }
    assert!(last == Some(SolverMsg::Impossible));
    assert!(unsolved_with_all_pieces > 0);
}

#[test]
fn last_runs_the_search_to_its_end() {
    let target = date(Month::January, 1, Weekday::Monday);
    let winning = target.winning_mask().unwrap();
    let mut steps = solve(target);
    let expected = run(solve(target)).1;
    let last = steps.last();
    assert!(last == expected);
    match last {
        Some(SolverMsg::Solved(solution)) => assert_eq!(solution.game.mask(), winning),
        _ => panic!("not solved"),
    }
    assert!(steps.next().is_none());
    assert!(steps.last().is_none());

    let mut started = solve(target);
    for _ in 0..100 {
        assert!(matches!(started.next(), Some(SolverMsg::Unsolved(_, _))));
    }
    assert!(started.last() == expected);

    let mut hopeless = Solver::create(mask_of(&[(0, 0)]));
    assert!(hopeless.last() == Some(SolverMsg::Impossible));
    assert!(hopeless.last().is_none());
}

#[test]
fn a_new_search_retraces_the_same_steps() {
    let target = date(Month::June, 17, Weekday::Wednesday);
    let mut first = solve(target);
    let mut second = solve(target);
    loop {
        let a = first.next();
        let b = second.next();
        assert!(a == b);
        if a.is_none() {
            break;
        }
    }
}
