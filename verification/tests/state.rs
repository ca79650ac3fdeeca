use calendar_puzzle::solver::{
    iter_coordinates, mask_for_piece, BoardMask, CellTag, GameState, Month, Placement,
    TargetDate, Weekday,
};

fn at(x: u8, y: u8, rotation: u8, flipped: bool) -> Placement {
    Placement { x, y, rotation, flipped }
}

fn mask_of(cells: &[(usize, usize)]) -> BoardMask {
    let mut mask = BoardMask::new();
    for &(x, y) in cells {
        mask.set_covered(x, y, true);
    }
    mask
}

/// Holds the state to what is said of every state.
fn check(state: &GameState) {
    let pieces = state.pieces();
    assert_eq!(state.mask(), BoardMask::compute(&pieces));
    let mut union = BoardMask::new();
    for idx in 0..9 {
        if let Some(placement) = pieces[idx] {
            let mask = mask_for_piece(idx, placement).unwrap();
            assert!(!mask.conflicts_with(union));
            union.apply(mask);
        }
    }
    assert_eq!(state.mask(), union);
}

#[test]
fn placement_code() {
    assert_eq!(at(0, 0, 0, false).code(), Some(0));
    assert_eq!(at(0, 0, 0, true).code(), Some(1));
    assert_eq!(at(0, 0, 1, false).code(), Some(2));
    assert_eq!(at(1, 0, 0, false).code(), Some(8));
    assert_eq!(at(2, 1, 3, true).code(), Some(71));
    assert_eq!(at(2, 1, 5, true).code(), Some(67));
    assert_eq!(at(5, 8, 3, true).code(), Some(431));
    assert_eq!(at(5, 8, 255, true).code(), Some(431));
    assert_eq!(at(6, 0, 0, false).code(), None);
    assert_eq!(at(0, 9, 0, false).code(), None);
    assert_eq!(at(255, 255, 0, false).code(), None);
    assert_eq!(Placement::NUM_PLACEMENTS, 432);
}

#[test]
fn all_placements_in_the_order_of_their_codes() {
    let all = Placement::iter_all();
    assert_eq!(all.len(), Placement::NUM_PLACEMENTS);
    assert_eq!(all[0], at(0, 0, 0, false));
    assert_eq!(all[1], at(0, 0, 0, true));
    assert_eq!(all[2], at(0, 0, 1, false));
    assert_eq!(all[7], at(0, 0, 3, true));
    assert_eq!(all[8], at(1, 0, 0, false));
    assert_eq!(all[48], at(0, 1, 0, false));
    assert_eq!(all[431], at(5, 8, 3, true));
    for (k, placement) in all.iter().enumerate() {
        assert_eq!(placement.code(), Some(k));
    }
}

#[test]
fn empty_state() {
    let state = GameState::default();
    assert_eq!(state.pieces(), [None; 9]);
    assert_eq!(state.mask(), BoardMask::new());
    assert_eq!(state.available_piece_idxes(), vec![0, 1, 2, 3, 4, 5, 6, 7, 8]);
    check(&state);
}

#[test]
fn place_piece_places_moves_and_removes() {
    let winning = BoardMask::filled();
    let mut state = GameState::default();
    assert!(state.place_piece(7, Some(at(0, 0, 0, false)), winning));
    assert_eq!(state.mask(), mask_of(&[(1, 0), (0, 1), (1, 1), (0, 2), (1, 2)]));
    assert_eq!(state.pieces()[7], Some(at(0, 0, 0, false)));
    assert_eq!(state.available_piece_idxes(), vec![0, 1, 2, 3, 4, 5, 6, 8]);
    check(&state);

    // The same placement again changes nothing.
    let before = state;
    assert!(!state.place_piece(7, Some(at(0, 0, 0, false)), winning));
    assert!(state == before);

    // Move it.
    assert!(state.place_piece(7, Some(at(4, 6, 0, false)), winning));
    assert_eq!(state.mask(), mask_of(&[(5, 6), (4, 7), (5, 7), (4, 8), (5, 8)]));
    check(&state);

    // A piece may move onto cells that it covers itself.
    assert!(state.place_piece(7, Some(at(4, 6, 0, true)), winning));
    assert_eq!(state.mask(), mask_of(&[(4, 6), (4, 7), (5, 7), (4, 8), (5, 8)]));
    check(&state);

    // Take it off.
    assert!(state.place_piece(7, None, winning));
    assert_eq!(state.mask(), BoardMask::new());
    assert_eq!(state.pieces(), [None; 9]);
    check(&state);

    // Taking off a piece that is not placed changes nothing.
    assert!(!state.place_piece(7, None, winning));
    assert!(state == GameState::default());
}

#[test]
fn place_piece_refuses_what_is_not_allowed() {
    let winning = BoardMask::filled();
    let mut state = GameState::default();
    assert!(state.place_piece(7, Some(at(0, 0, 0, false)), winning));
    let before = state;

    // No such piece.
    assert!(!state.place_piece(9, Some(at(3, 3, 0, false)), winning));
    assert!(!state.place_piece(9, None, winning));
    assert!(!state.place_piece(usize::MAX, Some(at(3, 3, 0, false)), winning));
    // Off the board.
    assert!(!state.place_piece(0, Some(at(4, 0, 0, false)), winning));
    assert!(!state.place_piece(0, Some(at(0, 7, 0, false)), winning));
    // On a covered cell: the first piece at (0, 0) covers (1, 0).
    assert!(!state.place_piece(0, Some(at(0, 0, 0, false)), winning));
    // On a cell that stays free.
    let mut narrow = BoardMask::filled();
    narrow.set_covered(3, 3, false);
    assert!(!state.place_piece(0, Some(at(3, 3, 0, false)), narrow));
    // A move that is refused leaves the piece where it is.
    assert!(!state.place_piece(7, Some(at(5, 6, 0, false)), winning));
    assert!(!state.place_piece(7, Some(at(2, 3, 0, false)), narrow));
    assert!(state == before);
    check(&state);

    // Beside the covered cells it is fine.
    assert!(state.place_piece(0, Some(at(2, 0, 0, false)), winning));
    assert_eq!(state.available_piece_idxes(), vec![1, 2, 3, 4, 5, 6, 8]);
    check(&state);
}

#[test]
fn with_piece_placed_gives_a_new_state() {
    let winning = BoardMask::filled();
    let empty = GameState::default();
    let one = empty.with_piece_placed(7, at(0, 0, 0, false), winning).unwrap();
    assert!(empty == GameState::default());
    assert_eq!(one.mask(), mask_of(&[(1, 0), (0, 1), (1, 1), (0, 2), (1, 2)]));
    assert_eq!(one.pieces()[7], Some(at(0, 0, 0, false)));
    check(&one);
    let two = one.with_piece_placed(0, at(2, 0, 0, false), winning).unwrap();
    assert_eq!(two.pieces()[7], Some(at(0, 0, 0, false)));
    assert_eq!(two.pieces()[0], Some(at(2, 0, 0, false)));
    let mut expected = mask_for_piece(7, at(0, 0, 0, false)).unwrap();
    expected.apply(mask_for_piece(0, at(2, 0, 0, false)).unwrap());
    assert_eq!(two.mask(), expected);
    check(&two);
    let mut same = one;
    assert!(same.place_piece(0, Some(at(2, 0, 0, false)), winning));
    assert!(same == two);

    // Off the board, on a covered cell, on a cell that stays free, no piece.
    assert!(one.with_piece_placed(0, at(4, 0, 0, false), winning).is_none());
    assert!(one.with_piece_placed(0, at(0, 0, 0, false), winning).is_none());
    let mut narrow = BoardMask::filled();
    narrow.set_covered(3, 3, false);
    assert!(one.with_piece_placed(0, at(3, 3, 0, false), narrow).is_none());
    assert!(one.with_piece_placed(9, at(3, 3, 0, false), winning).is_none());
}

#[test]
fn tagged_mask_tells_of_each_cell() {
    let winning =
        TargetDate { month: Month::January, day_of_month: 1, day_of_week: Weekday::Monday }
            .winning_mask()
            .unwrap();
    let empty = GameState::default().tagged_mask(winning);
    for (x, y) in iter_coordinates() {
        let expected = if (x, y) == (0, 0) || (x, y) == (0, 2) || (x, y) == (3, 7) {
            CellTag::Winner
        } else {
            CellTag::Uncovered
        };
        assert_eq!(empty.get(x, y), expected);
    }
    let state = GameState::default()
        .with_piece_placed(1, at(1, 0, 1, true), winning)
        .unwrap()
        .with_piece_placed(7, at(0, 1, 1, false), winning)
        .unwrap();
    let tags = state.tagged_mask(winning);
    let expected = "[*][1][1][1][1][ ]\n\
                    [7][7][7][1][ ][ ]\n\
                    [*][7][7][1][ ][ ]\n\
                    [ ][ ][ ][ ][ ][ ]\n\
                    [ ][ ][ ][ ][ ][ ]\n\
                    [ ][ ][ ][ ][ ][ ]\n\
                    [ ][ ][ ][ ][ ][ ]\n\
                    [ ][ ][ ][*][ ][ ]\n\
                    [ ][ ][ ][ ][ ][ ]";
    assert_eq!(tags.to_string(), expected);
    assert_eq!(BoardMask::from(tags), state.mask());
}
