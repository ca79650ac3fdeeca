use calendar_puzzle::solver::{
    iter_coordinate_range, iter_coordinates, mask_for_piece, BoardMask, BoardMaskIter, CellTag,
    Placement, TaggedMask, PUZZLE_HEIGHT, PUZZLE_WIDTH,
};

fn mask_of(cells: &[(usize, usize)]) -> BoardMask {
    let mut mask = BoardMask::new();
    for &(x, y) in cells {
        mask.set_covered(x, y, true);
    }
    mask
}

fn cells_of(mask: BoardMask) -> Vec<(u8, u8)> {
    let mut iter = mask.iter_covered();
    let mut out = Vec::new();
    while let Some(cell) = iter.next() {
        out.push(cell);
    }
    out
}

#[test]
fn new_mask_is_empty_and_filled_is_full() {
    assert_eq!(BoardMask::new().bits(), 0);
    assert_eq!(BoardMask::default().bits(), 0);
    assert_eq!(BoardMask::filled().bits(), (1u64 << 54) - 1);
    for (x, y) in iter_coordinates() {
        assert!(!BoardMask::new().is_covered(x, y));
        assert!(BoardMask::filled().is_covered(x, y));
    }
}

#[test]
fn cell_bit_is_row_major() {
    let mut mask = BoardMask::new();
    mask.set_covered(2, 1, true);
    assert_eq!(mask.bits(), 1u64 << 8);
    mask.set_covered(5, 8, true);
    assert_eq!(mask.bits(), (1u64 << 8) | (1u64 << 53));
    assert!(mask.is_covered(2, 1));
    assert!(mask.is_covered(5, 8));
    assert!(!mask.is_covered(1, 2));
}

#[test]
fn set_covered_sets_and_clears() {
    let mut mask = BoardMask::new();
    mask.set_covered(3, 4, true);
    mask.set_covered(3, 4, true);
    assert_eq!(mask.bits(), 1u64 << 27);
    mask.set_covered(0, 0, false);
    assert_eq!(mask.bits(), 1u64 << 27);
    mask.set_covered(3, 4, false);
    assert_eq!(mask.bits(), 0);
}

#[test]
fn cells_off_the_board_are_never_covered() {
    let mut mask = BoardMask::filled();
    assert!(!mask.is_covered(PUZZLE_WIDTH, 0));
    assert!(!mask.is_covered(0, PUZZLE_HEIGHT));
    assert!(!mask.is_covered(7, 20));
    mask.set_covered(PUZZLE_WIDTH, 0, false);
    assert_eq!(mask, BoardMask::filled());
    let mut empty = BoardMask::new();
    empty.set_covered(6, 0, true);
    empty.set_covered(0, 9, true);
    empty.set_covered(100, 100, true);
    assert_eq!(empty.bits(), 0);
}

#[test]
fn shift_moves_cells_and_drops_what_leaves() {
    let board = mask_of(&[(0, 0), (5, 0), (3, 4), (5, 8)]);
    assert_eq!(board.shifted(0, 0), board);
    assert_eq!(board.shifted(1, 0), mask_of(&[(1, 0), (4, 4)]));
    assert_eq!(board.shifted(-1, 0), mask_of(&[(4, 0), (2, 4), (4, 8)]));
    assert_eq!(board.shifted(0, 1), mask_of(&[(0, 1), (5, 1), (3, 5)]));
    assert_eq!(board.shifted(0, -1), mask_of(&[(3, 3), (5, 7)]));
    assert_eq!(board.shifted(-3, -4), mask_of(&[(0, 0), (2, 4)]));
    assert_eq!(board.shifted(5, 8), mask_of(&[(5, 8)]));
    assert_eq!(board.shifted(-5, -8), mask_of(&[(0, 0)]));
}

#[test]
fn shift_does_not_wrap_rows() {
    // A cell in the last column moved right must not appear in the first
    // column of the next row, and the other way round.
    for y in 0..PUZZLE_HEIGHT {
        let last = mask_of(&[(PUZZLE_WIDTH - 1, y)]);
        let first = mask_of(&[(0, y)]);
        for dx in 1..6 {
            assert_eq!(last.shifted(dx, 0).bits(), 0);
            assert_eq!(first.shifted(-dx, 0).bits(), 0);
        }
    }
    assert_eq!(BoardMask::filled().shifted(1, 0).bits(), 0x003E_FBEF_BEFB_EFBE);
    assert_eq!(BoardMask::filled().shifted(-2, 0).bits(), 0x000F_3CF3_CF3C_F3CF);
}

#[test]
fn shift_by_the_size_of_the_board_or_more_is_empty() {
    let full = BoardMask::filled();
    assert_eq!(full.shifted(6, 0).bits(), 0);
    assert_eq!(full.shifted(-6, 0).bits(), 0);
    assert_eq!(full.shifted(0, 9).bits(), 0);
    assert_eq!(full.shifted(0, -9).bits(), 0);
    assert_eq!(full.shifted(0, 10).bits(), 0);
    assert_eq!(full.shifted(200, -300).bits(), 0);
    assert_eq!(full.shifted(isize::MAX, isize::MIN).bits(), 0);
    assert_eq!(full.shifted(5, 8), mask_of(&[(5, 8)]));
    assert_eq!(full.shifted(-5, -8), mask_of(&[(0, 0)]));
}

#[test]
fn shift_there_and_back_keeps_what_stayed_on_the_board() {
    let board = mask_of(&[(0, 0), (5, 0), (3, 4), (5, 8), (2, 7), (4, 1)]);
    for dx in -5isize..6 {
        for dy in -8isize..9 {
            let back = board.shifted(dx, dy).shifted(-dx, -dy);
            let mut expected = BoardMask::new();
            for (x, y) in iter_coordinates() {
                let moved_x = x as isize + dx;
                let moved_y = y as isize + dy;
                let stays = 0 <= moved_x && moved_x < 6 && 0 <= moved_y && moved_y < 9;
                expected.set_covered(x, y, board.is_covered(x, y) && stays);
            }
            assert_eq!(back, expected);
        }
    }
    assert_eq!(board.shifted(2, 1).shifted(-2, -1), mask_of(&[(0, 0), (3, 4), (2, 7)]));
}

#[test]
fn inverted_covers_the_rest_of_the_board() {
    let board = mask_of(&[(0, 0), (5, 8)]);
    let rest = board.inverted();
    assert_eq!(rest.bits(), ((1u64 << 54) - 1) & !1u64 & !(1u64 << 53));
    assert_eq!(rest.inverted(), board);
    assert_eq!(BoardMask::new().inverted(), BoardMask::filled());
    assert_eq!(BoardMask::filled().inverted(), BoardMask::new());
}

#[test]
fn conflicts_with_tells_shared_cells() {
    let a = mask_of(&[(0, 0), (1, 1)]);
    let b = mask_of(&[(1, 1), (2, 2)]);
    let c = mask_of(&[(2, 2), (3, 3)]);
    assert!(a.conflicts_with(b));
    assert!(b.conflicts_with(a));
    assert!(!a.conflicts_with(c));
    assert!(!a.conflicts_with(BoardMask::new()));
    assert!(!BoardMask::new().conflicts_with(BoardMask::new()));
    assert!(a.conflicts_with(a));
}

#[test]
fn covers_winning_mask_tells_overreach() {
    let winning = mask_of(&[(0, 0), (1, 0), (2, 0)]);
    assert!(!mask_of(&[(0, 0), (2, 0)]).covers_winning_mask(winning));
    assert!(!winning.covers_winning_mask(winning));
    assert!(!BoardMask::new().covers_winning_mask(winning));
    assert!(mask_of(&[(0, 0), (3, 0)]).covers_winning_mask(winning));
    assert!(BoardMask::filled().covers_winning_mask(winning));
    assert!(!BoardMask::filled().covers_winning_mask(BoardMask::filled()));
}

#[test]
fn apply_is_the_union() {
    let mut a = mask_of(&[(0, 0), (1, 1)]);
    a.apply(mask_of(&[(1, 1), (2, 2)]));
    assert_eq!(a, mask_of(&[(0, 0), (1, 1), (2, 2)]));
    a.apply(BoardMask::new());
    assert_eq!(a, mask_of(&[(0, 0), (1, 1), (2, 2)]));
}

#[test]
fn next_to_cover_is_the_lowest_open_cell() {
    let winning = BoardMask::filled();
    assert_eq!(BoardMask::new().next_to_cover(winning), Some((0, 0)));
    assert_eq!(mask_of(&[(0, 0)]).next_to_cover(winning), Some((1, 0)));
    assert_eq!(
        mask_of(&[(0, 0), (1, 0), (2, 0), (3, 0), (4, 0), (5, 0)]).next_to_cover(winning),
        Some((0, 1))
    );
    let mut all_but_last = BoardMask::filled();
    all_but_last.set_covered(5, 8, false);
    assert_eq!(all_but_last.next_to_cover(winning), Some((5, 8)));
    assert_eq!(BoardMask::filled().next_to_cover(winning), None);
    assert_eq!(BoardMask::new().next_to_cover(BoardMask::new()), None);
    // Cells that need not be covered are passed over.
    let required = mask_of(&[(4, 2), (1, 5)]);
    assert_eq!(BoardMask::new().next_to_cover(required), Some((4, 2)));
    assert_eq!(mask_of(&[(4, 2)]).next_to_cover(required), Some((1, 5)));
    assert_eq!(mask_of(&[(4, 2), (1, 5), (0, 0)]).next_to_cover(required), None);
}

#[test]
fn iter_covered_hands_out_cells_in_index_order() {
    let board = mask_of(&[(5, 8), (0, 0), (3, 4), (5, 0), (0, 1)]);
    assert_eq!(cells_of(board), vec![(0, 0), (5, 0), (0, 1), (3, 4), (5, 8)]);
    assert_eq!(cells_of(BoardMask::new()), Vec::<(u8, u8)>::new());
    assert_eq!(cells_of(BoardMask::filled()).len(), 54);
    // Each call starts anew.
    assert_eq!(cells_of(board), cells_of(board));
    let mut iter = board.iter_covered();
    let mut copy = iter;
    assert_eq!(iter.next(), Some((0, 0)));
    assert_eq!(iter.next(), Some((5, 0)));
    assert_eq!(copy.next(), Some((0, 0)));
    let mut empty = BoardMaskIter::default();
    assert_eq!(empty.next(), None);
    assert_eq!(empty.next(), None);
}

#[test]
fn compute_is_the_union_of_the_placed_pieces() {
    let at = |x: u8, y: u8| Placement { x, y, rotation: 0, flipped: false };
    let mut positions = [None; 9];
    assert_eq!(BoardMask::compute(&positions), BoardMask::new());
    positions[7] = Some(at(0, 0));
    assert_eq!(BoardMask::compute(&positions), mask_of(&[(1, 0), (0, 1), (1, 1), (0, 2), (1, 2)]));
    positions[0] = Some(at(3, 6));
    let mut expected = mask_for_piece(7, at(0, 0)).unwrap();
    expected.apply(mask_for_piece(0, at(3, 6)).unwrap());
    assert_eq!(BoardMask::compute(&positions), expected);
    // A placement that leaves the board counts for nothing.
    positions[3] = Some(at(5, 8));
    assert_eq!(BoardMask::compute(&positions), expected);
}

#[test]
fn mask_as_text() {
    let board = mask_of(&[(0, 0), (5, 0), (2, 1), (5, 8)]);
    let expected = "[*][ ][ ][ ][ ][*]\n\
                    [ ][ ][*][ ][ ][ ]\n\
                    [ ][ ][ ][ ][ ][ ]\n\
                    [ ][ ][ ][ ][ ][ ]\n\
                    [ ][ ][ ][ ][ ][ ]\n\
                    [ ][ ][ ][ ][ ][ ]\n\
                    [ ][ ][ ][ ][ ][ ]\n\
                    [ ][ ][ ][ ][ ][ ]\n\
                    [ ][ ][ ][ ][ ][*]";
    assert_eq!(board.to_string(), expected);
}

#[test]
fn tagged_mask_get_and_set() {
    let mut tags = TaggedMask::default();
    for (x, y) in iter_coordinates() {
        assert_eq!(tags.get(x, y), CellTag::Uncovered);
    }
    tags.set(2, 3, CellTag::Covered(4));
    tags.set(5, 8, CellTag::Winner);
    assert_eq!(tags.get(2, 3), CellTag::Covered(4));
    assert_eq!(tags.get(5, 8), CellTag::Winner);
    assert_eq!(tags.get(3, 2), CellTag::Uncovered);
    tags.set(2, 3, CellTag::Uncovered);
    assert_eq!(tags.get(2, 3), CellTag::Uncovered);
}

#[test]
fn mask_from_tags_covers_the_covered_cells() {
    let mut tags = TaggedMask::default();
    tags.set(2, 3, CellTag::Covered(4));
    tags.set(0, 0, CellTag::Covered(0));
    tags.set(5, 8, CellTag::Winner);
    assert_eq!(BoardMask::from(tags), mask_of(&[(0, 0), (2, 3)]));
    assert_eq!(BoardMask::from(TaggedMask::default()), BoardMask::new());
}

#[test]
fn tags_as_text() {
    let mut tags = TaggedMask::default();
    tags.set(0, 0, CellTag::Winner);
    tags.set(1, 0, CellTag::Covered(3));
    tags.set(5, 8, CellTag::Covered(8));
    tags.set(4, 8, CellTag::Covered(12));
    tags.set(3, 8, CellTag::Covered(255));
    let expected = "[*][3][ ][ ][ ][ ]\n\
                    [ ][ ][ ][ ][ ][ ]\n\
                    [ ][ ][ ][ ][ ][ ]\n\
                    [ ][ ][ ][ ][ ][ ]\n\
                    [ ][ ][ ][ ][ ][ ]\n\
                    [ ][ ][ ][ ][ ][ ]\n\
                    [ ][ ][ ][ ][ ][ ]\n\
                    [ ][ ][ ][ ][ ][ ]\n\
                    [ ][ ][ ][255][12][8]";
    assert_eq!(tags.to_string(), expected);
}

#[test]
fn coordinates_run_row_by_row() {
    let cells = iter_coordinates();
    assert_eq!(cells.len(), 54);
    assert_eq!(cells[0], (0, 0));
    assert_eq!(cells[1], (1, 0));
    assert_eq!(cells[5], (5, 0));
    assert_eq!(cells[6], (0, 1));
    assert_eq!(cells[53], (5, 8));
    for (k, &(x, y)) in cells.iter().enumerate() {
        assert_eq!(k, y * 6 + x);
    }
}

#[test]
fn coordinate_range_runs_row_by_row() {
    assert_eq!(
        iter_coordinate_range(2..4, 7..10),
        vec![(2, 7), (3, 7), (2, 8), (3, 8), (2, 9), (3, 9)]
    );
    assert_eq!(iter_coordinate_range(0..0, 0..5), vec![]);
    assert_eq!(iter_coordinate_range(0..5, 3..3), vec![]);
    assert_eq!(iter_coordinate_range(5..2, 0..2), vec![]);
    assert_eq!(iter_coordinate_range(1..2, 4..2), vec![]);
    assert_eq!(iter_coordinate_range(4..5, 1..2), vec![(4, 1)]);
}
