use calendar_puzzle::solver::{
    mask_for_piece, piece, pieces, BoardMask, Piece, PiecePositions, Placement, RotationAndFlip,
    NUM_PIECES,
};

fn at(x: u8, y: u8, rotation: u8, flipped: bool) -> Placement {
    Placement { x, y, rotation, flipped }
}

fn mask_of(cells: &[(usize, usize)]) -> BoardMask {
    let mut mask = BoardMask::new();
    for &(x, y) in cells {
        mask.set_covered(x, y, true);
    }
    mask
}

fn offsets(piece: &Piece, rotation: u8, flipped: bool) -> Vec<(u8, u8)> {
    let mut iter = piece.relative_offset_iter(rotation, flipped);
    let mut out = Vec::new();
    while let Some(cell) = iter.next() {
        out.push(cell);
    }
    out
}

fn drain(piece: &Piece, x: u8, y: u8) -> Vec<Placement> {
    let mut generator = PiecePositions::new(piece, x, y);
    let mut out = Vec::new();
    while let Some(placement) = generator.next_covering(x, y) {
        out.push(placement);
    }
    assert_eq!(generator.next_covering(x, y), None);
    out
}

#[test]
fn orientations_are_numbered_by_turns_then_mirror() {
    assert_eq!(RotationAndFlip::NUM, 8);
    let all = RotationAndFlip::iter_all();
    assert_eq!(all.len(), 8);
    for (k, orientation) in all.iter().enumerate() {
        assert_eq!(orientation.code() as usize, k);
        assert_eq!(orientation.rotation() as usize, k / 2);
        assert_eq!(orientation.flipped(), k % 2 == 1);
    }
    assert_eq!(RotationAndFlip::new(0, false).code(), 0);
    assert_eq!(RotationAndFlip::new(0, true).code(), 1);
    assert_eq!(RotationAndFlip::new(3, true).code(), 7);
    assert_eq!(RotationAndFlip::new(4, false).code(), 0);
    assert_eq!(RotationAndFlip::new(7, true).code(), 7);
    assert_eq!(RotationAndFlip::new(255, false), RotationAndFlip::new(3, false));
    assert_eq!(at(1, 2, 6, true).rotation_and_flip(), RotationAndFlip::new(2, true));
}

#[test]
fn catalog_holds_nine_pieces_of_51_cells() {
    assert_eq!(NUM_PIECES, 9);
    let all = pieces();
    assert_eq!(all.len(), 9);
    let sizes = [(3, 3), (3, 4), (3, 4), (2, 5), (2, 4), (2, 5), (2, 4), (2, 3), (4, 3)];
    let counts = [6, 6, 6, 6, 5, 6, 5, 5, 6];
    let mut total = 0;
    for idx in 0..9 {
        assert!(all[idx] == piece(idx).unwrap());
        assert_eq!(all[idx].size(0), sizes[idx]);
        assert_eq!(all[idx].size(1), (sizes[idx].1, sizes[idx].0));
        assert_eq!(all[idx].size(2), sizes[idx]);
        assert_eq!(all[idx].size(3), (sizes[idx].1, sizes[idx].0));
        assert_eq!(all[idx].size(5), (sizes[idx].1, sizes[idx].0));
        for rotation in 0..4 {
            for flipped in [false, true] {
                assert_eq!(offsets(&all[idx], rotation, flipped).len(), counts[idx]);
            }
        }
        total += counts[idx];
    }
    assert_eq!(total, 51);
    assert!(piece(9).is_none());
    assert!(piece(usize::MAX).is_none());
}

#[test]
fn orientations_of_the_first_piece() {
    let first = piece(0).unwrap();
    let masks: [u64; 8] = [0x7083, 0x7086, 0x51c4, 0x41c5, 0x6087, 0x3087, 0x11c5, 0x51c1];
    for code in 0..8u8 {
        let placement = at(0, 0, code / 2, code % 2 == 1);
        assert_eq!(first.mask(placement).unwrap().bits(), masks[code as usize]);
    }
    assert_eq!(
        offsets(&first, 0, false),
        vec![(0, 0), (1, 0), (1, 1), (0, 2), (1, 2), (2, 2)]
    );
    assert_eq!(
        offsets(&first, 1, false),
        vec![(2, 0), (0, 1), (1, 1), (2, 1), (0, 2), (2, 2)]
    );
}

#[test]
fn orientations_of_the_eighth_piece() {
    let eighth = piece(7).unwrap();
    let masks: [u64; 8] = [0x30c2, 0x30c1, 0x187, 0x1c6, 0x10c3, 0x20c3, 0x1c3, 0xc7];
    for code in 0..8u8 {
        let placement = at(0, 0, code / 2, code % 2 == 1);
        assert_eq!(eighth.mask(placement).unwrap().bits(), masks[code as usize]);
    }
    assert_eq!(offsets(&eighth, 0, false), vec![(1, 0), (0, 1), (1, 1), (0, 2), (1, 2)]);
    assert_eq!(offsets(&eighth, 0, true), vec![(0, 0), (0, 1), (1, 1), (0, 2), (1, 2)]);
    assert_eq!(offsets(&eighth, 1, false), vec![(0, 0), (1, 0), (2, 0), (1, 1), (2, 1)]);
}

#[test]
fn four_quarter_turns_give_the_same_cells() {
    for idx in 0..9 {
        let piece = piece(idx).unwrap();
        for rotation in 0..4u8 {
            for flipped in [false, true] {
                assert_eq!(
                    offsets(&piece, rotation, flipped),
                    offsets(&piece, rotation + 4, flipped)
                );
                assert_eq!(
                    piece.mask(at(1, 2, rotation, flipped)),
                    piece.mask(at(1, 2, rotation + 4, flipped))
                );
                assert_eq!(
                    piece.mask(at(1, 2, rotation, flipped)),
                    piece.mask(at(1, 2, rotation + 252, flipped))
                );
            }
        }
    }
}

#[test]
fn with_mask_turns_the_grid() {
    let bar = Piece::with_mask([[true, true, true]]);
    assert_eq!(bar.size(0), (3, 1));
    assert_eq!(bar.size(1), (1, 3));
    assert_eq!(offsets(&bar, 0, false), vec![(0, 0), (1, 0), (2, 0)]);
    assert_eq!(offsets(&bar, 1, false), vec![(0, 0), (0, 1), (0, 2)]);
    assert_eq!(offsets(&bar, 2, true), vec![(0, 0), (1, 0), (2, 0)]);
    let corner = Piece::with_mask([[true, false], [true, true]]);
    assert_eq!(offsets(&corner, 0, false), vec![(0, 0), (0, 1), (1, 1)]);
    assert_eq!(offsets(&corner, 0, true), vec![(1, 0), (0, 1), (1, 1)]);
    assert_eq!(offsets(&corner, 1, false), vec![(1, 0), (0, 1), (1, 1)]);
    assert_eq!(offsets(&corner, 2, false), vec![(0, 0), (1, 0), (1, 1)]);
    assert_eq!(offsets(&corner, 3, false), vec![(0, 0), (1, 0), (0, 1)]);
    assert_eq!(offsets(&corner, 1, true), vec![(0, 0), (1, 0), (1, 1)]);
}

#[test]
fn with_mask_leaves_out_what_is_off_the_board() {
    // Seven cells in a row do not fit across the board, but they fit down it.
    let long = Piece::with_mask([[true, true, true, true, true, true, true]]);
    assert_eq!(long.size(0), (7, 1));
    assert_eq!(long.mask(at(0, 0, 0, false)), None);
    assert_eq!(
        long.mask(at(2, 1, 1, false)),
        Some(mask_of(&[(2, 1), (2, 2), (2, 3), (2, 4), (2, 5), (2, 6), (2, 7)]))
    );
    assert_eq!(long.mask(at(2, 3, 1, false)), None);
    assert_eq!(drain(&long, 0, 0), vec![at(0, 0, 1, false), at(0, 0, 1, true), at(0, 0, 3, false), at(0, 0, 3, true)]);
    let nothing = Piece::with_mask::<0, 0>([]);
    assert_eq!(nothing.size(0), (0, 0));
    assert_eq!(nothing.mask(at(6, 9, 0, false)), Some(BoardMask::new()));
    assert_eq!(drain(&nothing, 2, 2), vec![]);
}

#[test]
fn mask_is_none_where_the_piece_leaves_the_board() {
    let eighth = piece(7).unwrap();
    assert_eq!(
        eighth.mask(at(4, 6, 0, false)),
        Some(mask_of(&[(5, 6), (4, 7), (5, 7), (4, 8), (5, 8)]))
    );
    assert_eq!(eighth.mask(at(5, 6, 0, false)), None);
    assert_eq!(eighth.mask(at(4, 7, 0, false)), None);
    assert_eq!(eighth.mask(at(3, 7, 1, false)), Some(mask_of(&[(3, 7), (4, 7), (5, 7), (4, 8), (5, 8)])));
    assert_eq!(eighth.mask(at(4, 7, 1, false)), None);
    assert_eq!(eighth.mask(at(255, 0, 0, false)), None);
    assert_eq!(eighth.mask(at(0, 255, 0, false)), None);
    assert_eq!(mask_for_piece(7, at(4, 6, 0, false)), eighth.mask(at(4, 6, 0, false)));
    assert_eq!(mask_for_piece(7, at(5, 6, 0, false)), None);
    assert_eq!(mask_for_piece(9, at(0, 0, 0, false)), None);
}

#[test]
fn candidates_of_the_eighth_piece_for_the_corner() {
    let eighth = piece(7).unwrap();
    let expected = vec![
        at(0, 0, 0, true),
        at(0, 0, 1, false),
        at(0, 0, 2, false),
        at(0, 0, 2, true),
        at(0, 0, 3, false),
        at(0, 0, 3, true),
    ];
    assert_eq!(drain(&eighth, 0, 0), expected);
    assert_eq!(Placement::iter_covering_coordinates(0, 0, 7), expected);
}

#[test]
fn candidates_of_the_fourth_piece_for_the_last_cell() {
    let fourth = piece(3).unwrap();
    let expected = vec![at(4, 4, 0, false), at(1, 7, 1, true), at(4, 4, 2, true), at(1, 7, 3, false)];
    assert_eq!(drain(&fourth, 5, 8), expected);
    assert_eq!(Placement::iter_covering_coordinates(5, 8, 3), expected);
}

#[test]
fn candidates_of_the_first_piece_in_the_middle() {
    let first = piece(0).unwrap();
    let list = drain(&first, 3, 4);
    assert_eq!(list.len(), 48);
    assert_eq!(
        &list[..8],
        &[
            at(3, 4, 0, false),
            at(2, 4, 0, false),
            at(2, 3, 0, false),
            at(3, 2, 0, false),
            at(2, 2, 0, false),
            at(1, 2, 0, false),
            at(2, 4, 0, true),
            at(1, 4, 0, true),
        ]
    );
    assert_eq!(list[47], at(1, 2, 3, true));
}

#[test]
fn candidates_cover_the_cell_and_miss_no_placement() {
    let counts = [48, 44, 40, 30, 36, 26, 34, 40, 44];
    for idx in 0..9 {
        let piece = piece(idx).unwrap();
        let list = drain(&piece, 2, 3);
        assert_eq!(list.len(), counts[idx]);
        for placement in &list {
            assert!(placement.rotation < 4);
            assert!(piece.mask(*placement).unwrap().is_covered(2, 3));
        }
        let mut covering = 0;
        for placement in Placement::iter_all() {
            if let Some(mask) = piece.mask(placement) {
                if mask.is_covered(2, 3) {
                    covering += 1;
                    assert!(list.contains(&placement));
                }
            }
        }
        assert_eq!(covering, list.len());
    }
}

#[test]
fn two_generators_hand_out_the_same_placements() {
    let all = pieces();
    for idx in 0..9 {
        for x in 0..6u8 {
            for y in 0..9u8 {
                let first = drain(&all[idx], x, y);
                let second = drain(&all[idx], x, y);
                assert_eq!(first, second);
                assert_eq!(first, Placement::iter_covering_coordinates(x, y, idx));
                assert_eq!(first, drain(&piece(idx).unwrap(), x, y));
            }
        }
    }
}

#[test]
fn no_candidates_for_a_cell_off_the_board_or_a_piece_that_is_none() {
    assert_eq!(Placement::iter_covering_coordinates(6, 0, 0), vec![]);
    assert_eq!(Placement::iter_covering_coordinates(0, 9, 0), vec![]);
    assert_eq!(Placement::iter_covering_coordinates(255, 255, 0), vec![]);
    assert_eq!(Placement::iter_covering_coordinates(0, 0, 9), vec![]);
    assert_eq!(Placement::iter_covering_coordinates(2, 3, usize::MAX), vec![]);
}
