use game2048::board::{Board, Direction};

#[test]
fn test_empty_board() {
    let board = Board::new(0);

    for y in 0..4 {
        for x in 0..4 {
            assert_eq!(board.get(x, y), 0);
        }
    }
}

#[test]
fn test_single_tile() {
    let board = Board::new(0).with_tile(0, 0, 1);

    assert_eq!(board.get(0, 0), 2);

    for y in 0..4 {
        for x in 0..4 {
            if (x, y) != (0, 0) {
                assert_eq!(board.get(x, y), 0);
            }
        }
    }
}

#[test]
fn test_multiple_tiles() {
    let board = Board::new(0)
        .with_tile(0, 0, 1) // 2
        .with_tile(1, 1, 2) // 4
        .with_tile(2, 2, 3) // 8
        .with_tile(3, 3, 4); // 16

    assert_eq!(board.get(0, 0), 2);
    assert_eq!(board.get(1, 1), 4);
    assert_eq!(board.get(2, 2), 8);
    assert_eq!(board.get(3, 3), 16);
}

#[test]
fn test_overwrite_tile() {
    let board = Board::new(0).with_tile(2, 1, 1).with_tile(2, 1, 5);

    assert_eq!(board.get(2, 1), 32);
}

#[test]
fn test_clear_tile() {
    let board = Board::new(0).with_tile(1, 2, 4).with_tile(1, 2, 0);

    assert_eq!(board.get(1, 2), 0);
}

#[test]
fn test_index_mapping() {
    let board = Board::new(0)
        .with_tile_by_index(0, 1)
        .with_tile_by_index(5, 2)
        .with_tile_by_index(15, 3);

    assert_eq!(board.get(0, 0), 2);
    assert_eq!(board.get(1, 1), 4);
    assert_eq!(board.get(3, 3), 8);
}

#[test]
fn test_roundtrip_all_cells() {
    for i in 0..16 {
        let board = Board::new(0).with_tile_by_index(i, 7);

        assert_eq!(board.get_by_index(i), 128);
    }
}

#[test]
fn test_empty_mask_emtpy_board() {
    let board = Board::new(0);
    assert_eq!(board.empty_mask(), 0xFFFF);
}

#[test]
fn test_empty_mask_full_board() {
    let board = Board::new(0xFFFF_FFFF_FFFF_FFFF);
    assert_eq!(board.empty_mask(), 0);
}

#[test]
fn test_empty_mask_some_filled() {
    let board = Board::new(0)
        .with_tile_by_index(0, 1)
        .with_tile_by_index(5, 3);
    let mask = board.empty_mask();
    assert_eq!(mask, 0b0111_1011_1111_1111);
}

#[test]
fn test_max_tile_empty_board() {
    let board = Board::new(0);
    assert_eq!(board.max_tile(), 0);
}

#[test]
fn test_max_tile_diverse_board() {
    let board = Board::new(0)
        .with_tile(1, 2, 3)
        .with_tile(3, 0, 2)
        .with_tile(0, 0, 5)
        .with_tile(0, 1, 4);

    assert_eq!(board.max_tile(), 32)
}

#[test]
fn test_basic_slide_with_score() {
    let board = Board::new(0).with_tile(0, 0, 1).with_tile(1, 0, 1);

    let (new_board, score) = board.slide_with_score(Direction::Right).unwrap();

    let expected_board = Board::new(0).with_tile(3, 0, 2);
    assert_eq!(new_board, expected_board);
    assert_eq!(score, 4);
}

#[test]
fn test_slide_right_moves_row_into_place() {
    let board = Board::new(0).with_tile(0, 2, 1).with_tile(2, 2, 2);

    let new_board = board.slide(Direction::Right).unwrap();

    let expected_board = Board::new(0).with_tile(2, 2, 1).with_tile(3, 2, 2);
    assert_eq!(new_board, expected_board);
}

#[test]
fn test_slide_up_basic() {
    let board = Board::new(0).with_tile(1, 1, 1).with_tile(1, 3, 1);

    let (new_board, score) = board.slide_with_score(Direction::Up).unwrap();

    let expected_board = Board::new(0).with_tile(1, 0, 2);
    assert_eq!(new_board, expected_board);
    assert_eq!(score, 4);
}

#[test]
fn test_slide_down_basic() {
    let board = Board::new(0).with_tile(2, 0, 1).with_tile(2, 2, 1);

    let (new_board, score) = board.slide_with_score(Direction::Down).unwrap();

    let expected_board = Board::new(0).with_tile(2, 3, 2);
    assert_eq!(new_board, expected_board);
    assert_eq!(score, 4);
}

#[test]
fn test_slide_left_basic() {
    let board = Board::new(0).with_tile(3, 1, 1).with_tile(1, 1, 1);

    let (new_board, score) = board.slide_with_score(Direction::Left).unwrap();

    let expected_board = Board::new(0).with_tile(0, 1, 2);
    assert_eq!(new_board, expected_board);
    assert_eq!(score, 4);
}

#[test]
fn test_transpose() {
    let board = Board::new(0).with_tile(1, 3, 1);

    let transposed = board.transpose();

    assert_eq!(transposed.get(3, 1), 2);
}

#[test]
fn test_transpose_twice() {
    let board = Board::new(0)
        .with_tile(0, 0, 1)
        .with_tile(1, 2, 2)
        .with_tile(3, 1, 3);

    let transposed_twice = board.transpose().transpose();

    assert_eq!(transposed_twice, board);
}

#[test]
fn slide_that_changes_nothing_is_none() {
    // A single tile in the bottom-left corner cannot move down or left.
    let board = Board::new(0).with_tile(0, 3, 1);
    assert_eq!(board.slide(Direction::Down), None);
    assert_eq!(board.slide_with_score(Direction::Left), None);
    assert_eq!(
        board.slide(Direction::Up),
        Some(Board::new(0).with_tile(0, 0, 1))
    );
    assert_eq!(
        board.slide(Direction::Right),
        Some(Board::new(0).with_tile(3, 3, 1))
    );
}

#[test]
fn slide_down_merges_whole_column_and_scores() {
    // Column 1 holds 2, 2, 4, 4 from top to bottom.
    let board = Board::new(0)
        .with_tile(1, 0, 1)
        .with_tile(1, 1, 1)
        .with_tile(1, 2, 2)
        .with_tile(1, 3, 2);
    let (new_board, score) = board.slide_with_score(Direction::Down).unwrap();
    let expected = Board::new(0).with_tile(1, 2, 2).with_tile(1, 3, 3);
    assert_eq!(new_board, expected);
    assert_eq!(score, 4 + 8);
}

#[test]
fn sliding_keeps_the_total_tile_value() {
    let board = Board::new(0)
        .with_tile(0, 0, 1)
        .with_tile(1, 0, 1)
        .with_tile(2, 0, 2)
        .with_tile(0, 1, 3)
        .with_tile(0, 2, 3)
        .with_tile(3, 3, 5);
    let total = |b: &Board| (0..16).map(|i| b.get_by_index(i)).sum::<u32>();
    for direction in [Direction::Up, Direction::Down, Direction::Left, Direction::Right] {
        let moved = board.slide(direction).unwrap();
        assert_eq!(total(&moved), total(&board));
    }
}

#[test]
fn game_over_needs_full_board_without_equal_neighbours() {
    // A checkerboard of 2s and 4s: full, no equal neighbours.
    let mut board = Board::new(0);
    for i in 0..16u8 {
        let (x, y) = (i % 4, i / 4);
        board = board.with_tile_by_index(i, if (x + y) % 2 == 0 { 1 } else { 2 });
    }
    assert!(board.is_game_over());
    // Two equal neighbours: a merge is possible.
    let merged = board.with_tile(1, 0, 1);
    assert!(!merged.is_game_over());
    // An empty tile: a slide is possible.
    let holed = board.with_tile(2, 2, 0);
    assert!(!holed.is_game_over());
    // The empty board: nothing can move.
    assert!(Board::new(0).is_game_over());
}

#[test]
fn row_accessors_read_left_to_right() {
    let board = Board::new(0).with_tile(0, 2, 3).with_tile(3, 2, 1);
    assert_eq!(board.get_row_tiles_exponents(2), [3, 0, 0, 1]);
    assert_eq!(board.get_row_tiles(2), [8, 0, 0, 2]);
    assert_eq!(board.get_exponent(3, 2), 1);
    assert_eq!(board.get_exponent_by_index(8), 3);
}

#[test]
fn with_tile_spills_oversized_exponent() {
    // An exponent of 16 or more is OR-ed in unmasked and reaches the next tile.
    let board = Board::new(0).with_tile_by_index(0, 0x11);
    assert_eq!(board.get_exponent_by_index(0), 1);
    assert_eq!(board.get_exponent_by_index(1), 1);
}

#[test]
fn default_board_is_empty() {
    assert_eq!(Board::default(), Board::new(0));
}

fn mirror(b: &Board) -> Board {
    let mut m = Board::new(0);
    for y in 0..4u8 {
        for x in 0..4u8 {
            m = m.with_tile(3 - x, y, b.get_exponent(x, y));
        }
    }
    m
}

#[test]
fn directions_relate_by_mirroring_and_transposing() {
    let board = Board::new(0)
        .with_tile(0, 0, 1)
        .with_tile(1, 0, 1)
        .with_tile(3, 1, 2)
        .with_tile(0, 2, 3)
        .with_tile(2, 2, 3)
        .with_tile(1, 3, 4);
    let m = mirror(&board);
    let t = board.transpose();
    assert_eq!(
        board.slide_with_score(Direction::Left),
        m.slide_with_score(Direction::Right).map(|(c, s)| (mirror(&c), s))
    );
    assert_eq!(
        board.slide_with_score(Direction::Up),
        t.slide_with_score(Direction::Left).map(|(c, s)| (c.transpose(), s))
    );
    assert_eq!(
        board.slide_with_score(Direction::Down),
        t.slide_with_score(Direction::Right).map(|(c, s)| (c.transpose(), s))
    );
}
