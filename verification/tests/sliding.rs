use game2048::sliding::{
    calculate_row_left_to_right_slide, invert_row, invert_tiles, row_to_tiles,
    slide_row_with_score, tiles_to_row,
};

#[test]
fn test_row_tiles_row_conversion() {
    let cases: Vec<u16> = vec![0x1234, 0, 0xFFFF, 0x8000, 0x8001];

    for case in cases {
        assert_eq!(tiles_to_row(row_to_tiles(case)), case)
    }
}

#[test]
fn test_row_to_tiles() {
    let cases: Vec<(u16, [u8; 4])> = vec![
        (0x1234, [4, 3, 2, 1]),
        (0, [0, 0, 0, 0]),
        (0xFFFF, [15, 15, 15, 15]),
        (0x8000, [0, 0, 0, 8]),
        (0x8001, [1, 0, 0, 8]),
    ];

    for (case, expected) in cases {
        assert_eq!(row_to_tiles(case), expected)
    }
}

#[test]
fn test_tiles_to_row() {
    let cases = vec![
        ([1, 2, 3, 4], 0x4321),
        ([0, 0, 0, 0], 0),
        ([15, 15, 15, 15], 0xFFFF),
        ([0, 0, 0, 8], 0x8000),
        ([1, 0, 0, 8], 0x8001),
    ];

    for (case, expected) in cases {
        assert_eq!(tiles_to_row(case), expected)
    }
}

#[test]
fn test_invert_row() {
    let cases: Vec<(u16, u16)> = vec![
        (0x1234, 0x4321),
        (0, 0),
        (0xFFFF, 0xFFFF),
        (0x8000, 0x0008),
        (0x8001, 0x1008),
    ];

    for (case, expected) in cases {
        assert_eq!(invert_row(case), expected)
    }
}

#[test]
fn test_invert_tiles() {
    let cases: Vec<([u8; 4], [u8; 4])> = vec![
        ([1, 2, 3, 4], [4, 3, 2, 1]),
        ([0, 0, 0, 0], [0, 0, 0, 0]),
        ([15, 15, 15, 15], [15, 15, 15, 15]),
        ([0, 0, 0, 8], [8, 0, 0, 0]),
        ([1, 0, 0, 8], [8, 0, 0, 1]),
    ];

    for (case, expected) in cases {
        assert_eq!(invert_tiles(case), expected)
    }
}

#[test]
fn test_left_to_right_slide_some_cases() {
    let cases: Vec<([u8; 4], [u8; 4])> = vec![
        // basic sliding
        ([2, 0, 0, 0], [0, 0, 0, 2]),
        ([0, 2, 0, 0], [0, 0, 0, 2]),
        ([0, 0, 2, 0], [0, 0, 0, 2]),
        ([0, 0, 0, 2], [0, 0, 0, 2]),
        // multiple tiles
        ([2, 1, 0, 0], [0, 0, 2, 1]),
        ([2, 0, 1, 0], [0, 0, 2, 1]),
        ([0, 0, 1, 2], [0, 0, 1, 2]),
        ([1, 0, 2, 0], [0, 0, 1, 2]),
        ([1, 3, 5, 0], [0, 1, 3, 5]),
        ([1, 0, 3, 5], [0, 1, 3, 5]),
        ([0, 1, 3, 5], [0, 1, 3, 5]),
        ([5, 4, 3, 1], [5, 4, 3, 1]),
        // with merging
        ([1, 0, 0, 1], [0, 0, 0, 2]),
        ([1, 0, 1, 0], [0, 0, 0, 2]),
        ([1, 1, 0, 0], [0, 0, 0, 2]),
        ([2, 1, 1, 0], [0, 0, 2, 2]),
        ([2, 1, 0, 1], [0, 0, 2, 2]),
        ([2, 1, 1, 2], [0, 2, 2, 2]),
        ([1, 1, 1, 1], [0, 0, 2, 2]),
        ([2, 2, 1, 1], [0, 0, 3, 2]),
        ([1, 1, 4, 3], [0, 2, 4, 3]),
    ];

    for (case, expected) in cases {
        let result = calculate_row_left_to_right_slide(tiles_to_row(case));
        let result_tiles = row_to_tiles(result);
        assert_eq!(
            result_tiles, expected,
            "case: {:?} led to {:?}, when {:?} was expected",
            case, result_tiles, expected
        );
    }
}

#[test]
fn row_slide_scores_the_created_tiles() {
    // 2+2 -> 4 and 4+4 -> 8: 12 points.
    let slid = slide_row_with_score(tiles_to_row([2, 2, 1, 1]));
    assert_eq!(row_to_tiles(slid.result_row), [0, 0, 3, 2]);
    assert_eq!(slid.score, 12);
    // No merge: no points.
    let slid = slide_row_with_score(tiles_to_row([1, 0, 2, 0]));
    assert_eq!(slid.score, 0);
    // Four equal tiles merge into two.
    let slid = slide_row_with_score(tiles_to_row([3, 3, 3, 3]));
    assert_eq!(row_to_tiles(slid.result_row), [0, 0, 4, 4]);
    assert_eq!(slid.score, 32);
}

#[test]
fn row_slide_of_two_largest_tiles_spills() {
    // Two tiles of exponent 15 merge into exponent 16, which does not fit in
    // 4 bits: the tile is lost from the row, 65536 points are counted.
    let slid = slide_row_with_score(tiles_to_row([0, 0, 15, 15]));
    assert_eq!(slid.result_row, 0);
    assert_eq!(slid.score, 65536);
    let slid = slide_row_with_score(tiles_to_row([15, 15, 15, 15]));
    assert_eq!(row_to_tiles(slid.result_row), [0, 0, 0, 1]);
    assert_eq!(slid.score, 131072);
}

#[test]
fn row_conversions_round_trip_and_invert_twice() {
    for row in [0u16, 1, 0x1234, 0xABCD, 0xFFFF, 0x0F0F] {
        assert_eq!(tiles_to_row(row_to_tiles(row)), row);
        assert_eq!(invert_row(invert_row(row)), row);
    }
    let tiles = [3u8, 0, 15, 7];
    assert_eq!(row_to_tiles(tiles_to_row(tiles)), tiles);
    assert_eq!(invert_tiles(invert_tiles(tiles)), tiles);
}

#[test]
fn tiles_to_row_spills_oversized_tile() {
    // A tile of 16 or more spills into the next position.
    assert_eq!(tiles_to_row([16, 0, 0, 0]), 0x0010);
}
