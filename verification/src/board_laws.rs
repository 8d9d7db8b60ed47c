//! What holds of every board: transposing twice, how the four directions
//! relate through mirroring and transposing, the total value kept by a
//! slide, and when no slide can change the board.

use vstd::prelude::*;

use crate::board::{
    Board, Direction, can_slide, row_of, rows_score, slid_grid, slide_grid_left, slide_grid_right,
    slide_score, transposed,
};
use crate::sliding::{
    lemma_slide_row_empty, lemma_slide_row_keeps_value, lemma_values_sum_concat,
    lemma_values_sum_reverse, lemma_values_sum_single, merges_fit, tile_value, four_tiles,
    points_of_slide, lemma_row_tiles_pack, merge_score, occupied, lemma_slide_row_merges,
    lemma_slid_row_tiles_len, lemma_slide_row_settled, lemma_slide_row_stuck, no_equal_neighbours, slid_row_tiles,
    values_sum,
};

verus! {

/// Every tile is empty.
pub open spec fn all_empty(g: Seq<u8>) -> bool {
    forall|i: int| 0 <= i < 16 ==> #[trigger] g[i] == 0
}

/// Every tile is occupied.
pub open spec fn all_occupied(g: Seq<u8>) -> bool {
    forall|i: int| 0 <= i < 16 ==> #[trigger] g[i] != 0
}

/// Two neighbouring tiles, in a row or in a column, are equal.
pub open spec fn has_equal_neighbours(g: Seq<u8>) -> bool {
    (exists|x: int, y: int| 0 <= x < 3 && 0 <= y < 4 && #[trigger] g[x + 4 * y] == g[x + 1 + 4 * y])
        || (exists|x: int, y: int|
        0 <= x < 4 && 0 <= y < 3 && #[trigger] g[x + 4 * y] == g[x + 4 * y + 4])
}

/// No slide in any direction changes the board.
pub open spec fn no_slide_possible(g: Seq<u8>) -> bool {
    !can_slide(g, Direction::Left) && !can_slide(g, Direction::Right) && !can_slide(
        g,
        Direction::Up,
    ) && !can_slide(g, Direction::Down)
}

/// Flipping the board over its diagonal twice gives the board back.
pub proof fn lemma_transposed_twice(g: Seq<u8>)
    requires
        g.len() == 16,
    ensures
        transposed(transposed(g)) == g,
{
    assert(transposed(transposed(g)) =~= g);
}

/// Row `x` of the transposed board is column `x` of the board, top to bottom.
proof fn lemma_transposed_rows(g: Seq<u8>)
    ensures
        forall|x: int, k: int|
            0 <= x < 4 && 0 <= k < 4 ==> #[trigger] row_of(transposed(g), x)[k] == g[x + 4 * k],
{
    assert forall|x: int, k: int| 0 <= x < 4 && 0 <= k < 4 implies #[trigger] row_of(
        transposed(g),
        x,
    )[k] == g[x + 4 * k] by {
        assert((4 * x + k) % 4 == k);
        assert((4 * x + k) / 4 == x);
    }
}

/// A horizontal slide leaves the board unchanged exactly when it leaves every row unchanged.
proof fn lemma_rows_unchanged(g: Seq<u8>)
    requires
        g.len() == 16,
    ensures
        slide_grid_right(g) == g <==> (forall|r: int|
            0 <= r < 4 ==> #[trigger] slid_row_tiles(row_of(g, r)) == row_of(g, r)),
        slide_grid_left(g) == g <==> (forall|r: int|
            0 <= r < 4 ==> #[trigger] slid_row_tiles(row_of(g, r).reverse()) == row_of(
                g,
                r,
            ).reverse()),
{
    if slide_grid_right(g) == g {
        assert forall|r: int| 0 <= r < 4 implies #[trigger] slid_row_tiles(row_of(g, r))
            == row_of(g, r) by {
            assert forall|k: int| 0 <= k < 4 implies slid_row_tiles(row_of(g, r))[k] == row_of(
                g,
                r,
            )[k] by {
                assert((4 * r + k) / 4 == r);
                assert((4 * r + k) % 4 == k);
                assert(slide_grid_right(g)[4 * r + k] == g[4 * r + k]);
            }
            lemma_slid_row_tiles_len(row_of(g, r));
            assert(slid_row_tiles(row_of(g, r)) =~= row_of(g, r));
        }
    }
    if forall|r: int| 0 <= r < 4 ==> #[trigger] slid_row_tiles(row_of(g, r)) == row_of(g, r) {
        assert forall|i: int| 0 <= i < 16 implies slide_grid_right(g)[i] == g[i] by {
            assert(slid_row_tiles(row_of(g, i / 4)) == row_of(g, i / 4));
        }
        assert(slide_grid_right(g) =~= g);
    }
    if slide_grid_left(g) == g {
        assert forall|r: int| 0 <= r < 4 implies #[trigger] slid_row_tiles(
            row_of(g, r).reverse(),
        ) == row_of(g, r).reverse() by {
            assert forall|k: int| 0 <= k < 4 implies slid_row_tiles(row_of(g, r).reverse())[k]
                == row_of(g, r).reverse()[k] by {
                let i = 4 * r + 3 - k;
                assert(i / 4 == r);
                assert(i % 4 == 3 - k);
                assert(slide_grid_left(g)[i] == g[i]);
            }
            lemma_slid_row_tiles_len(row_of(g, r).reverse());
            assert(slid_row_tiles(row_of(g, r).reverse()) =~= row_of(g, r).reverse());
        }
    }
    if forall|r: int|
        0 <= r < 4 ==> #[trigger] slid_row_tiles(row_of(g, r).reverse()) == row_of(
            g,
            r,
        ).reverse() {
        assert forall|i: int| 0 <= i < 16 implies slide_grid_left(g)[i] == g[i] by {
            assert(slid_row_tiles(row_of(g, i / 4).reverse()) == row_of(g, i / 4).reverse());
        }
        assert(slide_grid_left(g) =~= g);
    }
}

/// A vertical slide leaves the board unchanged exactly when the matching
/// horizontal slide leaves the transposed board unchanged.
proof fn lemma_columns_unchanged(g: Seq<u8>)
    requires
        g.len() == 16,
    ensures
        !can_slide(g, Direction::Down) <==> slide_grid_right(transposed(g)) == transposed(g),
        !can_slide(g, Direction::Up) <==> slide_grid_left(transposed(g)) == transposed(g),
{
    let tg = transposed(g);
    lemma_transposed_twice(g);
    lemma_transposed_twice(slide_grid_right(tg));
    lemma_transposed_twice(slide_grid_left(tg));
    if transposed(slide_grid_right(tg)) == g {
        assert(slide_grid_right(tg) == transposed(g));
    }
    if transposed(slide_grid_left(tg)) == g {
        assert(slide_grid_left(tg) == transposed(g));
    }
}

/// A row that slides neither right nor left without change is all empty or all occupied.
proof fn lemma_row_uniform(t: Seq<u8>)
    requires
        t.len() == 4,
        forall|k: int| 0 <= k < 4 ==> #[trigger] t[k] < 16,
        slid_row_tiles(t) == t,
        slid_row_tiles(t.reverse()) == t.reverse(),
    ensures
        (forall|k: int| 0 <= k < 4 ==> #[trigger] t[k] == 0) || (forall|k: int|
            0 <= k < 4 ==> #[trigger] t[k] != 0),
{
    if (exists|k: int| 0 <= k < 4 && #[trigger] t[k] == 0) && (exists|k: int|
        0 <= k < 4 && #[trigger] t[k] != 0) {
        let z = choose|k: int| 0 <= k < 4 && #[trigger] t[k] == 0;
        let n = choose|k: int| 0 <= k < 4 && #[trigger] t[k] != 0;
        let r = t.reverse();
        assert(r[3 - z] == 0);
        assert(r[3 - n] != 0);
        assert forall|k: int| 0 <= k < 4 implies #[trigger] r[k] < 16 by {
            assert(r[k] == t[3 - k]);
        }
        lemma_slide_row_settled(t);
        lemma_slide_row_settled(r);
        assert(r[0] == t[3]);
    }
}

/// The tiles of a board: 16 of them, each below 16.
pub open spec fn board_tiles(g: Seq<u8>) -> bool {
    g.len() == 16 && forall|i: int| 0 <= i < 16 ==> #[trigger] g[i] < 16
}

/// Every row and every column of the board stays as it is when it slides
/// either way.
pub open spec fn lines_settled(g: Seq<u8>) -> bool {
    forall|r: int|
        #![trigger row_of(g, r)]
        #![trigger row_of(transposed(g), r)]
        0 <= r < 4 ==> {
            &&& slid_row_tiles(row_of(g, r)) == row_of(g, r)
            &&& slid_row_tiles(row_of(g, r).reverse()) == row_of(g, r).reverse()
            &&& slid_row_tiles(row_of(transposed(g), r)) == row_of(transposed(g), r)
            &&& slid_row_tiles(row_of(transposed(g), r).reverse()) == row_of(
                transposed(g),
                r,
            ).reverse()
        }
}

proof fn lemma_settled_stuck(g: Seq<u8>)
    requires
        g.len() == 16,
        lines_settled(g),
    ensures
        no_slide_possible(g),
{
    let tg = transposed(g);
    lemma_rows_unchanged(g);
    lemma_rows_unchanged(tg);
    lemma_columns_unchanged(g);
}

/// An all-empty row stays as it is when it slides either way.
proof fn lemma_empty_line(t: Seq<u8>)
    requires
        t.len() == 4,
        forall|k: int| 0 <= k < 4 ==> #[trigger] t[k] == 0,
    ensures
        slid_row_tiles(t) == t,
        slid_row_tiles(t.reverse()) == t.reverse(),
{
    assert(forall|k: int| 0 <= k < 4 ==> #[trigger] t.reverse()[k] == t[3 - k]);
    lemma_slide_row_empty(t);
    lemma_slide_row_empty(t.reverse());
}

/// A full row without equal neighbours stays as it is when it slides either way.
proof fn lemma_stuck_line(t: Seq<u8>)
    requires
        t.len() == 4,
        forall|k: int| 0 <= k < 4 ==> 0 < #[trigger] t[k] < 16,
        forall|k: int| 0 <= k < 3 ==> #[trigger] t[k] != t[k + 1],
    ensures
        slid_row_tiles(t) == t,
        slid_row_tiles(t.reverse()) == t.reverse(),
{
    let r = t.reverse();
    assert(forall|k: int| 0 <= k < 4 ==> #[trigger] r[k] == t[3 - k]);
    assert forall|k: int| 0 <= k < 3 implies #[trigger] r[k] != r[k + 1] by {
        assert(t[2 - k] != t[3 - k]);
    }
    lemma_slide_row_stuck(t);
    lemma_slide_row_stuck(r);
}

proof fn lemma_empty_stuck(g: Seq<u8>)
    requires
        board_tiles(g),
        all_empty(g),
    ensures
        no_slide_possible(g),
{
    let tg = transposed(g);
    lemma_transposed_rows(g);
    assert forall|r: int| 0 <= r < 4 implies {
        &&& slid_row_tiles(#[trigger] row_of(g, r)) == row_of(g, r)
        &&& slid_row_tiles(row_of(g, r).reverse()) == row_of(g, r).reverse()
        &&& slid_row_tiles(row_of(tg, r)) == row_of(tg, r)
        &&& slid_row_tiles(row_of(tg, r).reverse()) == row_of(tg, r).reverse()
    } by {
        assert(forall|k: int| 0 <= k < 4 ==> #[trigger] row_of(g, r)[k] == g[4 * r + k]);
        lemma_empty_line(row_of(g, r));
        lemma_empty_line(row_of(tg, r));
    }
    lemma_settled_stuck(g);
}

proof fn lemma_full_stuck(g: Seq<u8>)
    requires
        board_tiles(g),
        all_occupied(g),
        !has_equal_neighbours(g),
    ensures
        no_slide_possible(g),
{
    let tg = transposed(g);
    lemma_transposed_rows(g);
    assert forall|r: int| 0 <= r < 4 implies {
        &&& slid_row_tiles(#[trigger] row_of(g, r)) == row_of(g, r)
        &&& slid_row_tiles(row_of(g, r).reverse()) == row_of(g, r).reverse()
        &&& slid_row_tiles(row_of(tg, r)) == row_of(tg, r)
        &&& slid_row_tiles(row_of(tg, r).reverse()) == row_of(tg, r).reverse()
    } by {
        let t = row_of(g, r);
        let c = row_of(tg, r);
        assert(forall|k: int| 0 <= k < 4 ==> #[trigger] t[k] == g[k + 4 * r]);
        assert forall|k: int| 0 <= k < 3 implies #[trigger] t[k] != t[k + 1] by {
            assert(g[k + 4 * r] != g[k + 1 + 4 * r]);
        }
        assert forall|k: int| 0 <= k < 3 implies #[trigger] c[k] != c[k + 1] by {
            assert(g[r + 4 * k] != g[r + 4 * k + 4]);
        }
        lemma_stuck_line(t);
        lemma_stuck_line(c);
    }
    lemma_settled_stuck(g);
}

proof fn lemma_stuck_settled(g: Seq<u8>)
    requires
        g.len() == 16,
        no_slide_possible(g),
    ensures
        lines_settled(g),
{
    let tg = transposed(g);
    lemma_rows_unchanged(g);
    lemma_rows_unchanged(tg);
    lemma_columns_unchanged(g);
}

/// Every row is all empty or all occupied.
spec fn rows_uniform(g: Seq<u8>) -> bool {
    forall|r: int|
        #![trigger row_of(g, r)]
        0 <= r < 4 ==> (forall|k: int| 0 <= k < 4 ==> #[trigger] row_of(g, r)[k] == 0) || (forall|
            k: int,
        |
            0 <= k < 4 ==> #[trigger] row_of(g, r)[k] != 0)
}

proof fn lemma_settled_rows_uniform(g: Seq<u8>)
    requires
        board_tiles(g),
        lines_settled(g),
    ensures
        rows_uniform(g),
        rows_uniform(transposed(g)),
{
    let tg = transposed(g);
    lemma_transposed_rows(g);
    assert forall|r: int| #![trigger row_of(g, r)] 0 <= r < 4 implies (forall|k: int|
        0 <= k < 4 ==> #[trigger] row_of(g, r)[k] == 0) || (forall|k: int|
        0 <= k < 4 ==> #[trigger] row_of(g, r)[k] != 0) by {
        assert(row_of(g, r) == row_of(g, r));
        lemma_row_uniform(row_of(g, r));
    }
    assert forall|r: int| #![trigger row_of(tg, r)] 0 <= r < 4 implies (forall|k: int|
        0 <= k < 4 ==> #[trigger] row_of(tg, r)[k] == 0) || (forall|k: int|
        0 <= k < 4 ==> #[trigger] row_of(tg, r)[k] != 0) by {
        assert(row_of(tg, r) == row_of(tg, r));
        assert(forall|k: int| 0 <= k < 4 ==> #[trigger] row_of(tg, r)[k] < 16);
        lemma_row_uniform(row_of(tg, r));
    }
}

proof fn lemma_stuck_uniform(g: Seq<u8>)
    requires
        board_tiles(g),
        no_slide_possible(g),
    ensures
        all_empty(g) || all_occupied(g),
{
    let tg = transposed(g);
    lemma_stuck_settled(g);
    lemma_settled_rows_uniform(g);
    lemma_transposed_rows(g);
    if g[0] == 0 {
        assert forall|i: int| 0 <= i < 16 implies #[trigger] g[i] == 0 by {
            let x = i % 4;
            let y = i / 4;
            assert(row_of(g, 0)[0] == 0);
            assert(row_of(g, 0)[x] == g[x]);
            assert(row_of(tg, x)[0] == g[x]);
            assert(row_of(tg, x)[y] == g[x + 4 * y]);
        }
    } else {
        assert forall|i: int| 0 <= i < 16 implies #[trigger] g[i] != 0 by {
            let x = i % 4;
            let y = i / 4;
            assert(row_of(g, 0)[0] != 0);
            assert(row_of(g, 0)[x] == g[x]);
            assert(row_of(tg, x)[0] == g[x]);
            assert(row_of(tg, x)[y] == g[x + 4 * y]);
        }
    }
}

proof fn lemma_no_equal_in_line(t: Seq<u8>, x: int)
    requires
        t.len() == 4,
        forall|k: int| 0 <= k < 4 ==> 0 < #[trigger] t[k] < 16,
        slid_row_tiles(t) == t,
        0 <= x < 3,
    ensures
        t[x] != t[x + 1],
{
    if t[x] == t[x + 1] {
        assert(!no_equal_neighbours(t));
        lemma_slide_row_merges(t);
    }
}

proof fn lemma_stuck_no_equal_neighbours(g: Seq<u8>)
    requires
        board_tiles(g),
        all_occupied(g),
        no_slide_possible(g),
    ensures
        !has_equal_neighbours(g),
{
    let tg = transposed(g);
    lemma_stuck_settled(g);
    lemma_transposed_rows(g);
    assert forall|x: int, y: int| 0 <= x < 3 && 0 <= y < 4 implies #[trigger] g[x + 4 * y]
        != g[x + 1 + 4 * y] by {
        let t = row_of(g, y);
        assert(forall|k: int| 0 <= k < 4 ==> #[trigger] t[k] == g[k + 4 * y]);
        lemma_no_equal_in_line(t, x);
    }
    assert forall|x: int, y: int| 0 <= x < 4 && 0 <= y < 3 implies #[trigger] g[x + 4 * y]
        != g[x + 4 * y + 4] by {
        let c = row_of(tg, x);
        assert(forall|k: int| 0 <= k < 4 ==> #[trigger] c[k] == g[x + 4 * k]);
        lemma_no_equal_in_line(c, y);
    }
}

/// The board admits no slide exactly when it is empty, or full with no two
/// equal neighbours in any row or column.
pub proof fn lemma_game_over(b: Board)
    ensures
        no_slide_possible(b@) <==> (all_empty(b@) || (all_occupied(b@) && !has_equal_neighbours(
            b@,
        ))),
{
    let g = b@;
    b.lemma_view_wf();
    if all_empty(g) {
        lemma_empty_stuck(g);
    }
    if all_occupied(g) && !has_equal_neighbours(g) {
        lemma_full_stuck(g);
    }
    if no_slide_possible(g) {
        lemma_stuck_uniform(g);
        if all_occupied(g) {
            lemma_stuck_no_equal_neighbours(g);
        }
    }
}

proof fn lemma_values_sum_4(t: Seq<u8>)
    requires
        t.len() == 4,
    ensures
        values_sum(t) == tile_value(t[0]) + tile_value(t[1]) + tile_value(t[2]) + tile_value(t[3]),
{
    assert(t =~= seq![t[0]] + seq![t[1]] + seq![t[2]] + seq![t[3]]);
    lemma_values_sum_concat(seq![t[0]] + seq![t[1]] + seq![t[2]], seq![t[3]]);
    lemma_values_sum_concat(seq![t[0]] + seq![t[1]], seq![t[2]]);
    lemma_values_sum_concat(seq![t[0]], seq![t[1]]);
    lemma_values_sum_single(t[0]);
    lemma_values_sum_single(t[1]);
    lemma_values_sum_single(t[2]);
    lemma_values_sum_single(t[3]);
}

/// The value of a board is the sum of the values of its rows.
proof fn lemma_values_sum_rows(g: Seq<u8>)
    requires
        g.len() == 16,
    ensures
        values_sum(g) == values_sum(row_of(g, 0)) + values_sum(row_of(g, 1)) + values_sum(
            row_of(g, 2),
        ) + values_sum(row_of(g, 3)),
{
    assert(g =~= row_of(g, 0) + row_of(g, 1) + row_of(g, 2) + row_of(g, 3));
    lemma_values_sum_concat(row_of(g, 0) + row_of(g, 1) + row_of(g, 2), row_of(g, 3));
    lemma_values_sum_concat(row_of(g, 0) + row_of(g, 1), row_of(g, 2));
    lemma_values_sum_concat(row_of(g, 0), row_of(g, 1));
}

/// Transposing keeps the value of the board.
proof fn lemma_values_sum_transposed(g: Seq<u8>)
    requires
        g.len() == 16,
    ensures
        values_sum(transposed(g)) == values_sum(g),
{
    let tg = transposed(g);
    lemma_transposed_rows(g);
    lemma_values_sum_rows(g);
    lemma_values_sum_rows(tg);
    assert forall|r: int| 0 <= r < 4 implies values_sum(#[trigger] row_of(g, r)) == tile_value(
        g[4 * r],
    ) + tile_value(g[4 * r + 1]) + tile_value(g[4 * r + 2]) + tile_value(g[4 * r + 3]) by {
        lemma_values_sum_4(row_of(g, r));
    }
    assert forall|r: int| 0 <= r < 4 implies values_sum(#[trigger] row_of(tg, r)) == tile_value(
        g[r],
    ) + tile_value(g[r + 4]) + tile_value(g[r + 8]) + tile_value(g[r + 12]) by {
        lemma_values_sum_4(row_of(tg, r));
        assert(row_of(tg, r)[0] == g[r]);
        assert(row_of(tg, r)[1] == g[r + 4]);
        assert(row_of(tg, r)[2] == g[r + 8]);
        assert(row_of(tg, r)[3] == g[r + 12]);
    }
}

/// Line `r` of the board in the order in which a slide in direction `d`
/// moves its tiles toward the end: a row for right, a mirrored row for
/// left, a column for down, a mirrored column for up.
pub open spec fn line(g: Seq<u8>, d: Direction, r: int) -> Seq<u8> {
    match d {
        Direction::Right => row_of(g, r),
        Direction::Left => row_of(g, r).reverse(),
        Direction::Down => row_of(transposed(g), r),
        Direction::Up => row_of(transposed(g), r).reverse(),
    }
}

/// No merge of a slide in direction `d` creates a tile that does not fit in
/// 4 bits (two tiles of 32768 merging).
pub open spec fn slide_fits(g: Seq<u8>, d: Direction) -> bool {
    forall|r: int| 0 <= r < 4 ==> merges_fit(#[trigger] line(g, d, r))
}

/// Sliding every row keeps the value of the board, when the merges fit.
proof fn lemma_rows_slide_keep_value(g: Seq<u8>, d: Direction, leftward: bool)
    requires
        board_tiles(g),
        leftward ==> d == Direction::Left,
        !leftward ==> d == Direction::Right,
        forall|r: int| 0 <= r < 4 ==> merges_fit(#[trigger] line(g, d, r)),
    ensures
        leftward ==> values_sum(slide_grid_left(g)) == values_sum(g),
        !leftward ==> values_sum(slide_grid_right(g)) == values_sum(g),
{
    let rg = slide_grid_right(g);
    let lg = slide_grid_left(g);
    lemma_values_sum_rows(g);
    lemma_values_sum_rows(rg);
    lemma_values_sum_rows(lg);
    assert forall|r: int| 0 <= r < 4 implies (!leftward ==> values_sum(#[trigger] row_of(rg, r))
        == values_sum(row_of(g, r))) && (leftward ==> values_sum(row_of(lg, r)) == values_sum(
        row_of(g, r),
    )) by {
        let t = row_of(g, r);
        assert(forall|k: int| 0 <= k < 4 ==> #[trigger] t[k] == g[4 * r + k]);
        assert(forall|k: int| 0 <= k < 4 ==> #[trigger] t.reverse()[k] == t[3 - k]);
        lemma_slid_row_tiles_len(t);
        lemma_slid_row_tiles_len(t.reverse());
        if leftward {
            assert forall|k: int| 0 <= k < 4 implies #[trigger] row_of(lg, r)[k]
                == slid_row_tiles(t.reverse()).reverse()[k] by {
                assert((4 * r + k) / 4 == r);
                assert((4 * r + k) % 4 == k);
            }
            assert(row_of(lg, r) =~= slid_row_tiles(t.reverse()).reverse());
            assert(line(g, Direction::Left, r) == t.reverse());
            lemma_slide_row_keeps_value(t.reverse());
            lemma_values_sum_reverse(slid_row_tiles(t.reverse()));
            lemma_values_sum_reverse(t);
        } else {
            assert forall|k: int| 0 <= k < 4 implies #[trigger] row_of(rg, r)[k]
                == slid_row_tiles(t)[k] by {
                assert((4 * r + k) / 4 == r);
                assert((4 * r + k) % 4 == k);
            }
            assert(row_of(rg, r) =~= slid_row_tiles(t));
            assert(line(g, Direction::Right, r) == t);
            lemma_slide_row_keeps_value(t);
        }
    }
}

/// A slide keeps the total value of the tiles on the board: merging two
/// tiles of value v gives one of value 2v. This holds as long as no merge
/// creates a tile that does not fit in 4 bits (two tiles of 32768 merging).
pub proof fn lemma_slide_keeps_total_value(b: Board, d: Direction)
    requires
        slide_fits(b@, d),
    ensures
        values_sum(slid_grid(b@, d)) == values_sum(b@),
{
    let g = b@;
    let tg = transposed(g);
    b.lemma_view_wf();
    assert forall|i: int| 0 <= i < 16 implies #[trigger] tg[i] < 16 by {
        assert(tg[i] == g[4 * (i % 4) + i / 4]);
    }
    match d {
        Direction::Right => {
            lemma_rows_slide_keep_value(g, d, false);
        },
        Direction::Left => {
            lemma_rows_slide_keep_value(g, d, true);
        },
        Direction::Down => {
            assert forall|r: int| 0 <= r < 4 implies merges_fit(
                #[trigger] line(tg, Direction::Right, r),
            ) by {
                assert(line(tg, Direction::Right, r) == line(g, d, r));
            }
            lemma_rows_slide_keep_value(tg, Direction::Right, false);
            lemma_values_sum_transposed(g);
            lemma_values_sum_transposed(slide_grid_right(tg));
        },
        Direction::Up => {
            assert forall|r: int| 0 <= r < 4 implies merges_fit(
                #[trigger] line(tg, Direction::Left, r),
            ) by {
                assert(line(tg, Direction::Left, r) == line(g, d, r));
            }
            lemma_rows_slide_keep_value(tg, Direction::Left, true);
            lemma_values_sum_transposed(g);
            lemma_values_sum_transposed(slide_grid_left(tg));
        },
    }
}

/// Setting a tile to an exponent that fits in 4 bits and reading it back
/// gives that tile's value, every other tile keeps its value, and of two
/// settings of the same tile the later one wins.
pub proof fn lemma_set_then_get(b: Board, i: int, e: u8, f: u8)
    requires
        0 <= i < 16,
        e < 16,
    ensures
        tile_value(b@.update(i, e)[i]) == tile_value(e),
        forall|j: int| 0 <= j < 16 && j != i ==> #[trigger] b@.update(i, e)[j] == b@[j],
        b@.update(i, e).update(i, f) == b@.update(i, f),
{
    b.lemma_view_wf();
    assert(b@.update(i, e).update(i, f) =~= b@.update(i, f));
}

/// The board mirrored left to right: the tile at (x,y) goes to (3-x,y).
pub open spec fn mirrored(g: Seq<u8>) -> Seq<u8> {
    Seq::new(16, |i: int| g[4 * (i / 4) + 3 - i % 4])
}

/// Mirroring twice gives the board back.
pub proof fn lemma_mirrored_twice(g: Seq<u8>)
    requires
        g.len() == 16,
    ensures
        mirrored(mirrored(g)) == g,
{
    assert(mirrored(mirrored(g)) =~= g);
}

proof fn lemma_mirrored_rows(g: Seq<u8>)
    requires
        g.len() == 16,
    ensures
        forall|r: int| 0 <= r < 4 ==> #[trigger] row_of(mirrored(g), r) == row_of(g, r).reverse(),
{
    assert forall|r: int| 0 <= r < 4 implies #[trigger] row_of(mirrored(g), r) == row_of(
        g,
        r,
    ).reverse() by {
        assert forall|k: int| 0 <= k < 4 implies row_of(mirrored(g), r)[k] == row_of(
            g,
            r,
        ).reverse()[k] by {
            assert((4 * r + k) / 4 == r);
            assert((4 * r + k) % 4 == k);
        }
        assert(row_of(mirrored(g), r) =~= row_of(g, r).reverse());
    }
}

proof fn lemma_rows_score_mirrored(g: Seq<u8>, n: int)
    requires
        g.len() == 16,
        0 <= n <= 4,
    ensures
        rows_score(g, true, n) == rows_score(mirrored(g), false, n),
    decreases n,
{
    if n > 0 {
        lemma_mirrored_rows(g);
        lemma_rows_score_mirrored(g, n - 1);
        assert(row_of(mirrored(g), n - 1) == row_of(g, n - 1).reverse());
    }
}

/// Sliding left is sliding the mirrored board right and mirroring back, for
/// the same points; sliding up and down is sliding the transposed board left
/// and right and transposing back, for the same points. Each slide changes
/// the board exactly when the matching one changes the mirrored or
/// transposed board.
pub proof fn lemma_directions_related(b: Board)
    ensures
        slid_grid(b@, Direction::Left) == mirrored(slid_grid(mirrored(b@), Direction::Right)),
        slide_score(b@, Direction::Left) == slide_score(mirrored(b@), Direction::Right),
        can_slide(b@, Direction::Left) == can_slide(mirrored(b@), Direction::Right),
        slid_grid(b@, Direction::Up) == transposed(slid_grid(transposed(b@), Direction::Left)),
        slide_score(b@, Direction::Up) == slide_score(transposed(b@), Direction::Left),
        can_slide(b@, Direction::Up) == can_slide(transposed(b@), Direction::Left),
        slid_grid(b@, Direction::Down) == transposed(slid_grid(transposed(b@), Direction::Right)),
        slide_score(b@, Direction::Down) == slide_score(transposed(b@), Direction::Right),
        can_slide(b@, Direction::Down) == can_slide(transposed(b@), Direction::Right),
{
    let g = b@;
    let mg = mirrored(g);
    b.lemma_view_wf();
    lemma_mirrored_rows(g);
    lemma_rows_score_mirrored(g, 4);
    assert forall|i: int| 0 <= i < 16 implies #[trigger] slide_grid_left(g)[i] == mirrored(
        slide_grid_right(mg),
    )[i] by {
        let j = 4 * (i / 4) + 3 - i % 4;
        assert(j / 4 == i / 4);
        assert(j % 4 == 3 - i % 4);
        assert(row_of(mg, i / 4) == row_of(g, i / 4).reverse());
    }
    assert(slide_grid_left(g) =~= mirrored(slide_grid_right(mg)));
    lemma_mirrored_twice(g);
    lemma_mirrored_twice(slide_grid_right(mg));
    if mirrored(slide_grid_right(mg)) == g {
        assert(slide_grid_right(mg) == mirrored(g));
    }
    lemma_columns_unchanged(g);
}

proof fn lemma_line_points(g: Seq<u8>, d: Direction, r: int)
    requires
        board_tiles(g),
        0 <= r < 4,
    ensures
        four_tiles(line(g, d, r)),
        points_of_slide(line(g, d, r)) == merge_score(occupied(line(g, d, r))),
{
    let tg = transposed(g);
    lemma_transposed_rows(g);
    let t = line(g, d, r);
    assert forall|k: int| 0 <= k < 4 implies #[trigger] t[k] < 16 by {
        match d {
            Direction::Right => {
                assert(t[k] == g[4 * r + k]);
            },
            Direction::Left => {
                assert(t[k] == g[4 * r + 3 - k]);
            },
            Direction::Down => {
                assert(t[k] == g[r + 4 * k]);
            },
            Direction::Up => {
                assert(t[k] == row_of(tg, r)[3 - k]);
                assert(row_of(tg, r)[3 - k] == g[r + 4 * (3 - k)]);
            },
        }
    }
    lemma_row_tiles_pack(t);
}

/// The points of a slide are the sum of the points that its four lines
/// earn, each line sliding as a row does: two rows that each make a 4 earn
/// 8 together.
pub proof fn lemma_slide_score_adds_lines(b: Board, d: Direction)
    ensures
        slide_score(b@, d) == points_of_slide(line(b@, d, 0)) + points_of_slide(line(b@, d, 1))
            + points_of_slide(line(b@, d, 2)) + points_of_slide(line(b@, d, 3)),
{
    let g = b@;
    b.lemma_view_wf();
    lemma_line_points(g, d, 0);
    lemma_line_points(g, d, 1);
    lemma_line_points(g, d, 2);
    lemma_line_points(g, d, 3);
    let (h, lw) = match d {
        Direction::Right => (g, false),
        Direction::Left => (g, true),
        Direction::Down => (transposed(g), false),
        Direction::Up => (transposed(g), true),
    };
    assert(rows_score(h, lw, 0) == 0);
    assert(rows_score(h, lw, 1) == rows_score(h, lw, 0) + merge_score(occupied(line(g, d, 0))));
    assert(rows_score(h, lw, 2) == rows_score(h, lw, 1) + merge_score(occupied(line(g, d, 1))));
    assert(rows_score(h, lw, 3) == rows_score(h, lw, 2) + merge_score(occupied(line(g, d, 2))));
    assert(rows_score(h, lw, 4) == rows_score(h, lw, 3) + merge_score(occupied(line(g, d, 3))));
}

} // verus!
