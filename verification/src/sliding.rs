//! One row of the board: 4 tiles of 4 bits each, packed into a `u16`, and how
//! a row slides to the right.

use vstd::prelude::*;
use vstd::arithmetic::power2::pow2;

verus! {

/// Tile `k` (0..4) of a row: the exponent stored in bits `4k..4k+4`.
pub open spec fn nibble(row: u16, k: u16) -> u8 {
    ((row >> ((k * 4) as u16)) & 0xF) as u8
}

/// The four tiles of a row, leftmost (least significant bits) first.
pub open spec fn row_tiles(row: u16) -> Seq<u8> {
    seq![nibble(row, 0u16), nibble(row, 1u16), nibble(row, 2u16), nibble(row, 3u16)]
}

/// The row whose tile `k` is `t[k]`: each tile is shifted to its position and
/// OR-ed in (a tile of 16 or more spills into the next position's bits).
pub open spec fn pack_tiles(t: Seq<u8>) -> u16 {
    ((t[0] as u16) << 0u16) | ((t[1] as u16) << 4u16) | ((t[2] as u16) << 8u16) | ((t[3] as u16) << 12u16)
}

/// Convert a row to its four tiles, leftmost first. This is the inverse of [tiles_to_row].
pub fn row_to_tiles(row: u16) -> (tiles: [u8; 4])
    ensures
        tiles@ == row_tiles(row),
{
    [
        ((row >> 0u16) & 0xF) as u8,
        ((row >> 4u16) & 0xF) as u8,
        ((row >> 8u16) & 0xF) as u8,
        ((row >> 12u16) & 0xF) as u8,
    ]
}

/// Convert four tiles, leftmost first, to a row. This is the inverse of [row_to_tiles].
pub fn tiles_to_row(tiles: [u8; 4]) -> (row: u16)
    ensures
        row == pack_tiles(tiles@),
{
    ((tiles[0] as u16) << 0u16) | ((tiles[1] as u16) << 4u16) | ((tiles[2] as u16) << 8u16) | (
    (tiles[3] as u16) << 12u16)
}

/// Reverse the order of four tiles, so that the leftmost becomes the rightmost.
pub fn invert_tiles(tiles: [u8; 4]) -> (inverted: [u8; 4])
    ensures
        inverted@ == tiles@.reverse(),
{
    let inverted = [tiles[3], tiles[2], tiles[1], tiles[0]];
    assert(inverted@ =~= tiles@.reverse());
    inverted
}

/// Reverse the order of the tiles in a row, so that the leftmost becomes the rightmost.
pub fn invert_row(row: u16) -> (inverted: u16)
    ensures
        inverted == pack_tiles(row_tiles(row).reverse()),
{
    let tiles = row_to_tiles(row);
    let inverted_tiles = invert_tiles(tiles);
    tiles_to_row(inverted_tiles)
}

/// Packing the tiles of a row gives the row back.
pub proof fn lemma_pack_row_tiles(row: u16)
    ensures
        pack_tiles(row_tiles(row)) == row,
{
    let t0 = ((row >> 0u16) & 0xF) as u8;
    let t1 = ((row >> 4u16) & 0xF) as u8;
    let t2 = ((row >> 8u16) & 0xF) as u8;
    let t3 = ((row >> 12u16) & 0xF) as u8;
    assert(row_tiles(row) =~= seq![t0, t1, t2, t3]);
    assert(((t0 as u16) << 0u16) | ((t1 as u16) << 4u16) | ((t2 as u16) << 8u16) | ((t3 as u16) << 12u16)
        == row) by (bit_vector)
        requires
            t0 == ((row >> 0u16) & 0xF) as u8,
            t1 == ((row >> 4u16) & 0xF) as u8,
            t2 == ((row >> 8u16) & 0xF) as u8,
            t3 == ((row >> 12u16) & 0xF) as u8,
    ;
}

/// Four tiles that each fit in 4 bits are read back unchanged from their packed row.
pub proof fn lemma_row_tiles_pack(t: Seq<u8>)
    requires
        t.len() == 4,
        forall|k: int| 0 <= k < 4 ==> t[k] < 16,
    ensures
        row_tiles(pack_tiles(t)) == t,
{
    let (t0, t1, t2, t3) = (t[0], t[1], t[2], t[3]);
    let row = pack_tiles(t);
    assert((((row >> 0u16) & 0xF) as u8) == t0 && (((row >> 4u16) & 0xF) as u8) == t1 && (((row >> 8u16)
        & 0xF) as u8) == t2 && (((row >> 12u16) & 0xF) as u8) == t3) by (bit_vector)
        requires
            t0 < 16 && t1 < 16 && t2 < 16 && t3 < 16,
            row == ((t0 as u16) << 0u16) | ((t1 as u16) << 4u16) | ((t2 as u16) << 8u16) | ((t3 as u16)
                << 12u16),
    ;
    assert(row_tiles(row) =~= t);
}

/// Every tile of a row fits in 4 bits.
pub proof fn lemma_row_tiles_small(row: u16)
    ensures
        row_tiles(row).len() == 4,
        forall|k: int| 0 <= k < 4 ==> #[trigger] row_tiles(row)[k] < 16,
{
    assert((((row >> 0u16) & 0xF) as u8) < 16 && (((row >> 4u16) & 0xF) as u8) < 16 && (((row >> 8u16)
        & 0xF) as u8) < 16 && (((row >> 12u16) & 0xF) as u8) < 16) by (bit_vector);
}

/// The occupied (non-zero) tiles of `t`, in their left-to-right order.
pub open spec fn occupied(t: Seq<u8>) -> Seq<u8>
    decreases t.len(),
{
    if t.len() == 0 {
        seq![]
    } else if t.last() == 0 {
        occupied(t.drop_last())
    } else {
        occupied(t.drop_last()).push(t.last())
    }
}

/// The tiles that result from merging the compressed tiles `s` toward the
/// right end, rightmost first: working from the right, two adjacent equal
/// tiles merge once into a tile of exponent one higher.
pub open spec fn merged_from_right(s: Seq<u8>) -> Seq<u8>
    decreases s.len(),
{
    if s.len() == 0 {
        seq![]
    } else if s.len() >= 2 && s[s.len() - 2] == s.last() {
        seq![(s.last() + 1) as u8] + merged_from_right(s.take(s.len() - 2))
    } else {
        seq![s.last()] + merged_from_right(s.drop_last())
    }
}

/// The points earned by the merges of [merged_from_right]: the value
/// `2^e` of every tile of exponent `e` that a merge creates.
pub open spec fn merge_score(s: Seq<u8>) -> nat
    decreases s.len(),
{
    if s.len() == 0 {
        0
    } else if s.len() >= 2 && s[s.len() - 2] == s.last() {
        pow2((s.last() + 1) as nat) + merge_score(s.take(s.len() - 2))
    } else {
        merge_score(s.drop_last())
    }
}

/// The four tiles of a row after it slid to the right, leftmost first: the
/// merged tiles fill the row from the right, the rest is empty.
pub open spec fn slid_right(t: Seq<u8>) -> Seq<u8> {
    let m = merged_from_right(occupied(t));
    Seq::new(4, |j: int| if 3 - j < m.len() { m[3 - j] } else { 0u8 })
}

/// The tiles of a row after it slid to the right, as they are stored in a
/// row of 4 bits per tile.
#[verifier::opaque]
pub open spec fn slid_row_tiles(t: Seq<u8>) -> Seq<u8> {
    row_tiles(pack_tiles(slid_right(t)))
}

/// A slid row has four tiles.
pub proof fn lemma_slid_row_tiles_len(t: Seq<u8>)
    ensures
        slid_row_tiles(t).len() == 4,
{
    reveal(slid_row_tiles);
}

/// The value shown on a tile of exponent `e`: 0 for an empty tile, `2^e` otherwise.
pub open spec fn tile_value(e: u8) -> nat {
    if e == 0 {
        0
    } else {
        pow2(e as nat)
    }
}

/// The row after sliding `row` to the right.
pub open spec fn slide_row_right(row: u16) -> u16 {
    pack_tiles(slid_right(row_tiles(row)))
}

/// The points earned by sliding `row` to the right.
pub open spec fn slide_row_score(row: u16) -> nat {
    merge_score(occupied(row_tiles(row)))
}

/// A row after a slide, with the points that the slide earned.
pub struct RowSlide {
    pub result_row: u16,
    pub score: u32,
}

proof fn lemma_occupied_bounds(t: Seq<u8>, bound: u8)
    requires
        forall|k: int| 0 <= k < t.len() ==> t[k] < bound,
    ensures
        occupied(t).len() <= t.len(),
        forall|k: int| 0 <= k < occupied(t).len() ==> 0 < #[trigger] occupied(t)[k] < bound,
    decreases t.len(),
{
    if t.len() > 0 {
        lemma_occupied_bounds(t.drop_last(), bound);
    }
}

proof fn lemma_merged_len(s: Seq<u8>)
    ensures
        merged_from_right(s).len() <= s.len(),
    decreases s.len(),
{
    if s.len() >= 2 && s[s.len() - 2] == s.last() {
        lemma_merged_len(s.take(s.len() - 2));
    } else if s.len() > 0 {
        lemma_merged_len(s.drop_last());
    }
}

proof fn lemma_merge_score_bound(s: Seq<u8>)
    requires
        forall|k: int| 0 <= k < s.len() ==> s[k] < 16,
    ensures
        merge_score(s) <= 32768 * s.len(),
    decreases s.len(),
{
    vstd::arithmetic::power2::lemma2_to64();
    if s.len() >= 2 && s[s.len() - 2] == s.last() {
        lemma_merge_score_bound(s.take(s.len() - 2));
        if s.last() + 1 < 16 {
            vstd::arithmetic::power2::lemma_pow2_strictly_increases((s.last() + 1) as nat, 16);
        }
    } else if s.len() > 0 {
        lemma_merge_score_bound(s.drop_last());
    }
}

/// Slide a row to the right, merging equal neighbours once, and count the points earned.
pub fn slide_row_with_score(row: u16) -> (r: RowSlide)
    ensures
        r.result_row == slide_row_right(row),
        r.score == slide_row_score(row),
        r.score <= 131072,
{
    let tiles = row_to_tiles(row);
    proof {
        lemma_row_tiles_small(row);
    }
    // Compress the occupied tiles, preserving their left-to-right order.
    let mut nonzeros: Vec<u8> = Vec::new();
    let mut k: usize = 0;
    while k < 4
        invariant
            k <= 4,
            tiles@ == row_tiles(row),
            nonzeros@ == occupied(tiles@.take(k as int)),
        decreases 4 - k,
    {
        assert(tiles@.take(k + 1).drop_last() =~= tiles@.take(k as int));
        if tiles[k] != 0 {
            nonzeros.push(tiles[k]);
        }
        k += 1;
    }
    assert(tiles@.take(4) =~= tiles@);
    let ghost nz = nonzeros@;
    proof {
        lemma_occupied_bounds(tiles@, 16);
        lemma_merge_score_bound(nz);
    }
    // Merge from the right end of the compressed tiles, each tile at most once.
    let mut merged: Vec<u8> = Vec::new();
    let mut score: u32 = 0;
    let mut i: usize = nonzeros.len();
    assert(nz.take(i as int) =~= nz);
    while i > 0
        invariant
            nonzeros@ == nz,
            nz.len() <= 4,
            i <= nz.len(),
            forall|j: int| 0 <= j < nz.len() ==> 0 < #[trigger] nz[j] < 16,
            merge_score(nz) <= 131072,
            merged@ + merged_from_right(nz.take(i as int)) == merged_from_right(nz),
            score + merge_score(nz.take(i as int)) == merge_score(nz),
        decreases i,
    {
        let ghost pre = nz.take(i as int);
        let cur = nonzeros[i - 1];
        if i > 1 && nonzeros[i - 2] == cur {
            proof {
                assert(pre.take(pre.len() - 2) =~= nz.take(i - 2));
                vstd::bits::lemma_u32_shl_is_mul(1u32, (cur + 1) as u32);
                vstd::arithmetic::power2::lemma_pow2_pos((cur + 1) as nat);
            }
            merged.push(cur + 1);
            score += 1u32 << ((cur + 1) as u32);
            i -= 2;
        } else {
            proof {
                assert(pre.drop_last() =~= nz.take(i - 1));
            }
            merged.push(cur);
            i -= 1;
        }
    }
    assert(nz.take(0) =~= Seq::<u8>::empty());
    assert(merged@ =~= merged_from_right(nz));
    proof {
        lemma_merged_len(nz);
    }
    // `merged` holds the tiles rightmost first; they fill the row from the right.
    let m = merged.len();
    let result: [u8; 4] = [
        if m > 3 { merged[3] } else { 0 },
        if m > 2 { merged[2] } else { 0 },
        if m > 1 { merged[1] } else { 0 },
        if m > 0 { merged[0] } else { 0 },
    ];
    assert(result@ =~= slid_right(tiles@));
    RowSlide { result_row: tiles_to_row(result), score }
}

/// Slide a row to the right: tiles move as far right as they can, and two
/// equal neighbours merge once, starting from the right end.
pub fn calculate_row_left_to_right_slide(row: u16) -> (slid: u16)
    ensures
        slid == slide_row_right(row),
{
    slide_row_with_score(row).result_row
}

/// The sum of the values of the tiles of `t`.
pub open spec fn values_sum(t: Seq<u8>) -> nat
    decreases t.len(),
{
    if t.len() == 0 {
        0
    } else {
        values_sum(t.drop_last()) + tile_value(t.last())
    }
}

/// No two neighbouring tiles of `s` are equal.
pub open spec fn no_equal_neighbours(s: Seq<u8>) -> bool {
    forall|k: int| 0 <= k < s.len() - 1 ==> #[trigger] s[k] != s[k + 1]
}

/// Inverting a row twice gives the row back.
pub proof fn lemma_invert_row_twice(row: u16)
    ensures
        pack_tiles(row_tiles(pack_tiles(row_tiles(row).reverse())).reverse()) == row,
{
    lemma_row_tiles_small(row);
    lemma_row_tiles_pack(row_tiles(row).reverse());
    assert(row_tiles(row).reverse().reverse() =~= row_tiles(row));
    lemma_pack_row_tiles(row);
}

/// Inverting four tiles twice gives them back.
pub proof fn lemma_invert_tiles_twice(t: Seq<u8>)
    ensures
        t.reverse().reverse() == t,
{
    assert(t.reverse().reverse() =~= t);
}

pub(crate) proof fn lemma_values_sum_single(x: u8)
    ensures
        values_sum(seq![x]) == tile_value(x),
{
    assert(seq![x].drop_last() =~= Seq::<u8>::empty());
    assert(values_sum(Seq::<u8>::empty()) == 0);
    assert(seq![x].last() == x);
}

pub(crate) proof fn lemma_values_sum_concat(a: Seq<u8>, b: Seq<u8>)
    ensures
        values_sum(a + b) == values_sum(a) + values_sum(b),
    decreases b.len(),
{
    if b.len() > 0 {
        assert((a + b).drop_last() =~= a + b.drop_last());
        lemma_values_sum_concat(a, b.drop_last());
    } else {
        assert(a + b =~= a);
    }
}

pub(crate) proof fn lemma_values_sum_reverse(s: Seq<u8>)
    ensures
        values_sum(s.reverse()) == values_sum(s),
    decreases s.len(),
{
    if s.len() > 0 {
        assert(s.reverse() =~= seq![s.last()] + s.drop_last().reverse());
        lemma_values_sum_concat(seq![s.last()], s.drop_last().reverse());
        lemma_values_sum_single(s.last());
        lemma_values_sum_reverse(s.drop_last());
    }
}

proof fn lemma_values_sum_zeros(n: nat)
    ensures
        values_sum(Seq::new(n, |j: int| 0u8)) == 0,
    decreases n,
{
    if n > 0 {
        assert(Seq::new(n, |j: int| 0u8).drop_last() =~= Seq::new((n - 1) as nat, |j: int| 0u8));
        lemma_values_sum_zeros((n - 1) as nat);
    }
}

proof fn lemma_values_sum_occupied(t: Seq<u8>)
    ensures
        values_sum(occupied(t)) == values_sum(t),
    decreases t.len(),
{
    if t.len() > 0 {
        lemma_values_sum_occupied(t.drop_last());
        if t.last() != 0 {
            assert(occupied(t).drop_last() =~= occupied(t.drop_last()));
        }
    }
}

proof fn lemma_values_sum_merged(s: Seq<u8>)
    requires
        forall|k: int| 0 <= k < s.len() ==> 0 < #[trigger] s[k] < 16,
        forall|k: int|
            0 <= k < merged_from_right(s).len() ==> #[trigger] merged_from_right(s)[k] < 16,
    ensures
        values_sum(merged_from_right(s)) == values_sum(s),
    decreases s.len(),
{
    let m = merged_from_right(s);
    if s.len() >= 2 && s[s.len() - 2] == s.last() {
        let rest = s.take(s.len() - 2);
        let x = s.last();
        assert forall|k: int| 0 <= k < merged_from_right(rest).len() implies #[trigger] merged_from_right(rest)[k] < 16 by {
            assert(merged_from_right(rest)[k] == m[k + 1]);
        }
        assert(m[0] == (x + 1) as u8);
        lemma_values_sum_merged(rest);
        lemma_values_sum_concat(seq![(x + 1) as u8], merged_from_right(rest));
        lemma_values_sum_single((x + 1) as u8);
        assert(s.drop_last().drop_last() =~= rest);
        assert(values_sum(s.drop_last()) == values_sum(rest) + tile_value(x));
        vstd::arithmetic::power2::lemma_pow2_unfold((x + 1) as nat);
    } else if s.len() > 0 {
        let d = s.drop_last();
        assert forall|k: int| 0 <= k < merged_from_right(d).len() implies #[trigger] merged_from_right(d)[k] < 16 by {
            assert(merged_from_right(d)[k] == m[k + 1]);
        }
        lemma_values_sum_merged(d);
        lemma_values_sum_concat(seq![s.last()], merged_from_right(d));
        lemma_values_sum_single(s.last());
    }
}

/// A slid row is the merged tiles, in left-to-right order, after as many
/// empty tiles as make four.
proof fn lemma_slid_right_shape(t: Seq<u8>)
    requires
        t.len() == 4,
        forall|k: int| 0 <= k < 4 ==> t[k] < 16,
    ensures
        merged_from_right(occupied(t)).len() <= 4,
        slid_right(t) == Seq::new((4 - merged_from_right(occupied(t)).len()) as nat, |j: int| 0u8)
            + merged_from_right(occupied(t)).reverse(),
{
    lemma_occupied_bounds(t, 16);
    lemma_merged_len(occupied(t));
    assert(slid_right(t) =~= Seq::new(
        (4 - merged_from_right(occupied(t)).len()) as nat,
        |j: int| 0u8,
    ) + merged_from_right(occupied(t)).reverse());
}

/// No merge of the row's slide to the right creates a tile of exponent 16
/// or more, which would not fit in 4 bits: no two tiles of 32768 merge.
pub open spec fn merges_fit(t: Seq<u8>) -> bool {
    forall|k: int|
        0 <= k < merged_from_right(occupied(t)).len() ==> #[trigger] merged_from_right(
            occupied(t),
        )[k] < 16
}

/// Sliding a row keeps the total value of its tiles, provided the merges
/// fit in 4 bits.
pub proof fn lemma_slide_row_keeps_value(t: Seq<u8>)
    requires
        t.len() == 4,
        forall|k: int| 0 <= k < 4 ==> t[k] < 16,
        merges_fit(t),
    ensures
        values_sum(slid_row_tiles(t)) == values_sum(t),
{
    reveal(slid_row_tiles);
    let occ = occupied(t);
    let m = merged_from_right(occ);
    lemma_occupied_bounds(t, 16);
    lemma_values_sum_occupied(t);
    lemma_values_sum_merged(occ);
    lemma_slid_right_shape(t);
    let zeros = Seq::new((4 - m.len()) as nat, |j: int| 0u8);
    lemma_values_sum_concat(zeros, m.reverse());
    lemma_values_sum_zeros((4 - m.len()) as nat);
    lemma_values_sum_reverse(m);
    assert forall|k: int| 0 <= k < 4 implies #[trigger] slid_right(t)[k] < 16 by {
        if k >= 4 - m.len() {
            assert(slid_right(t)[k] == m[3 - k]);
        }
    }
    lemma_row_tiles_pack(slid_right(t));
}

proof fn lemma_occupied_counts(t: Seq<u8>)
    ensures
        occupied(t).len() <= t.len(),
        forall|k: int| 0 <= k < occupied(t).len() ==> #[trigger] occupied(t)[k] != 0,
        (exists|k: int| 0 <= k < t.len() && #[trigger] t[k] == 0) ==> occupied(t).len()
            < t.len(),
        (exists|k: int| 0 <= k < t.len() && #[trigger] t[k] != 0) ==> occupied(t).len() >= 1,
        (forall|k: int| 0 <= k < t.len() ==> #[trigger] t[k] != 0) ==> occupied(t) == t,
        (forall|k: int| 0 <= k < t.len() ==> #[trigger] t[k] == 0) ==> occupied(t).len() == 0,
    decreases t.len(),
{
    if t.len() > 0 {
        let d = t.drop_last();
        lemma_occupied_counts(d);
        if exists|k: int| 0 <= k < t.len() && #[trigger] t[k] == 0 {
            let k = choose|k: int| 0 <= k < t.len() && #[trigger] t[k] == 0;
            if k < t.len() - 1 {
                assert(d[k] == 0);
            }
        }
        if exists|k: int| 0 <= k < t.len() && #[trigger] t[k] != 0 {
            let k = choose|k: int| 0 <= k < t.len() && #[trigger] t[k] != 0;
            if k < t.len() - 1 {
                assert(d[k] != 0);
            }
        }
        if forall|k: int| 0 <= k < t.len() ==> #[trigger] t[k] != 0 {
            assert forall|k: int| 0 <= k < d.len() implies #[trigger] d[k] != 0 by {
                assert(d[k] == t[k]);
            }
            assert(occupied(t) =~= t);
        }
        if forall|k: int| 0 <= k < t.len() ==> #[trigger] t[k] == 0 {
            assert forall|k: int| 0 <= k < d.len() implies #[trigger] d[k] == 0 by {
                assert(d[k] == t[k]);
            }
        }
        assert forall|k: int| 0 <= k < occupied(t).len() implies #[trigger] occupied(t)[k]
            != 0 by {
            if t.last() != 0 && k == occupied(t).len() - 1 {
            } else {
                assert(occupied(t)[k] == occupied(d)[k]);
            }
        }
    }
}

proof fn lemma_occupied_zero_prefix(t: Seq<u8>, p: int)
    requires
        0 <= p <= t.len(),
        forall|k: int| 0 <= k < p ==> #[trigger] t[k] == 0,
    ensures
        occupied(t).len() + p <= t.len(),
    decreases t.len(),
{
    if t.len() > p {
        let d = t.drop_last();
        assert forall|k: int| 0 <= k < p implies #[trigger] d[k] == 0 by {
            assert(d[k] == t[k]);
        }
        lemma_occupied_zero_prefix(d, p);
    } else {
        lemma_occupied_counts(t);
        if t.len() > 0 {
            assert(forall|k: int| 0 <= k < t.len() ==> #[trigger] t[k] == 0);
        }
    }
}

proof fn lemma_merged_without_equal_neighbours(s: Seq<u8>)
    requires
        no_equal_neighbours(s),
    ensures
        merged_from_right(s) == s.reverse(),
    decreases s.len(),
{
    if s.len() > 0 {
        let d = s.drop_last();
        if s.len() >= 2 {
            assert(s[s.len() - 2] != s[s.len() - 1]);
        }
        assert forall|k: int| 0 <= k < d.len() - 1 implies #[trigger] d[k] != d[k + 1] by {
            assert(s[k] != s[k + 1]);
        }
        lemma_merged_without_equal_neighbours(d);
        assert(seq![s.last()] + d.reverse() =~= s.reverse());
    }
}

proof fn lemma_merged_shorter(s: Seq<u8>)
    requires
        !no_equal_neighbours(s),
    ensures
        merged_from_right(s).len() < s.len(),
    decreases s.len(),
{
    let k = choose|k: int| 0 <= k < s.len() - 1 && #[trigger] s[k] == s[k + 1];
    if s[s.len() - 2] == s.last() {
        lemma_merged_len(s.take(s.len() - 2));
    } else {
        let d = s.drop_last();
        assert(d[k] == d[k + 1]);
        assert(!no_equal_neighbours(d));
        lemma_merged_shorter(d);
    }
}

proof fn lemma_pack_zero_prefix(x: Seq<u8>)
    requires
        x.len() == 4,
    ensures
        x[0] == 0 ==> row_tiles(pack_tiles(x))[0] == 0,
        x[0] == 0 && x[1] == 0 ==> row_tiles(pack_tiles(x))[1] == 0,
        x[0] == 0 && x[1] == 0 && x[2] == 0 ==> row_tiles(pack_tiles(x))[2] == 0,
{
    let (x0, x1, x2, x3) = (x[0], x[1], x[2], x[3]);
    let row = pack_tiles(x);
    assert((x0 == 0 ==> (((row >> 0u16) & 0xF) as u8) == 0) && (x0 == 0 && x1 == 0 ==> (((row
        >> 4u16) & 0xF) as u8) == 0) && (x0 == 0 && x1 == 0 && x2 == 0 ==> (((row >> 8u16)
        & 0xF) as u8) == 0)) by (bit_vector)
        requires
            row == ((x0 as u16) << 0u16) | ((x1 as u16) << 4u16) | ((x2 as u16) << 8u16) | ((
            x3 as u16) << 12u16),
    ;
}

/// A row whose tiles are all empty does not change when it slides.
pub(crate) proof fn lemma_slide_row_empty(t: Seq<u8>)
    requires
        t.len() == 4,
        forall|k: int| 0 <= k < 4 ==> #[trigger] t[k] == 0,
    ensures
        slid_row_tiles(t) == t,
{
    reveal(slid_row_tiles);
    lemma_occupied_counts(t);
    assert(occupied(t) =~= Seq::<u8>::empty());
    assert(slid_right(t) =~= t);
    lemma_row_tiles_pack(t);
}

/// A full row without equal neighbours does not change when it slides.
pub(crate) proof fn lemma_slide_row_stuck(t: Seq<u8>)
    requires
        t.len() == 4,
        forall|k: int| 0 <= k < 4 ==> 0 < #[trigger] t[k] < 16,
        no_equal_neighbours(t),
    ensures
        slid_row_tiles(t) == t,
{
    reveal(slid_row_tiles);
    lemma_occupied_counts(t);
    lemma_merged_without_equal_neighbours(t);
    assert(slid_right(t) =~= t);
    lemma_row_tiles_pack(t);
}

/// In a full row with two equal neighbours a merge happens, and the
/// leftmost tile becomes empty.
pub(crate) proof fn lemma_slide_row_merges(t: Seq<u8>)
    requires
        t.len() == 4,
        forall|k: int| 0 <= k < 4 ==> 0 < #[trigger] t[k] < 16,
        !no_equal_neighbours(t),
    ensures
        slid_row_tiles(t)[0] == 0,
{
    reveal(slid_row_tiles);
    lemma_occupied_counts(t);
    lemma_merged_shorter(t);
    lemma_pack_zero_prefix(slid_right(t));
}

/// A row with both empty and occupied tiles that does not change when it
/// slides right has an empty leftmost and an occupied rightmost tile.
pub(crate) proof fn lemma_slide_row_settled(t: Seq<u8>)
    requires
        t.len() == 4,
        forall|k: int| 0 <= k < 4 ==> #[trigger] t[k] < 16,
        exists|k: int| 0 <= k < 4 && #[trigger] t[k] == 0,
        exists|k: int| 0 <= k < 4 && #[trigger] t[k] != 0,
        slid_row_tiles(t) == t,
    ensures
        t[0] == 0,
        t[3] != 0,
{
    reveal(slid_row_tiles);
    let occ = occupied(t);
    let m = merged_from_right(occ);
    lemma_occupied_counts(t);
    lemma_merged_len(occ);
    lemma_slid_right_shape(t);
    let x = slid_right(t);
    let p = 4 - m.len();
    assert(x[0] == 0);
    lemma_pack_zero_prefix(x);
    assert forall|k: int| 0 <= k < p implies #[trigger] t[k] == 0 by {
        assert(x[k] == 0);
        if k >= 1 {
            assert(x[0] == 0);
        }
        if k >= 2 {
            assert(x[1] == 0);
        }
    }
    lemma_occupied_zero_prefix(t, p);
    if !no_equal_neighbours(occ) {
        lemma_merged_shorter(occ);
    }
    lemma_merged_without_equal_neighbours(occ);
    lemma_occupied_bounds(t, 16);
    assert forall|k: int| 0 <= k < 4 implies #[trigger] x[k] < 16 by {
        if k >= p {
            assert(x[k] == m[3 - k]);
        }
    }
    lemma_row_tiles_pack(x);
    assert(x[3] == occ[occ.len() - 1]);
}

/// Four tiles, each fitting in 4 bits.
pub open spec fn four_tiles(t: Seq<u8>) -> bool {
    t.len() == 4 && forall|k: int| 0 <= k < 4 ==> #[trigger] t[k] < 16
}

/// The tiles of the row `t` after `calculate_row_left_to_right_slide`.
pub open spec fn row_after_slide(t: Seq<u8>) -> Seq<u8> {
    row_tiles(slide_row_right(pack_tiles(t)))
}

/// The points `slide_row_with_score` counts for the row `t`.
pub open spec fn points_of_slide(t: Seq<u8>) -> nat {
    slide_row_score(pack_tiles(t))
}

/// The row moved one place toward the right wall: the rightmost tile falls
/// off and the leftmost place becomes empty.
pub open spec fn shifted_right(t: Seq<u8>) -> Seq<u8> {
    seq![0u8, t[0], t[1], t[2]]
}

proof fn lemma_occupied_prepend_zero(u: Seq<u8>)
    ensures
        occupied(seq![0u8] + u) == occupied(u),
    decreases u.len(),
{
    if u.len() == 0 {
        assert(seq![0u8] + u =~= seq![0u8]);
        assert(seq![0u8].drop_last() =~= Seq::<u8>::empty());
        assert(seq![0u8].last() == 0);
        assert(occupied(Seq::<u8>::empty()) == Seq::<u8>::empty());
        assert(occupied(seq![0u8]) == occupied(Seq::<u8>::empty()));
    } else {
        assert((seq![0u8] + u).drop_last() =~= seq![0u8] + u.drop_last());
        assert((seq![0u8] + u).last() == u.last());
        lemma_occupied_prepend_zero(u.drop_last());
    }
}

proof fn lemma_occupied_zero_suffix(u: Seq<u8>, p: int)
    requires
        0 <= p <= u.len(),
        forall|j: int| p <= j < u.len() ==> #[trigger] u[j] == 0,
    ensures
        occupied(u) == occupied(u.take(p)),
    decreases u.len(),
{
    if u.len() > p {
        let d = u.drop_last();
        assert forall|j: int| p <= j < d.len() implies #[trigger] d[j] == 0 by {
            assert(d[j] == u[j]);
        }
        lemma_occupied_zero_suffix(d, p);
        assert(d.take(p) =~= u.take(p));
    } else {
        assert(u.take(p) =~= u);
    }
}

proof fn lemma_last_occupied(u: Seq<u8>)
    requires
        occupied(u).len() > 0,
    ensures
        exists|k: int|
            0 <= k < u.len() && u[k] != 0 && occupied(u).last() == u[k] && (forall|j: int|
                k < j < u.len() ==> #[trigger] u[j] == 0),
    decreases u.len(),
{
    if u.last() != 0 {
        assert(occupied(u).last() == u[u.len() - 1]);
    } else {
        let d = u.drop_last();
        lemma_last_occupied(d);
        let k = choose|k: int|
            0 <= k < d.len() && d[k] != 0 && occupied(d).last() == d[k] && (forall|j: int|
                k < j < d.len() ==> #[trigger] d[j] == 0);
        assert(u[k] == d[k]);
        assert forall|j: int| k < j < u.len() implies #[trigger] u[j] == 0 by {
            if j < d.len() {
                assert(u[j] == d[j]);
            }
        }
    }
}

/// When the merged tiles fit in 4 bits, the slid row holds them exactly.
proof fn lemma_slid_exact(t: Seq<u8>)
    requires
        four_tiles(t),
        merges_fit(t),
    ensures
        row_after_slide(t) == slid_right(t),
        points_of_slide(t) == merge_score(occupied(t)),
{
    let m = merged_from_right(occupied(t));
    lemma_row_tiles_pack(t);
    lemma_occupied_bounds(t, 16);
    lemma_merged_len(occupied(t));
    assert forall|k: int| 0 <= k < 4 implies slid_right(t)[k] < 16 by {
        if 3 - k < m.len() {
            assert(slid_right(t)[k] == m[3 - k]);
        }
    }
    lemma_row_tiles_pack(slid_right(t));
}

/// Merges of a shorter row fit when those of the longer one, which holds
/// its merged tiles after one more, fit.
proof fn lemma_merges_fit_tail(t: Seq<u8>, u: Seq<u8>, x: u8)
    requires
        merges_fit(t),
        merged_from_right(occupied(t)) == seq![x] + merged_from_right(occupied(u)),
    ensures
        merges_fit(u),
        x < 16,
{
    let m = merged_from_right(occupied(t));
    assert(m[0] == x);
    assert forall|k: int| 0 <= k < merged_from_right(occupied(u)).len() implies #[trigger] merged_from_right(occupied(u))[k] < 16 by {
        assert(m[k + 1] == merged_from_right(occupied(u))[k]);
    }
}

/// A row whose rightmost place is empty slides as the row moved one place
/// right: the same tiles and the same points.
pub proof fn lemma_slide_row_empty_wall(t: Seq<u8>)
    requires
        four_tiles(t),
        t[3] == 0,
    ensures
        row_after_slide(t) == row_after_slide(shifted_right(t)),
        points_of_slide(t) == points_of_slide(shifted_right(t)),
{
    let u = shifted_right(t);
    lemma_row_tiles_pack(t);
    lemma_row_tiles_pack(u);
    assert(u =~= seq![0u8] + t.take(3));
    lemma_occupied_prepend_zero(t.take(3));
    assert(t.drop_last() =~= t.take(3));
}

/// A row whose rightmost tile is occupied and differs from the nearest
/// occupied tile to its left keeps that tile at the wall; the rest of the
/// row slides as the row moved one place right, and the points are the
/// same. (Provided no two tiles of 32768 merge into a tile that does not
/// fit in 4 bits.)
pub proof fn lemma_slide_row_keeps_wall_tile(t: Seq<u8>)
    requires
        four_tiles(t),
        t[3] != 0,
        forall|k: int|
            0 <= k < 3 && #[trigger] t[k] != 0 && (forall|j: int| k < j < 3 ==> t[j] == 0) ==> t[k]
                != t[3],
        merges_fit(t),
    ensures
        row_after_slide(t)[3] == t[3],
        row_after_slide(t).take(3) == row_after_slide(shifted_right(t)).skip(1),
        points_of_slide(t) == points_of_slide(shifted_right(t)),
{
    let u = shifted_right(t);
    let s = occupied(t.take(3));
    assert(t.drop_last() =~= t.take(3));
    assert(occupied(t) == s.push(t[3]));
    assert(u =~= seq![0u8] + t.take(3));
    lemma_occupied_prepend_zero(t.take(3));
    if s.len() > 0 {
        lemma_last_occupied(t.take(3));
        let k = choose|k: int|
            0 <= k < 3 && t.take(3)[k] != 0 && s.last() == t.take(3)[k] && (forall|j: int|
                k < j < 3 ==> #[trigger] t.take(3)[j] == 0);
        assert forall|j: int| k < j < 3 implies t[j] == 0 by {
            assert(t.take(3)[j] == t[j]);
        }
        assert(t[k] != 0);
        assert(s.last() != t[3]);
    }
    assert(s.push(t[3]).drop_last() =~= s);
    let m = merged_from_right(occupied(t));
    let m2 = merged_from_right(s);
    assert(m == seq![t[3]] + m2);
    lemma_merges_fit_tail(t, u, t[3]);
    lemma_row_tiles_pack(u);
    assert(four_tiles(u));
    lemma_slid_exact(t);
    lemma_slid_exact(u);
    assert(row_after_slide(t).take(3) =~= row_after_slide(u).skip(1));
}

/// A row whose rightmost tile equals the nearest occupied tile to its left
/// (at `k`) merges those two into a tile of exponent one higher at the wall
/// and earns its value; the rest of the row slides as the row without
/// those two tiles, moved one place right. (Provided no two tiles of 32768
/// merge into a tile that does not fit in 4 bits.)
pub proof fn lemma_slide_row_merges_at_wall(t: Seq<u8>, k: int)
    requires
        four_tiles(t),
        0 <= k < 3,
        t[3] != 0,
        t[k] == t[3],
        forall|j: int| k < j < 3 ==> #[trigger] t[j] == 0,
        merges_fit(t),
    ensures
        row_after_slide(t)[3] == t[3] + 1,
        row_after_slide(t).take(3) == row_after_slide(shifted_right(t.update(k, 0u8))).skip(1),
        points_of_slide(t) == pow2((t[3] + 1) as nat) + points_of_slide(
            shifted_right(t.update(k, 0u8)),
        ),
{
    let v = t.update(k, 0u8);
    let u = shifted_right(v);
    let p = occupied(t.take(k));
    assert(t.drop_last() =~= t.take(3));
    assert forall|j: int| k + 1 <= j < 3 implies #[trigger] t.take(3)[j] == 0 by {
        assert(t.take(3)[j] == t[j]);
    }
    lemma_occupied_zero_suffix(t.take(3), k + 1);
    assert(t.take(3).take(k + 1) =~= t.take(k + 1));
    assert(t.take(k + 1).drop_last() =~= t.take(k));
    assert(occupied(t.take(k + 1)) == p.push(t[k]));
    let s = p.push(t[k]).push(t[3]);
    assert(occupied(t) == s);
    assert(s.take(s.len() - 2) =~= p);
    assert forall|j: int| k <= j < 3 implies #[trigger] v.take(3)[j] == 0 by {
        assert(v.take(3)[j] == v[j]);
    }
    lemma_occupied_zero_suffix(v.take(3), k);
    assert(v.take(3).take(k) =~= t.take(k));
    assert(u =~= seq![0u8] + v.take(3));
    lemma_occupied_prepend_zero(v.take(3));
    assert(occupied(u) == p);
    let x = (t[3] + 1) as u8;
    assert(merged_from_right(occupied(t)) == seq![x] + merged_from_right(p));
    lemma_merges_fit_tail(t, u, x);
    assert(four_tiles(u));
    lemma_slid_exact(t);
    lemma_slid_exact(u);
    assert(row_after_slide(t).take(3) =~= row_after_slide(u).skip(1));
}

/// An empty row stays empty and earns nothing.
pub proof fn lemma_slide_row_all_empty(t: Seq<u8>)
    requires
        four_tiles(t),
        forall|k: int| 0 <= k < 4 ==> #[trigger] t[k] == 0,
    ensures
        row_after_slide(t) == t,
        points_of_slide(t) == 0,
{
    lemma_row_tiles_pack(t);
    lemma_occupied_counts(t);
    assert(occupied(t) =~= Seq::<u8>::empty());
    assert(slid_right(t) =~= t);
    lemma_row_tiles_pack(t);
}

} // verus!
