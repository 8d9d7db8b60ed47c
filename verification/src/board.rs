//! The 4x4 board: 16 tiles of 4 bits each, packed into a `u64`.

use vstd::prelude::*;

use crate::sliding::{
    RowSlide, invert_row, merge_score, nibble, occupied, pack_tiles, row_tiles, slid_right,
    slid_row_tiles, slide_row_with_score, tile_value, lemma_row_tiles_pack, lemma_row_tiles_small,
};

verus! {

/// A direction in which the tiles of the board slide.
#[derive(Debug, Clone, Copy, PartialEq, Eq, Structural, Hash)]
pub enum Direction {
    Up,
    Down,
    Left,
    Right,
}

/// The exponent stored in cell `i` (0..16) of a packed board: bits `4i..4i+4`.
pub open spec fn cell(b: u64, i: u64) -> u8 {
    ((b >> ((i * 4) as u64)) & 0xF) as u8
}

/// A 2048 board.
///
/// Its view is the sequence of the 16 tile exponents (0 for an empty tile,
/// 1 for a 2, 2 for a 4, ...), in the order (0,0), (1,0), (2,0), (3,0),
/// (0,1), ... (3,3): tile (x,y) is at index `x + 4y`, (0,0) is the top-left
/// corner and is stored in the least significant 4 bits.
#[derive(Debug, Clone, Copy, PartialEq, Eq, Structural, Hash)]
pub struct Board {
    board: u64,
}

impl View for Board {
    type V = Seq<u8>;

    open spec fn view(&self) -> Seq<u8> {
        Seq::new(16, |i: int| cell(self.packed(), i as u64))
    }
}

/// Every cell of a packed board fits in 4 bits.
pub proof fn lemma_cell_small(b: u64, i: u64)
    by (bit_vector)
    ensures
        cell(b, i) < 16,
{
}

proof fn lemma_cells_determine_bits(a: u64, b: u64)
    by (bit_vector)
    requires
        cell(a, 0) == cell(b, 0),
        cell(a, 1) == cell(b, 1),
        cell(a, 2) == cell(b, 2),
        cell(a, 3) == cell(b, 3),
        cell(a, 4) == cell(b, 4),
        cell(a, 5) == cell(b, 5),
        cell(a, 6) == cell(b, 6),
        cell(a, 7) == cell(b, 7),
        cell(a, 8) == cell(b, 8),
        cell(a, 9) == cell(b, 9),
        cell(a, 10) == cell(b, 10),
        cell(a, 11) == cell(b, 11),
        cell(a, 12) == cell(b, 12),
        cell(a, 13) == cell(b, 13),
        cell(a, 14) == cell(b, 14),
        cell(a, 15) == cell(b, 15),
    ensures
        a == b,
{
}

proof fn lemma_set_cell(b: u64, i: u64, e: u8, j: u64)
    by (bit_vector)
    requires
        i < 16,
        j < 16,
    ensures
        e < 16 ==> cell((b & !(0xFu64 << ((i * 4) as u64))) | ((e as u64) << ((i * 4) as u64)), j)
            == if j == i {
            e
        } else {
            cell(b, j)
        },
{
}

/// The board flipped over its main diagonal: the tile at (x,y) goes to (y,x).
pub open spec fn transposed(g: Seq<u8>) -> Seq<u8> {
    Seq::new(16, |i: int| g[4 * (i % 4) + i / 4])
}

/// Row `r` (0..4) of the board, leftmost tile first.
pub open spec fn row_of(g: Seq<u8>, r: int) -> Seq<u8> {
    g.subrange(4 * r, 4 * r + 4)
}

/// The board after every row slid to the right.
pub open spec fn slide_grid_right(g: Seq<u8>) -> Seq<u8> {
    Seq::new(16, |i: int| slid_row_tiles(row_of(g, i / 4))[i % 4])
}

/// The board after every row slid to the left: each row is mirrored, slid
/// to the right and mirrored back.
pub open spec fn slide_grid_left(g: Seq<u8>) -> Seq<u8> {
    Seq::new(16, |i: int| slid_row_tiles(row_of(g, i / 4).reverse())[3 - i % 4])
}

/// The points earned by sliding the first `n` rows of the board to the
/// right (or, with `leftward`, to the left).
pub open spec fn rows_score(g: Seq<u8>, leftward: bool, n: int) -> nat
    decreases n,
{
    if n <= 0 {
        0
    } else {
        let t = if leftward {
            row_of(g, n - 1).reverse()
        } else {
            row_of(g, n - 1)
        };
        rows_score(g, leftward, n - 1) + merge_score(occupied(t))
    }
}

/// The board after a slide in direction `d` (whether or not anything moved).
/// Up and down slide the columns, as the rows of the transposed board.
pub open spec fn slid_grid(g: Seq<u8>, d: Direction) -> Seq<u8> {
    match d {
        Direction::Right => slide_grid_right(g),
        Direction::Left => slide_grid_left(g),
        Direction::Down => transposed(slide_grid_right(transposed(g))),
        Direction::Up => transposed(slide_grid_left(transposed(g))),
    }
}

/// The points earned by a slide in direction `d`: the value of every tile
/// that a merge creates.
pub open spec fn slide_score(g: Seq<u8>, d: Direction) -> nat {
    match d {
        Direction::Right => rows_score(g, false, 4),
        Direction::Left => rows_score(g, true, 4),
        Direction::Down => rows_score(transposed(g), false, 4),
        Direction::Up => rows_score(transposed(g), true, 4),
    }
}

/// A slide in direction `d` changes the board.
pub open spec fn can_slide(g: Seq<u8>, d: Direction) -> bool {
    slid_grid(g, d) != g
}

proof fn lemma_row_cell(b: u64, r: u64, k: u64)
    by (bit_vector)
    requires
        r < 4,
        k < 4,
    ensures
        nibble(((b >> ((r * 16) as u64)) & 0xFFFF) as u16, k as u16) == cell(b, (r * 4 + k) as u64),
{
}

proof fn lemma_or_row(nb: u64, x: u16, r: u64, j: u64, k: u64)
    by (bit_vector)
    requires
        r < 4,
        j < 16,
        k < 4,
        nb >> ((r * 16) as u64) == 0,
    ensures
        j < r * 4 ==> cell(nb | ((x as u64) << ((r * 16) as u64)), j) == cell(nb, j),
        cell(nb | ((x as u64) << ((r * 16) as u64)), (r * 4 + k) as u64) == nibble(x, k as u16),
        r < 3 ==> (nb | ((x as u64) << ((r * 16) as u64))) >> (((r + 1) * 16) as u64) == 0,
{
}

/// Bit `k` of a 16-bit mask is set.
pub open spec fn mask_bit(m: u16, k: u16) -> bool {
    (m >> k) & 1u16 == 1u16
}

proof fn lemma_set_mask_bit(m: u16, p: u16, k: u16)
    by (bit_vector)
    requires
        p < 16,
        k < 16,
    ensures
        mask_bit(m | (1u16 << p), k) == (mask_bit(m, k) || k == p),
        !mask_bit(0u16, k),
{
}

impl Board {
    /// The packed representation of the board.
    pub closed spec fn packed(&self) -> u64 {
        self.board
    }

    /// The view of a board has 16 cells, each below 16.
    pub proof fn lemma_view_wf(&self)
        ensures
            self@.len() == 16,
            forall|i: int| 0 <= i < 16 ==> #[trigger] self@[i] < 16,
    {
        assert forall|i: int| 0 <= i < 16 implies #[trigger] self@[i] < 16 by {
            lemma_cell_small(self.packed(), i as u64);
        }
    }

    /// Two boards with the same tiles are the same board.
    pub proof fn lemma_view_determines(a: Board, b: Board)
        requires
            a@ == b@,
        ensures
            a == b,
    {
        assert forall|i: u64| i < 16 implies #[trigger] cell(a.board, i) == cell(b.board, i) by {
            assert(a@[i as int] == cell(a.packed(), i) && b@[i as int] == cell(b.packed(), i));
        }
        lemma_cells_determine_bits(a.board, b.board);
    }

    /// A board whose packed representation is `initial_state`.
    pub fn new(initial_state: u64) -> (b: Self)
        ensures
            b.packed() == initial_state,
    {
        Board { board: initial_state }
    }

    /// The exponent of the tile at index i (0-15), 0 for an empty tile.
    pub fn get_exponent_by_index(&self, i: u8) -> (e: u8)
        requires
            i < 16,
        ensures
            e == self@[i as int],
    {
        let shift = i * 4;
        ((self.board >> (shift as u64)) & 0x0F) as u8
    }

    /// The exponent of the tile at (x,y), 0 for an empty tile. (0,0) is the
    /// top-left corner, (3,3) the bottom-right corner.
    pub fn get_exponent(&self, x: u8, y: u8) -> (e: u8)
        requires
            x < 4 && y < 4,
        ensures
            e == self@[x + 4 * y],
    {
        self.get_exponent_by_index(x + y * 4)
    }

    /// The value of the tile at index i (0-15): 0 for an empty tile, else 2^exponent.
    /// The order is (0,0), (1,0), (2,0), (3,0), (0,1), ..., (3,3).
    pub fn get_by_index(&self, i: u8) -> (v: u32)
        requires
            i < 16,
        ensures
            v == tile_value(self@[i as int]),
    {
        let exp = self.get_exponent_by_index(i);
        proof {
            lemma_cell_small(self.board, i as u64);
        }
        if exp == 0 {
            0
        } else {
            proof {
                vstd::bits::lemma_u32_pow2_no_overflow(exp as nat);
                vstd::bits::lemma_u32_shl_is_mul(1u32, exp as u32);
            }
            1u32 << (exp as u32)
        }
    }

    /// The value of the tile at (x,y): 0 for an empty tile, else 2^exponent.
    /// (0,0) is the top-left corner, (3,3) the bottom-right corner.
    pub fn get(&self, x: u8, y: u8) -> (v: u32)
        requires
            x < 4 && y < 4,
        ensures
            v == tile_value(self@[x + 4 * y]),
    {
        self.get_by_index(x + y * 4)
    }

    /// The board with the tile at index i (0-15) set to 2^exponent: the 4 bits
    /// of the tile are cleared, then the exponent is OR-ed in at their place.
    pub fn with_tile_by_index(&self, i: u8, exponent: u8) -> (b: Self)
        requires
            i < 16,
        ensures
            b.packed() == (self.packed() & !(0xFu64 << ((i * 4) as u64))) | ((exponent as u64) << ((
            i * 4) as u64)),
            exponent < 16 ==> b@ == self@.update(i as int, exponent),
    {
        let shift = (i * 4) as u64;
        let mask = 0xFu64 << shift;
        // First clear out the tile, then set it to the new value
        let new_board = (self.board & !mask) | ((exponent as u64) << shift);
        let b = Board::new(new_board);
        proof {
            if exponent < 16 {
                assert forall|j: int| 0 <= j < 16 implies #[trigger] b@[j] == self@.update(
                    i as int,
                    exponent,
                )[j] by {
                    lemma_set_cell(self.board, i as u64, exponent, j as u64);
                }
                assert(b@ =~= self@.update(i as int, exponent));
            }
        }
        b
    }

    /// The board with the tile at (x,y) set to 2^exponent.
    pub fn with_tile(&self, x: u8, y: u8, exponent: u8) -> (b: Self)
        requires
            x < 4 && y < 4,
        ensures
            b.packed() == (self.packed() & !(0xFu64 << (((x + 4 * y) * 4) as u64))) | ((
            exponent as u64) << (((x + 4 * y) * 4) as u64)),
            exponent < 16 ==> b@ == self@.update(x + 4 * y, exponent),
    {
        self.with_tile_by_index(x + y * 4, exponent)
    }

    /// The board flipped over its main diagonal: the tile at (x,y) moves to (y,x).
    pub fn transpose(&self) -> (t: Self)
        ensures
            t@ == transposed(self@),
    {
        let mut new_board = Board::new(0);
        let mut x: u8 = 0;
        proof {
            assert forall|k: int| 0 <= k < 16 implies #[trigger] new_board@[k] == 0u8 by {
                let kk = k as u64;
                assert(cell(0u64, kk) == 0) by (bit_vector);
            }
        }
        while x < 4
            invariant
                x <= 4,
                new_board@.len() == 16,
                forall|k: int|
                    0 <= k < 16 ==> #[trigger] new_board@[k] == if k < 4 * x {
                        self@[4 * (k % 4) + k / 4]
                    } else {
                        0u8
                    },
            decreases 4 - x,
        {
            let mut y: u8 = 0;
            while y < 4
                invariant
                    x < 4,
                    y <= 4,
                    new_board@.len() == 16,
                    forall|k: int|
                        0 <= k < 16 ==> #[trigger] new_board@[k] == if k < 4 * x + y {
                            self@[4 * (k % 4) + k / 4]
                        } else {
                            0u8
                        },
                decreases 4 - y,
            {
                let exp = self.get_exponent(x, y);
                proof {
                    self.lemma_view_wf();
                }
                new_board = new_board.with_tile_by_index(y + x * 4, exp);
                y += 1;
            }
            x += 1;
        }
        assert(new_board@ =~= transposed(self@));
        new_board
    }

    /// Row `row` (0..4) of the board, 16 bits with the leftmost tile lowest.
    fn get_row(&self, row: u8) -> (r: u16)
        requires
            row < 4,
        ensures
            row_tiles(r) == row_of(self@, row as int),
    {
        let r = ((self.board >> ((row * 16) as u64)) & 0xFFFF) as u16;
        proof {
            assert forall|k: int| 0 <= k < 4 implies #[trigger] row_tiles(r)[k] == row_of(
                self@,
                row as int,
            )[k] by {
                lemma_row_cell(self.board, row as u64, k as u64);
            }
            assert(row_tiles(r) =~= row_of(self@, row as int));
        }
        r
    }

    /// Slide every row to the right (or, with `leftward`, to the left),
    /// with the points earned.
    fn slide_rows(&self, leftward: bool) -> (r: (Self, u32))
        ensures
            r.0@ == if leftward {
                slide_grid_left(self@)
            } else {
                slide_grid_right(self@)
            },
            r.1 == rows_score(self@, leftward, 4),
    {
        let ghost want = if leftward {
            slide_grid_left(self@)
        } else {
            slide_grid_right(self@)
        };
        let mut new_board = 0u64;
        let mut score = 0u32;
        let mut row: u8 = 0;
        assert(new_board >> 0u64 == 0) by (bit_vector)
            requires
                new_board == 0,
        ;
        while row < 4
            invariant
                row <= 4,
                want == if leftward {
                    slide_grid_left(self@)
                } else {
                    slide_grid_right(self@)
                },
                row < 4 ==> new_board >> ((row * 16) as u64) == 0,
                forall|j: u64| j < row * 4 ==> #[trigger] cell(new_board, j) == want[j as int],
                score == rows_score(self@, leftward, row as int),
                score <= 131072 * row,
            decreases 4 - row,
        {
            let row_value = self.get_row(row);
            proof {
                self.lemma_view_wf();
            }
            let slid = if leftward {
                let s = slide_row_with_score(invert_row(row_value));
                RowSlide { result_row: invert_row(s.result_row), score: s.score }
            } else {
                slide_row_with_score(row_value)
            };
            proof {
                reveal(slid_row_tiles);
                let t = row_of(self@, row as int);
                if leftward {
                    lemma_row_tiles_pack(t.reverse());
                    let c = pack_tiles(slid_right(t.reverse()));
                    lemma_row_tiles_small(c);
                    lemma_row_tiles_pack(row_tiles(c).reverse());
                }
                assert forall|k: int| 0 <= k < 4 implies #[trigger] row_tiles(slid.result_row)[k]
                    == want[4 * row + k] by {
                    assert((4 * row + k) / 4 == row as int);
                    assert((4 * row + k) % 4 == k);
                }
                assert(rows_score(self@, leftward, row + 1) == rows_score(self@, leftward, row as int)
                    + slid.score);
            }
            let ghost old_board = new_board;
            new_board = new_board | ((slid.result_row as u64) << ((row * 16) as u64));
            proof {
                assert forall|j: u64| j < (row + 1) * 4 implies #[trigger] cell(new_board, j)
                    == want[j as int] by {
                    if j < row * 4 {
                        lemma_or_row(old_board, slid.result_row, row as u64, j, 0);
                    } else {
                        let k = (j - row * 4) as u64;
                        lemma_or_row(old_board, slid.result_row, row as u64, 0, k);
                    }
                }
                if row < 3 {
                    lemma_or_row(old_board, slid.result_row, row as u64, 0, 0);
                }
            }
            score = score + slid.score;
            row += 1;
        }
        let b = Board::new(new_board);
        assert forall|i: int| 0 <= i < 16 implies #[trigger] b@[i] == want[i] by {
            assert(cell(new_board, i as u64) == want[i]);
        }
        assert(b@ =~= want);
        (b, score)
    }

    /// Slide the board in the given direction, returning the new board and the
    /// points earned by merging tiles. Returns None if the board does not change.
    pub fn slide_with_score(&self, direction: Direction) -> (r: Option<(Self, u32)>)
        ensures
            r is None <==> !can_slide(self@, direction),
            r matches Some((b, s)) ==> b@ == slid_grid(self@, direction) && s == slide_score(
                self@,
                direction,
            ),
    {
        let (board, score) = match direction {
            Direction::Right => self.slide_rows(false),
            Direction::Left => self.slide_rows(true),
            Direction::Down => {
                let (b, s) = self.transpose().slide_rows(false);
                (b.transpose(), s)
            },
            Direction::Up => {
                let (b, s) = self.transpose().slide_rows(true);
                (b.transpose(), s)
            },
        };
        if board == *self {
            None
        } else {
            proof {
                if board@ == self@ {
                    Board::lemma_view_determines(board, *self);
                }
            }
            Some((board, score))
        }
    }

    /// Slide the board in the given direction. Returns None if the board does not change.
    pub fn slide(&self, direction: Direction) -> (r: Option<Self>)
        ensures
            r is None <==> !can_slide(self@, direction),
            r matches Some(b) ==> b@ == slid_grid(self@, direction),
    {
        match self.slide_with_score(direction) {
            Some((new_board, _)) => Some(new_board),
            None => None,
        }
    }

    /// A 16-bit mask with one bit per tile: bit `15 - i` is set exactly when
    /// the tile at index i is empty.
    pub fn empty_mask(&self) -> (mask: u16)
        ensures
            forall|i: u16|
                #![trigger mask_bit(mask, (15 - i) as u16)]
                #![trigger self@[i as int]]
                i < 16 ==> (mask_bit(mask, (15 - i) as u16) <==> self@[i as int] == 0),
    {
        let mut mask = 0u16;
        let mut i: u8 = 0;
        assert forall|j: u16| j < 16 implies !#[trigger] mask_bit(mask, (15 - j) as u16) by {
            lemma_set_mask_bit(mask, 0, (15 - j) as u16);
        }
        while i < 16
            invariant
                i <= 16,
                forall|j: u16|
                    #![trigger mask_bit(mask, (15 - j) as u16)]
                    #![trigger self@[j as int]]
                    j < 16 ==> (mask_bit(mask, (15 - j) as u16) <==> (j < i && self@[j as int]
                        == 0)),
            decreases 16 - i,
        {
            proof {
                self.lemma_view_wf();
            }
            let ghost old_mask = mask;
            if self.get_by_index(i) == 0 {
                mask = mask | (1u16 << ((15 - i) as u16));
                proof {
                    vstd::arithmetic::power2::lemma_pow2_pos(self@[i as int] as nat);
                    assert(self@[i as int] == 0);
                    assert forall|j: u16|
                        #![trigger mask_bit(mask, (15 - j) as u16)]
                        #![trigger self@[j as int]]
                        j < 16 implies (mask_bit(mask, (15 - j) as u16) <==> (j < i + 1
                            && self@[j as int] == 0)) by {
                        lemma_set_mask_bit(old_mask, (15 - i) as u16, (15 - j) as u16);
                    }
                }
            } else {
                proof {
                    assert(self@[i as int] != 0);
                    assert forall|j: u16|
                        #![trigger mask_bit(mask, (15 - j) as u16)]
                        #![trigger self@[j as int]]
                        j < 16 implies (mask_bit(mask, (15 - j) as u16) <==> (j < i + 1
                            && self@[j as int] == 0)) by {
                        if j == i {
                            assert(!mask_bit(mask, (15 - j) as u16));
                        }
                    }
                }
            }
            i += 1;
        }
        mask
    }

    /// Returns true if the game is over: no slide in any direction changes the board.
    pub fn is_game_over(&self) -> (over: bool)
        ensures
            over == (!can_slide(self@, Direction::Left) && !can_slide(self@, Direction::Right)
                && !can_slide(self@, Direction::Up) && !can_slide(self@, Direction::Down)),
    {
        self.slide_with_score(Direction::Left).is_none() && self.slide_with_score(
            Direction::Right,
        ).is_none() && self.slide_with_score(Direction::Up).is_none() && self.slide_with_score(
            Direction::Down,
        ).is_none()
    }

    /// The largest tile value on the board (0 for an empty board).
    pub fn max_tile(&self) -> (m: u32)
        ensures
            forall|i: int| 0 <= i < 16 ==> tile_value(#[trigger] self@[i]) <= m,
            exists|i: int| 0 <= i < 16 && m == tile_value(#[trigger] self@[i]),
    {
        let mut current = 0u32;
        let mut i: u8 = 0;
        while i < 16
            invariant
                i <= 16,
                forall|j: int| 0 <= j < i ==> tile_value(#[trigger] self@[j]) <= current,
                current == 0 || exists|j: int| 0 <= j < i && current == tile_value(
                    #[trigger] self@[j],
                ),
            decreases 16 - i,
        {
            let v = self.get_by_index(i);
            current = current.max(v);
            i += 1;
        }
        if current == 0 {
            proof {
                assert(tile_value(self@[0]) <= 0);
            }
        }
        current
    }

    /// The exponents of the four tiles of row `row` (0..4), leftmost first.
    pub fn get_row_tiles_exponents(&self, row: u8) -> (tiles: [u8; 4])
        requires
            row < 4,
        ensures
            tiles@ == row_of(self@, row as int),
    {
        let tiles = [
            self.get_exponent(0, row),
            self.get_exponent(1, row),
            self.get_exponent(2, row),
            self.get_exponent(3, row),
        ];
        assert(tiles@ =~= row_of(self@, row as int));
        tiles
    }

    /// The values of the four tiles of row `row` (0..4), leftmost first.
    pub fn get_row_tiles(&self, row: u8) -> (tiles: [u32; 4])
        requires
            row < 4,
        ensures
            forall|k: int| 0 <= k < 4 ==> tiles@[k] == tile_value(#[trigger] row_of(self@, row as int)[k]),
    {
        [self.get(0, row), self.get(1, row), self.get(2, row), self.get(3, row)]
    }
}


impl Default for Board {
    /// The empty board.
    fn default() -> (b: Self)
        ensures
            b@ == Seq::new(16, |i: int| 0u8),
    {
        let b = Board::new(0);
        assert forall|i: int| 0 <= i < 16 implies #[trigger] b@[i] == 0u8 by {
            let k = i as u64;
            assert(cell(0u64, k) == 0) by (bit_vector);
        }
        assert(b@ =~= Seq::new(16, |i: int| 0u8));
        b
    }
}

} // verus!
