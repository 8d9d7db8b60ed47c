//! A game of 2048: a board, the score, and the random generator that places
//! a new tile after every move.

use rand::rngs::SmallRng;
use rand::{RngExt, SeedableRng};
use vstd::prelude::*;

use crate::board::{Board, can_slide, mask_bit, slid_grid, slide_score};
pub use crate::board::Direction;

verus! {

#[verifier::external_type_specification]
#[verifier::external_body]
pub struct ExSmallRng(SmallRng);

/// A random generator together with the seed it was started from and a
/// record of what it was asked and what it answered.
pub struct SeededRng {
    rng: SmallRng,
    seed: Ghost<u64>,
    below_draws: Ghost<Seq<(u32, u32)>>,
    ratio_draws: Ghost<Seq<(u32, u32, bool)>>,
}

impl SeededRng {
    /// The seed the generator was started from.
    pub closed spec fn start(&self) -> u64 {
        self.seed@
    }

    /// Every number drawn below a bound so far, in order, as `(bound, number)`.
    pub closed spec fn index_draws(&self) -> Seq<(u32, u32)> {
        self.below_draws@
    }

    /// Every yes/no drawn so far, in order, as `(numerator, denominator, outcome)`.
    pub closed spec fn odds_draws(&self) -> Seq<(u32, u32, bool)> {
        self.ratio_draws@
    }
}

/// `SmallRng::seed_from_u64`: a generator whose state is derived from
/// `seed`, recorded with the seed it was given. The state itself, and so
/// what the generator draws, is not stated: it is opaque here, and rand
/// documents `SmallRng`'s algorithm as platform-dependent.
#[verifier::external_body]
fn seeded_rng(seed: u64) -> (r: SeededRng)
    ensures
        r.start() == seed,
        r.index_draws() == Seq::<(u32, u32)>::empty(),
        r.odds_draws() == Seq::<(u32, u32, bool)>::empty(),
{
    SeededRng {
        rng: SmallRng::seed_from_u64(seed),
        seed: Ghost(seed),
        below_draws: Ghost(Seq::empty()),
        ratio_draws: Ghost(Seq::empty()),
    }
}

/// `RngExt::random_range` over `0..bound`, which panics on an empty range:
/// a number below `bound`, recorded with the bound. Which number depends on
/// the generator's state.
#[verifier::external_body]
fn random_below(rng: &mut SeededRng, bound: u32) -> (r: u32)
    requires
        bound > 0,
    ensures
        r < bound,
        final(rng).start() == old(rng).start(),
        final(rng).index_draws() == old(rng).index_draws().push((bound, r)),
        final(rng).odds_draws() == old(rng).odds_draws(),
{
    let r = rng.rng.random_range(0..bound);
    rng.below_draws = Ghost(rng.below_draws@.push((bound, r)));
    r
}

/// `RngExt::random_ratio`: true with probability `numerator / denominator`;
/// it panics on a zero denominator or a numerator above it. Always false for
/// a zero numerator and always true when numerator equals denominator;
/// otherwise the outcome depends on the generator's state and is not stated.
/// The odds asked for and the outcome are recorded.
#[verifier::external_body]
fn random_ratio(rng: &mut SeededRng, numerator: u32, denominator: u32) -> (r: bool)
    requires
        0 < denominator,
        numerator <= denominator,
    ensures
        numerator == 0 ==> !r,
        numerator == denominator ==> r,
        final(rng).start() == old(rng).start(),
        final(rng).index_draws() == old(rng).index_draws(),
        final(rng).odds_draws() == old(rng).odds_draws().push((numerator, denominator, r)),
{
    let r = rng.rng.random_ratio(numerator, denominator);
    rng.ratio_draws = Ghost(rng.ratio_draws@.push((numerator, denominator, r)));
    r
}

/// `rand::random::<u64>()`: a number from the thread-local generator, which
/// is seeded from the operating system. Nothing is stated of it.
#[verifier::external_body]
fn random_seed() -> u64 {
    rand::random()
}

/// The number of set bits among bits `0..n` of `m`.
pub open spec fn ones_below(m: u16, n: nat) -> nat
    decreases n,
{
    if n == 0 {
        0
    } else {
        ones_below(m, (n - 1) as nat) + if mask_bit(m, (n - 1) as u16) {
            1nat
        } else {
            0nat
        }
    }
}

/// `u16::count_ones`: the number of ones in the binary representation.
#[verifier::external_body]
fn count_ones(mask: u16) -> (n: u32)
    ensures
        n == ones_below(mask, 16),
{
    mask.count_ones()
}

/// The number of tiles `j < i` that are marked in `mask`: tile `j` is marked
/// by bit `15 - j`.
pub open spec fn marked_before(mask: u16, i: nat) -> nat
    decreases i,
{
    if i == 0 {
        0
    } else {
        marked_before(mask, (i - 1) as nat) + if mask_bit(mask, (16 - i) as u16) {
            1nat
        } else {
            0nat
        }
    }
}

proof fn lemma_bit_test(m: u16, k: u16)
    by (bit_vector)
    requires
        k < 16,
    ensures
        (m & (1u16 << k) != 0) == mask_bit(m, k),
{
}

proof fn lemma_marked_total(mask: u16, i: nat)
    requires
        i <= 16,
    ensures
        marked_before(mask, i) + ones_below(mask, (16 - i) as nat) == ones_below(mask, 16),
    decreases i,
{
    if i > 0 {
        lemma_marked_total(mask, (i - 1) as nat);
    }
}

proof fn lemma_no_ones(mask: u16, n: nat)
    requires
        n <= 16,
        ones_below(mask, n) == 0,
    ensures
        forall|k: u16| k < n ==> !#[trigger] mask_bit(mask, k),
    decreases n,
{
    if n > 0 {
        lemma_no_ones(mask, (n - 1) as nat);
    }
}

/// The index of the tile that is the `n`-th (counting from 0, by increasing
/// index) among the tiles marked in `mask`, where tile `i` is marked by bit
/// `15 - i`.
pub fn nth_marked_tile(mask: u16, n: u32) -> (i: u8)
    requires
        n < ones_below(mask, 16),
    ensures
        i < 16,
        mask_bit(mask, (15 - i) as u16),
        marked_before(mask, i as nat) == n,
{
    let mut i: u8 = 0;
    let mut seen: u32 = 0;
    proof {
        lemma_marked_total(mask, 16);
    }
    while i < 16
        invariant
            i <= 16,
            n < ones_below(mask, 16),
            seen == marked_before(mask, i as nat),
            seen <= n,
            marked_before(mask, 16) == ones_below(mask, 16),
        decreases 16 - i,
    {
        proof {
            lemma_bit_test(mask, (15 - i) as u16);
        }
        if mask & (1u16 << ((15 - i) as u16)) != 0 {
            if seen == n {
                return i;
            }
            seen += 1;
        }
        i += 1;
    }
    proof {
        assert(false);
    }
    0
}

/// The number of empty tiles `j < i` of the board `g`.
pub open spec fn empty_before(g: Seq<u8>, i: int) -> nat
    decreases i,
{
    if i <= 0 {
        0
    } else {
        empty_before(g, i - 1) + if g[i - 1] == 0 {
            1nat
        } else {
            0nat
        }
    }
}

/// When tile `j` is marked by bit `15 - j` exactly when it is empty, the
/// marked tiles before `i` are the empty tiles before `i`.
proof fn lemma_marked_counts_empty(mask: u16, g: Seq<u8>, i: nat)
    requires
        i <= 16,
        forall|j: u16|
            #![trigger mask_bit(mask, (15 - j) as u16)]
            #![trigger g[j as int]]
            j < 16 ==> (mask_bit(mask, (15 - j) as u16) <==> g[j as int] == 0),
    ensures
        marked_before(mask, i) == empty_before(g, i as int),
    decreases i,
{
    if i > 0 {
        lemma_marked_counts_empty(mask, g, (i - 1) as nat);
        let j = (i - 1) as u16;
        assert(mask_bit(mask, (15 - j) as u16) <==> g[j as int] == 0);
        assert((15 - j) as u16 == (16 - i) as u16);
    }
}

/// The board with a new tile on its `idx`-th empty tile (counting from 0,
/// by increasing index): a 2 when `two` holds, a 4 otherwise.
pub fn place_new_tile(board: Board, idx: u32, two: bool) -> (b: Board)
    requires
        idx < empty_before(board@, 16),
    ensures
        exists|i: int|
            0 <= i < 16 && board@[i] == 0 && empty_before(board@, i) == idx && b@ == board@.update(
                i,
                if two {
                    1u8
                } else {
                    2u8
                },
            ),
{
    let mask = board.empty_mask();
    proof {
        board.lemma_view_wf();
        lemma_marked_total(mask, 16);
        lemma_marked_counts_empty(mask, board@, 16);
    }
    let chosen_i = nth_marked_tile(mask, idx);
    proof {
        lemma_marked_counts_empty(mask, board@, chosen_i as nat);
        assert(board@[chosen_i as int] == 0);
    }
    let exponent: u8 = if two {
        1
    } else {
        2
    };
    board.with_tile_by_index(chosen_i, exponent)
}

proof fn lemma_no_empty(g: Seq<u8>, i: int)
    requires
        0 <= i <= 16,
        empty_before(g, i) == 0,
    ensures
        forall|j: int| 0 <= j < i ==> #[trigger] g[j] != 0,
    decreases i,
{
    if i > 0 {
        lemma_no_empty(g, i - 1);
    }
}

/// What a new tile is drawn from: the number of empty tiles (the tile is the
/// n-th empty one for a number n drawn below it), and the odds
/// `numerator / denominator` = 9/10 that it is a 2 rather than a 4.
pub fn spawn_draw(board: &Board) -> (r: (u32, u32, u32))
    ensures
        r.0 == empty_before(board@, 16),
        r.1 == 9,
        r.2 == 10,
{
    let mask = board.empty_mask();
    let empty_count = count_ones(mask);
    proof {
        board.lemma_view_wf();
        lemma_marked_total(mask, 16);
        lemma_marked_counts_empty(mask, board@, 16);
    }
    (empty_count, 9, 10)
}

/// `after` is `before` with one empty tile set to a 2 (exponent 1) or a 4
/// (exponent 2); when no tile of `before` is empty, `after` is `before`.
pub open spec fn spawned(before: Seq<u8>, after: Seq<u8>) -> bool {
    if forall|i: int| 0 <= i < 16 ==> before[i] != 0 {
        after == before
    } else {
        exists|i: int, e: u8|
            0 <= i < 16 && before[i] == 0 && (e == 1 || e == 2) && after == before.update(i, e)
    }
}

/// `after` is `before` with its `idx`-th empty tile (counting from 0, by
/// increasing index) set to a 2 (exponent 1) when `two` holds, else a 4.
pub open spec fn placed(before: Seq<u8>, idx: u32, two: bool, after: Seq<u8>) -> bool {
    exists|i: int|
        0 <= i < 16 && before[i] == 0 && empty_before(before, i) == idx && after == before.update(
            i,
            if two {
                1u8
            } else {
                2u8
            },
        )
}

/// The game `after` holds the board `board` with a new tile drawn as the
/// rules say, its generator having drawn `tiles_before` and `twos_before`
/// until then: when `board` has an empty tile, one number is drawn below
/// the number of empty tiles, then one yes/no with odds 9/10, and the new
/// tile is a 2 on that empty tile when the draw said yes, else a 4. When
/// `board` is full, nothing is drawn and nothing placed.
pub open spec fn drew_new_tile(
    board: Seq<u8>,
    tiles_before: Seq<(u32, u32)>,
    twos_before: Seq<(u32, u32, bool)>,
    after: Game,
) -> bool {
    if empty_before(board, 16) == 0 {
        &&& after.tiles() == board
        &&& after.tile_draws() == tiles_before
        &&& after.two_draws() == twos_before
    } else {
        let (bound, idx) = after.tile_draws().last();
        let (numerator, denominator, two) = after.two_draws().last();
        &&& after.tile_draws() == tiles_before.push((bound, idx))
        &&& after.two_draws() == twos_before.push((numerator, denominator, two))
        &&& bound == empty_before(board, 16)
        &&& numerator == 9 && denominator == 10
        &&& placed(board, idx, two, after.tiles())
    }
}

/// A new tile goes on an empty tile, the one whose count of empty tiles
/// before it is the number drawn; it is a 2 exactly when the 9-in-10 draw
/// came out yes and a 4 otherwise; every other tile stays as it was.
pub proof fn lemma_new_tile_follows_draws(
    board: Seq<u8>,
    tiles_before: Seq<(u32, u32)>,
    twos_before: Seq<(u32, u32, bool)>,
    after: Game,
)
    requires
        board.len() == 16,
        empty_before(board, 16) > 0,
        drew_new_tile(board, tiles_before, twos_before, after),
    ensures
        after.two_draws().last().0 == 9 && after.two_draws().last().1 == 10,
        after.tile_draws().last().1 < after.tile_draws().last().0,
        after.tile_draws().last().0 == empty_before(board, 16),
        exists|i: int|
            0 <= i < 16 && board[i] == 0 && empty_before(board, i) == after.tile_draws().last().1
                && after.tiles()[i] == (if after.two_draws().last().2 {
                1u8
            } else {
                2u8
            }) && (forall|j: int| 0 <= j < 16 && j != i ==> #[trigger] after.tiles()[j] == board[j]),
{
    let (bound, idx) = after.tile_draws().last();
    let two = after.two_draws().last().2;
    let i = choose|i: int|
        0 <= i < 16 && board[i] == 0 && empty_before(board, i) == idx && after.tiles()
            == board.update(i, if two { 1u8 } else { 2u8 });
    lemma_empty_before_monotone(board, i + 1, 16);
    assert(empty_before(board, i + 1) == empty_before(board, i) + 1);
}

proof fn lemma_empty_before_monotone(g: Seq<u8>, i: int, j: int)
    requires
        0 <= i <= j,
    ensures
        empty_before(g, i) <= empty_before(g, j),
    decreases j - i,
{
    if i < j {
        lemma_empty_before_monotone(g, i, j - 1);
    }
}

/// A game of 2048.
pub struct Game {
    board: Board,
    score: u32,
    seed: Option<u64>,
    rng: SeededRng,
    move_number: u32,
}

impl Game {
    /// The tiles of the board.
    pub closed spec fn tiles(&self) -> Seq<u8> {
        self.board@
    }

    /// The points earned so far.
    pub closed spec fn points(&self) -> nat {
        self.score as nat
    }

    /// The number of moves made so far.
    pub closed spec fn moves(&self) -> nat {
        self.move_number as nat
    }

    /// The seed the game's generator started from, if it is known.
    pub closed spec fn start_seed(&self) -> Option<u64> {
        self.seed
    }

    /// The seed that the game's generator was actually started from.
    pub closed spec fn rng_seed(&self) -> u64 {
        self.rng.start()
    }

    /// The numbers the game's generator drew to choose an empty tile, as
    /// `(bound, number)`.
    pub closed spec fn tile_draws(&self) -> Seq<(u32, u32)> {
        self.rng.index_draws()
    }

    /// The yes/no draws of the game's generator, as `(numerator, denominator, outcome)`.
    pub closed spec fn two_draws(&self) -> Seq<(u32, u32, bool)> {
        self.rng.odds_draws()
    }

    /// Place a 2 (with probability 9/10) or a 4 on a random empty tile, if any.
    fn spawn_tile(&mut self)
        ensures
            spawned(old(self).tiles(), final(self).tiles()),
            final(self).points() == old(self).points(),
            final(self).moves() == old(self).moves(),
            final(self).start_seed() == old(self).start_seed(),
            final(self).rng_seed() == old(self).rng_seed(),
            drew_new_tile(old(self).tiles(), old(self).tile_draws(), old(self).two_draws(), *final(self)),
    {
        let (empty_count, numerator, denominator) = spawn_draw(&self.board);
        if empty_count == 0 {
            proof {
                self.board.lemma_view_wf();
                lemma_no_empty(self.board@, 16);
            }
            return;
        }
        let idx = random_below(&mut self.rng, empty_count);
        let two = random_ratio(&mut self.rng, numerator, denominator);
        self.board = place_new_tile(self.board, idx, two);
    }

    /// A new game: an empty board with one tile placed by a generator seeded with `seed`.
    pub fn from_seed(seed: u64) -> (g: Self)
        ensures
            spawned(Seq::new(16, |i: int| 0u8), g.tiles()),
            g.points() == 0,
            g.moves() == 0,
            g.start_seed() == Some(seed),
            g.rng_seed() == seed,
            drew_new_tile(Seq::new(16, |i: int| 0u8), Seq::empty(), Seq::empty(), g),
    {
        let mut instance = Self {
            board: Board::default(),
            score: 0,
            seed: Some(seed),
            rng: seeded_rng(seed),
            move_number: 0,
        };
        instance.spawn_tile();
        instance
    }

    /// Attempts to make a move in the given direction, returning true if the
    /// move was successful: the board changed, the points of the merges were
    /// added to the score, and a new tile was placed.
    pub fn make_move(&mut self, direction: Direction) -> (moved: bool)
        requires
            can_slide(old(self).tiles(), direction) ==> old(self).points() + slide_score(
                old(self).tiles(),
                direction,
            ) <= u32::MAX && old(self).moves() < u32::MAX,
        ensures
            moved == can_slide(old(self).tiles(), direction),
            !moved ==> *final(self) == *old(self),
            moved ==> spawned(slid_grid(old(self).tiles(), direction), final(self).tiles())
                && final(self).points() == old(self).points() + slide_score(
                old(self).tiles(),
                direction,
            ) && final(self).moves() == old(self).moves() + 1 && final(self).start_seed() == old(
                self,
            ).start_seed() && final(self).rng_seed() == old(self).rng_seed() && drew_new_tile(
                slid_grid(old(self).tiles(), direction),
                old(self).tile_draws(),
                old(self).two_draws(),
                *final(self),
            ),
    {
        if let Some((board, move_score)) = self.board.slide_with_score(direction) {
            self.board = board;
            self.score += move_score;
            self.move_number += 1;
            self.spawn_tile();
            true
        } else {
            false
        }
    }

    /// The board.
    pub fn board(&self) -> (b: &Board)
        ensures
            b@ == self.tiles(),
    {
        &self.board
    }

    /// The points earned so far.
    pub fn score(&self) -> (s: u32)
        ensures
            s == self.points(),
    {
        self.score
    }

    /// The number of moves made so far.
    pub fn move_number(&self) -> (n: u32)
        ensures
            n == self.moves(),
    {
        self.move_number
    }

    /// The seed the game's generator started from, if it is known.
    pub fn seed(&self) -> (s: Option<u64>)
        ensures
            s == self.start_seed(),
    {
        self.seed
    }

    /// Returns true if the game is over: no slide in any direction changes the board.
    pub fn is_game_over(&self) -> (over: bool)
        ensures
            over == (!can_slide(self.tiles(), Direction::Left) && !can_slide(
                self.tiles(),
                Direction::Right,
            ) && !can_slide(self.tiles(), Direction::Up) && !can_slide(
                self.tiles(),
                Direction::Down,
            )),
    {
        self.board.is_game_over()
    }
}

impl Default for Game {
    /// A new game from a seed drawn from the thread-local generator.
    fn default() -> (g: Self)
        ensures
            spawned(Seq::new(16, |i: int| 0u8), g.tiles()),
            g.points() == 0,
            g.moves() == 0,
            g.start_seed() == Some(g.rng_seed()),
            drew_new_tile(Seq::new(16, |i: int| 0u8), Seq::empty(), Seq::empty(), g),
    {
        Game::from_seed(random_seed())
    }
}

} // verus!
