use game2048::board::Board;
use game2048::game::{Direction, Game, nth_marked_tile, place_new_tile, spawn_draw};

fn tile_count(board: &Board) -> usize {
    (0..16).filter(|&i| board.get_by_index(i) != 0).count()
}

#[test]
fn test_spawn_tile_bug_seed_15004643031978470866() {
    let mut game = Game::from_seed(15004643031978470866);
    game.make_move(Direction::Right);
    // This should not panic: attempting to spawn a tile on a non-empty space
    game.make_move(Direction::Right);
}

#[test]
fn test_spawn_tile_bug_seed_15004643031978470866_up_right_right_up_right_right_right_up_up_right()
{
    let mut game = Game::from_seed(15004643031978470866);
    game.make_move(Direction::Up);
    game.make_move(Direction::Right);
    game.make_move(Direction::Right);
    game.make_move(Direction::Up);
    game.make_move(Direction::Right);
    game.make_move(Direction::Right);
    game.make_move(Direction::Right);
    game.make_move(Direction::Up);
    game.make_move(Direction::Up);
    // This should not panic: attempting to spawn a tile on a non-empty space
    game.make_move(Direction::Right);
}

#[test]
fn test_spawn_tile_bug_seed_15004643031978470866_down_down_down_right() {
    let mut game = Game::from_seed(15004643031978470866);
    game.make_move(Direction::Down);
    game.make_move(Direction::Down);
    game.make_move(Direction::Down);
    // This should not panic: attempting to spawn a tile on a non-empty space
    game.make_move(Direction::Right);
}

#[test]
fn test_spawn_tile_bug_seed_15004643031978470866_right_down_right_right_down() {
    let mut game = Game::from_seed(15004643031978470866);
    game.make_move(Direction::Right);
    game.make_move(Direction::Down);
    game.make_move(Direction::Right);
    game.make_move(Direction::Right);
    // This should not panic: attempting to spawn a tile on a non-empty space
    game.make_move(Direction::Down);
}

#[test]
fn test_spawn_tile_bug_seed_15004643031978470866_right_down_down() {
    let mut game = Game::from_seed(15004643031978470866);
    game.make_move(Direction::Right);
    game.make_move(Direction::Down);
    // This should not panic: attempting to spawn a tile on a non-empty space
    game.make_move(Direction::Down);
}

#[test]
fn test_spawn_tile_bug_seed_15004643031978470866_right_right_down() {
    let mut game = Game::from_seed(15004643031978470866);
    game.make_move(Direction::Right);
    game.make_move(Direction::Right);
    // This should not panic: attempting to spawn a tile on a non-empty space
    game.make_move(Direction::Down);
}

#[test]
fn new_game_has_one_small_tile_and_no_score() {
    for seed in [0u64, 1, 42, 15004643031978470866] {
        let game = Game::from_seed(seed);
        assert_eq!(tile_count(game.board()), 1);
        assert!(game.board().max_tile() == 2 || game.board().max_tile() == 4);
        assert_eq!(game.score(), 0);
        assert_eq!(game.move_number(), 0);
        assert_eq!(game.seed(), Some(seed));
    }
}

#[test]
fn same_seed_same_game() {
    let mut a = Game::from_seed(7);
    let mut b = Game::from_seed(7);
    for d in [Direction::Up, Direction::Left, Direction::Down, Direction::Right, Direction::Up] {
        assert_eq!(a.make_move(d), b.make_move(d));
        assert_eq!(a.board(), b.board());
        assert_eq!(a.score(), b.score());
    }
}

#[test]
fn successful_move_adds_score_and_one_tile() {
    let mut game = Game::from_seed(3);
    let mut moves = 0;
    for round in 0..40 {
        let d = [Direction::Up, Direction::Left, Direction::Down, Direction::Right][round % 4];
        let before = *game.board();
        let score_before = game.score();
        let expected = before.slide_with_score(d);
        let moved = game.make_move(d);
        assert_eq!(moved, expected.is_some());
        match expected {
            Some((slid, points)) => {
                moves += 1;
                assert_eq!(game.score(), score_before + points);
                assert_eq!(tile_count(game.board()), tile_count(&slid) + 1);
                for i in 0..16 {
                    if slid.get_by_index(i) != 0 {
                        assert_eq!(game.board().get_by_index(i), slid.get_by_index(i));
                    }
                }
            }
            None => {
                assert_eq!(*game.board(), before);
                assert_eq!(game.score(), score_before);
            }
        }
        assert_eq!(game.move_number(), moves);
    }
}

#[test]
fn nth_marked_tile_counts_from_the_top_left() {
    // Tiles 0 and 5 are marked (bits 15 and 10).
    let mask: u16 = 0b1000_0100_0000_0000;
    assert_eq!(nth_marked_tile(mask, 0), 0);
    assert_eq!(nth_marked_tile(mask, 1), 5);
    assert_eq!(nth_marked_tile(0xFFFF, 15), 15);
}

#[test]
fn game_over_of_fresh_game_is_false() {
    let game = Game::from_seed(11);
    assert!(!game.is_game_over());
}

#[test]
fn new_tiles_vary_in_place_and_value() {
    let mut positions = std::collections::HashSet::new();
    let mut values = std::collections::HashSet::new();
    for seed in 0..200u64 {
        let game = Game::from_seed(seed);
        for i in 0..16u8 {
            let v = game.board().get_by_index(i);
            if v != 0 {
                positions.insert(i);
                values.insert(v);
            }
        }
    }
    assert!(positions.len() > 8);
    assert_eq!(values.len(), 2);
    assert!(values.contains(&2) && values.contains(&4));
}

#[test]
fn place_new_tile_uses_the_drawn_index_and_coin() {
    // Tiles 0 and 5 are occupied; the empty tiles are 1, 2, 3, 4, 6, ...
    let board = Board::new(0).with_tile_by_index(0, 1).with_tile_by_index(5, 3);
    assert_eq!(place_new_tile(board, 0, true), board.with_tile_by_index(1, 1));
    assert_eq!(place_new_tile(board, 4, false), board.with_tile_by_index(6, 2));
    assert_eq!(place_new_tile(board, 13, true), board.with_tile_by_index(15, 1));
}

#[test]
fn spawn_draw_counts_empty_tiles_and_gives_nine_in_ten_odds() {
    assert_eq!(spawn_draw(&Board::new(0)), (16, 9, 10));
    let board = Board::new(0).with_tile_by_index(0, 1).with_tile_by_index(5, 3);
    assert_eq!(spawn_draw(&board), (14, 9, 10));
    assert_eq!(spawn_draw(&Board::new(0x1111_1111_1111_1111)), (0, 9, 10));
}
