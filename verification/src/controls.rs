//! Which key does what: the arrow keys and W/A/S/D slide the board, Q quits.

use vstd::prelude::*;

use crate::board::Direction;

verus! {

/// A key that the player pressed.
#[derive(Debug, Clone, Copy, PartialEq, Eq, Structural)]
pub enum Key {
    Char(char),
    Up,
    Down,
    Left,
    Right,
    Other,
}

/// What a key press asks for.
#[derive(Debug, Clone, Copy, PartialEq, Eq, Structural)]
pub enum Command {
    Quit,
    Move(Direction),
}

/// The command bound to a key, if any: Q quits; the arrow keys and W (up),
/// A (left), S (down), D (right) slide the board.
pub open spec fn key_command(key: Key) -> Option<Command> {
    match key {
        Key::Char('q') => Some(Command::Quit),
        Key::Up | Key::Char('w') => Some(Command::Move(Direction::Up)),
        Key::Left | Key::Char('a') => Some(Command::Move(Direction::Left)),
        Key::Down | Key::Char('s') => Some(Command::Move(Direction::Down)),
        Key::Right | Key::Char('d') => Some(Command::Move(Direction::Right)),
        _ => None,
    }
}

/// The command bound to a key, if any.
pub fn command_for_key(key: Key) -> (c: Option<Command>)
    ensures
        c == key_command(key),
{
    match key {
        Key::Char('q') => Some(Command::Quit),
        Key::Up => Some(Command::Move(Direction::Up)),
        Key::Left => Some(Command::Move(Direction::Left)),
        Key::Down => Some(Command::Move(Direction::Down)),
        Key::Right => Some(Command::Move(Direction::Right)),
        Key::Char('w') => Some(Command::Move(Direction::Up)),
        Key::Char('a') => Some(Command::Move(Direction::Left)),
        Key::Char('s') => Some(Command::Move(Direction::Down)),
        Key::Char('d') => Some(Command::Move(Direction::Right)),
        _ => None,
    }
}

/// Only Q quits; a key slides the board up exactly when it is the up arrow
/// or W, left exactly when it is the left arrow or A, down exactly when it
/// is the down arrow or S, right exactly when it is the right arrow or D;
/// every other key does nothing.
pub proof fn lemma_key_bindings(key: Key)
    ensures
        key_command(key) == Some(Command::Quit) <==> key == Key::Char('q'),
        key_command(key) == Some(Command::Move(Direction::Up)) <==> (key == Key::Up || key
            == Key::Char('w')),
        key_command(key) == Some(Command::Move(Direction::Left)) <==> (key == Key::Left || key
            == Key::Char('a')),
        key_command(key) == Some(Command::Move(Direction::Down)) <==> (key == Key::Down || key
            == Key::Char('s')),
        key_command(key) == Some(Command::Move(Direction::Right)) <==> (key == Key::Right || key
            == Key::Char('d')),
        key_command(key) is None <==> !(key == Key::Char('q') || key == Key::Up || key == Key::Down
            || key == Key::Left || key == Key::Right || key == Key::Char('w') || key == Key::Char(
            'a',
        ) || key == Key::Char('s') || key == Key::Char('d')),
{
}

} // verus!
