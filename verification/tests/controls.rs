use game2048::board::Direction;
use game2048::controls::{Command, Key, command_for_key};

#[test]
fn keys_map_to_commands() {
    assert_eq!(command_for_key(Key::Char('q')), Some(Command::Quit));
    assert_eq!(command_for_key(Key::Up), Some(Command::Move(Direction::Up)));
    assert_eq!(command_for_key(Key::Char('w')), Some(Command::Move(Direction::Up)));
    assert_eq!(command_for_key(Key::Left), Some(Command::Move(Direction::Left)));
    assert_eq!(command_for_key(Key::Char('a')), Some(Command::Move(Direction::Left)));
    assert_eq!(command_for_key(Key::Down), Some(Command::Move(Direction::Down)));
    assert_eq!(command_for_key(Key::Char('s')), Some(Command::Move(Direction::Down)));
    assert_eq!(command_for_key(Key::Right), Some(Command::Move(Direction::Right)));
    assert_eq!(command_for_key(Key::Char('d')), Some(Command::Move(Direction::Right)));
}

#[test]
fn other_keys_do_nothing() {
    assert_eq!(command_for_key(Key::Char('Q')), None);
    assert_eq!(command_for_key(Key::Char('x')), None);
    assert_eq!(command_for_key(Key::Other), None);
}
