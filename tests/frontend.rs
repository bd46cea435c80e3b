use tilemerge::board::Direction;
use tilemerge::display::{cell_label, tint_for, Tint};
use tilemerge::input::{board_size, command_for_key, Command, Key, DEFAULT_SIZE};

fn label(c: Option<usize>) -> String {
    cell_label(c).into_iter().collect()
}

#[test]
fn keys_map_to_transposed_directions() {
    assert_eq!(command_for_key(Key::ArrowUp), Command::Move(Direction::Right));
    assert_eq!(command_for_key(Key::ArrowDown), Command::Move(Direction::Left));
    assert_eq!(command_for_key(Key::ArrowLeft), Command::Move(Direction::Down));
    assert_eq!(command_for_key(Key::ArrowRight), Command::Move(Direction::Up));
    assert_eq!(command_for_key(Key::Char('k')), Command::Move(Direction::Right));
    assert_eq!(command_for_key(Key::Char('j')), Command::Move(Direction::Left));
    assert_eq!(command_for_key(Key::Char('h')), Command::Move(Direction::Down));
    assert_eq!(command_for_key(Key::Char('l')), Command::Move(Direction::Up));
}

#[test]
fn quit_and_other_keys() {
    assert_eq!(command_for_key(Key::Char('q')), Command::Quit);
    assert_eq!(command_for_key(Key::Char('x')), Command::Ignore);
    assert_eq!(command_for_key(Key::Char('Q')), Command::Ignore);
    assert_eq!(command_for_key(Key::Other), Command::Ignore);
}

#[test]
fn board_size_falls_back_to_default() {
    assert_eq!(DEFAULT_SIZE, 4);
    assert_eq!(board_size(None), 4);
    assert_eq!(board_size(Some(0)), 4);
    assert_eq!(board_size(Some(6)), 6);
    assert_eq!(board_size(Some(1)), 1);
}

#[test]
fn labels_are_right_aligned() {
    assert_eq!(label(None), "    ");
    assert_eq!(label(Some(2)), "   2");
    assert_eq!(label(Some(64)), "  64");
    assert_eq!(label(Some(512)), " 512");
    assert_eq!(label(Some(2048)), "2048");
    assert_eq!(label(Some(131072)), "131072");
    assert_eq!(label(Some(0)), "   0");
}

#[test]
fn tints_by_value() {
    assert_eq!(tint_for(None), Tint::Black);
    assert_eq!(tint_for(Some(2)), Tint::Grey);
    assert_eq!(tint_for(Some(4)), Tint::Green);
    assert_eq!(tint_for(Some(8)), Tint::Blue);
    assert_eq!(tint_for(Some(16)), Tint::Yellow);
    assert_eq!(tint_for(Some(32)), Tint::Red);
    assert_eq!(tint_for(Some(64)), Tint::Magenta);
    assert_eq!(tint_for(Some(128)), Tint::Cyan);
    assert_eq!(tint_for(Some(256)), Tint::Cyan);
    assert_eq!(tint_for(Some(1024)), Tint::Cyan);
    assert_eq!(tint_for(Some(2048)), Tint::DarkYellow);
    assert_eq!(tint_for(Some(4096)), Tint::Cyan);
}
