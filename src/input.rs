use crate::board::Direction;
use vstd::prelude::*;

verus! {

/// Width and height of the grid when none is given.
pub const DEFAULT_SIZE: usize = 4;

/// A key as the terminal reports it.
#[derive(Clone, Copy, Debug, PartialEq, Eq, Structural)]
pub enum Key {
    ArrowUp,
    ArrowDown,
    ArrowLeft,
    ArrowRight,
    Char(char),
    Other,
}

/// What a key asks the game to do.
#[derive(Clone, Copy, Debug, PartialEq, Eq, Structural)]
pub enum Command {
    Quit,
    Move(Direction),
    Ignore,
}

/// The command for each key. The engine's axes are transposed against the
/// screen, so each arrow (and its letter among `h`, `j`, `k`, `l`) moves the
/// engine in another direction than its name: up is `Right`, down is `Left`,
/// left is `Down`, right is `Up`.
pub open spec fn command_of(key: Key) -> Command {
    match key {
        Key::Char('q') => Command::Quit,
        Key::ArrowUp | Key::Char('k') => Command::Move(Direction::Right),
        Key::ArrowDown | Key::Char('j') => Command::Move(Direction::Left),
        Key::ArrowLeft | Key::Char('h') => Command::Move(Direction::Down),
        Key::ArrowRight | Key::Char('l') => Command::Move(Direction::Up),
        _ => Command::Ignore,
    }
}

pub fn command_for_key(key: Key) -> (r: Command)
    ensures
        r == command_of(key),
{
    match key {
        Key::Char('q') => Command::Quit,
        Key::ArrowUp | Key::Char('k') => Command::Move(Direction::Right),
        Key::ArrowDown | Key::Char('j') => Command::Move(Direction::Left),
        Key::ArrowLeft | Key::Char('h') => Command::Move(Direction::Down),
        Key::ArrowRight | Key::Char('l') => Command::Move(Direction::Up),
        _ => Command::Ignore,
    }
}

/// The grid size to play on, from the parsed startup argument: a positive
/// value is taken, anything else gives the default.
pub fn board_size(arg: Option<usize>) -> (r: usize)
    ensures
        r == match arg {
            Some(n) => if n > 0 { n } else { DEFAULT_SIZE },
            None => DEFAULT_SIZE,
        },
        r > 0,
{
    match arg {
        Some(n) => if n > 0 {
            n
        } else {
            DEFAULT_SIZE
        },
        None => DEFAULT_SIZE,
    }
}

} // verus!
