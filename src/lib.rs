//! A sliding-tile merge puzzle on a square grid: the board engine that shifts,
//! merges and spawns tiles and keeps the score.
pub mod board;
pub mod random;
pub mod laws;
pub mod display;
pub mod input;
