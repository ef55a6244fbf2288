//! Minesweeper on a square grid: the board with its mines and counts, the
//! flag toggle, and the cascade that uncovers a connected empty region.

pub mod board;
pub mod cascade;
pub mod cell;
pub mod grid;
pub mod layout;
pub mod play;
pub mod random;
pub mod screen;
