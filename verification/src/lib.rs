//! Rules engine of a Minesweeper game: a grid of cells, random mine
//! placement, neighbour counts and the flood reveal, each with a proved
//! contract.

pub mod board;
pub mod cascade;
pub mod cell;
pub mod neighbors;
pub mod play;
pub mod random;
pub mod render;
pub mod setup;
pub mod tally;

pub use board::{Board, BoardView, OutOfBounds};
pub use cell::{Cell, CellView};
pub use setup::ConfigError;
