//! The board of a game of Minesweeper: mine placement, opening cells,
//! flagging cells and counting the mines around a cell.

pub mod grid;
pub mod minesweeper;
mod random;

pub use grid::Position;
pub use minesweeper::{BoardError, Cell, Minesweeper, OpenResult};
