//! The rules of a sliding-tile merge puzzle on a 4x4 board: tile values, the
//! slide-and-merge of a move, random tile spawning, game-over detection and
//! a text rendering of the board.

pub mod tile_value;
pub mod direction;
pub mod grid;
pub mod board;
pub mod render;
mod chance;

pub use tile_value::TileValue;
pub use direction::Direction;
pub use board::Board;
