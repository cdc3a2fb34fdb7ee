//! The grid engine of a sliding-tile puzzle: tiles slide toward one edge,
//! equal neighbours merge into their double, and a new tile appears after
//! every move that changed the grid.

pub mod tile;
pub mod line;
pub mod grid;
pub mod board;
pub mod sums;
pub mod laws;
pub mod render;
mod random;

pub use board::{Board, Coord};
pub use tile::{MoveOpt, Tile};
