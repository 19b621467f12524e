//! Legal-move generation for the board game Hive.
//!
//! Cells are addressed by an over-complete three-axis coordinate that is kept
//! in a canonical form; the board is a map from cells to piece stacks kept in
//! key order, so that structural equality is equality of positions.
//! `State::get_moves` lists every legal position one ply away.

pub mod board;
pub mod laws;
pub mod moves;
pub mod piece;
pub mod point;
pub mod state;

pub use board::Board;
pub use piece::{Piece, Pieces, Player};
pub use point::Point;
pub use state::State;
