//! Core rules engine of a falling-block puzzle game.
//!
//! The `shape` module holds the geometry of a single tetromino: its cells,
//! its rotation anchor and its kind. The `tetris` module holds the board:
//! the falling control shape, the landed shapes, gravity, lateral movement,
//! rotation, full-line clearing and loss detection. Every operation carries
//! a contract that pins down the resulting state.

pub mod shape;
pub mod tetris;

pub use crate::shape::Kind;
pub use crate::shape::Pos;
pub use crate::shape::Shape;
pub use crate::tetris::Direction;
pub use crate::tetris::Tetris;
