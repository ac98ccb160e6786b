//! The rules of a mine-detection puzzle on a rectangular grid.
//!
//! A game is a [`Minesweeper`]. Its value is a [`Board`]: the size of the
//! grid, the sets of mined, opened and flagged cells, and whether the game is
//! lost. The two moves, `open` and `toggle_flag`, are functions on that
//! value, and every method of the game says which one it computes.
//!
//! - [`board`]: the model and the moves on it.
//! - [`geometry`], [`cascade`]: facts about neighbours and about what one
//!   reveal opens.
//! - [`laws`]: theorems about play.
//! - [`cells`], [`minesweeper`]: the executable game.
//! - [`placement`]: where the mines go.
//! - [`render`]: what the player sees.

pub mod board;
pub mod cascade;
pub mod cells;
pub mod geometry;
pub mod laws;
pub mod minesweeper;
pub mod placement;
pub mod render;

pub use crate::board::{Board, OpenResult, Position};
pub use crate::minesweeper::{BoardError, Minesweeper};
pub use crate::render::CellState;
