//! A Sudoku engine: a 9x9 board with its clues and its solution, the check
//! of a digit against row, column and box, an exhaustive search for the first
//! completion, a count of all completions, and the making of a puzzle with
//! one blank.

pub mod completion;
pub mod engine;
pub mod generate;
pub mod grid;
pub mod laws;
pub mod play;
pub mod random;
pub mod search;

pub use crate::engine::Sudoku;
