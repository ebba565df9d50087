//! A 9x9 Sudoku solver built on constraint propagation and depth-first search.
//!
//! Per-cell candidate sets are digit bitmasks defined in [`mask`].

pub mod board;
pub mod mask;
pub mod render;
pub mod solver;

pub use board::SudokuBoard;
pub use solver::Sudoku;
