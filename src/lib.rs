//! A 9x9 Sudoku solver: the grid, the placement rule, a depth-first
//! backtracking search and the textual puzzle format, all verified.
pub mod grid;
pub mod search;
pub mod text;

pub use grid::Sudoku;
