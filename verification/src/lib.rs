//! A 9x9 Sudoku board, a backtracking solver over it, and a puzzle generator.
//!
//! Every function is stated over a plain mathematical model: a grid is a
//! sequence of 81 cells in row-major order, `0` for an empty cell and
//! `1..=9` for a digit.

pub mod format;
pub mod grid;
pub mod random;
pub mod search;
pub mod sudoku;
pub mod sudoku_solver;
