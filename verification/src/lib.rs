//! A Sudoku engine for 4x4, 9x9 and 16x16 boards: it generates full boards by
//! randomized backtracking, carves puzzles out of them and classifies
//! submitted boards as solved, incomplete or invalid.

pub mod grid;
pub mod rules;
pub mod lines;
pub mod random;
pub mod generator;
pub mod carver;
pub mod classifier;
pub mod sudoku;
pub mod laws;
pub mod text;
pub mod render;
pub mod input;
