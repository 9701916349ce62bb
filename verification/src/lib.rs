//! A Sudoku solving engine: a cell and grid model, a set of deduction
//! strategies over it, and a solver that runs the strategies in priority
//! order and falls back to a depth-first search when they stall.

pub mod basic_sudoku;
pub mod chess_grid;
pub mod chess_strategies;
pub mod completion;
pub mod grid;
pub mod laws;
pub mod pigeonhole;
pub mod progress;
pub mod solver;
pub mod strike;
pub mod text;
