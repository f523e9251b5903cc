//! A verified solver for square nonogram ("picross") puzzles.
//!
//! A puzzle gives, for every row and every column, the ordered list of
//! lengths of the maximal runs of contiguous filled cells in that line.
//! The solver searches for a grid of filled and empty cells whose derived
//! run lengths match the given clues exactly.

pub mod blocks;
pub mod board;
pub mod laws;
pub mod parse;
pub mod render;
pub mod runs;
pub mod solve;
pub mod solvers;
