//! A verified 9x9 Sudoku constraint-satisfaction engine.
//!
//! The engine validates, solves, counts solutions for, and generates Sudoku
//! puzzles with a unique solution, using per-row/column/box availability
//! bitmasks for constant-time constraint checks during backtracking search.

use vstd::prelude::*;

pub mod bits;
pub mod board;
pub mod engine;
pub mod generator;
pub mod grid;
pub mod laws;
pub mod model;
pub mod search;
pub mod shuffle;

verus! {

/// The ways an engine call can fail.
#[derive(Clone, Copy, Debug, PartialEq, Eq, Structural)]
pub enum SudokuError {
    /// The input grid violates a row, column or box uniqueness constraint.
    Conflict,
    /// The requested number of blanks is above the cap or above the number
    /// of blank cells available in the input grid.
    InvalidDifficulty,
    /// No removal sequence reaching the requested difficulty keeps the
    /// solution unique.
    Generation,
    /// The grid has no completion.
    NoSolution,
    /// The grid has no empty cell to reveal.
    NoHint,
}

} // verus!
