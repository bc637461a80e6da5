//! A 9x9 Sudoku solver based on iterative constraint propagation.
//!
//! Each cell of the board carries a candidate set: a 9-bit mask over the
//! digits 1-9 that are still consistent with the rules. The solver seeds a
//! worklist with the given cells and repeatedly propagates their
//! consequences, narrowing candidate sets and assigning cells whose sets
//! collapse to a single digit, until the board is solved or the worklist
//! drains (the puzzle needs a deduction rule this solver does not have).

pub mod board;
pub mod candidates;
pub mod cell;
pub mod coordinate;
pub mod solution;
pub mod solver;
pub mod strategies;
pub mod sudoku_cell_bitmask;
