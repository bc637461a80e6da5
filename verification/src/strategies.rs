//! The deduction strategies: independently callable rules that narrow
//! candidate sets or assign values, all mutating the board only through its
//! `assign` and `eliminate` entry points.

pub mod column_row_exclusion;
pub mod sole_candidate;
pub mod unique_candidate;
