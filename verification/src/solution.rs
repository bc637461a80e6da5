//! What counts as a solution: a complete assignment of a digit to every
//! cell that respects the one-digit-per-unit rule, and its consistency
//! with a board in progress. The strategies never rule a solution out, so
//! whatever the solver fills in agrees with every solution of its input.

use vstd::prelude::*;

use crate::board::{same_cells, Board};
use crate::coordinate::cell_in_range;
use crate::strategies::sole_candidate::in_same_unit;
use crate::sudoku_cell_bitmask::mask_of;

verus! {

/// Each digit appears somewhere in row `y` of the assignment.
pub open spec fn row_has(s: spec_fn(int, int) -> u8, y: int, d: u8) -> bool {
    exists|x: int| #![trigger s(x, y)] 0 <= x < 9 && s(x, y) == d
}

/// Each digit appears somewhere in column `x` of the assignment.
pub open spec fn col_has(s: spec_fn(int, int) -> u8, x: int, d: u8) -> bool {
    exists|y: int| #![trigger s(x, y)] 0 <= y < 9 && s(x, y) == d
}

/// Each digit appears somewhere in the 3x3 block with top-left `(bx, by)`.
pub open spec fn block_has(s: spec_fn(int, int) -> u8, bx: int, byy: int, d: u8) -> bool {
    exists|i: int, j: int| #![trigger s(bx + j, byy + i)] 0 <= i < 3 && 0 <= j < 3 && s(bx + j, byy + i) == d
}

/// A valid full assignment: each digit 1-9 appears exactly once in every
/// row, column and block - no two cells of a unit agree, and no unit
/// misses a digit.
pub open spec fn valid_solution(s: spec_fn(int, int) -> u8) -> bool {
    &&& forall|x1: int, y1: int, x2: int, y2: int|
        #![trigger s(x1, y1), s(x2, y2)]
        cell_in_range(x1, y1) && cell_in_range(x2, y2) && in_same_unit(x1, y1, x2, y2) && !(x1 == x2
            && y1 == y2) ==> s(x1, y1) != s(x2, y2)
    &&& forall|y: int, d: u8| #![trigger row_has(s, y, d)] 0 <= y < 9 && 1 <= d <= 9 ==> row_has(s, y, d)
    &&& forall|x: int, d: u8| #![trigger col_has(s, x, d)] 0 <= x < 9 && 1 <= d <= 9 ==> col_has(s, x, d)
    &&& forall|bx: int, byy: int, d: u8|
        #![trigger block_has(s, bx, byy, d)]
        (bx == 0 || bx == 3 || bx == 6) && (byy == 0 || byy == 3 || byy == 6) && 1 <= d <= 9
            ==> block_has(s, bx, byy, d)
}

/// The assignment is still possible on this board: it is made of digits,
/// agrees with every solved cell, and lies within every cell's candidate
/// set.
pub open spec fn consistent_with(s: spec_fn(int, int) -> u8, b: Board) -> bool {
    forall|x: int, y: int|
        #![trigger s(x, y)]
        cell_in_range(x, y) ==> {
            &&& 1 <= s(x, y) <= 9
            &&& (b.value_at(x, y) != 0 ==> s(x, y) == b.value_at(x, y))
            &&& b.cand_at(x, y) & mask_of(s(x, y)) != 0
        }
}

/// Boards equal cell for cell admit the same assignments.
pub proof fn lemma_consistent_same_cells(s: spec_fn(int, int) -> u8, a: Board, b: Board)
    requires
        consistent_with(s, a),
        same_cells(a, b),
    ensures
        consistent_with(s, b),
{
    assert forall|x: int, y: int| cell_in_range(x, y) implies (1 <= #[trigger] s(x, y) <= 9) && (
    b.value_at(x, y) != 0 ==> s(x, y) == b.value_at(x, y)) && (b.cand_at(x, y) & mask_of(s(x, y))
        != 0) by {
        assert(b.value_at(x, y) == a.value_at(x, y));
        assert(b.cand_at(x, y) == a.cand_at(x, y));
    }
}

} // verus!
