//! A position on the 9x9 board: `x` is the column index and `y` the row
//! index, both 0-8.

use vstd::prelude::*;

verus! {

/// A board position, used to address all 9x9 grids and as the worklist
/// element.
#[derive(Clone, Copy, PartialEq, Eq, Structural, Debug)]
pub struct Coordinate {
    pub x: usize,
    pub y: usize,
}

impl Coordinate {
    /// Both indices lie on the board.
    pub open spec fn wf(self) -> bool {
        self.x < 9 && self.y < 9
    }
}

/// Whether `(x, y)` lies on the 9x9 board; the range every per-cell
/// statement about a board quantifies over.
pub open spec fn cell_in_range(x: int, y: int) -> bool {
    0 <= x < 9 && 0 <= y < 9
}

} // verus!
