//! One board cell: its candidate set together with its resolved contents.

use vstd::prelude::*;

use crate::candidates::Candidates;
use crate::sudoku_cell_bitmask::digit_of;

verus! {

/// What a cell holds: a resolved digit, or nothing yet.
#[derive(Clone, Copy, PartialEq, Eq, Structural, Debug)]
pub enum Contents {
    Value(u8),
    Empty,
}

/// A candidate set paired with the contents it determines.
#[derive(Clone, Copy, PartialEq, Eq, Structural, Debug)]
pub struct Cell {
    pub candidates: Candidates,
    pub contents: Contents,
}

impl Cell {
    /// The contents agree with the candidate set: a singleton set resolves
    /// to its digit, anything else leaves the cell empty.
    pub open spec fn wf(self) -> bool {
        &&& self.candidates.wf()
        &&& self.contents == (if digit_of(self.candidates.mask()) == 0 {
            Contents::Empty
        } else {
            Contents::Value(digit_of(self.candidates.mask()))
        })
    }

    /// Builds the cell a candidate set determines: resolved when the set is
    /// a singleton, empty otherwise.
    pub fn new(candidates: Candidates) -> (r: Cell)
        requires
            candidates.wf(),
        ensures
            r.candidates == candidates,
            r.wf(),
    {
        Cell {
            candidates,
            contents: match candidates.value() {
                Some(d) => Contents::Value(d),
                None => Contents::Empty,
            },
        }
    }
}

} // verus!
