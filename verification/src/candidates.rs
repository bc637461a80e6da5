//! A cell's candidate set: the digits 1-9 still possible for the cell,
//! held as a 9-bit mask.

use vstd::prelude::*;

use crate::sudoku_cell_bitmask::{digit_of, mask_of, mask_wf, ALL_CANDIDATES};
use crate::sudoku_cell_bitmask::lemma_clear_digit;

verus! {

/// The set of digits still consistent with the rules for one cell.
#[derive(Clone, Copy, PartialEq, Eq, Structural, Debug)]
pub struct Candidates {
    bitmask: u16,
}

impl Candidates {
    /// The underlying 9-bit mask: bit `d - 1` set means digit `d` is still
    /// possible.
    pub closed spec fn mask(self) -> u16 {
        self.bitmask
    }

    /// Only the 9 digit bits are ever used.
    pub open spec fn wf(self) -> bool {
        mask_wf(self.mask())
    }

    /// The full set: every digit still possible, as for a blank cell.
    pub fn new_default() -> (r: Candidates)
        ensures
            r.mask() == ALL_CANDIDATES,
            r.wf(),
    {
        Candidates { bitmask: ALL_CANDIDATES }
    }

    /// The set for a cell whose value is `value`: the singleton for a digit
    /// in 1-9, and the full set for 0 or an out-of-range value (a blank or
    /// defensively ignored input).
    pub fn new(value: u8) -> (r: Candidates)
        ensures
            r.mask() == mask_of(value),
            r.wf(),
    {
        Candidates {
            bitmask: if value == 1 {
                0x001
            } else if value == 2 {
                0x002
            } else if value == 3 {
                0x004
            } else if value == 4 {
                0x008
            } else if value == 5 {
                0x010
            } else if value == 6 {
                0x020
            } else if value == 7 {
                0x040
            } else if value == 8 {
                0x080
            } else if value == 9 {
                0x100
            } else {
                ALL_CANDIDATES
            },
        }
    }

    /// The digit this set determines: `Some(d)` exactly when the set is the
    /// singleton for `d`, and `None` when several digits (or none) are left.
    pub fn value(&self) -> (r: Option<u8>)
        ensures
            r == (if digit_of(self.mask()) == 0 {
                Option::<u8>::None
            } else {
                Some(digit_of(self.mask()))
            }),
    {
        if self.bitmask == 0x001 {
            Some(1)
        } else if self.bitmask == 0x002 {
            Some(2)
        } else if self.bitmask == 0x004 {
            Some(3)
        } else if self.bitmask == 0x008 {
            Some(4)
        } else if self.bitmask == 0x010 {
            Some(5)
        } else if self.bitmask == 0x020 {
            Some(6)
        } else if self.bitmask == 0x040 {
            Some(7)
        } else if self.bitmask == 0x080 {
            Some(8)
        } else if self.bitmask == 0x100 {
            Some(9)
        } else {
            None
        }
    }

    /// The set with the digit `digit` removed: the elimination step applied
    /// when a peer cell is known to hold `digit`.
    pub fn without(self, digit: u8) -> (r: Candidates)
        requires
            self.wf(),
            1 <= digit <= 9,
        ensures
            r.mask() == self.mask() & !mask_of(digit),
            r.wf(),
            r.mask() & mask_of(digit) == 0,
            r.mask() & !self.mask() == 0,
            self.mask() & mask_of(digit) != 0 ==> r.mask() < self.mask(),
            self.mask() & mask_of(digit) == 0 ==> r == self,
    {
        proof {
            lemma_clear_digit(self.bitmask, digit);
        }
        let b: u16 = if digit == 1 {
            0x001
        } else if digit == 2 {
            0x002
        } else if digit == 3 {
            0x004
        } else if digit == 4 {
            0x008
        } else if digit == 5 {
            0x010
        } else if digit == 6 {
            0x020
        } else if digit == 7 {
            0x040
        } else if digit == 8 {
            0x080
        } else {
            0x100
        };
        Candidates { bitmask: self.bitmask & !b }
    }

    /// Whether the set still permits the digit `digit`.
    pub fn permits(&self, digit: u8) -> (r: bool)
        requires
            1 <= digit <= 9,
        ensures
            r == (self.mask() & mask_of(digit) != 0),
    {
        let b: u16 = if digit == 1 {
            0x001
        } else if digit == 2 {
            0x002
        } else if digit == 3 {
            0x004
        } else if digit == 4 {
            0x008
        } else if digit == 5 {
            0x010
        } else if digit == 6 {
            0x020
        } else if digit == 7 {
            0x040
        } else if digit == 8 {
            0x080
        } else {
            0x100
        };
        self.bitmask & b != 0
    }

    /// The raw bitmask, for callers that inspect or render the set.
    pub fn bits(&self) -> (r: u16)
        ensures
            r == self.mask(),
    {
        self.bitmask
    }
}

} // verus!
