//! The bitmask model of a candidate set: bit `d - 1` of a 9-bit mask means
//! "digit `d` is still possible for this cell".

use vstd::prelude::*;

verus! {

/// Every digit 1-9 still possible: the candidate set of a blank cell.
pub const ALL_CANDIDATES: u16 = 0x1FF;

/// The mask holding exactly the digit `d`, for `d` in 1-9; any other value
/// (0 meaning blank, or out of range) maps to the full mask, the "no
/// constraint" set a blank cell starts from.
pub open spec fn mask_of(d: u8) -> u16 {
    if d == 1 {
        0x001
    } else if d == 2 {
        0x002
    } else if d == 3 {
        0x004
    } else if d == 4 {
        0x008
    } else if d == 5 {
        0x010
    } else if d == 6 {
        0x020
    } else if d == 7 {
        0x040
    } else if d == 8 {
        0x080
    } else if d == 9 {
        0x100
    } else {
        0x1FF
    }
}

/// The digit a mask determines: `d` when the mask is exactly the singleton
/// for `d`, and 0 otherwise (several digits left, or none at all).
pub open spec fn digit_of(m: u16) -> u8 {
    if m == 0x001 {
        1
    } else if m == 0x002 {
        2
    } else if m == 0x004 {
        3
    } else if m == 0x008 {
        4
    } else if m == 0x010 {
        5
    } else if m == 0x020 {
        6
    } else if m == 0x040 {
        7
    } else if m == 0x080 {
        8
    } else if m == 0x100 {
        9
    } else {
        0
    }
}

/// A candidate-set mask is well formed when it uses only the 9 digit bits.
pub open spec fn mask_wf(m: u16) -> bool {
    m < 0x200
}

/// The digit of a mask is 0 or in 1-9, and a singleton mask round-trips
/// back to its digit.
pub proof fn lemma_digit_of_range(m: u16)
    ensures
        digit_of(m) <= 9,
        digit_of(m) != 0 ==> m == mask_of(digit_of(m)),
{
}

/// A digit in 1-9 gives a nonzero well-formed singleton mask, and the
/// singleton determines its digit.
pub proof fn lemma_mask_of_digit(d: u8)
    requires
        1 <= d <= 9,
    ensures
        mask_of(d) != 0,
        mask_wf(mask_of(d)),
        digit_of(mask_of(d)) == d,
{
}

/// Clearing one digit bit keeps the mask well formed, removes the digit,
/// strictly shrinks the mask when the digit was present, and leaves the mask
/// unchanged when it was not.
pub proof fn lemma_clear_digit(m: u16, d: u8)
    requires
        mask_wf(m),
        1 <= d <= 9,
    ensures
        mask_wf(m & !mask_of(d)),
        (m & !mask_of(d)) & mask_of(d) == 0,
        (m & !mask_of(d)) & !m == 0,
        m & mask_of(d) != 0 ==> (m & !mask_of(d)) < m,
        m & mask_of(d) == 0 ==> (m & !mask_of(d)) == m,
{
    let b = mask_of(d);
    assert((m & !b) < 0x200 && ((m & !b) & b == 0) && ((m & !b) & !m == 0) && (m & b != 0 ==> (m
        & !b) < m) && (m & b == 0 ==> (m & !b) == m)) by (bit_vector)
        requires
            m < 0x200,
            b == 0x001 || b == 0x002 || b == 0x004 || b == 0x008 || b == 0x010 || b == 0x020 || b
                == 0x040 || b == 0x080 || b == 0x100,
    ;
}

/// No mask gains a bit over itself: the reflexive case of shrinking.
pub proof fn lemma_mask_shrink_refl(m: u16)
    ensures
        m & !m == 0,
{
    assert(m & !m == 0) by (bit_vector);
}

/// Shrinking composes: a mask within `b`, itself within `a`, is within `a`.
pub proof fn lemma_mask_shrink_trans(a: u16, b: u16, c: u16)
    requires
        b & !a == 0,
        c & !b == 0,
    ensures
        c & !a == 0,
{
    assert(c & !a == 0) by (bit_vector)
        requires
            b & !a == 0,
            c & !b == 0,
    ;
}

/// A digit absent from a mask stays absent from any shrunken mask.
pub proof fn lemma_mask_shrink_keeps_exclusion(a: u16, b: u16, m: u16)
    requires
        b & !a == 0,
        a & m == 0,
    ensures
        b & m == 0,
{
    assert(b & m == 0) by (bit_vector)
        requires
            b & !a == 0,
            a & m == 0,
    ;
}

/// A singleton mask whose digit a mask permits lies within that mask.
pub proof fn lemma_singleton_subset(m: u16, d: u8)
    requires
        1 <= d <= 9,
        m & mask_of(d) != 0,
    ensures
        mask_of(d) & !m == 0,
{
    assert(mask_of(d) & !m == 0) by (bit_vector)
        requires
            1 <= d <= 9,
            m & mask_of(d) != 0,
    ;
}

/// Two singleton masks overlap only for the same digit.
pub proof fn lemma_mask_overlap_same_digit(v: u8, d: u8)
    requires
        1 <= v <= 9,
        1 <= d <= 9,
        mask_of(v) & mask_of(d) != 0,
    ensures
        v == d,
{
    assert(v == d) by (bit_vector)
        requires
            1 <= v <= 9,
            1 <= d <= 9,
            mask_of(v) & mask_of(d) != 0,
    ;
}

/// A singleton mask overlaps itself: the digit it holds is permitted.
pub proof fn lemma_mask_self_overlap(d: u8)
    requires
        1 <= d <= 9,
    ensures
        mask_of(d) & mask_of(d) != 0,
{
    assert(mask_of(d) & mask_of(d) != 0) by (bit_vector)
        requires
            1 <= d <= 9,
    ;
}

/// A set without the digit `d` never determines `d`.
pub proof fn lemma_digit_not_in_cleared(q: u16, d: u8)
    requires
        1 <= d <= 9,
        q & mask_of(d) == 0,
    ensures
        digit_of(q) != d,
{
    if digit_of(q) == d {
        lemma_digit_of_range(q);
        assert(mask_of(d) & mask_of(d) != 0) by (bit_vector)
            requires
                1 <= d <= 9,
        ;
    }
}

/// Removing a digit from a mask that already lacks another digit keeps that
/// other digit absent; kept by any further clearing.
pub proof fn lemma_clear_keeps_other(m: u16, s: u8, d: u8)
    requires
        1 <= s <= 9,
        1 <= d <= 9,
        s != d,
        m & mask_of(s) != 0,
    ensures
        (m & !mask_of(d)) & mask_of(s) != 0,
{
    assert((m & !mask_of(d)) & mask_of(s) != 0) by (bit_vector)
        requires
            1 <= s <= 9,
            1 <= d <= 9,
            s != d,
            m & mask_of(s) != 0,
    ;
}

/// Converts a candidate-set bitmask to the digit it determines: the digit
/// `d` when exactly the bit for `d` is set, and 0 otherwise.
pub fn bitmask_to_single_value(bitmask: i32) -> (r: i32)
    ensures
        0 <= bitmask < 0x200 ==> r == digit_of(bitmask as u16) as i32,
        !(0 <= bitmask < 0x200) ==> r == 0,
{
    if bitmask == 0x001 {
        1
    } else if bitmask == 0x002 {
        2
    } else if bitmask == 0x004 {
        3
    } else if bitmask == 0x008 {
        4
    } else if bitmask == 0x010 {
        5
    } else if bitmask == 0x020 {
        6
    } else if bitmask == 0x040 {
        7
    } else if bitmask == 0x080 {
        8
    } else if bitmask == 0x100 {
        9
    } else {
        0
    }
}

/// Converts a digit to its singleton candidate-set bitmask; 0 or an
/// out-of-range value gives the full mask.
pub fn single_value_to_bitmask(value: i32) -> (r: i32)
    ensures
        1 <= value <= 9 ==> r == mask_of(value as u8) as i32,
        !(1 <= value <= 9) ==> r == ALL_CANDIDATES as i32,
{
    if value == 1 {
        0x001
    } else if value == 2 {
        0x002
    } else if value == 3 {
        0x004
    } else if value == 4 {
        0x008
    } else if value == 5 {
        0x010
    } else if value == 6 {
        0x020
    } else if value == 7 {
        0x040
    } else if value == 8 {
        0x080
    } else if value == 9 {
        0x100
    } else {
        0x1FF
    }
}

} // verus!
