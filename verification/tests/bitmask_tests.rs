use sudoku::candidates::Candidates;
use sudoku::sudoku_cell_bitmask::{bitmask_to_single_value, single_value_to_bitmask};

#[test]
fn bitmask_to_single_value_resolves_singletons() {
    assert_eq!(1, bitmask_to_single_value(0x001));
    assert_eq!(2, bitmask_to_single_value(0x002));
    assert_eq!(3, bitmask_to_single_value(0x004));
    assert_eq!(4, bitmask_to_single_value(0x008));
    assert_eq!(5, bitmask_to_single_value(0x010));
    assert_eq!(6, bitmask_to_single_value(0x020));
    assert_eq!(7, bitmask_to_single_value(0x040));
    assert_eq!(8, bitmask_to_single_value(0x080));
    assert_eq!(9, bitmask_to_single_value(0x100));
    // several bits, no bits, and out-of-range masks resolve to nothing
    assert_eq!(0, bitmask_to_single_value(0x003));
    assert_eq!(0, bitmask_to_single_value(0x1FF));
    assert_eq!(0, bitmask_to_single_value(0));
    assert_eq!(0, bitmask_to_single_value(0x200));
    assert_eq!(0, bitmask_to_single_value(-1));
}

#[test]
fn single_value_to_bitmask_builds_singletons() {
    assert_eq!(0x001, single_value_to_bitmask(1));
    assert_eq!(0x002, single_value_to_bitmask(2));
    assert_eq!(0x004, single_value_to_bitmask(3));
    assert_eq!(0x008, single_value_to_bitmask(4));
    assert_eq!(0x010, single_value_to_bitmask(5));
    assert_eq!(0x020, single_value_to_bitmask(6));
    assert_eq!(0x040, single_value_to_bitmask(7));
    assert_eq!(0x080, single_value_to_bitmask(8));
    assert_eq!(0x100, single_value_to_bitmask(9));
    // a blank or out-of-range value constrains nothing
    assert_eq!(0x1FF, single_value_to_bitmask(0));
    assert_eq!(0x1FF, single_value_to_bitmask(10));
    assert_eq!(0x1FF, single_value_to_bitmask(-3));
}

#[test]
fn round_trip_between_digit_and_mask() {
    for digit in 1..=9 {
        assert_eq!(digit, bitmask_to_single_value(single_value_to_bitmask(digit)));
    }
}

#[test]
fn candidates_new_default_permits_every_digit() {
    assert_eq!(0x1FF, Candidates::new_default().bits());
    assert_eq!(None, Candidates::new_default().value());
}

#[test]
fn candidates_new_builds_singletons_and_treats_blank_as_full() {
    assert_eq!(0x008, Candidates::new(4).bits());
    assert_eq!(Some(4), Candidates::new(4).value());
    assert_eq!(0x100, Candidates::new(9).bits());
    assert_eq!(0x1FF, Candidates::new(0).bits());
    assert_eq!(0x1FF, Candidates::new(12).bits());
}

#[test]
fn candidates_without_removes_one_digit() {
    let full = Candidates::new_default();
    assert_eq!(0x1FB, full.without(3).bits());
    // removing an absent digit changes nothing
    assert_eq!(0x1FB, full.without(3).without(3).bits());
    // narrowing down to one digit determines it
    let only_two = full
        .without(1)
        .without(3)
        .without(4)
        .without(5)
        .without(6)
        .without(7)
        .without(8)
        .without(9);
    assert_eq!(Some(2), only_two.value());
}
