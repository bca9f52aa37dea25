use bitchess::utility::bit_to_index;
use bitchess::utility::border_bit;
use bitchess::utility::isolate_lsb;
use bitchess::utility::isolate_msb;

#[test]
fn returns_zero_for_empty_board() {
    assert!(bit_to_index(0) == 0);
}

#[test]
fn can_get_index_of_first_possible_bit() {
    assert!(bit_to_index(1) == 1);
}

#[test]
fn can_get_index_of_last_possible_bit() {
    assert!(bit_to_index(0x8000000000000000) == 64);
}

#[test]
fn can_get_index_of_middle_bit() {
    assert!(bit_to_index(0x80000000) == 32);
}

#[test]
fn finds_bit_on_left_of_board() {
    assert!(border_bit(0x10000));
}

#[test]
fn finds_bit_on_right_of_board() {
    assert!(border_bit(0x800000));
}

#[test]
fn finds_bit_on_bottom_of_board() {
    assert!(border_bit(0x10));
}

#[test]
fn finds_bit_on_top_of_boards() {
    assert!(border_bit(0x1000000000000000));
}

#[test]
fn doesnt_find_bit_on_center_of_board() {
    assert!(border_bit(0x400) == false);
}

#[test]
fn finds_no_lsb() {
    assert!(isolate_lsb(0) == 0);
}

#[test]
fn isolates_bottom_bit() {
    assert!(isolate_lsb(1) == 1);
}

#[test]
fn isolates_bottom_bit_when_there_are_more_bits() {
    assert!(isolate_lsb(0xFF04) == 4);
}

#[test]
fn isolates_bottom_bit_when_its_max_possible_value() {
    assert!(isolate_lsb(0x8000000000000000) == 0x8000000000000000);
}

#[test]
fn finds_no_msb() {
    assert!(isolate_msb(0) == 0);
}

#[test]
fn finds_bottom_msb() {
    assert!(isolate_msb(1) == 1);
}

#[test]
fn finds_top_bit_when_there_are_lower_bits() {
    assert!(isolate_msb(0x8FF00FF) == 0x8000000);
}

#[test]
fn finds_top_bit_when_minimum_possible_value() {
    assert!(isolate_msb(0x1) == 1);
}
