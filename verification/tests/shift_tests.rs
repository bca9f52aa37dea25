use bitchess::safe_shift::down;
use bitchess::safe_shift::left;
use bitchess::safe_shift::right;
use bitchess::safe_shift::up;

const RIGHT_BOARD: u64 = 0x1000101010101010;
const UP_BOARD: u64 = 0xF8;
const DOWN_BOARD: u64 = 0xF8000000;

#[test]
fn shifts_board_right_once() {
    assert!(right(RIGHT_BOARD, 1) == 0x2000202020202020);
}

#[test]
fn shifts_board_right_twice() {
    assert!(right(RIGHT_BOARD, 2) == 0x4000404040404040);
}

#[test]
fn shifts_board_off_screen() {
    assert!(right(RIGHT_BOARD, 9) == 0);
}

#[test]
fn shifts_board_left_once() {
    assert!(left(RIGHT_BOARD, 1) == 0x800080808080808);
}

#[test]
fn shifts_board_left_twice() {
    assert!(left(RIGHT_BOARD, 2) == 0x400040404040404);
}

#[test]
fn shifts_board_to_side_of_screen() {
    assert!(left(RIGHT_BOARD, 4) == 0x100010101010101);
}

#[test]
fn shifts_board_left_screen() {
    assert!(left(RIGHT_BOARD, 9) == 0);
}

#[test]
fn shifts_up_once() {
    assert!(up(UP_BOARD, 1) == 0xF800);
}

#[test]
fn shifts_up_twice() {
    assert!(up(UP_BOARD, 2) == 0xF80000);
}

#[test]
fn shifts_up_to_end_of_board() {
    assert!(up(UP_BOARD, 7) == 0xF800000000000000);
}

#[test]
fn shifts_up_off_the_board() {
    assert!(up(UP_BOARD, 8) == 0);
}

#[test]
fn shifts_down_once() {
    assert!(down(DOWN_BOARD, 1) == 0xF80000);
}

#[test]
fn safe_shift_shifts_up_twice() {
    assert!(down(DOWN_BOARD, 2) == 0xF800);
}

#[test]
fn shifts_down_to_end_of_board() {
    assert!(down(DOWN_BOARD, 3) == 0xF8);
}

#[test]
fn shifts_down_off_the_board() {
    assert!(down(DOWN_BOARD, 8) == 0);
}
