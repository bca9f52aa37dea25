use bitchess::fill_beyond_bit;
use bitchess::find_block;
use bitchess::find_occ_bit;
use bitchess::neighbor;

#[test]
fn finds_next_bit_right() {
    let bit: u64 = 0x8;
    assert!(neighbor::right(bit) == 0x10);
}

#[test]
fn finds_bit_up_to_end_of_right() {
    let bit: u64 = 0x40;
    assert!(neighbor::right(bit) == 0x80);
}

#[test]
fn finds_no_bit_to_right() {
    let bit: u64 = 0x80;
    assert!(neighbor::right(bit) == 0);
}

#[test]
fn finds_bit_up_right() {
    let bit: u64 = 0x400000000000;
    assert!(neighbor::up_right(bit) == 0x80000000000000);
}

#[test]
fn gets_empty_board_when_no_up_right_bit() {
    let bit: u64 = 0x4000000000000000;
    assert!(neighbor::up_right(bit) == 0);
}

#[test]
fn fills_right_of_first_file() {
    assert!(fill_beyond_bit::right(1) == 0xFE);
}

#[test]
fn fills_right_of_last_file() {
    assert!(fill_beyond_bit::right(0x80) == 0);
}

#[test]
fn fills_right_in_middle_of_board() {
    assert!(fill_beyond_bit::right(0x80000) == 0xF00000);
}

#[test]
fn fills_left_of_zero() {
    assert!(fill_beyond_bit::left(1) == 0);
}

#[test]
fn fills_right_of_zero() {
    assert!(fill_beyond_bit::right(1) == 0xFE);
}

#[test]
fn fills_up_of_zero() {
    assert!(fill_beyond_bit::up(1) == 0x101010101010100);
}

#[test]
fn fills_down_of_zero() {
    assert!(fill_beyond_bit::down(1) == 0);
}

#[test]
fn fills_up_left_of_zero() {
    assert!(fill_beyond_bit::up_left(1) == 0);
}

#[test]
fn fills_up_right_of_zero() {
    assert!(fill_beyond_bit::up_right(1) == 0x8040201008040200);
}

#[test]
fn fills_down_left_of_zero() {
    assert!(fill_beyond_bit::down_left(1) == 0);
}

#[test]
fn fills_down_right_of_zero() {
    assert!(fill_beyond_bit::down_right(1) == 0);
}

#[test]
fn find_one_up() {
    let board: u64 = 0xFF000000000000;
    assert!(find_occ_bit::up(board, 0x10000000000) == 0x1000000000000);
}

#[test]
fn find_two_up() {
    let board: u64 = 0xFF000000000000;
    assert!(find_occ_bit::up(board, 0x100000000) == 0x1000000000000);
}

#[test]
fn find_none_up() {
    assert!(find_occ_bit::up(0, 0x10) == 0);
}

const BLOCK_BOARD: u64 = 0x5555555555555555;

#[test]
fn finds_blocked_right() {
    assert!(find_block::right(BLOCK_BOARD, 1 << 11) == 0xE000);
}

#[test]
fn finds_blocked_up_right() {
    assert!(find_block::up_right(BLOCK_BOARD, 1 << 11) == 0x804020000000);
}

#[test]
fn finds_blocked_left() {
    assert!(find_block::left(BLOCK_BOARD, 1 << 11) == 0x300);
}

#[test]
fn finds_blocked_down() {
    assert!(find_block::down(BLOCK_BOARD, 1 << 11) == 0);
}

#[test]
fn finds_blocked_cross() {
    assert!(find_block::cross(BLOCK_BOARD | 0xFF000000, 1 << 11) == 0x080808080000E300);
}

#[test]
fn finds_blocked_diagonal() {
    assert!(find_block::diagonal(BLOCK_BOARD | 0xFF000000, 1 << 11) == 0x0000804122000000);
}
