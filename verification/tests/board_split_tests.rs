use bitchess::board::get_all_occupation;
use bitchess::map::make_move_map;
use bitchess::map::Shape;
use bitchess::split_state::split_board_into_updated_states;
use bitchess::split_state::split_slice_into_slices;

#[test]
fn gets_whole_occupied_board() {
    let mut board: [u64; 13] = [0; 13];
    board[0] = 0xFF;
    board[1] = 0xFF00;
    board[2] = 0xFFEF0000;
    assert!(get_all_occupation(board) == 0xFFEFFFFF);
}

#[test]
fn splits_into_zero_slices() {
    let slice: u64 = 0;
    assert!(split_slice_into_slices(slice).len() == 0);
}

#[test]
fn splits_into_one_slice() {
    let slice: u64 = 0x8000;
    assert!(split_slice_into_slices(slice).len() == 1);
}

#[test]
fn splits_into_multiple_slices() {
    let slice: u64 = 0xFF00;
    assert!(split_slice_into_slices(slice).len() == 8);
}

#[test]
fn splits_into_no_updated_states() {
    let starting_square: u64 = 0x8;
    let slice_of_splits: u64 = 0;
    let board: [u64; 13] = [0; 13];
    let slice_index: u8 = 0;
    let states: Vec<[u64; 13]> =
        split_board_into_updated_states(starting_square, slice_of_splits, board, slice_index);
    assert!(states.len() == 0);
}

#[test]
fn splits_into_one_updated_state() {
    let starting_square: u64 = 0x8;
    let slice_of_splits: u64 = 1;
    let board: [u64; 13] = [0; 13];
    let slice_index: u8 = 0;
    let states: Vec<[u64; 13]> =
        split_board_into_updated_states(starting_square, slice_of_splits, board, slice_index);
    assert!(states.len() == 1);
}

#[test]
fn splits_into_three_updated_states() {
    let starting_square: u64 = 0x8;
    let slice_of_splits: u64 = 7;
    let board: [u64; 13] = [0; 13];
    let slice_index: u8 = 0;
    let states: Vec<[u64; 13]> =
        split_board_into_updated_states(starting_square, slice_of_splits, board, slice_index);
    assert!(states.len() == 3);
}

#[test]
fn can_get_and_store_cross_value() {
    let mut map = make_move_map(Shape::Cross);
    let value: u64 = map.get_value(1, 0x102);
    assert!(map.contains_entry(1, 0x102));
    let second_value: u64 = map.get_value(1, 0x102);
    assert!(value == 0x102);
    assert!(value == second_value);
}

#[test]
fn crops_outer_edges_when_on_bottom_left_square() {
    let mut map = make_move_map(Shape::Cross);
    let _value: u64 = map.get_value(1, 0x1010101010101FE);
    assert!(!map.contains_entry(1, 0x1010101010101FE));
    assert!(map.contains_entry(1, 0x101010101017E));
}

#[test]
fn crops_outer_edges_when_on_middle_square() {
    let mut map = make_move_map(Shape::Cross);
    let _value: u64 = map.get_value(1 << 28, 0x5555555555555555);
    assert!(!map.contains_entry(1 << 28, 0x5555555555555555));
    assert!(map.contains_entry(1 << 28, 0x10101054101000));
}

#[test]
fn can_get_and_store_diagonal_value() {
    let mut map = make_move_map(Shape::Diagonal);
    let value: u64 = map.get_value(1, 0x103);
    assert!(map.contains_entry(1, 0x1));
    let second_value: u64 = map.get_value(1, 0x101);
    assert!(value == 0x8040201008040200);
    assert!(value == second_value);
}
