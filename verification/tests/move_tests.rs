use bitchess::constants::BKNIGHT;
use bitchess::constants::BPAWN;
use bitchess::constants::WBISHOP;
use bitchess::constants::WKNIGHT;
use bitchess::constants::WPAWN;
use bitchess::constants::WROOK;
use bitchess::moves::make_move_maps;
use bitchess::moves::wrook;
use bitchess::moves::wpawn;
use bitchess::moves::wstate;
use bitchess::open_squares::cross;
use bitchess::open_squares::diagonal;
use bitchess::open_squares::L_shape;

const OPEN_BOARD: u64 = 0x5555555555555555;

#[test]
fn finds_open_on_cross() {
    assert!(cross(OPEN_BOARD, 1 << 11) == 0x0808080808081408);
}

#[test]
fn finds_open_on_diagonal() {
    assert!(diagonal(OPEN_BOARD, 1 << 11) == 0x140014);
}

#[test]
#[allow(non_snake_case)]
fn finds_L_shape_from_bottom_left() {
    assert!(L_shape(1) == 0x20400);
}

#[test]
#[allow(non_snake_case)]
fn finds_L_shape_from_bottom_middle() {
    assert!(L_shape(1 << 4) == ((1 << 10) | (1 << 14) | (1 << 19) | (1 << 21)));
}

#[test]
#[allow(non_snake_case)]
fn finds_L_shape_from_middle_of_board() {
    assert!(L_shape(1 << 20) == 0x2844004428);
}

#[test]
#[allow(non_snake_case)]
fn finds_L_shape_from_top_right_of_board() {
    assert!(L_shape(1 << 63) == 0x20400000000000);
}

#[test]
fn finds_moves_for_one_rook() {
    let mut board: [u64; 13] = [0; 13];
    board[WROOK as usize] = 1 << 10;
    board[WBISHOP as usize] = 0xFFF000;
    let mut maps = make_move_maps();
    let moves: Vec<[u64; 13]> = wrook(board, &mut maps);
    assert!(moves.len() == 4);
}

#[test]
fn finds_that_theres_no_moves_for_one_rook() {
    let mut board: [u64; 13] = [0; 13];
    board[WROOK as usize] = 1 << 10;
    board[WBISHOP as usize] = 0xFFFBFF;
    let mut maps = make_move_maps();
    let moves: Vec<[u64; 13]> = wrook(board, &mut maps);
    assert!(moves.len() == 0);
}

#[test]
fn finds_moves_for_two_rooks() {
    let mut board: [u64; 13] = [0; 13];
    board[WROOK as usize] = (1 << 10) | (1 << 30);
    board[WBISHOP as usize] = 0xFFF000;
    let mut maps = make_move_maps();
    let moves: Vec<[u64; 13]> = wrook(board, &mut maps);
    assert!(moves.len() == 15);
}

#[test]
fn finds_pawn_move_one_and_two_up_and_left_and_right() {
    let mut board: [u64; 13] = [0; 13];
    board[WPAWN as usize] = 1 << 11;
    board[BPAWN as usize] = 1 << 18;
    board[BPAWN as usize] |= 1 << 20;
    let states: Vec<[u64; 13]> = wpawn(board);
    assert!(states.len() == 4);
}

#[test]
fn finds_pawn_move_one_up_and_left_and_right() {
    let mut board: [u64; 13] = [0; 13];
    board[WPAWN as usize] = 1 << 19;
    board[BPAWN as usize] = 1 << 26;
    board[BPAWN as usize] |= 1 << 28;
    let states: Vec<[u64; 13]> = wpawn(board);
    assert!(states.len() == 3);
}

#[test]
fn finds_pawn_move_left_and_right_and_not_up_because_blocked_by_same_team() {
    let mut board: [u64; 13] = [0; 13];
    board[WPAWN as usize] = 1 << 11;
    board[WKNIGHT as usize] = 1 << 19;
    board[BPAWN as usize] = 1 << 18;
    board[BPAWN as usize] |= 1 << 20;
    let states: Vec<[u64; 13]> = wpawn(board);
    assert!(states.len() == 2);
}

#[test]
fn finds_pawn_move_left_and_right_and_not_up_because_blocked_by_different_team() {
    let mut board: [u64; 13] = [0; 13];
    board[WPAWN as usize] = 1 << 11;
    board[BKNIGHT as usize] = 1 << 19;
    board[BPAWN as usize] = 1 << 18;
    board[BPAWN as usize] |= 1 << 20;
    let states: Vec<[u64; 13]> = wpawn(board);
    assert!(states.len() == 2);
}

#[test]
fn finds_pawn_move_up_only_one_and_not_left_or_right() {
    let mut board: [u64; 13] = [0; 13];
    board[WPAWN as usize] = 1 << 19;
    board[WKNIGHT as usize] = 1 << 26;
    board[WKNIGHT as usize] |= 1 << 28;
    let states: Vec<[u64; 13]> = wpawn(board);
    assert!(states.len() == 1);
}

#[test]
fn finds_pawn_move_up_only_one_and_not_left_or_right_because_left_and_right_are_empty() {
    let mut board: [u64; 13] = [0; 13];
    board[WPAWN as usize] = 1 << 19;
    let states: Vec<[u64; 13]> = wpawn(board);
    assert!(states.len() == 1);
}

#[test]
fn finds_multiple_pawns_can_move_forward() {
    let mut board: [u64; 13] = [0; 13];
    board[WPAWN as usize] = 1 << 19;
    board[WPAWN as usize] |= 1 << 20;
    let states: Vec<[u64; 13]> = wpawn(board);
    assert!(states.len() == 2);
}

#[test]
fn finds_rook_and_pawn_and_knight_moves() {
    let mut board: [u64; 13] = [0; 13];
    board[WPAWN as usize] = 1 << 19;
    board[WPAWN as usize] |= 1 << 20;
    board[WKNIGHT as usize] = 1;
    board[WROOK as usize] = 1 << 9;
    board[WBISHOP as usize] = 1 << 22;
    let mut maps = make_move_maps();
    let states: Vec<[u64; 13]> = wstate(board, &mut maps);
    assert!(states.len() == 27);
}
