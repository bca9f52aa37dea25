use bitchess::bot::basic_eval;
use bitchess::bot::make_bot;
use bitchess::bot::BasicEval;
use bitchess::constants::BQUEEN;
use bitchess::constants::BROOK;
use bitchess::constants::STARTING_WPAWNS;
use bitchess::constants::WKING;
use bitchess::constants::WPAWN;
use bitchess::constants::WROOK;
use bitchess::game::setup_board;
use bitchess::moves::make_move_maps;
use bitchess::moves::states_for_turn;
use bitchess::neighbor;
use bitchess::utility::number_of_bits;

fn total_pieces(state: &[u64; 13]) -> u32 {
    let mut count: u32 = 0;
    let mut s: usize = 0;
    while s < 12 {
        count += number_of_bits(state[s]);
        s += 1;
    }
    count
}

#[test]
fn stepping_right_then_left_returns_to_start() {
    let bit: u64 = 1 << 20;
    assert!(neighbor::left(neighbor::right(bit)) == bit);
    assert!(neighbor::down_left(neighbor::up_right(bit)) == bit);
}

#[test]
fn stepping_off_any_edge_gives_empty_board() {
    assert!(neighbor::left(1) == 0);
    assert!(neighbor::down(1 << 3) == 0);
    assert!(neighbor::up(1 << 60) == 0);
    assert!(neighbor::right(1 << 63) == 0);
}

#[test]
fn successors_never_gain_pieces() {
    let board: [u64; 13] = setup_board();
    let start_count: u32 = total_pieces(&board);
    let mut maps = make_move_maps();
    let white_states: Vec<[u64; 13]> = states_for_turn(board, 1, &mut maps);
    assert!(white_states.len() > 0);
    for state in white_states.iter() {
        assert!(total_pieces(state) <= start_count);
    }
    let black_states: Vec<[u64; 13]> = states_for_turn(board, 0, &mut maps);
    assert!(black_states.len() > 0);
    for state in black_states.iter() {
        assert!(total_pieces(state) <= start_count);
    }
}

#[test]
fn capture_removes_exactly_one_piece() {
    let mut board: [u64; 13] = [0; 13];
    board[WROOK as usize] = 1 << 10;
    board[BQUEEN as usize] = 1 << 18;
    board[WKING as usize] = 1 << 63;
    let mut maps = make_move_maps();
    let states: Vec<[u64; 13]> = states_for_turn(board, 1, &mut maps);
    let mut saw_capture: bool = false;
    for state in states.iter() {
        assert!(total_pieces(state) <= 3);
        if total_pieces(state) == 2 {
            saw_capture = true;
            assert!(state[BQUEEN as usize] == 0);
            assert!(state[WROOK as usize] == 1 << 18);
        }
    }
    assert!(saw_capture);
}

#[test]
fn material_count_of_start_position_is_even() {
    assert!(basic_eval(setup_board()) == 0);
}

#[test]
fn material_count_values_white_rook() {
    let mut board: [u64; 13] = [0; 13];
    board[WROOK as usize] = 1 << 10;
    board[WPAWN as usize] = STARTING_WPAWNS;
    board[BROOK as usize] = 1 << 40;
    assert!(basic_eval(board) == 5 + 8 - 5);
}

#[test]
fn bot_takes_the_hanging_queen() {
    let mut board: [u64; 13] = [0; 13];
    board[WROOK as usize] = 1 << 10;
    board[BQUEEN as usize] = 1 << 18;
    let bot = make_bot(BasicEval {}, 0);
    let mut maps = make_move_maps();
    let chosen: [u64; 13] = bot.get_state_quiet(board, 1, &mut maps);
    assert!(chosen[BQUEEN as usize] == 0);
    assert!(chosen[WROOK as usize] == 1 << 18);
}

#[test]
fn bot_choice_is_a_generated_successor() {
    let board: [u64; 13] = setup_board();
    let bot = make_bot(BasicEval {}, 1);
    let mut maps = make_move_maps();
    let chosen: [u64; 13] = bot.get_state_quiet(board, 1, &mut maps);
    let states: Vec<[u64; 13]> = states_for_turn(board, 1, &mut maps);
    assert!(states.iter().any(|s| *s == chosen));
}

#[test]
fn deeper_search_still_picks_a_legal_reply() {
    let board: [u64; 13] = setup_board();
    let bot = make_bot(BasicEval {}, 2);
    let mut maps = make_move_maps();
    let white_move: [u64; 13] = bot.get_state_quiet(board, 1, &mut maps);
    let black_reply: [u64; 13] = bot.get_state_quiet(white_move, 2, &mut maps);
    let states: Vec<[u64; 13]> = states_for_turn(white_move, 2, &mut maps);
    assert!(states.iter().any(|s| *s == black_reply));
}

#[test]
fn empty_side_yields_empty_choice() {
    let board: [u64; 13] = [0; 13];
    let bot = make_bot(BasicEval {}, 1);
    let mut maps = make_move_maps();
    let chosen: [u64; 13] = bot.get_state_quiet(board, 1, &mut maps);
    assert!(chosen == [0; 13]);
}

#[test]
fn knight_shape_respects_file_boundary() {
    let targets: u64 = bitchess::open_squares::L_shape(1);
    assert!(number_of_bits(targets) == 2);
    assert!(targets == (1 << 10) | (1 << 17));
}

#[test]
fn king_shape_from_corner_has_three_targets() {
    let targets: u64 = bitchess::open_squares::square_shape(1);
    assert!(number_of_bits(targets) == 3);
    assert!(targets == (1 << 1) | (1 << 8) | (1 << 9));
}

#[test]
fn starting_position_has_twenty_moves_per_side() {
    let board: [u64; 13] = setup_board();
    let mut maps = make_move_maps();
    assert!(states_for_turn(board, 1, &mut maps).len() == 20);
    assert!(states_for_turn(board, 0, &mut maps).len() == 20);
}
