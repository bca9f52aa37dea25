//! Pawn move generation: single push, double push and the two diagonal
//! captures, each a masked directional shift of the pawn bitboard.

use vstd::prelude::*;

use crate::bits::indices;
use crate::board::all_occ;
use crate::board::board_ok;
use crate::board::enemy_occ;
use crate::board::get_all_not_occupation;
use crate::board::get_enemy_occupation;
use crate::constants::ALL_BUT_FIRST_FILE;
use crate::constants::ALL_BUT_FIRST_RANK;
use crate::constants::ALL_BUT_LAST_FILE;
use crate::constants::ALL_BUT_LAST_RANK;
use crate::constants::FIFTH_RANK;
use crate::constants::FOURTH_RANK;
use crate::constants::WHOLE_BOARD;
use crate::constants::WPAWN;
use crate::constants::BPAWN;
use crate::constants::WHITE_TEAM;
use crate::constants::BLACK_TEAM;
use crate::split_state::add_ending_square;
use crate::split_state::apply_move;
use crate::split_state::matches_states;
use crate::split_state::remove_other_pieces_from_ending_square;
use crate::split_state::remove_start_square;
use crate::split_state::split_slice_into_slices;
use crate::utility::two_way;
use crate::utility::two_way_shift;

verus! {

/// White single push: pawns not on the last rank, one rank up, landing where
/// `occupation` allows.
pub open spec fn w_one(p: u64, occupation: u64) -> u64 {
    two_way(p & ALL_BUT_LAST_RANK, 8) & occupation
}

/// White capture toward higher files.
pub open spec fn w_right(p: u64, occupation: u64) -> u64 {
    two_way(p & (ALL_BUT_LAST_RANK & ALL_BUT_LAST_FILE), 9) & occupation
}

/// White capture toward lower files.
pub open spec fn w_left(p: u64, occupation: u64) -> u64 {
    two_way(p & (ALL_BUT_LAST_RANK & ALL_BUT_FIRST_FILE), 7) & occupation
}

/// White double push: the single push chained through itself, kept only on
/// the fourth rank.
pub open spec fn w_two(p: u64, occupation: u64) -> u64 {
    w_one(w_one(p, occupation), occupation) & FOURTH_RANK
}

/// Black single push: one rank down.
pub open spec fn b_one(p: u64, occupation: u64) -> u64 {
    two_way(p & ALL_BUT_FIRST_RANK, -8) & occupation
}

/// Black capture toward higher files.
pub open spec fn b_right(p: u64, occupation: u64) -> u64 {
    two_way(p & (ALL_BUT_FIRST_RANK & ALL_BUT_LAST_FILE), -7) & occupation
}

/// Black capture toward lower files.
pub open spec fn b_left(p: u64, occupation: u64) -> u64 {
    two_way(p & (ALL_BUT_FIRST_RANK & ALL_BUT_FIRST_FILE), -9) & occupation
}

/// Black double push, kept only on the fifth rank.
pub open spec fn b_two(p: u64, occupation: u64) -> u64 {
    b_one(b_one(p, occupation), occupation) & FIFTH_RANK
}

/// One successor per ending square of `endings`, the moving pawn coming from
/// `shift` squares back.
pub open spec fn states_from_endings(b: Seq<u64>, endings: u64, shift: int, slice: int) -> Seq<
    Seq<u64>,
> {
    Seq::new(
        indices(endings).len(),
        |k: int|
            apply_move(
                b,
                two_way(1u64 << indices(endings)[k], -shift),
                1u64 << indices(endings)[k],
                slice,
            ),
    )
}

/// All pawn successor states for one side: single pushes, double pushes,
/// captures right, captures left, in that order.
pub open spec fn pawn_states(b: Seq<u64>, team: u8, slice: int) -> Seq<Seq<u64>> {
    let not_occ = all_occ(b) ^ WHOLE_BOARD;
    let enemy = enemy_occ(b, team);
    let p = b[slice];
    if team % 2 == 1 {
        states_from_endings(b, w_one(p, not_occ), 8, slice) + states_from_endings(
            b,
            w_two(p, not_occ),
            16,
            slice,
        ) + states_from_endings(b, w_right(p, enemy), 9, slice) + states_from_endings(
            b,
            w_left(p, enemy),
            7,
            slice,
        )
    } else {
        states_from_endings(b, b_one(p, not_occ), -8, slice) + states_from_endings(
            b,
            b_two(p, not_occ),
            -16,
            slice,
        ) + states_from_endings(b, b_right(p, enemy), -7, slice) + states_from_endings(
            b,
            b_left(p, enemy),
            -9,
            slice,
        )
    }
}

fn general_pawn_move(pawns: u64, shift: i8, occupation: u64, mask: u64) -> (r: u64)
    requires
        -63 <= shift <= 63,
    ensures
        r == two_way(pawns & mask, shift as int) & occupation,
{
    let masked: u64 = pawns & mask;
    let shifted: u64 = two_way_shift(masked, shift);
    shifted & occupation
}

pub fn wpawn_one(pawns: u64, occupation: u64) -> (r: u64)
    ensures
        r == w_one(pawns, occupation),
{
    general_pawn_move(pawns, 8, occupation, ALL_BUT_LAST_RANK)
}

pub fn wpawn_right(pawns: u64, occupation: u64) -> (r: u64)
    ensures
        r == w_right(pawns, occupation),
{
    general_pawn_move(pawns, 9, occupation, ALL_BUT_LAST_RANK & ALL_BUT_LAST_FILE)
}

pub fn wpawn_left(pawns: u64, occupation: u64) -> (r: u64)
    ensures
        r == w_left(pawns, occupation),
{
    general_pawn_move(pawns, 7, occupation, ALL_BUT_LAST_RANK & ALL_BUT_FIRST_FILE)
}

pub fn wpawn_two(pawns: u64, occupation: u64) -> (r: u64)
    ensures
        r == w_two(pawns, occupation),
{
    let once: u64 = wpawn_one(pawns, occupation);
    wpawn_one(once, occupation) & FOURTH_RANK
}

pub fn bpawn_one(pawns: u64, occupation: u64) -> (r: u64)
    ensures
        r == b_one(pawns, occupation),
{
    general_pawn_move(pawns, -8, occupation, ALL_BUT_FIRST_RANK)
}

pub fn bpawn_right(pawns: u64, occupation: u64) -> (r: u64)
    ensures
        r == b_right(pawns, occupation),
{
    general_pawn_move(pawns, -7, occupation, ALL_BUT_FIRST_RANK & ALL_BUT_LAST_FILE)
}

pub fn bpawn_left(pawns: u64, occupation: u64) -> (r: u64)
    ensures
        r == b_left(pawns, occupation),
{
    general_pawn_move(pawns, -9, occupation, ALL_BUT_FIRST_RANK & ALL_BUT_FIRST_FILE)
}

pub fn bpawn_two(pawns: u64, occupation: u64) -> (r: u64)
    ensures
        r == b_two(pawns, occupation),
{
    let once: u64 = bpawn_one(pawns, occupation);
    bpawn_one(once, occupation) & FIFTH_RANK
}

fn get_updated_board_from_endings(board: [u64; 13], pawns: u64, shift: i8, slice_index: u8) -> (r:
    Vec<[u64; 13]>)
    requires
        slice_index < 12,
        -63 <= shift <= 63,
    ensures
        matches_states(r@, states_from_endings(board@, pawns, shift as int, slice_index as int)),
{
    let mut states: Vec<[u64; 13]> = Vec::new();
    let endings: Vec<u64> = split_slice_into_slices(pawns);
    let mut k: usize = 0;
    while k < endings.len()
        invariant
            endings@.len() == indices(pawns).len(),
            forall|m: int|
                0 <= m < endings@.len() ==> endings@[m] == (1u64 << indices(pawns)[m]),
            k <= endings@.len(),
            slice_index < 12,
            -63 <= shift <= 63,
            states@.len() == k,
            forall|m: int|
                0 <= m < k ==> #[trigger] states@[m]@ == apply_move(
                    board@,
                    two_way(1u64 << indices(pawns)[m], -(shift as int)),
                    1u64 << indices(pawns)[m],
                    slice_index as int,
                ),
        decreases endings@.len() - k,
    {
        let new_pawn_bit: u64 = endings[k];
        let starting_square: u64 = two_way_shift(new_pawn_bit, -shift);
        let mut temp_board: [u64; 13] = board;
        remove_start_square(&mut temp_board, starting_square);
        add_ending_square(&mut temp_board, new_pawn_bit, slice_index);
        remove_other_pieces_from_ending_square(&mut temp_board, new_pawn_bit, slice_index);
        proof {
            assert(temp_board@ =~= apply_move(
                board@,
                starting_square,
                new_pawn_bit,
                slice_index as int,
            ));
        }
        states.push(temp_board);
        k = k + 1;
    }
    states
}

pub(crate) fn append_states(dst: &mut Vec<[u64; 13]>, src: Vec<[u64; 13]>)
    ensures
        final(dst)@ == old(dst)@ + src@,
{
    let mut k: usize = 0;
    while k < src.len()
        invariant
            k <= src@.len(),
            dst@ == old(dst)@ + src@.take(k as int),
        decreases src@.len() - k,
    {
        proof {
            assert(old(dst)@ + src@.take(k as int + 1) =~= (old(dst)@ + src@.take(k as int)).push(
                src@[k as int],
            ));
        }
        dst.push(src[k]);
        k = k + 1;
    }
    proof {
        assert(old(dst)@ + src@.take(src@.len() as int) =~= old(dst)@ + src@);
    }
}

/// All pawn successors of one side: the pawn slice is shifted through each
/// move family and each resulting destination becomes one new state.
#[inline(always)]
pub fn general_pawn_all(board: [u64; 13], team: u8, slice_index: u8) -> (r: Vec<[u64; 13]>)
    requires
        board_ok(board@),
        slice_index < 12,
    ensures
        matches_states(r@, pawn_states(board@, team, slice_index as int)),
{
    let mut states: Vec<[u64; 13]> = Vec::new();
    let not_board_occ: u64 = get_all_not_occupation(board);
    let enemy_occupancy: u64 = get_enemy_occupation(board, team);
    let pawns: u64 = board[slice_index as usize];
    if team % 2 == 1 {
        let s1: Vec<[u64; 13]> = get_updated_board_from_endings(
            board,
            wpawn_one(pawns, not_board_occ),
            8,
            slice_index,
        );
        let s2: Vec<[u64; 13]> = get_updated_board_from_endings(
            board,
            wpawn_two(pawns, not_board_occ),
            16,
            slice_index,
        );
        let s3: Vec<[u64; 13]> = get_updated_board_from_endings(
            board,
            wpawn_right(pawns, enemy_occupancy),
            9,
            slice_index,
        );
        let s4: Vec<[u64; 13]> = get_updated_board_from_endings(
            board,
            wpawn_left(pawns, enemy_occupancy),
            7,
            slice_index,
        );
        let ghost t1 = s1@;
        let ghost t2 = s2@;
        let ghost t3 = s3@;
        let ghost t4 = s4@;
        append_states(&mut states, s1);
        append_states(&mut states, s2);
        append_states(&mut states, s3);
        append_states(&mut states, s4);
        proof {
            assert(states@ =~= t1 + t2 + t3 + t4);
            lemma_matches_concat4(
                t1,
                t2,
                t3,
                t4,
                states_from_endings(board@, w_one(pawns, not_board_occ), 8, slice_index as int),
                states_from_endings(board@, w_two(pawns, not_board_occ), 16, slice_index as int),
                states_from_endings(board@, w_right(pawns, enemy_occupancy), 9, slice_index as int),
                states_from_endings(board@, w_left(pawns, enemy_occupancy), 7, slice_index as int),
            );
        }
        states
    } else {
        let s1: Vec<[u64; 13]> = get_updated_board_from_endings(
            board,
            bpawn_one(pawns, not_board_occ),
            -8,
            slice_index,
        );
        let s2: Vec<[u64; 13]> = get_updated_board_from_endings(
            board,
            bpawn_two(pawns, not_board_occ),
            -16,
            slice_index,
        );
        let s3: Vec<[u64; 13]> = get_updated_board_from_endings(
            board,
            bpawn_right(pawns, enemy_occupancy),
            -7,
            slice_index,
        );
        let s4: Vec<[u64; 13]> = get_updated_board_from_endings(
            board,
            bpawn_left(pawns, enemy_occupancy),
            -9,
            slice_index,
        );
        let ghost t1 = s1@;
        let ghost t2 = s2@;
        let ghost t3 = s3@;
        let ghost t4 = s4@;
        append_states(&mut states, s1);
        append_states(&mut states, s2);
        append_states(&mut states, s3);
        append_states(&mut states, s4);
        proof {
            assert(states@ =~= t1 + t2 + t3 + t4);
            lemma_matches_concat4(
                t1,
                t2,
                t3,
                t4,
                states_from_endings(board@, b_one(pawns, not_board_occ), -8, slice_index as int),
                states_from_endings(board@, b_two(pawns, not_board_occ), -16, slice_index as int),
                states_from_endings(board@, b_right(pawns, enemy_occupancy), -7, slice_index as int),
                states_from_endings(board@, b_left(pawns, enemy_occupancy), -9, slice_index as int),
            );
        }
        states
    }
}

/// Element-wise agreement carries over concatenation of four parts.
proof fn lemma_matches_concat4(
    v1: Seq<[u64; 13]>,
    v2: Seq<[u64; 13]>,
    v3: Seq<[u64; 13]>,
    v4: Seq<[u64; 13]>,
    s1: Seq<Seq<u64>>,
    s2: Seq<Seq<u64>>,
    s3: Seq<Seq<u64>>,
    s4: Seq<Seq<u64>>,
)
    requires
        matches_states(v1, s1),
        matches_states(v2, s2),
        matches_states(v3, s3),
        matches_states(v4, s4),
    ensures
        matches_states(v1 + v2 + v3 + v4, s1 + s2 + s3 + s4),
{
    let v = v1 + v2 + v3 + v4;
    let s = s1 + s2 + s3 + s4;
    assert forall|k: int| 0 <= k < v.len() implies #[trigger] v[k]@ == s[k] by {
        if k < v1.len() {
            assert(v[k] == v1[k]);
            assert(s[k] == s1[k]);
        } else if k < v1.len() + v2.len() {
            assert(v[k] == v2[k - v1.len()]);
            assert(s[k] == s2[k - v1.len()]);
        } else if k < v1.len() + v2.len() + v3.len() {
            assert(v[k] == v3[k - v1.len() - v2.len()]);
            assert(s[k] == s3[k - v1.len() - v2.len()]);
        } else {
            assert(v[k] == v4[k - v1.len() - v2.len() - v3.len()]);
            assert(s[k] == s4[k - v1.len() - v2.len() - v3.len()]);
        }
    }
}

/// All white pawn successors.
#[inline(always)]
pub fn wpawn_all(board: [u64; 13]) -> (r: Vec<[u64; 13]>)
    requires
        board_ok(board@),
    ensures
        matches_states(r@, pawn_states(board@, WHITE_TEAM, WPAWN as int)),
{
    general_pawn_all(board, WHITE_TEAM, WPAWN)
}

/// All black pawn successors.
#[inline(always)]
pub fn bpawn_all(board: [u64; 13]) -> (r: Vec<[u64; 13]>)
    requires
        board_ok(board@),
    ensures
        matches_states(r@, pawn_states(board@, BLACK_TEAM, BPAWN as int)),
{
    general_pawn_all(board, BLACK_TEAM, BPAWN)
}

} // verus!
