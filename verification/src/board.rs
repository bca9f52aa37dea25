//! Occupancy queries over a board state: the twelve piece bitboards combined
//! by side, by side without its king, or all together.
//!
//! A valid board state keeps every square in at most one slice; the
//! OR-reduction of the slices then equals their XOR-reduction, and
//! `get_all_occupation` checks exactly that.

use vstd::prelude::*;

use crate::constants::WHOLE_BOARD;

verus! {

/// A board state: one bitboard per (side, piece kind) pair in slices 0
/// through 11; slice 12 is unused and carried through unchanged.
pub open spec fn board_ok(b: Seq<u64>) -> bool {
    b.len() == 13 && (forall|s1: int, s2: int| 0 <= s1 < s2 < 12 ==> b[s1] & b[s2] == 0)
}

/// OR of the slices of `b` with index in `lo .. hi`.
pub open spec fn or_slices(b: Seq<u64>, lo: int, hi: int) -> u64
    decreases hi - lo,
{
    if lo >= hi {
        0u64
    } else {
        or_slices(b, lo, hi - 1) | b[hi - 1]
    }
}

/// XOR of the slices of `b` with index in `lo .. hi`.
pub open spec fn xor_slices(b: Seq<u64>, lo: int, hi: int) -> u64
    decreases hi - lo,
{
    if lo >= hi {
        0u64
    } else {
        xor_slices(b, lo, hi - 1) ^ b[hi - 1]
    }
}

/// All squares occupied by white pieces.
pub open spec fn white_occ(b: Seq<u64>) -> u64 {
    or_slices(b, 0, 6)
}

/// All squares occupied by black pieces.
pub open spec fn black_occ(b: Seq<u64>) -> u64 {
    or_slices(b, 6, 12)
}

/// All occupied squares.
pub open spec fn all_occ(b: Seq<u64>) -> u64 {
    or_slices(b, 0, 12)
}

/// Occupancy of the side whose turn it is: even turns play black.
pub open spec fn ally_occ(b: Seq<u64>, turn: u8) -> u64 {
    if turn % 2 == 0 {
        black_occ(b)
    } else {
        white_occ(b)
    }
}

/// Occupancy of the opposing side.
pub open spec fn enemy_occ(b: Seq<u64>, turn: u8) -> u64 {
    if turn % 2 == 1 {
        black_occ(b)
    } else {
        white_occ(b)
    }
}

/// Complement of the moving side's occupancy: every square it may move to.
pub open spec fn not_ally_occ(b: Seq<u64>, turn: u8) -> u64 {
    ally_occ(b, turn) ^ WHOLE_BOARD
}

proof fn lemma_or_xor_disjoint(a: u64, b: u64)
    by (bit_vector)
    requires
        a & b == 0,
    ensures
        a | b == a ^ b,
{
}

proof fn lemma_or_preserves_disjoint(a: u64, b: u64, c: u64)
    by (bit_vector)
    requires
        a & c == 0,
        b & c == 0,
    ensures
        (a | b) & c == 0,
        c & (a | b) == 0,
{
}

proof fn lemma_or_slices_disjoint(b: Seq<u64>, lo: int, hi: int, s: int)
    requires
        board_ok(b),
        0 <= lo <= hi <= s < 12,
    ensures
        or_slices(b, lo, hi) & b[s] == 0,
    decreases hi - lo,
{
    if lo >= hi {
        assert(0u64 & b[s] == 0) by (bit_vector);
    } else {
        lemma_or_slices_disjoint(b, lo, hi - 1, s);
        lemma_or_preserves_disjoint(or_slices(b, lo, hi - 1), b[hi - 1], b[s]);
    }
}

/// On a valid board the OR- and XOR-reductions of the piece slices agree.
pub proof fn lemma_or_xor_slices(b: Seq<u64>, lo: int, hi: int)
    requires
        board_ok(b),
        0 <= lo <= hi <= 12,
    ensures
        or_slices(b, lo, hi) == xor_slices(b, lo, hi),
    decreases hi - lo,
{
    if lo < hi {
        lemma_or_xor_slices(b, lo, hi - 1);
        lemma_or_slices_disjoint(b, lo, hi - 1, hi - 1);
        lemma_or_xor_disjoint(or_slices(b, lo, hi - 1), b[hi - 1]);
    }
}

/// The bitboard of one slice.
pub fn get_slice_occupation(board: [u64; 13], slice_index: u8) -> (r: u64)
    requires
        slice_index < 13,
    ensures
        r == board@[slice_index as int],
{
    board[slice_index as usize]
}

fn or_range(board: &[u64; 13], lo: usize, hi: usize) -> (r: u64)
    requires
        lo <= hi <= 13,
    ensures
        r == or_slices(board@, lo as int, hi as int),
{
    let mut occ: u64 = 0;
    let mut s: usize = lo;
    proof {
        assert(0u64 | 0u64 == 0) by (bit_vector);
        assert(or_slices(board@, lo as int, lo as int) == 0);
    }
    while s < hi
        invariant
            lo <= s <= hi <= 13,
            occ == or_slices(board@, lo as int, s as int),
        decreases hi - s,
    {
        occ = occ | board[s];
        s = s + 1;
    }
    occ
}

/// All squares occupied by black.
pub fn get_black_occupation(board: [u64; 13]) -> (r: u64)
    ensures
        r == black_occ(board@),
{
    or_range(&board, 6, 12)
}

/// All squares occupied by white.
pub fn get_white_occupation(board: [u64; 13]) -> (r: u64)
    ensures
        r == white_occ(board@),
{
    or_range(&board, 0, 6)
}

/// White's occupancy leaving out the king slice.
pub fn get_white_occupation_except_king(board: [u64; 13]) -> (r: u64)
    ensures
        r == or_slices(board@, 0, 5),
{
    or_range(&board, 0, 5)
}

/// Black's occupancy leaving out the king slice.
pub fn get_black_occupation_except_king(board: [u64; 13]) -> (r: u64)
    ensures
        r == or_slices(board@, 6, 11),
{
    or_range(&board, 6, 11)
}

/// All occupied squares; checks the board's one-piece-per-square invariant by
/// comparing the OR-reduction with the XOR-reduction of the slices.
pub fn get_all_occupation(board: [u64; 13]) -> (r: u64)
    requires
        board_ok(board@),
    ensures
        r == all_occ(board@),
{
    let mut_occ_board: u64 = or_range(&board, 0, 12);
    let mut occ_dup: u64 = 0;
    let mut s: usize = 0;
    proof {
        assert(xor_slices(board@, 0, 0) == 0);
    }
    while s < 12
        invariant
            s <= 12,
            occ_dup == xor_slices(board@, 0, s as int),
        decreases 12 - s,
    {
        occ_dup = occ_dup ^ board[s];
        s = s + 1;
    }
    proof {
        lemma_or_xor_slices(board@, 0, 12);
    }
    assert(mut_occ_board == occ_dup);
    mut_occ_board
}

/// All empty squares.
pub fn get_all_not_occupation(board: [u64; 13]) -> (r: u64)
    requires
        board_ok(board@),
    ensures
        r == all_occ(board@) ^ WHOLE_BOARD,
{
    get_all_occupation(board) ^ WHOLE_BOARD
}

/// Occupancy of the side to move.
pub fn get_ally_occupation(board: [u64; 13], turn: u8) -> (r: u64)
    ensures
        r == ally_occ(board@, turn),
{
    if turn % 2 == 0 {
        get_black_occupation(board)
    } else {
        get_white_occupation(board)
    }
}

/// Occupancy of the side not moving.
pub fn get_enemy_occupation(board: [u64; 13], turn: u8) -> (r: u64)
    ensures
        r == enemy_occ(board@, turn),
{
    if turn % 2 == 1 {
        get_black_occupation(board)
    } else {
        get_white_occupation(board)
    }
}

/// Squares the side to move may land on: everything it does not occupy.
pub fn get_not_ally_occupation(board: [u64; 13], turn: u8) -> (r: u64)
    ensures
        r == not_ally_occ(board@, turn),
{
    if turn % 2 == 0 {
        get_black_occupation(board) ^ WHOLE_BOARD
    } else {
        get_white_occupation(board) ^ WHOLE_BOARD
    }
}

} // verus!
