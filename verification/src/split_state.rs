//! Move application: turning one piece's destination set into the list of
//! successor board states, one state per destination square, in ascending
//! square order.

use vstd::prelude::*;

use crate::bits::bit;
use crate::bits::index_of;
use crate::bits::indices;
use crate::bits::indices_from;
use crate::bits::lemma_bit_ops;
use crate::bits::lemma_indices_from_clear_below;
use crate::bits::lemma_indices_from_props;
use crate::bits::lemma_indices_from_skip;
use crate::bits::lemma_single;
use crate::bits::single_bit;
use crate::constants::WHOLE_BOARD;
use crate::utility::isolate_lsb;

verus! {

/// The board after moving the piece of slice `slice` from `origin` to
/// `dest`: the origin square is emptied in every slice, the destination
/// square is emptied in every other slice (removing a captured piece) and set
/// in `slice`.  The unused final slice is carried through.
pub open spec fn apply_move(b: Seq<u64>, origin: u64, dest: u64, slice: int) -> Seq<u64> {
    Seq::new(
        13,
        |s: int|
            if s == 12 {
                b[12]
            } else if s == slice {
                (b[s] & (origin ^ WHOLE_BOARD)) | dest
            } else {
                b[s] & (origin ^ WHOLE_BOARD) & (dest ^ WHOLE_BOARD)
            },
    )
}

/// One successor state per destination square of `dests`, in ascending
/// square order.
pub open spec fn split_states(b: Seq<u64>, origin: u64, dests: u64, slice: int) -> Seq<Seq<u64>> {
    Seq::new(indices(dests).len(), |k: int| apply_move(b, origin, 1u64 << indices(dests)[k], slice))
}

/// A vector of states matches a specification sequence of boards when they
/// agree element by element.
pub open spec fn matches_states(v: Seq<[u64; 13]>, s: Seq<Seq<u64>>) -> bool {
    v.len() == s.len() && (forall|k: int| 0 <= k < v.len() ==> #[trigger] v[k]@ == s[k])
}

proof fn lemma_apply_keeps_disjoint(x: u64, y: u64, o: u64, d: u64)
    by (bit_vector)
    requires
        x & y == 0,
    ensures
        ((x & (o ^ 0xFFFFFFFFFFFFFFFFu64)) | d) & (y & (o ^ 0xFFFFFFFFFFFFFFFFu64) & (d
            ^ 0xFFFFFFFFFFFFFFFFu64)) == 0,
        (y & (o ^ 0xFFFFFFFFFFFFFFFFu64) & (d ^ 0xFFFFFFFFFFFFFFFFu64)) & ((x & (o
            ^ 0xFFFFFFFFFFFFFFFFu64)) | d) == 0,
        (x & (o ^ 0xFFFFFFFFFFFFFFFFu64) & (d ^ 0xFFFFFFFFFFFFFFFFu64)) & (y & (o
            ^ 0xFFFFFFFFFFFFFFFFu64) & (d ^ 0xFFFFFFFFFFFFFFFFu64)) == 0,
{
}

/// Applying a move to a valid board yields a valid board: no square ends up
/// in two slices.
pub proof fn lemma_apply_move_ok(b: Seq<u64>, origin: u64, dest: u64, slice: int)
    requires
        crate::board::board_ok(b),
        0 <= slice < 12,
    ensures
        crate::board::board_ok(apply_move(b, origin, dest, slice)),
{
    let nb = apply_move(b, origin, dest, slice);
    assert forall|s1: int, s2: int| 0 <= s1 < s2 < 12 implies nb[s1] & nb[s2] == 0 by {
        if s1 == slice {
            lemma_apply_keeps_disjoint(b[s1], b[s2], origin, dest);
        } else if s2 == slice {
            let x = b[s1];
            let y = b[s2];
            assert(y & x == 0) by (bit_vector)
                requires
                    x & y == 0,
            ;
            lemma_apply_keeps_disjoint(b[s2], b[s1], origin, dest);
        } else {
            lemma_apply_keeps_disjoint(b[s1], b[s2], origin, dest);
        }
    }
}

/// Total number of pieces on the first `n` slices of a board.
pub open spec fn count_slices(b: Seq<u64>, n: int) -> int
    decreases n,
{
    if n <= 0 {
        0
    } else {
        count_slices(b, n - 1) + crate::bits::pop(b[n - 1])
    }
}

/// Total number of pieces on a board.
pub open spec fn piece_count(b: Seq<u64>) -> int {
    count_slices(b, 12)
}

proof fn lemma_count_slices_le(a: Seq<u64>, b: Seq<u64>, n: int)
    requires
        forall|s: int| 0 <= s < n ==> crate::bits::pop(a[s]) <= crate::bits::pop(b[s]),
    ensures
        count_slices(a, n) <= count_slices(b, n),
    decreases n,
{
    if n > 0 {
        lemma_count_slices_le(a, b, n - 1);
    }
}

/// Applying a move never adds pieces: the moving piece leaves one square and
/// lands on one square, and whatever stood on the landing square is removed.
pub proof fn lemma_apply_move_count(b: Seq<u64>, origin: u64, dest: u64, slice: int)
    requires
        0 <= slice < 12,
        single_bit(origin),
        single_bit(dest),
        bit(b[slice], index_of(origin)),
    ensures
        piece_count(apply_move(b, origin, dest, slice)) <= piece_count(b),
{
    let nb = apply_move(b, origin, dest, slice);
    let oi = index_of(origin);
    let di = index_of(dest);
    assert forall|s: int| 0 <= s < 12 implies crate::bits::pop(nb[s]) <= crate::bits::pop(
        b[s],
    ) by {
        if s == slice {
            crate::bits::lemma_pop_clear(b[s], oi);
            crate::bits::lemma_pop_or_single(b[s] & (origin ^ WHOLE_BOARD), di);
        } else {
            assert forall|j: u64| j < 64 && #[trigger] bit(nb[s], j) implies bit(b[s], j) by {
                lemma_bit_ops(b[s] & (origin ^ WHOLE_BOARD), dest ^ WHOLE_BOARD, j);
                lemma_bit_ops(b[s], origin ^ WHOLE_BOARD, j);
            }
            crate::bits::lemma_pop_subset(nb[s], b[s]);
        }
    }
    lemma_count_slices_le(nb, b, 12);
}

/// Splitting off the lowest occupied square takes the head of the index list.
proof fn lemma_indices_pop_lsb(b: u64, m: u64)
    requires
        m < 64,
        bit(b, m),
        forall|j: u64| j < m ==> !bit(b, j),
    ensures
        indices(b).len() >= 1,
        indices(b)[0] == m,
        indices(b ^ (1u64 << m)) == indices(b).skip(1),
{
    lemma_indices_from_skip(b, m);
    let rest = indices_from(b, (m + 1) as u64);
    assert(indices(b) == seq![m] + rest);
    assert(indices(b)[0] == m);
    let b2 = b ^ (1u64 << m);
    assert forall|j: u64| j < m + 1 implies !bit(b2, j) by {
        lemma_bit_ops(b, 1u64 << m, j);
        lemma_single(m, j);
    }
    lemma_indices_from_skip(b2, (m + 1) as u64);
    lemma_indices_from_clear_below(b, m, (m + 1) as u64);
    assert(indices(b2) == rest);
    assert(indices(b).skip(1) =~= rest);
}

/// Decompose a bitboard into its single-square boards, lowest square first.
pub fn split_slice_into_slices(slice: u64) -> (r: Vec<u64>)
    ensures
        r@.len() == indices(slice).len(),
        forall|k: int| 0 <= k < r@.len() ==> r@[k] == 1u64 << indices(slice)[k],
{
    let mut slices: Vec<u64> = Vec::new();
    let mut s: u64 = slice;
    proof {
        assert(indices(slice).skip(0) =~= indices(slice));
    }
    while s != 0
        invariant
            slices@.len() + indices(s).len() == indices(slice).len(),
            forall|k: int| 0 <= k < slices@.len() ==> slices@[k] == 1u64 << indices(slice)[k],
            indices(s) == indices(slice).skip(slices@.len() as int),
        decreases indices(s).len(),
    {
        let l: u64 = isolate_lsb(s);
        proof {
            let m: u64 = index_of(l);
            lemma_indices_pop_lsb(s, m);
            assert(indices(slice).skip(slices@.len() as int).skip(1) =~= indices(slice).skip(
                slices@.len() as int + 1,
            ));
            assert(indices(slice)[slices@.len() as int] == indices(s)[0]);
        }
        slices.push(l);
        s = s ^ l;
    }
    proof {
        if indices(s).len() > 0 {
            lemma_indices_from_props(s, 0);
            assert(bit(s, indices(s)[0]));
            lemma_bit_ops(s, s, indices(s)[0]);
        }
    }
    slices
}

pub(crate) fn remove_start_square(board: &mut [u64; 13], starting_square: u64)
    ensures
        final(board)@.len() == 13,
        forall|s: int|
            0 <= s < 13 ==> final(board)@[s] == (if s < 12 {
                old(board)@[s] & (starting_square ^ WHOLE_BOARD)
            } else {
                old(board)@[s]
            }),
{
    let all_but_starting_square: u64 = WHOLE_BOARD ^ starting_square;
    proof {
        assert(WHOLE_BOARD ^ starting_square == starting_square ^ WHOLE_BOARD) by (bit_vector);
    }
    let mut slice_index: usize = 0;
    while slice_index < 12
        invariant
            slice_index <= 12,
            board@.len() == 13,
            old(board)@.len() == 13,
            forall|s: int|
                0 <= s < slice_index ==> board@[s] == old(board)@[s] & (starting_square
                    ^ WHOLE_BOARD),
            forall|s: int| slice_index <= s < 13 ==> board@[s] == old(board)@[s],
            all_but_starting_square == starting_square ^ WHOLE_BOARD,
        decreases 12 - slice_index,
    {
        board[slice_index] = board[slice_index] & all_but_starting_square;
        slice_index = slice_index + 1;
    }
}

pub(crate) fn add_ending_square(board: &mut [u64; 13], ending_square: u64, slice_index: u8)
    requires
        slice_index < 12,
    ensures
        final(board)@ == old(board)@.update(slice_index as int, old(board)@[slice_index as int]
            | ending_square),
{
    board[slice_index as usize] = board[slice_index as usize] | ending_square;
    proof {
        assert(final(board)@ =~= old(board)@.update(
            slice_index as int,
            old(board)@[slice_index as int] | ending_square,
        ));
    }
}

pub(crate) fn remove_other_pieces_from_ending_square(board: &mut [u64; 13], ending_square: u64, slice_index: u8)
    requires
        slice_index < 12,
    ensures
        final(board)@.len() == 13,
        forall|s: int|
            0 <= s < 13 ==> final(board)@[s] == (if s < 12 && s != slice_index {
                old(board)@[s] & (ending_square ^ WHOLE_BOARD)
            } else {
                old(board)@[s]
            }),
{
    let all_but_ending_square: u64 = WHOLE_BOARD ^ ending_square;
    proof {
        assert(WHOLE_BOARD ^ ending_square == ending_square ^ WHOLE_BOARD) by (bit_vector);
    }
    let mut slice_number: usize = 0;
    while slice_number < 12
        invariant
            slice_number <= 12,
            board@.len() == 13,
            old(board)@.len() == 13,
            forall|s: int|
                0 <= s < 13 ==> board@[s] == (if s < slice_number && s != slice_index {
                    old(board)@[s] & (ending_square ^ WHOLE_BOARD)
                } else {
                    old(board)@[s]
                }),
            all_but_ending_square == ending_square ^ WHOLE_BOARD,
        decreases 12 - slice_number,
    {
        if slice_number != slice_index as usize {
            board[slice_number] = board[slice_number] & all_but_ending_square;
        }
        slice_number = slice_number + 1;
    }
}

/// One successor state per destination bit of `slice_of_splits`: the moving
/// piece leaves `starting_square`, lands on the destination, and any piece
/// standing there is removed.
pub fn split_board_into_updated_states(
    starting_square: u64,
    slice_of_splits: u64,
    board: [u64; 13],
    slice_index: u8,
) -> (r: Vec<[u64; 13]>)
    requires
        slice_index < 12,
    ensures
        matches_states(r@, split_states(board@, starting_square, slice_of_splits, slice_index as int)),
{
    let ghost orig: Seq<u64> = board@;
    let mut board: [u64; 13] = board;
    let mut states: Vec<[u64; 13]> = Vec::new();
    let potential_ending_squares: Vec<u64> = split_slice_into_slices(slice_of_splits);
    remove_start_square(&mut board, starting_square);
    let mut k: usize = 0;
    while k < potential_ending_squares.len()
        invariant
            potential_ending_squares@.len() == indices(slice_of_splits).len(),
            forall|m: int|
                0 <= m < potential_ending_squares@.len() ==> potential_ending_squares@[m] == (1u64
                    << indices(slice_of_splits)[m]),
            k <= potential_ending_squares@.len(),
            board@.len() == 13,
            forall|s: int|
                0 <= s < 13 ==> board@[s] == (if s < 12 {
                    orig[s] & (starting_square ^ WHOLE_BOARD)
                } else {
                    orig[s]
                }),
            slice_index < 12,
            states@.len() == k,
            forall|m: int|
                0 <= m < k ==> #[trigger] states@[m]@ == apply_move(
                    orig,
                    starting_square,
                    1u64 << indices(slice_of_splits)[m],
                    slice_index as int,
                ),
        decreases potential_ending_squares@.len() - k,
    {
        let ending_square: u64 = potential_ending_squares[k];
        let mut current_whole_board: [u64; 13] = board;
        add_ending_square(&mut current_whole_board, ending_square, slice_index);
        remove_other_pieces_from_ending_square(&mut current_whole_board, ending_square, slice_index);
        proof {
            assert(current_whole_board@ =~= apply_move(
                orig,
                starting_square,
                ending_square,
                slice_index as int,
            ));
        }
        states.push(current_whole_board);
        k = k + 1;
    }
    states
}

} // verus!
