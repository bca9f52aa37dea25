//! Rank, file and diagonal masks through a given square, derived
//! algebraically from the square's coordinates.

use vstd::prelude::*;

use crate::bits::bit;
use crate::bits::can_step;
use crate::bits::file;
use crate::bits::index_of;
use crate::bits::lemma_step_bit;
use crate::bits::lemma_step_index;
use crate::bits::rank;
use crate::bits::single_bit;
use crate::bits::step;
use crate::bits::stepn;
use crate::bits::Direction;
use crate::constants::BACKWARD_DIAGONAL;
use crate::constants::FIRST_FILE;
use crate::constants::FIRST_RANK;
use crate::constants::FORWARD_DIAGONAL;
use crate::safe_shift::horizontal;
use crate::utility::bit_to_index;

verus! {

/// All squares on the same rank or file as square `i`.
pub open spec fn cross_mask(i: u64) -> u64 {
    (FIRST_FILE << file(i)) | (FIRST_RANK << (8 * rank(i)))
}

/// All squares on the forward (lower-left to upper-right) diagonal through
/// square `i`.
pub open spec fn fwd_diag_mask(i: u64) -> u64 {
    if file(i) >= rank(i) {
        stepn(FORWARD_DIAGONAL, Direction::Right, (file(i) - rank(i)) as nat)
    } else {
        stepn(FORWARD_DIAGONAL, Direction::Left, (rank(i) - file(i)) as nat)
    }
}

/// All squares on the backward (upper-left to lower-right) diagonal through
/// square `i`.
pub open spec fn bwd_diag_mask(i: u64) -> u64 {
    if file(i) + rank(i) >= 7 {
        stepn(BACKWARD_DIAGONAL, Direction::Right, (file(i) + rank(i) - 7) as nat)
    } else {
        stepn(BACKWARD_DIAGONAL, Direction::Left, (7 - file(i) - rank(i)) as nat)
    }
}

/// All squares on either diagonal through square `i`.
pub open spec fn diag_mask(i: u64) -> u64 {
    fwd_diag_mask(i) | bwd_diag_mask(i)
}

proof fn lemma_file_mask_bit(f: u64, j: u64)
    by (bit_vector)
    requires
        f < 8,
        j < 64,
    ensures
        bit(FIRST_FILE << f, j) <==> j % 8 == f,
{
}

proof fn lemma_rank_mask_bit(r: u64, j: u64)
    by (bit_vector)
    requires
        r < 8,
        j < 64,
    ensures
        bit(FIRST_RANK << (8 * r), j) <==> j / 8 == r,
{
}

proof fn lemma_diag_const_bit(j: u64)
    by (bit_vector)
    requires
        j < 64,
    ensures
        bit(FORWARD_DIAGONAL, j) <==> j % 8 == j / 8,
        bit(BACKWARD_DIAGONAL, j) <==> j % 8 + j / 8 == 7,
{
}

/// A square is on the cross mask of `i` exactly when it shares `i`'s file or
/// rank.
pub proof fn lemma_cross_mask_bit(i: u64, j: u64)
    requires
        i < 64,
        j < 64,
    ensures
        bit(cross_mask(i), j) <==> (file(j) == file(i) || rank(j) == rank(i)),
{
    lemma_file_mask_bit(file(i), j);
    lemma_rank_mask_bit(rank(i), j);
    crate::bits::lemma_bit_ops(FIRST_FILE << file(i), FIRST_RANK << (8 * rank(i)), j);
}

proof fn lemma_fd_shift_bit(s: nat, j: u64)
    requires
        s <= 7,
        j < 64,
    ensures
        bit(stepn(FORWARD_DIAGONAL, Direction::Right, s), j) <==> file(j) == rank(j) + s,
        bit(stepn(FORWARD_DIAGONAL, Direction::Left, s), j) <==> rank(j) == file(j) + s,
    decreases s,
{
    if s == 0 {
        lemma_diag_const_bit(j);
    } else {
        let prev_r = stepn(FORWARD_DIAGONAL, Direction::Right, (s - 1) as nat);
        let prev_l = stepn(FORWARD_DIAGONAL, Direction::Left, (s - 1) as nat);
        lemma_step_bit(prev_r, Direction::Right, j);
        lemma_step_bit(prev_l, Direction::Left, j);
        if can_step(j, Direction::Left) {
            lemma_step_index(j, Direction::Left);
            lemma_fd_shift_bit((s - 1) as nat, crate::bits::step_index(j, Direction::Left));
        }
        if can_step(j, Direction::Right) {
            lemma_step_index(j, Direction::Right);
            lemma_fd_shift_bit((s - 1) as nat, crate::bits::step_index(j, Direction::Right));
        }
    }
}

proof fn lemma_bd_shift_bit(s: nat, j: u64)
    requires
        s <= 7,
        j < 64,
    ensures
        bit(stepn(BACKWARD_DIAGONAL, Direction::Right, s), j) <==> file(j) + rank(j) == 7 + s,
        bit(stepn(BACKWARD_DIAGONAL, Direction::Left, s), j) <==> file(j) + rank(j) + s == 7,
    decreases s,
{
    if s == 0 {
        lemma_diag_const_bit(j);
    } else {
        let prev_r = stepn(BACKWARD_DIAGONAL, Direction::Right, (s - 1) as nat);
        let prev_l = stepn(BACKWARD_DIAGONAL, Direction::Left, (s - 1) as nat);
        lemma_step_bit(prev_r, Direction::Right, j);
        lemma_step_bit(prev_l, Direction::Left, j);
        if can_step(j, Direction::Left) {
            lemma_step_index(j, Direction::Left);
            lemma_bd_shift_bit((s - 1) as nat, crate::bits::step_index(j, Direction::Left));
        }
        if can_step(j, Direction::Right) {
            lemma_step_index(j, Direction::Right);
            lemma_bd_shift_bit((s - 1) as nat, crate::bits::step_index(j, Direction::Right));
        }
    }
}

/// A square is on the forward diagonal mask of `i` exactly when its file and
/// rank differ by the same amount as `i`'s.
pub proof fn lemma_fwd_diag_bit(i: u64, j: u64)
    requires
        i < 64,
        j < 64,
    ensures
        bit(fwd_diag_mask(i), j) <==> file(j) - rank(j) == file(i) - rank(i),
{
    if file(i) >= rank(i) {
        lemma_fd_shift_bit((file(i) - rank(i)) as nat, j);
    } else {
        lemma_fd_shift_bit((rank(i) - file(i)) as nat, j);
    }
}

/// A square is on the backward diagonal mask of `i` exactly when its file and
/// rank sum to the same amount as `i`'s.
pub proof fn lemma_bwd_diag_bit(i: u64, j: u64)
    requires
        i < 64,
        j < 64,
    ensures
        bit(bwd_diag_mask(i), j) <==> file(j) + rank(j) == file(i) + rank(i),
{
    if file(i) + rank(i) >= 7 {
        lemma_bd_shift_bit((file(i) + rank(i) - 7) as nat, j);
    } else {
        lemma_bd_shift_bit((7 - file(i) - rank(i)) as nat, j);
    }
}

/// A square is on the diagonal mask of `i` exactly when it shares a diagonal
/// with `i`.
pub proof fn lemma_diag_mask_bit(i: u64, j: u64)
    requires
        i < 64,
        j < 64,
    ensures
        bit(diag_mask(i), j) <==> (file(j) - rank(j) == file(i) - rank(i) || file(j) + rank(j)
            == file(i) + rank(i)),
{
    lemma_fwd_diag_bit(i, j);
    lemma_bwd_diag_bit(i, j);
    crate::bits::lemma_bit_ops(fwd_diag_mask(i), bwd_diag_mask(i), j);
}

/// The mask of all squares in the given file.
pub fn for_file(file: u8) -> (r: u64)
    requires
        file < 8,
    ensures
        r == FIRST_FILE << (file as u64),
        forall|j: u64| j < 64 ==> (bit(r, j) <==> crate::bits::file(j) == file),
{
    proof {
        assert forall|j: u64| j < 64 implies (bit(
            FIRST_FILE << (file as u64),
            j,
        ) <==> crate::bits::file(j) == file) by {
            lemma_file_mask_bit(file as u64, j);
        }
    }
    FIRST_FILE << (file as u64)
}

/// The mask of all squares in the given rank.
pub fn for_rank(rank: u8) -> (r: u64)
    requires
        rank < 8,
    ensures
        r == FIRST_RANK << ((8 * rank) as u64),
        forall|j: u64| j < 64 ==> (bit(r, j) <==> crate::bits::rank(j) == rank),
{
    proof {
        assert forall|j: u64| j < 64 implies (bit(
            FIRST_RANK << ((8 * rank) as u64),
            j,
        ) <==> crate::bits::rank(j) == rank) by {
            lemma_rank_mask_bit(rank as u64, j);
        }
    }
    FIRST_RANK << ((8 * rank) as u64)
}

/// The rank and file masks through the given square, combined.
pub fn for_square(square: u8) -> (r: u64)
    requires
        square < 64,
    ensures
        r == cross_mask(square as u64),
        forall|j: u64|
            j < 64 ==> (bit(r, j) <==> (file(j) == file(square as u64) || rank(j) == rank(
                square as u64,
            ))),
{
    let r: u64 = for_file(square % 8) | for_rank(square / 8);
    proof {
        assert forall|j: u64| j < 64 implies (bit(r, j) <==> (file(j) == file(square as u64)
            || rank(j) == rank(square as u64))) by {
            lemma_cross_mask_bit(square as u64, j);
        }
    }
    r
}

/// The forward diagonal mask through the given square.
pub fn for_forward_diagonal(square: u8) -> (r: u64)
    requires
        square < 64,
    ensures
        r == fwd_diag_mask(square as u64),
        forall|j: u64|
            j < 64 ==> (bit(r, j) <==> file(j) - rank(j) == file(square as u64) - rank(
                square as u64,
            )),
{
    let rk: i8 = (square / 8) as i8;
    let fl: i8 = (square % 8) as i8;
    let shift: i8 = fl - rk;
    let r: u64 = horizontal(FORWARD_DIAGONAL, shift);
    proof {
        assert forall|j: u64| j < 64 implies (bit(r, j) <==> file(j) - rank(j) == file(
            square as u64,
        ) - rank(square as u64)) by {
            lemma_fwd_diag_bit(square as u64, j);
        }
    }
    r
}

/// The backward diagonal mask through the given square.
pub fn for_backward_diagonal(square: u8) -> (r: u64)
    requires
        square < 64,
    ensures
        r == bwd_diag_mask(square as u64),
        forall|j: u64|
            j < 64 ==> (bit(r, j) <==> file(j) + rank(j) == file(square as u64) + rank(
                square as u64,
            )),
{
    let rk: i8 = (square / 8) as i8;
    let fl: i8 = (square % 8) as i8;
    let shift: i8 = (rk + fl) - 7;
    let r: u64 = horizontal(BACKWARD_DIAGONAL, shift);
    proof {
        assert forall|j: u64| j < 64 implies (bit(r, j) <==> file(j) + rank(j) == file(
            square as u64,
        ) + rank(square as u64)) by {
            lemma_bwd_diag_bit(square as u64, j);
        }
    }
    r
}

/// Both diagonal masks through the given square, combined.
pub fn for_square_diagonal(square: u8) -> (r: u64)
    requires
        square < 64,
    ensures
        r == diag_mask(square as u64),
        forall|j: u64|
            j < 64 ==> (bit(r, j) <==> (file(j) - rank(j) == file(square as u64) - rank(
                square as u64,
            ) || file(j) + rank(j) == file(square as u64) + rank(square as u64))),
{
    let r: u64 = for_forward_diagonal(square) | for_backward_diagonal(square);
    proof {
        assert forall|j: u64| j < 64 implies (bit(r, j) <==> (file(j) - rank(j) == file(
            square as u64,
        ) - rank(square as u64) || file(j) + rank(j) == file(square as u64) + rank(
            square as u64,
        ))) by {
            lemma_diag_mask_bit(square as u64, j);
        }
    }
    r
}

/// The cross mask through the square held by `bit`, or the empty board for
/// the empty input.
pub fn cross_mask_from_bit(bit: u64) -> (r: u64)
    requires
        bit == 0 || single_bit(bit),
    ensures
        bit == 0 ==> r == 0,
        single_bit(bit) ==> r == cross_mask(index_of(bit)),
{
    if bit == 0 {
        proof {
            if single_bit(bit) {
                crate::bits::lemma_single(index_of(bit), 0);
            }
        }
        return 0;
    }
    proof {
        crate::bits::lemma_single(index_of(bit), 0);
    }
    let square: u8 = bit_to_index(bit) - 1;
    for_square(square)
}

/// The diagonal mask through the square held by `bit`, or the empty board for
/// the empty input.
pub fn diagonal_mask_from_bit(bit: u64) -> (r: u64)
    requires
        bit == 0 || single_bit(bit),
    ensures
        bit == 0 ==> r == 0,
        single_bit(bit) ==> r == diag_mask(index_of(bit)),
{
    if bit == 0 {
        proof {
            if single_bit(bit) {
                crate::bits::lemma_single(index_of(bit), 0);
            }
        }
        return 0;
    }
    proof {
        crate::bits::lemma_single(index_of(bit), 0);
    }
    let square: u8 = bit_to_index(bit) - 1;
    for_square_diagonal(square)
}

} // verus!
