//! Cropping a masked occupancy around a square: border ranks and files that
//! the square does not sit on are cleared, so that occupants there — which
//! can never block a ray before its last square — do not split cache entries.

use vstd::prelude::*;

use crate::bits::file;
use crate::bits::index_of;
use crate::bits::rank;
use crate::bits::single_bit;
use crate::constants::ALL_BUT_FIRST_FILE;
use crate::constants::ALL_BUT_FIRST_RANK;
use crate::constants::ALL_BUT_LAST_FILE;
use crate::constants::ALL_BUT_LAST_RANK;
use crate::utility::bottom_bit;
use crate::utility::left_bit;
use crate::utility::right_bit;
use crate::utility::top_bit;

verus! {

/// `board` with every border rank and file that square `i` does not sit on
/// cleared.
pub open spec fn crop(board: u64, i: u64) -> u64 {
    let b1 = if rank(i) != 0 {
        board & ALL_BUT_FIRST_RANK
    } else {
        board
    };
    let b2 = if rank(i) != 7 {
        b1 & ALL_BUT_LAST_RANK
    } else {
        b1
    };
    let b3 = if file(i) != 7 {
        b2 & ALL_BUT_LAST_FILE
    } else {
        b2
    };
    if file(i) != 0 {
        b3 & ALL_BUT_FIRST_FILE
    } else {
        b3
    }
}

/// Crop `board` in place around the given square.
pub fn crop_board(board: &mut u64, square: u64)
    requires
        single_bit(square),
    ensures
        *final(board) == crop(*old(board), index_of(square)),
{
    if !bottom_bit(square) {
        *board = *board & ALL_BUT_FIRST_RANK;
    }
    if !top_bit(square) {
        *board = *board & ALL_BUT_LAST_RANK;
    }
    if !right_bit(square) {
        *board = *board & ALL_BUT_LAST_FILE;
    }
    if !left_bit(square) {
        *board = *board & ALL_BUT_FIRST_FILE;
    }
}

/// Crop `board` around the given square and return the result.
pub fn crop_board_return(board: u64, square: u64) -> (r: u64)
    requires
        single_bit(square),
    ensures
        r == crop(board, index_of(square)),
{
    let mut b: u64 = board;
    crop_board(&mut b, square);
    b
}

} // verus!
