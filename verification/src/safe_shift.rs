//! Whole-board shifts by several files or ranks, dropping occupants that
//! cross the board edge instead of letting them wrap to the next row.

use vstd::prelude::*;

use crate::bits::stepn;
use crate::bits::Direction;
use crate::neighbor::next;

verus! {

fn general_shift(board: u64, shift: u8, d: Direction) -> (r: u64)
    ensures
        r == stepn(board, d, shift as nat),
{
    let mut b: u64 = board;
    let mut s: u8 = 0;
    while s < shift
        invariant
            s <= shift,
            b == stepn(board, d, s as nat),
        decreases shift - s,
    {
        b = next(b, d);
        s = s + 1;
    }
    b
}

/// Shift toward higher files `file` times.
pub fn right(board: u64, file: u8) -> (r: u64)
    ensures
        r == stepn(board, Direction::Right, file as nat),
{
    general_shift(board, file, Direction::Right)
}

/// Shift toward lower files `file` times.
pub fn left(board: u64, file: u8) -> (r: u64)
    ensures
        r == stepn(board, Direction::Left, file as nat),
{
    general_shift(board, file, Direction::Left)
}

/// Shift toward higher ranks `rank` times.
pub fn up(board: u64, rank: u8) -> (r: u64)
    ensures
        r == stepn(board, Direction::Up, rank as nat),
{
    general_shift(board, rank, Direction::Up)
}

/// Shift toward lower ranks `rank` times.
pub fn down(board: u64, rank: u8) -> (r: u64)
    ensures
        r == stepn(board, Direction::Down, rank as nat),
{
    general_shift(board, rank, Direction::Down)
}

/// Shift right for a non-negative count, left for a negative one.
pub fn horizontal(board: u64, file: i8) -> (r: u64)
    ensures
        file >= 0 ==> r == stepn(board, Direction::Right, file as nat),
        file < 0 ==> r == stepn(board, Direction::Left, (-(file as int)) as nat),
{
    if file < 0 {
        let steps: i16 = -(file as i16);
        left(board, steps as u8)
    } else {
        right(board, file as u8)
    }
}

/// Shift up for a non-negative count, down for a negative one.
pub fn vertical(board: u64, rank: i8) -> (r: u64)
    ensures
        rank >= 0 ==> r == stepn(board, Direction::Up, rank as nat),
        rank < 0 ==> r == stepn(board, Direction::Down, (-(rank as int)) as nat),
{
    if rank < 0 {
        let steps: i16 = -(rank as i16);
        down(board, steps as u8)
    } else {
        up(board, rank as u8)
    }
}

} // verus!
