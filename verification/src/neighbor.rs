//! Single-step neighbor lookup: given a square, the square one step over in a
//! named direction, or the empty board when the step would leave the grid.

use vstd::prelude::*;

use crate::bits::can_step;
use crate::bits::lemma_step_inverse;
use crate::bits::lemma_step_single;
use crate::bits::opposite;
use crate::bits::step;
use crate::bits::step_index;
use crate::bits::Direction;
use crate::constants::ALL_BUT_FIRST_FILE;
use crate::constants::ALL_BUT_FIRST_RANK;
use crate::constants::ALL_BUT_LAST_FILE;
use crate::constants::ALL_BUT_LAST_RANK;

verus! {

/// One step of every occupant of `b` in direction `d`; edge occupants drop off.
pub(crate) fn next(b: u64, d: Direction) -> (r: u64)
    ensures
        r == step(b, d),
{
    match d {
        Direction::Right => (b & ALL_BUT_LAST_FILE) << 1u64,
        Direction::Left => (b & ALL_BUT_FIRST_FILE) >> 1u64,
        Direction::Up => (b & ALL_BUT_LAST_RANK) << 8u64,
        Direction::Down => (b & ALL_BUT_FIRST_RANK) >> 8u64,
        Direction::UpLeft => (b & ALL_BUT_FIRST_FILE & ALL_BUT_LAST_RANK) << 7u64,
        Direction::UpRight => (b & ALL_BUT_LAST_FILE & ALL_BUT_LAST_RANK) << 9u64,
        Direction::DownLeft => (b & ALL_BUT_FIRST_FILE & ALL_BUT_FIRST_RANK) >> 9u64,
        Direction::DownRight => (b & ALL_BUT_LAST_FILE & ALL_BUT_FIRST_RANK) >> 7u64,
    }
}

pub fn right(bit: u64) -> (r: u64)
    ensures
        r == step(bit, Direction::Right),
{
    next(bit, Direction::Right)
}

pub fn left(bit: u64) -> (r: u64)
    ensures
        r == step(bit, Direction::Left),
{
    next(bit, Direction::Left)
}

pub fn up(bit: u64) -> (r: u64)
    ensures
        r == step(bit, Direction::Up),
{
    next(bit, Direction::Up)
}

pub fn down(bit: u64) -> (r: u64)
    ensures
        r == step(bit, Direction::Down),
{
    next(bit, Direction::Down)
}

pub fn up_left(bit: u64) -> (r: u64)
    ensures
        r == step(bit, Direction::UpLeft),
{
    next(bit, Direction::UpLeft)
}

pub fn up_right(bit: u64) -> (r: u64)
    ensures
        r == step(bit, Direction::UpRight),
{
    next(bit, Direction::UpRight)
}

pub fn down_left(bit: u64) -> (r: u64)
    ensures
        r == step(bit, Direction::DownLeft),
{
    next(bit, Direction::DownLeft)
}

pub fn down_right(bit: u64) -> (r: u64)
    ensures
        r == step(bit, Direction::DownRight),
{
    next(bit, Direction::DownRight)
}

/// From any square not at the edge in direction `d`, one step out followed by
/// one step back returns the original square.
pub proof fn lemma_neighbor_round_trip(i: u64, d: Direction)
    requires
        i < 64,
        can_step(i, d),
    ensures
        step(step(1u64 << i, d), opposite(d)) == (1u64 << i),
{
    lemma_step_single(i, d);
    lemma_step_inverse(i, d);
    lemma_step_single(step_index(i, d), opposite(d));
}

/// From a square at the board edge in direction `d`, the neighbor is the
/// empty board.
pub proof fn lemma_neighbor_edge(i: u64, d: Direction)
    requires
        i < 64,
        !can_step(i, d),
    ensures
        step(1u64 << i, d) == 0,
{
    lemma_step_single(i, d);
}

} // verus!
