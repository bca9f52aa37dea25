//! Blocked continuations: the squares strictly beyond the first blocker along
//! each ray, which a sliding piece can never reach.

use vstd::prelude::*;

use crate::bits::first_occ_from;
use crate::bits::index_of;
use crate::bits::lemma_first_occ_props;
use crate::bits::ray_board;
use crate::bits::single_bit;
use crate::bits::Direction;

verus! {

/// The squares strictly beyond the first occupied square of `board` along the
/// ray from `i` in direction `d`; empty when no square of the ray is occupied.
pub open spec fn blocked_beyond(board: u64, i: u64, d: Direction) -> u64 {
    let f = first_occ_from(board, i, d);
    if f == 0 {
        0u64
    } else {
        ray_board(index_of(f), d)
    }
}

/// The blocked continuations of the four straight rays from `i`, combined.
pub open spec fn cross_blocked(board: u64, i: u64) -> u64 {
    blocked_beyond(board, i, Direction::Right) | blocked_beyond(board, i, Direction::Left)
        | blocked_beyond(board, i, Direction::Up) | blocked_beyond(board, i, Direction::Down)
}

/// The blocked continuations of the four diagonal rays from `i`, combined.
pub open spec fn diagonal_blocked(board: u64, i: u64) -> u64 {
    blocked_beyond(board, i, Direction::UpLeft) | blocked_beyond(board, i, Direction::UpRight)
        | blocked_beyond(board, i, Direction::DownLeft) | blocked_beyond(
        board,
        i,
        Direction::DownRight,
    )
}

fn general(board: u64, origin: u64, d: Direction) -> (r: u64)
    requires
        origin == 0 || single_bit(origin),
    ensures
        origin == 0 ==> r == 0,
        single_bit(origin) ==> r == blocked_beyond(board, index_of(origin), d),
{
    let f: u64 = crate::find_occ_bit::general_find(board, origin, d);
    proof {
        if single_bit(origin) {
            crate::bits::lemma_single(index_of(origin), 0);
            lemma_first_occ_props(board, index_of(origin), d);
        }
    }
    if f == 0 {
        return 0;
    }
    crate::fill_beyond_bit::general_fill(f, d)
}

pub fn right(board: u64, bit: u64) -> (r: u64)
    requires
        bit == 0 || single_bit(bit),
    ensures
        bit == 0 ==> r == 0,
        single_bit(bit) ==> r == blocked_beyond(board, index_of(bit), Direction::Right),
{
    general(board, bit, Direction::Right)
}

pub fn left(board: u64, bit: u64) -> (r: u64)
    requires
        bit == 0 || single_bit(bit),
    ensures
        bit == 0 ==> r == 0,
        single_bit(bit) ==> r == blocked_beyond(board, index_of(bit), Direction::Left),
{
    general(board, bit, Direction::Left)
}

pub fn up(board: u64, bit: u64) -> (r: u64)
    requires
        bit == 0 || single_bit(bit),
    ensures
        bit == 0 ==> r == 0,
        single_bit(bit) ==> r == blocked_beyond(board, index_of(bit), Direction::Up),
{
    general(board, bit, Direction::Up)
}

pub fn down(board: u64, bit: u64) -> (r: u64)
    requires
        bit == 0 || single_bit(bit),
    ensures
        bit == 0 ==> r == 0,
        single_bit(bit) ==> r == blocked_beyond(board, index_of(bit), Direction::Down),
{
    general(board, bit, Direction::Down)
}

pub fn up_left(board: u64, bit: u64) -> (r: u64)
    requires
        bit == 0 || single_bit(bit),
    ensures
        bit == 0 ==> r == 0,
        single_bit(bit) ==> r == blocked_beyond(board, index_of(bit), Direction::UpLeft),
{
    general(board, bit, Direction::UpLeft)
}

pub fn up_right(board: u64, bit: u64) -> (r: u64)
    requires
        bit == 0 || single_bit(bit),
    ensures
        bit == 0 ==> r == 0,
        single_bit(bit) ==> r == blocked_beyond(board, index_of(bit), Direction::UpRight),
{
    general(board, bit, Direction::UpRight)
}

pub fn down_left(board: u64, bit: u64) -> (r: u64)
    requires
        bit == 0 || single_bit(bit),
    ensures
        bit == 0 ==> r == 0,
        single_bit(bit) ==> r == blocked_beyond(board, index_of(bit), Direction::DownLeft),
{
    general(board, bit, Direction::DownLeft)
}

pub fn down_right(board: u64, bit: u64) -> (r: u64)
    requires
        bit == 0 || single_bit(bit),
    ensures
        bit == 0 ==> r == 0,
        single_bit(bit) ==> r == blocked_beyond(board, index_of(bit), Direction::DownRight),
{
    general(board, bit, Direction::DownRight)
}

/// The blocked continuations of all four straight rays from the given square.
pub fn cross(board: u64, bit: u64) -> (r: u64)
    requires
        bit == 0 || single_bit(bit),
    ensures
        bit == 0 ==> r == 0,
        single_bit(bit) ==> r == cross_blocked(board, index_of(bit)),
{
    let r: u64 = right(board, bit) | left(board, bit) | up(board, bit) | down(board, bit);
    proof {
        if bit == 0 {
            assert(0u64 | 0u64 | 0u64 | 0u64 == 0) by (bit_vector);
        }
    }
    r
}

/// The blocked continuations of all four diagonal rays from the given square.
pub fn diagonal(board: u64, bit: u64) -> (r: u64)
    requires
        bit == 0 || single_bit(bit),
    ensures
        bit == 0 ==> r == 0,
        single_bit(bit) ==> r == diagonal_blocked(board, index_of(bit)),
{
    let r: u64 = up_left(board, bit) | up_right(board, bit) | down_left(board, bit) | down_right(
        board,
        bit,
    );
    proof {
        if bit == 0 {
            assert(0u64 | 0u64 | 0u64 | 0u64 == 0) by (bit_vector);
        }
    }
    r
}

} // verus!
