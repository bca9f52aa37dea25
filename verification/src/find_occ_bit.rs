//! Walking a ray to the first occupied square: from an origin square, step in
//! one direction until a square of the given board is hit or the edge is
//! reached.

use vstd::prelude::*;

use crate::bits::bit;
use crate::bits::can_step;
use crate::bits::edge_dist;
use crate::bits::first_occ_from;
use crate::bits::index_of;
use crate::bits::lemma_bit_ops;
use crate::bits::lemma_edge_dist;
use crate::bits::lemma_first_occ_props;
use crate::bits::lemma_index_of;
use crate::bits::lemma_single;
use crate::bits::lemma_step_single;
use crate::bits::on_ray;
use crate::bits::single_bit;
use crate::bits::step_index;
use crate::bits::Direction;
use crate::neighbor::next;

verus! {

pub(crate) fn general_find(board: u64, origin: u64, d: Direction) -> (r: u64)
    requires
        origin == 0 || single_bit(origin),
    ensures
        origin == 0 ==> r == 0,
        single_bit(origin) ==> r == first_occ_from(board, index_of(origin), d),
{
    if origin == 0 {
        proof {
            if single_bit(origin) {
                lemma_single(index_of(origin), 0);
            }
        }
        return 0;
    }
    let ghost i: u64 = index_of(origin);
    proof {
        lemma_single(i, 0);
    }
    let mut cur: u64 = origin;
    while cur != 0
        invariant
            i < 64,
            single_bit(origin),
            origin != 0,
            i == index_of(origin),
            cur != 0 ==> single_bit(cur) && index_of(cur) < 64 && first_occ_from(
                board,
                index_of(cur),
                d,
            ) == first_occ_from(board, i, d),
            cur == 0 ==> first_occ_from(board, i, d) == 0,
        decreases (if cur == 0 {
            0int
        } else {
            edge_dist(index_of(cur), d) + 1
        }),
    {
        let ghost k: u64 = index_of(cur);
        proof {
            lemma_single(k, 0);
            lemma_step_single(k, d);
            lemma_edge_dist(k, d);
            if can_step(k, d) {
                crate::bits::lemma_step_index(k, d);
                lemma_index_of(step_index(k, d));
                lemma_single(step_index(k, d), 0);
                lemma_edge_dist(step_index(k, d), d);
            }
        }
        proof {
            assert(cur == 1u64 << k);
        }
        cur = next(cur, d);
        if board & cur != 0 {
            proof {
                assert(can_step(k, d)) by {
                    if !can_step(k, d) {
                        assert(cur == 0);
                        assert(board & 0u64 == 0) by (bit_vector);
                    }
                }
                let t: u64 = step_index(k, d);
                assert(cur == 1u64 << t);
                assert(bit(board, t));
                assert(first_occ_from(board, k, d) == cur);
            }
            return cur;
        }
        proof {
            if cur != 0 {
                let t: u64 = step_index(k, d);
                assert(!bit(board, t));
            }
        }
    }
    0
}

pub fn up(board: u64, bit: u64) -> (r: u64)
    requires
        bit == 0 || single_bit(bit),
    ensures
        bit == 0 ==> r == 0,
        single_bit(bit) ==> r == first_occ_from(board, index_of(bit), Direction::Up),
{
    general_find(board, bit, Direction::Up)
}

pub fn down(board: u64, bit: u64) -> (r: u64)
    requires
        bit == 0 || single_bit(bit),
    ensures
        bit == 0 ==> r == 0,
        single_bit(bit) ==> r == first_occ_from(board, index_of(bit), Direction::Down),
{
    general_find(board, bit, Direction::Down)
}

pub fn right(board: u64, bit: u64) -> (r: u64)
    requires
        bit == 0 || single_bit(bit),
    ensures
        bit == 0 ==> r == 0,
        single_bit(bit) ==> r == first_occ_from(board, index_of(bit), Direction::Right),
{
    general_find(board, bit, Direction::Right)
}

pub fn left(board: u64, bit: u64) -> (r: u64)
    requires
        bit == 0 || single_bit(bit),
    ensures
        bit == 0 ==> r == 0,
        single_bit(bit) ==> r == first_occ_from(board, index_of(bit), Direction::Left),
{
    general_find(board, bit, Direction::Left)
}

pub fn up_right(board: u64, bit: u64) -> (r: u64)
    requires
        bit == 0 || single_bit(bit),
    ensures
        bit == 0 ==> r == 0,
        single_bit(bit) ==> r == first_occ_from(board, index_of(bit), Direction::UpRight),
{
    general_find(board, bit, Direction::UpRight)
}

pub fn up_left(board: u64, bit: u64) -> (r: u64)
    requires
        bit == 0 || single_bit(bit),
    ensures
        bit == 0 ==> r == 0,
        single_bit(bit) ==> r == first_occ_from(board, index_of(bit), Direction::UpLeft),
{
    general_find(board, bit, Direction::UpLeft)
}

pub fn down_right(board: u64, bit: u64) -> (r: u64)
    requires
        bit == 0 || single_bit(bit),
    ensures
        bit == 0 ==> r == 0,
        single_bit(bit) ==> r == first_occ_from(board, index_of(bit), Direction::DownRight),
{
    general_find(board, bit, Direction::DownRight)
}

pub fn down_left(board: u64, bit: u64) -> (r: u64)
    requires
        bit == 0 || single_bit(bit),
    ensures
        bit == 0 ==> r == 0,
        single_bit(bit) ==> r == first_occ_from(board, index_of(bit), Direction::DownLeft),
{
    general_find(board, bit, Direction::DownLeft)
}

/// On the empty board, the walk finds nothing from any origin square in any
/// direction.
pub proof fn lemma_first_occ_empty_board(i: u64, d: Direction)
    requires
        i < 64,
    ensures
        first_occ_from(0u64, i, d) == 0,
{
    assert forall|j: u64| on_ray(i, j, d) implies !bit(0u64, j) by {
        lemma_bit_ops(0, 0, j);
    }
    lemma_first_occ_props(0u64, i, d);
}

} // verus!
