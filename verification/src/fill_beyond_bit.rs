//! Open-board ray casting: every square strictly beyond a given square in one
//! direction, up to the board edge.

use vstd::prelude::*;

use crate::bits::bit;
use crate::bits::can_step;
use crate::bits::edge_dist;
use crate::bits::index_of;
use crate::bits::lemma_bit_ops;
use crate::bits::lemma_bits_eq;
use crate::bits::lemma_edge_dist;
use crate::bits::lemma_index_of;
use crate::bits::lemma_ray_board_bit;
use crate::bits::lemma_ray_trans;
use crate::bits::lemma_ray_unfold;
use crate::bits::lemma_single;
use crate::bits::lemma_step_single;
use crate::bits::on_ray;
use crate::bits::ray_board;
use crate::bits::single_bit;
use crate::bits::step_index;
use crate::bits::Direction;
use crate::neighbor::next;

verus! {

pub(crate) fn general_fill(origin: u64, d: Direction) -> (r: u64)
    requires
        origin == 0 || single_bit(origin),
    ensures
        origin == 0 ==> r == 0,
        single_bit(origin) ==> r == ray_board(index_of(origin), d),
{
    if origin == 0 {
        proof {
            if single_bit(origin) {
                lemma_single(index_of(origin), 0);
            }
        }
        return 0;
    }
    let ghost i: u64 = index_of(origin);
    proof {
        lemma_single(i, 0);
        lemma_step_single(i, d);
        lemma_ray_unfold(i, d);
        if can_step(i, d) {
            crate::bits::lemma_step_index(i, d);
            lemma_index_of(step_index(i, d));
            lemma_single(step_index(i, d), 0);
            assert forall|j: u64| j < 64 implies !bit(0u64, j) by {
                lemma_bit_ops(0, 0, j);
            }
        } else {
            assert forall|j: u64| j < 64 implies (bit(0u64, j) <==> on_ray(i, j, d)) by {
                lemma_bit_ops(0, 0, j);
            }
        }
    }
    let mut board: u64 = 0;
    let mut cur: u64 = next(origin, d);
    while cur != 0
        invariant
            i < 64,
            cur != 0 ==> single_bit(cur) && index_of(cur) < 64 && on_ray(i, index_of(cur), d),
            cur != 0 ==> forall|j: u64|
                j < 64 ==> (bit(board, j) <==> (on_ray(i, j, d) && j != index_of(cur) && !on_ray(
                    index_of(cur),
                    j,
                    d,
                ))),
            cur == 0 ==> forall|j: u64| j < 64 ==> (bit(board, j) <==> on_ray(i, j, d)),
        decreases (if cur == 0 {
            0int
        } else {
            edge_dist(index_of(cur), d) + 1
        }),
    {
        let ghost k: u64 = index_of(cur);
        let ghost prev: u64 = board;
        proof {
            lemma_single(k, 0);
            lemma_step_single(k, d);
            lemma_edge_dist(k, d);
            lemma_ray_unfold(k, d);
            if can_step(k, d) {
                crate::bits::lemma_step_index(k, d);
                lemma_index_of(step_index(k, d));
                lemma_single(step_index(k, d), 0);
                lemma_edge_dist(step_index(k, d), d);
            }
        }
        board = board | cur;
        cur = next(cur, d);
        proof {
            let ghost kn: u64 = step_index(k, d);
            if can_step(k, d) {
                lemma_ray_trans(i, k, kn, d);
            }
            assert forall|j: u64| j < 64 implies (bit(board, j) <==> (on_ray(i, j, d) && !on_ray(
                k,
                j,
                d,
            ))) by {
                lemma_bit_ops(prev, 1u64 << k, j);
                lemma_single(k, j);
                if j == k {
                    if on_ray(k, k, d) {
                        let m: int = choose|m: int| crate::bits::ray_at(k, k, d, m);
                        assert(false) by (nonlinear_arith)
                            requires
                                m >= 1,
                                crate::bits::file(k) == crate::bits::file(k) + m * crate::bits::df(
                                    d,
                                ),
                                crate::bits::rank(k) == crate::bits::rank(k) + m * crate::bits::dr(
                                    d,
                                ),
                                crate::bits::df(d) != 0 || crate::bits::dr(d) != 0,
                        ;
                    }
                }
            }
        }
    }
    proof {
        assert forall|j: u64| j < 64 implies crate::bits::bit(board, j) == crate::bits::bit(
            ray_board(i, d),
            j,
        ) by {
            lemma_ray_board_bit(i, d, j);
        }
        lemma_bits_eq(board, ray_board(i, d));
    }
    board
}

pub fn right(bit: u64) -> (r: u64)
    requires
        bit == 0 || single_bit(bit),
    ensures
        bit == 0 ==> r == 0,
        single_bit(bit) ==> r == ray_board(index_of(bit), Direction::Right),
{
    general_fill(bit, Direction::Right)
}

pub fn left(bit: u64) -> (r: u64)
    requires
        bit == 0 || single_bit(bit),
    ensures
        bit == 0 ==> r == 0,
        single_bit(bit) ==> r == ray_board(index_of(bit), Direction::Left),
{
    general_fill(bit, Direction::Left)
}

pub fn up(bit: u64) -> (r: u64)
    requires
        bit == 0 || single_bit(bit),
    ensures
        bit == 0 ==> r == 0,
        single_bit(bit) ==> r == ray_board(index_of(bit), Direction::Up),
{
    general_fill(bit, Direction::Up)
}

pub fn down(bit: u64) -> (r: u64)
    requires
        bit == 0 || single_bit(bit),
    ensures
        bit == 0 ==> r == 0,
        single_bit(bit) ==> r == ray_board(index_of(bit), Direction::Down),
{
    general_fill(bit, Direction::Down)
}

pub fn up_left(bit: u64) -> (r: u64)
    requires
        bit == 0 || single_bit(bit),
    ensures
        bit == 0 ==> r == 0,
        single_bit(bit) ==> r == ray_board(index_of(bit), Direction::UpLeft),
{
    general_fill(bit, Direction::UpLeft)
}

pub fn up_right(bit: u64) -> (r: u64)
    requires
        bit == 0 || single_bit(bit),
    ensures
        bit == 0 ==> r == 0,
        single_bit(bit) ==> r == ray_board(index_of(bit), Direction::UpRight),
{
    general_fill(bit, Direction::UpRight)
}

pub fn down_left(bit: u64) -> (r: u64)
    requires
        bit == 0 || single_bit(bit),
    ensures
        bit == 0 ==> r == 0,
        single_bit(bit) ==> r == ray_board(index_of(bit), Direction::DownLeft),
{
    general_fill(bit, Direction::DownLeft)
}

pub fn down_right(bit: u64) -> (r: u64)
    requires
        bit == 0 || single_bit(bit),
    ensures
        bit == 0 ==> r == 0,
        single_bit(bit) ==> r == ray_board(index_of(bit), Direction::DownRight),
{
    general_fill(bit, Direction::DownRight)
}

} // verus!
