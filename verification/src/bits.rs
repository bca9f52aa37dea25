//! The mathematical model of bitboards: bit membership, files and ranks,
//! single-step movement in the eight directions, and the lemmas that relate
//! bitwise operations to that model.

use vstd::prelude::*;

use crate::constants::ALL_BUT_FIRST_FILE;
use crate::constants::ALL_BUT_FIRST_RANK;
use crate::constants::ALL_BUT_LAST_FILE;
use crate::constants::ALL_BUT_LAST_RANK;
use crate::constants::WHOLE_BOARD;

verus! {

/// True when bit `i` of bitboard `b` is set, i.e. square `i` is occupied.
pub open spec fn bit(b: u64, i: u64) -> bool
    recommends
        i < 64,
{
    b & (1u64 << i) != 0
}

/// Column of square `i`, 0 at the left edge.
pub open spec fn file(i: u64) -> u64 {
    i % 8
}

/// Row of square `i`, 0 at the bottom edge.
pub open spec fn rank(i: u64) -> u64 {
    i / 8
}

/// A bitboard holding exactly one square.
pub open spec fn single_bit(b: u64) -> bool {
    exists|i: u64| i < 64 && b == (1u64 << i)
}

/// The index of the square held by a single-bit board.
pub open spec fn index_of(b: u64) -> u64
    recommends
        single_bit(b),
{
    choose|i: u64| i < 64 && b == (1u64 << i)
}

/// One of the eight movement directions on the grid.
#[derive(Clone, Copy, PartialEq, Eq, Structural, Debug)]
pub enum Direction {
    Right,
    Left,
    Up,
    Down,
    UpLeft,
    UpRight,
    DownLeft,
    DownRight,
}

/// Whether a square at index `i` can move one step in direction `d` without
/// leaving the board.
pub open spec fn can_step(i: u64, d: Direction) -> bool {
    match d {
        Direction::Right => file(i) != 7,
        Direction::Left => file(i) != 0,
        Direction::Up => rank(i) != 7,
        Direction::Down => rank(i) != 0,
        Direction::UpLeft => file(i) != 0 && rank(i) != 7,
        Direction::UpRight => file(i) != 7 && rank(i) != 7,
        Direction::DownLeft => file(i) != 0 && rank(i) != 0,
        Direction::DownRight => file(i) != 7 && rank(i) != 0,
    }
}

/// The index one step from `i` in direction `d`; meaningful only when
/// `can_step(i, d)` holds.
pub open spec fn step_index(i: u64, d: Direction) -> u64
    recommends
        i < 64,
        can_step(i, d),
{
    match d {
        Direction::Right => (i + 1) as u64,
        Direction::Left => (i - 1) as u64,
        Direction::Up => (i + 8) as u64,
        Direction::Down => (i - 8) as u64,
        Direction::UpLeft => (i + 7) as u64,
        Direction::UpRight => (i + 9) as u64,
        Direction::DownLeft => (i - 9) as u64,
        Direction::DownRight => (i - 7) as u64,
    }
}

/// The direction opposite to `d`.
pub open spec fn opposite(d: Direction) -> Direction {
    match d {
        Direction::Right => Direction::Left,
        Direction::Left => Direction::Right,
        Direction::Up => Direction::Down,
        Direction::Down => Direction::Up,
        Direction::UpLeft => Direction::DownRight,
        Direction::UpRight => Direction::DownLeft,
        Direction::DownLeft => Direction::UpRight,
        Direction::DownRight => Direction::UpLeft,
    }
}

/// Every occupant of `b` shifted one step in direction `d`; occupants that
/// would leave the board are dropped.  This is the uniform model of the
/// single-step primitives.
pub open spec fn step(b: u64, d: Direction) -> u64 {
    match d {
        Direction::Right => (b & ALL_BUT_LAST_FILE) << 1,
        Direction::Left => (b & ALL_BUT_FIRST_FILE) >> 1,
        Direction::Up => (b & ALL_BUT_LAST_RANK) << 8,
        Direction::Down => (b & ALL_BUT_FIRST_RANK) >> 8,
        Direction::UpLeft => (b & ALL_BUT_FIRST_FILE & ALL_BUT_LAST_RANK) << 7,
        Direction::UpRight => (b & ALL_BUT_LAST_FILE & ALL_BUT_LAST_RANK) << 9,
        Direction::DownLeft => (b & ALL_BUT_FIRST_FILE & ALL_BUT_FIRST_RANK) >> 9,
        Direction::DownRight => (b & ALL_BUT_LAST_FILE & ALL_BUT_FIRST_RANK) >> 7,
    }
}

/// Bitwise AND, OR and XOR act pointwise on square membership.
pub proof fn lemma_bit_ops(a: u64, b: u64, j: u64)
    by (bit_vector)
    requires
        j < 64,
    ensures
        bit(a & b, j) <==> (bit(a, j) && bit(b, j)),
        bit(a | b, j) <==> (bit(a, j) || bit(b, j)),
        bit(a ^ b, j) <==> (bit(a, j) != bit(b, j)),
        bit(WHOLE_BOARD, j),
        !bit(0u64, j),
{
}

/// A one-bit board holds exactly its own index, and is never empty.
pub proof fn lemma_single(i: u64, j: u64)
    by (bit_vector)
    requires
        i < 64,
        j < 64,
    ensures
        bit((1u64 << i), j) <==> i == j,
        (1u64 << i) != 0,
{
}

/// A single-bit board is its own witness.
pub proof fn lemma_index_of(i: u64)
    requires
        i < 64,
    ensures
        single_bit(1u64 << i),
        index_of(1u64 << i) == i,
{
    let b: u64 = 1u64 << i;
    assert(single_bit(b));
    let k: u64 = index_of(b);
    if k != i {
        lemma_single(k, i);
        lemma_single(i, i);
    }
}

/// Change in file from one step in direction `d`.
pub open spec fn df(d: Direction) -> int {
    match d {
        Direction::Right => 1,
        Direction::Left => -1,
        Direction::Up => 0,
        Direction::Down => 0,
        Direction::UpLeft => -1,
        Direction::UpRight => 1,
        Direction::DownLeft => -1,
        Direction::DownRight => 1,
    }
}

/// Change in rank from one step in direction `d`.
pub open spec fn dr(d: Direction) -> int {
    match d {
        Direction::Right => 0,
        Direction::Left => 0,
        Direction::Up => 1,
        Direction::Down => -1,
        Direction::UpLeft => 1,
        Direction::UpRight => 1,
        Direction::DownLeft => -1,
        Direction::DownRight => -1,
    }
}

/// Stepping moves a square one file and one rank over, as `df`/`dr` say, and
/// stays on the board.
pub proof fn lemma_step_index(i: u64, d: Direction)
    requires
        i < 64,
        can_step(i, d),
    ensures
        step_index(i, d) < 64,
        file(step_index(i, d)) == file(i) + df(d),
        rank(step_index(i, d)) == rank(i) + dr(d),
{
}

/// Stepping in `d` and then in the opposite direction returns to the start.
pub proof fn lemma_step_inverse(i: u64, d: Direction)
    requires
        i < 64,
        can_step(i, d),
    ensures
        can_step(step_index(i, d), opposite(d)),
        step_index(step_index(i, d), opposite(d)) == i,
{
    lemma_step_index(i, d);
}

/// Square `j` of a stepped board is occupied exactly when the square one step
/// back is occupied in the original board.
pub proof fn lemma_step_bit(b: u64, d: Direction, j: u64)
    requires
        j < 64,
    ensures
        bit(step(b, d), j) <==> (can_step(j, opposite(d)) && bit(
            b,
            step_index(j, opposite(d)),
        )),
{
    match d {
        Direction::Right => {
            assert(bit((b & ALL_BUT_LAST_FILE) << 1, j) <==> (j % 8 != 0 && bit(
                b,
                ((j - 1) as u64),
            ))) by (bit_vector)
                requires
                    j < 64,
            ;
        },
        Direction::Left => {
            assert(bit((b & ALL_BUT_FIRST_FILE) >> 1, j) <==> (j % 8 != 7 && bit(
                b,
                ((j + 1) as u64),
            ))) by (bit_vector)
                requires
                    j < 64,
            ;
        },
        Direction::Up => {
            assert(bit((b & ALL_BUT_LAST_RANK) << 8, j) <==> (j / 8 != 0 && bit(
                b,
                ((j - 8) as u64),
            ))) by (bit_vector)
                requires
                    j < 64,
            ;
        },
        Direction::Down => {
            assert(bit((b & ALL_BUT_FIRST_RANK) >> 8, j) <==> (j / 8 != 7 && bit(
                b,
                ((j + 8) as u64),
            ))) by (bit_vector)
                requires
                    j < 64,
            ;
        },
        Direction::UpLeft => {
            assert(bit((b & ALL_BUT_FIRST_FILE & ALL_BUT_LAST_RANK) << 7, j) <==> (j % 8 != 7 && j
                / 8 != 0 && bit(b, ((j + 1 - 8) as u64)))) by (bit_vector)
                requires
                    j < 64,
            ;
        },
        Direction::UpRight => {
            assert(bit((b & ALL_BUT_LAST_FILE & ALL_BUT_LAST_RANK) << 9, j) <==> (j % 8 != 0 && j
                / 8 != 0 && bit(b, ((j - 1 - 8) as u64)))) by (bit_vector)
                requires
                    j < 64,
            ;
        },
        Direction::DownLeft => {
            assert(bit((b & ALL_BUT_FIRST_FILE & ALL_BUT_FIRST_RANK) >> 9, j) <==> (j % 8 != 7 && j
                / 8 != 7 && bit(b, ((j + 1 + 8) as u64)))) by (bit_vector)
                requires
                    j < 64,
            ;
        },
        Direction::DownRight => {
            assert(bit((b & ALL_BUT_LAST_FILE & ALL_BUT_FIRST_RANK) >> 7, j) <==> (j % 8 != 0 && j
                / 8 != 7 && bit(b, ((j - 1 + 8) as u64)))) by (bit_vector)
                requires
                    j < 64,
            ;
        },
    }
}

/// Stepping a one-square board yields the destination square, or the empty
/// board at an edge.
pub proof fn lemma_step_single(i: u64, d: Direction)
    requires
        i < 64,
    ensures
        can_step(i, d) ==> step(1u64 << i, d) == (1u64 << step_index(i, d)),
        !can_step(i, d) ==> step(1u64 << i, d) == 0,
{
    let b: u64 = 1u64 << i;
    let s: u64 = step(b, d);
    if can_step(i, d) {
        lemma_step_index(i, d);
        let t: u64 = step_index(i, d);
        assert forall|j: u64| j < 64 implies bit(s, j) == bit(1u64 << t, j) by {
            lemma_step_bit(b, d, j);
            lemma_single(t, j);
            if can_step(j, opposite(d)) {
                lemma_step_index(j, opposite(d));
                lemma_single(i, step_index(j, opposite(d)));
                if j == t {
                    lemma_step_inverse(i, d);
                }
            } else {
                if j == t {
                    lemma_step_inverse(i, d);
                }
            }
        }
        lemma_bits_eq(s, 1u64 << t);
    } else {
        assert forall|j: u64| j < 64 implies bit(s, j) == bit(0u64, j) by {
            lemma_step_bit(b, d, j);
            lemma_bit_ops(0, 0, j);
            if can_step(j, opposite(d)) {
                lemma_step_index(j, opposite(d));
                lemma_single(i, step_index(j, opposite(d)));
                lemma_step_inverse(j, opposite(d));
            }
        }
        lemma_bits_eq(s, 0);
    }
}

/// Square `j` lies on the open ray from `i` in direction `d`: it is reached
/// from `i` by one or more steps, none leaving the board.
pub open spec fn ray_at(i: u64, j: u64, d: Direction, k: int) -> bool {
    1 <= k && j < 64 && file(j) == file(i) + k * df(d) && rank(j) == rank(i) + k * dr(d)
}

/// Square `j` lies on the open ray from `i` in direction `d`.
pub open spec fn on_ray(i: u64, j: u64, d: Direction) -> bool {
    exists|k: int| ray_at(i, j, d, k)
}

/// How many more steps in direction `d` fit on the board from square `i`.
pub open spec fn edge_dist(i: u64, d: Direction) -> int {
    match d {
        Direction::Right => 7 - file(i),
        Direction::Left => file(i) as int,
        Direction::Up => 7 - rank(i),
        Direction::Down => rank(i) as int,
        Direction::UpLeft => if file(i) <= 7 - rank(i) {
            file(i) as int
        } else {
            7 - rank(i)
        },
        Direction::UpRight => if 7 - file(i) <= 7 - rank(i) {
            7 - file(i)
        } else {
            7 - rank(i)
        },
        Direction::DownLeft => if file(i) <= rank(i) {
            file(i) as int
        } else {
            rank(i) as int
        },
        Direction::DownRight => if 7 - file(i) <= rank(i) {
            7 - file(i)
        } else {
            rank(i) as int
        },
    }
}

/// `edge_dist` counts down to the edge one step at a time.
pub proof fn lemma_edge_dist(i: u64, d: Direction)
    requires
        i < 64,
    ensures
        0 <= edge_dist(i, d) <= 7,
        can_step(i, d) <==> edge_dist(i, d) > 0,
        can_step(i, d) ==> edge_dist(step_index(i, d), d) == edge_dist(i, d) - 1,
{
    if can_step(i, d) {
        lemma_step_index(i, d);
    }
}

/// The ray from `i` starts at the step destination and continues with the ray
/// from there; past the edge there is no ray at all.
pub proof fn lemma_ray_unfold(i: u64, d: Direction)
    requires
        i < 64,
    ensures
        !can_step(i, d) ==> forall|j: u64| !on_ray(i, j, d),
        can_step(i, d) ==> forall|j: u64| #[trigger]
            on_ray(i, j, d) <==> (j == step_index(i, d) || on_ray(step_index(i, d), j, d)),
{
    if can_step(i, d) {
        lemma_step_index(i, d);
        let t: u64 = step_index(i, d);
        assert forall|j: u64| #[trigger] on_ray(i, j, d) implies (j == t || on_ray(t, j, d)) by {
            let k: int = choose|k: int| ray_at(i, j, d, k);
            if k == 1 {
                assert(file(j) == file(t) && rank(j) == rank(t));
                lemma_index_from_coords(t, j);
            } else {
                assert(file(j) == file(t) + (k - 1) * df(d)) by (nonlinear_arith)
                    requires
                        file(j) == file(i) + k * df(d),
                        file(t) == file(i) + df(d),
                ;
                assert(rank(j) == rank(t) + (k - 1) * dr(d)) by (nonlinear_arith)
                    requires
                        rank(j) == rank(i) + k * dr(d),
                        rank(t) == rank(i) + dr(d),
                ;
                assert(ray_at(t, j, d, k - 1));
            }
        }
        assert forall|j: u64| (j == t || on_ray(t, j, d)) implies #[trigger] on_ray(i, j, d) by {
            if j == t {
                assert(ray_at(i, j, d, 1));
            } else {
                let k: int = choose|k: int| ray_at(t, j, d, k);
                assert(file(j) == file(i) + (k + 1) * df(d)) by (nonlinear_arith)
                    requires
                        file(j) == file(t) + k * df(d),
                        file(t) == file(i) + df(d),
                ;
                assert(rank(j) == rank(i) + (k + 1) * dr(d)) by (nonlinear_arith)
                    requires
                        rank(j) == rank(t) + k * dr(d),
                        rank(t) == rank(i) + dr(d),
                ;
                assert(ray_at(i, j, d, k + 1));
            }
        }
    } else {
        assert forall|j: u64| !on_ray(i, j, d) by {
            if on_ray(i, j, d) {
                let k: int = choose|k: int| ray_at(i, j, d, k);
                assert(df(d) == 1 ==> file(i) + k * df(d) >= file(i) + 1) by (nonlinear_arith)
                    requires
                        k >= 1,
                ;
                assert(df(d) == -1 ==> file(i) + k * df(d) <= file(i) - 1) by (nonlinear_arith)
                    requires
                        k >= 1,
                ;
                assert(dr(d) == 1 ==> rank(i) + k * dr(d) >= rank(i) + 1) by (nonlinear_arith)
                    requires
                        k >= 1,
                ;
                assert(dr(d) == -1 ==> rank(i) + k * dr(d) <= rank(i) - 1) by (nonlinear_arith)
                    requires
                        k >= 1,
                ;
            }
        }
    }
}

/// A square is determined by its file and rank.
pub proof fn lemma_index_from_coords(i: u64, j: u64)
    requires
        i < 64,
        j < 64,
        file(i) == file(j),
        rank(i) == rank(j),
    ensures
        i == j,
{
}

/// `n` single steps in direction `d`.
pub open spec fn stepn(b: u64, d: Direction, n: nat) -> u64
    decreases n,
{
    if n == 0 {
        b
    } else {
        step(stepn(b, d, (n - 1) as nat), d)
    }
}

/// Rays compose: a square on the ray of a square on `i`'s ray is itself on
/// `i`'s ray.
pub proof fn lemma_ray_trans(i: u64, k: u64, j: u64, d: Direction)
    requires
        on_ray(i, k, d),
        on_ray(k, j, d),
    ensures
        on_ray(i, j, d),
{
    let m1: int = choose|m: int| ray_at(i, k, d, m);
    let m2: int = choose|m: int| ray_at(k, j, d, m);
    assert(file(j) == file(i) + (m1 + m2) * df(d)) by (nonlinear_arith)
        requires
            file(k) == file(i) + m1 * df(d),
            file(j) == file(k) + m2 * df(d),
    ;
    assert(rank(j) == rank(i) + (m1 + m2) * dr(d)) by (nonlinear_arith)
        requires
            rank(k) == rank(i) + m1 * dr(d),
            rank(j) == rank(k) + m2 * dr(d),
    ;
    assert(ray_at(i, j, d, m1 + m2));
}

/// The board whose squares below `n` are exactly those satisfying `p`.
pub open spec fn board_where_below(p: spec_fn(u64) -> bool, n: nat) -> u64
    decreases n,
{
    if n == 0 {
        0u64
    } else {
        board_where_below(p, (n - 1) as nat) | (if p((n - 1) as u64) {
            1u64 << ((n - 1) as u64)
        } else {
            0u64
        })
    }
}

/// The board whose occupied squares are exactly those satisfying `p`.
pub open spec fn board_where(p: spec_fn(u64) -> bool) -> u64 {
    board_where_below(p, 64)
}

proof fn lemma_board_where_below_bit(p: spec_fn(u64) -> bool, n: nat, j: u64)
    requires
        j < 64,
        n <= 64,
    ensures
        bit(board_where_below(p, n), j) <==> (j < n && p(j)),
    decreases n,
{
    if n == 0 {
        lemma_bit_ops(0, 0, j);
    } else {
        let m: u64 = (n - 1) as u64;
        lemma_board_where_below_bit(p, (n - 1) as nat, j);
        let one: u64 = if p(m) {
            1u64 << m
        } else {
            0u64
        };
        lemma_bit_ops(board_where_below(p, (n - 1) as nat), one, j);
        lemma_single(m, j);
        lemma_bit_ops(0, 0, j);
    }
}

/// A square is on `board_where(p)` exactly when it satisfies `p`.
pub proof fn lemma_board_where_bit(p: spec_fn(u64) -> bool, j: u64)
    requires
        j < 64,
    ensures
        bit(board_where(p), j) <==> p(j),
{
    lemma_board_where_below_bit(p, 64, j);
}

/// The full open ray from square `i` in direction `d`, as a board.
pub open spec fn ray_board(i: u64, d: Direction) -> u64 {
    board_where(|j: u64| on_ray(i, j, d))
}

/// A square is on the ray board exactly when it is on the ray.
pub proof fn lemma_ray_board_bit(i: u64, d: Direction, j: u64)
    requires
        j < 64,
    ensures
        bit(ray_board(i, d), j) <==> on_ray(i, j, d),
{
    lemma_board_where_bit(|j: u64| on_ray(i, j, d), j);
}

/// The first occupied square of `board` along the ray from `i` in direction
/// `d`, as a one-square board; the empty board when the ray has no occupied
/// square.
pub open spec fn first_occ_from(board: u64, i: u64, d: Direction) -> u64
    decreases edge_dist(i, d),
    when i < 64
{
    if !can_step(i, d) {
        0u64
    } else {
        let t = step_index(i, d);
        if bit(board, t) {
            1u64 << t
        } else {
            first_occ_from(board, t, d)
        }
    }
}

/// What `first_occ_from` returns: the empty board when the ray holds no
/// occupied square, else the occupied ray square nearest to `i`, every other
/// occupied ray square lying beyond it.
pub proof fn lemma_first_occ_props(board: u64, i: u64, d: Direction)
    requires
        i < 64,
    ensures
        first_occ_from(board, i, d) == 0 || single_bit(first_occ_from(board, i, d)),
        (forall|j: u64| on_ray(i, j, d) ==> !bit(board, j)) ==> first_occ_from(board, i, d) == 0,
        first_occ_from(board, i, d) != 0 ==> {
            let f = index_of(first_occ_from(board, i, d));
            on_ray(i, f, d) && bit(board, f) && (forall|j: u64|
                on_ray(i, j, d) && bit(board, j) && j != f ==> on_ray(f, j, d))
        },
        (exists|j: u64| on_ray(i, j, d) && bit(board, j)) ==> first_occ_from(board, i, d) != 0,
    decreases edge_dist(i, d),
{
    lemma_edge_dist(i, d);
    lemma_ray_unfold(i, d);
    if !can_step(i, d) {
    } else {
        let t = step_index(i, d);
        lemma_step_index(i, d);
        if bit(board, t) {
            lemma_index_of(t);
            lemma_single(t, 0);
            assert forall|j: u64| on_ray(i, j, d) && bit(board, j) && j != t implies on_ray(
                t,
                j,
                d,
            ) by {}
        } else {
            lemma_edge_dist(t, d);
            lemma_first_occ_props(board, t, d);
            let r = first_occ_from(board, i, d);
            assert(r == first_occ_from(board, t, d));
            if r != 0 {
                let f = index_of(r);
                lemma_ray_trans(i, t, f, d);
                assert forall|j: u64| on_ray(i, j, d) && bit(board, j) && j != f implies on_ray(
                    f,
                    j,
                    d,
                ) by {}
            }
            if exists|j: u64| on_ray(i, j, d) && bit(board, j) {
                let j = choose|j: u64| on_ray(i, j, d) && bit(board, j);
                assert(j == t || on_ray(t, j, d));
                assert(j != t);
                assert(on_ray(t, j, d) && bit(board, j));
                assert(r != 0);
            }
        }
    }
}

/// Number of occupied squares among the first `n` indices of `b`.
pub open spec fn pop_below(b: u64, n: nat) -> nat
    decreases n,
{
    if n == 0 {
        0
    } else {
        pop_below(b, (n - 1) as nat) + (if bit(b, (n - 1) as u64) {
            1nat
        } else {
            0nat
        })
    }
}

/// Number of occupied squares of `b`.
pub open spec fn pop(b: u64) -> nat {
    pop_below(b, 64)
}

/// At most `n` of the first `n` squares are occupied.
pub proof fn lemma_pop_below_bound(b: u64, n: nat)
    ensures
        pop_below(b, n) <= n,
    decreases n,
{
    if n > 0 {
        lemma_pop_below_bound(b, (n - 1) as nat);
    }
}

/// The occupied square indices of `b` at or above `n`, in ascending order.
pub open spec fn indices_from(b: u64, n: u64) -> Seq<u64>
    decreases 64 - n,
    when n <= 64
{
    if n >= 64 {
        Seq::<u64>::empty()
    } else if bit(b, n) {
        seq![n] + indices_from(b, (n + 1) as u64)
    } else {
        indices_from(b, (n + 1) as u64)
    }
}

/// The occupied square indices of `b`, in ascending order.
pub open spec fn indices(b: u64) -> Seq<u64> {
    indices_from(b, 0)
}

/// The index list is sorted, holds exactly the occupied squares at or above
/// `n`, and nothing else.
pub proof fn lemma_indices_from_props(b: u64, n: u64)
    requires
        n <= 64,
    ensures
        forall|k: int|
            0 <= k < indices_from(b, n).len() ==> n <= #[trigger] indices_from(b, n)[k] < 64 && bit(
                b,
                indices_from(b, n)[k],
            ),
        forall|j: u64| n <= j < 64 && bit(b, j) ==> indices_from(b, n).contains(j),
        forall|k1: int, k2: int|
            0 <= k1 < k2 < indices_from(b, n).len() ==> indices_from(b, n)[k1] < indices_from(
                b,
                n,
            )[k2],
    decreases 64 - n,
{
    if n < 64 {
        lemma_indices_from_props(b, (n + 1) as u64);
        let s = indices_from(b, n);
        let rest = indices_from(b, (n + 1) as u64);
        assert forall|j: u64| n <= j < 64 && bit(b, j) implies s.contains(j) by {
            if j == n {
                assert(bit(b, n));
                assert(s[0] == n);
            } else {
                assert(rest.contains(j));
                let k: int = choose|k: int| 0 <= k < rest.len() && rest[k] == j;
                if bit(b, n) {
                    assert(s[k + 1] == j);
                } else {
                    assert(s[k] == j);
                }
            }
        }
    }
}

/// Clearing a square below `n` leaves the index list from `n` unchanged.
pub proof fn lemma_indices_from_clear_below(b: u64, m: u64, n: u64)
    requires
        m < n,
        m < 64,
        n <= 64,
    ensures
        indices_from(b ^ (1u64 << m), n) == indices_from(b, n),
    decreases 64 - n,
{
    if n < 64 {
        lemma_indices_from_clear_below(b, m, (n + 1) as u64);
        lemma_bit_ops(b, 1u64 << m, n);
        lemma_single(m, n);
        assert(bit(b ^ (1u64 << m), n) == bit(b, n));
    }
}

/// When every square below `n` is empty, the index list from 0 and from `n`
/// agree.
pub proof fn lemma_indices_from_skip(b: u64, n: u64)
    requires
        n <= 64,
        forall|j: u64| j < n ==> !bit(b, j),
    ensures
        indices(b) == indices_from(b, n),
    decreases n,
{
    if n > 0 {
        assert(indices_from(b, (n - 1) as u64) == indices_from(b, n));
        lemma_indices_from_skip(b, (n - 1) as u64);
    }
}

proof fn lemma_pop_below_subset(x: u64, y: u64, n: nat)
    requires
        n <= 64,
        forall|j: u64| j < 64 && #[trigger] bit(x, j) ==> bit(y, j),
    ensures
        pop_below(x, n) <= pop_below(y, n),
    decreases n,
{
    if n > 0 {
        lemma_pop_below_subset(x, y, (n - 1) as nat);
    }
}

/// A board whose occupied squares all appear in another board has no more
/// pieces than it.
pub proof fn lemma_pop_subset(x: u64, y: u64)
    requires
        forall|j: u64| j < 64 && #[trigger] bit(x, j) ==> bit(y, j),
    ensures
        pop(x) <= pop(y),
{
    lemma_pop_below_subset(x, y, 64);
}

proof fn lemma_pop_below_or_single(x: u64, i: u64, n: nat)
    requires
        i < 64,
        n <= 64,
    ensures
        pop_below(x | (1u64 << i), n) <= pop_below(x, n) + (if i < n {
            1int
        } else {
            0int
        }),
    decreases n,
{
    if n > 0 {
        lemma_pop_below_or_single(x, i, (n - 1) as nat);
        lemma_bit_ops(x, 1u64 << i, (n - 1) as u64);
        lemma_single(i, (n - 1) as u64);
    }
}

/// Adding one square to a board adds at most one piece.
pub proof fn lemma_pop_or_single(x: u64, i: u64)
    requires
        i < 64,
    ensures
        pop(x | (1u64 << i)) <= pop(x) + 1,
{
    lemma_pop_below_or_single(x, i, 64);
}

proof fn lemma_pop_below_clear(x: u64, i: u64, n: nat)
    requires
        i < 64,
        bit(x, i),
        n <= 64,
    ensures
        pop_below(x & ((1u64 << i) ^ WHOLE_BOARD), n) + (if i < n {
            1int
        } else {
            0int
        }) == pop_below(x, n),
    decreases n,
{
    if n > 0 {
        lemma_pop_below_clear(x, i, (n - 1) as nat);
        let j: u64 = (n - 1) as u64;
        lemma_bit_ops(x, (1u64 << i) ^ WHOLE_BOARD, j);
        lemma_bit_ops(1u64 << i, WHOLE_BOARD, j);
        lemma_single(i, j);
    }
}

/// Emptying an occupied square removes exactly one piece.
pub proof fn lemma_pop_clear(x: u64, i: u64)
    requires
        i < 64,
        bit(x, i),
    ensures
        pop(x & ((1u64 << i) ^ WHOLE_BOARD)) + 1 == pop(x),
{
    lemma_pop_below_clear(x, i, 64);
}

/// All bits of the mask of squares with index below `n`.
pub open spec fn low_mask(n: u64) -> u64 {
    if n >= 64 {
        WHOLE_BOARD
    } else {
        (((1u64 << n) - 1) as u64)
    }
}

proof fn lemma_bits_eq_step(a: u64, b: u64, n: u64)
    by (bit_vector)
    requires
        n < 64,
        a & low_mask(n) == b & low_mask(n),
        bit(a, n) == bit(b, n),
    ensures
        a & low_mask((n + 1) as u64) == b & low_mask((n + 1) as u64),
{
}

proof fn lemma_bits_eq_rec(a: u64, b: u64, n: u64)
    requires
        n <= 64,
        forall|j: u64| j < n ==> (bit(a, j) == bit(b, j)),
    ensures
        a & low_mask(n) == b & low_mask(n),
    decreases n,
{
    if n == 0 {
        assert(a & low_mask(0) == b & low_mask(0)) by (bit_vector);
    } else {
        lemma_bits_eq_rec(a, b, (n - 1) as u64);
        lemma_bits_eq_step(a, b, (n - 1) as u64);
    }
}

/// Two bitboards that agree on every square are equal.
pub proof fn lemma_bits_eq(a: u64, b: u64)
    requires
        forall|j: u64| j < 64 ==> (bit(a, j) == bit(b, j)),
    ensures
        a == b,
{
    lemma_bits_eq_rec(a, b, 64);
    assert(a & low_mask(64) == b & low_mask(64) ==> a == b) by (bit_vector);
}

} // verus!
