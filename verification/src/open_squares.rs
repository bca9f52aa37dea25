//! Reachable-square resolution per movement shape: sliding along rays for the
//! cross and diagonal shapes, fixed offset patterns for the knight and king.

use vstd::prelude::*;

use crate::bits::bit;
use crate::bits::board_where;
use crate::bits::on_ray;
use crate::bits::Direction;
use crate::bits::file;
use crate::bits::index_of;
use crate::bits::lemma_bits_eq;
use crate::bits::lemma_board_where_bit;
use crate::bits::lemma_single;
use crate::bits::rank;
use crate::bits::single_bit;
use crate::find_block::cross_blocked;
use crate::find_block::diagonal_blocked;
use crate::mask_for_square::cross_mask;
use crate::mask_for_square::diag_mask;
use crate::utility::bit_to_index;
use crate::utility::find_offsets_on_board_within_distance;
use crate::utility::indices_to_board;
use crate::utility::lemma_indices_to_board_bit;
use crate::utility::lemma_squares_from_offsets_bound;
use crate::utility::lemma_squares_from_offsets_contains;
use crate::utility::lemma_within_distance_contains;
use crate::utility::lemma_within_distance_sub;
use crate::utility::near;
use crate::utility::squares_from_offsets;
use crate::utility::within_distance;

verus! {

/// The squares a cross-sliding piece at `i` can reach on `board`: the cross
/// mask minus the blocked continuations and minus the origin itself.
pub open spec fn open_cross(board: u64, i: u64) -> u64 {
    ((cross_blocked(board, i) & cross_mask(i)) ^ cross_mask(i)) ^ (1u64 << i)
}

/// The squares a diagonal-sliding piece at `i` can reach on `board`.
pub open spec fn open_diagonal(board: u64, i: u64) -> u64 {
    ((diagonal_blocked(board, i) & diag_mask(i)) ^ diag_mask(i)) ^ (1u64 << i)
}

/// A knight's move: one file and two ranks over, or two files and one rank.
pub open spec fn knight_move(i: u64, j: u64) -> bool {
    i < 64 && j < 64 && ({
        let fd = file(j) - file(i);
        let rd = rank(j) - rank(i);
        ((fd == 1 || fd == -1) && (rd == 2 || rd == -2)) || ((fd == 2 || fd == -2) && (rd == 1
            || rd == -1))
    })
}

/// All knight-move targets from square `i`.
pub open spec fn knight_board(i: u64) -> u64 {
    board_where(|j: u64| knight_move(i, j))
}

/// A king's move: at most one file and one rank over, but not standing still.
pub open spec fn king_move(i: u64, j: u64) -> bool {
    i < 64 && j < 64 && ({
        let fd = file(j) - file(i);
        let rd = rank(j) - rank(i);
        -1 <= fd <= 1 && -1 <= rd <= 1 && !(fd == 0 && rd == 0)
    })
}

/// All king-move targets from square `i`.
pub open spec fn king_board(i: u64) -> u64 {
    board_where(|j: u64| king_move(i, j))
}

/// The four straight directions.
pub open spec fn cross_dir(d: Direction) -> bool {
    d == Direction::Right || d == Direction::Left || d == Direction::Up || d == Direction::Down
}

/// The four diagonal directions.
pub open spec fn diag_dir(d: Direction) -> bool {
    d == Direction::UpLeft || d == Direction::UpRight || d == Direction::DownLeft || d
        == Direction::DownRight
}

/// Square `j` lies on the ray from `i` in direction `d` with no occupied
/// square strictly between them: a slider can run from `i` to `j`.
pub open spec fn unblocked_on(board: u64, i: u64, j: u64, d: Direction) -> bool {
    on_ray(i, j, d) && (forall|k: u64|
        on_ray(i, k, d) && #[trigger] on_ray(k, j, d) ==> !bit(board, k))
}

/// No square is on its own ray.
proof fn lemma_not_on_own_ray(i: u64, d: Direction)
    ensures
        !on_ray(i, i, d),
{
    if on_ray(i, i, d) {
        let m: int = choose|m: int| crate::bits::ray_at(i, i, d, m);
        assert(false) by (nonlinear_arith)
            requires
                m >= 1,
                crate::bits::file(i) == crate::bits::file(i) + m * crate::bits::df(d),
                crate::bits::rank(i) == crate::bits::rank(i) + m * crate::bits::dr(d),
                crate::bits::df(d) != 0 || crate::bits::dr(d) != 0,
        ;
    }
}

/// A square of the blocked continuation is a ray square with an occupied ray
/// square strictly before it.
proof fn lemma_blocked_beyond_bit(board: u64, i: u64, d: Direction, j: u64)
    requires
        i < 64,
        j < 64,
    ensures
        bit(crate::find_block::blocked_beyond(board, i, d), j) <==> (on_ray(i, j, d) && exists|
            k: u64,
        |
            on_ray(i, k, d) && bit(board, k) && #[trigger] on_ray(k, j, d)),
{
    crate::bits::lemma_first_occ_props(board, i, d);
    let f = crate::bits::first_occ_from(board, i, d);
    if f == 0 {
        crate::bits::lemma_bit_ops(0, 0, j);
        if exists|k: u64| on_ray(i, k, d) && bit(board, k) && #[trigger] on_ray(k, j, d) {
            let k: u64 = choose|k: u64|
                on_ray(i, k, d) && bit(board, k) && #[trigger] on_ray(k, j, d);
            assert(f != 0);
        }
    } else {
        let fi = crate::bits::index_of(f);
        crate::bits::lemma_ray_board_bit(fi, d, j);
        if on_ray(fi, j, d) {
            crate::bits::lemma_ray_trans(i, fi, j, d);
        }
        if exists|k: u64| on_ray(i, k, d) && bit(board, k) && #[trigger] on_ray(k, j, d) {
            let k: u64 = choose|k: u64|
                on_ray(i, k, d) && bit(board, k) && #[trigger] on_ray(k, j, d);
            if k != fi {
                crate::bits::lemma_ray_trans(fi, k, j, d);
            }
        }
    }
}

/// A square shares `i`'s file or rank, without being `i`, exactly when it is
/// on one of the four straight rays from `i`.
proof fn lemma_cross_ray_cases(i: u64, j: u64)
    requires
        i < 64,
        j < 64,
        j != i,
    ensures
        (file(j) == file(i) || rank(j) == rank(i)) <==> (exists|d: Direction| #[trigger]
            cross_dir(d) && on_ray(i, j, d)),
{
    if file(j) == file(i) && rank(j) == rank(i) {
        crate::bits::lemma_index_from_coords(i, j);
    }
    if file(j) == file(i) || rank(j) == rank(i) {
        if rank(j) == rank(i) && file(j) > file(i) {
            assert(crate::bits::ray_at(i, j, Direction::Right, file(j) - file(i)));
            assert(cross_dir(Direction::Right) && on_ray(i, j, Direction::Right));
        } else if rank(j) == rank(i) && file(j) < file(i) {
            assert(crate::bits::ray_at(i, j, Direction::Left, file(i) - file(j)));
            assert(cross_dir(Direction::Left) && on_ray(i, j, Direction::Left));
        } else if file(j) == file(i) && rank(j) > rank(i) {
            assert(crate::bits::ray_at(i, j, Direction::Up, rank(j) - rank(i)));
            assert(cross_dir(Direction::Up) && on_ray(i, j, Direction::Up));
        } else {
            assert(crate::bits::ray_at(i, j, Direction::Down, rank(i) - rank(j)));
            assert(cross_dir(Direction::Down) && on_ray(i, j, Direction::Down));
        }
    }
    if exists|d: Direction| #[trigger] cross_dir(d) && on_ray(i, j, d) {
        let d: Direction = choose|d: Direction| #[trigger] cross_dir(d) && on_ray(i, j, d);
        let m: int = choose|m: int| crate::bits::ray_at(i, j, d, m);
        assert(m * crate::bits::df(d) == 0 || m * crate::bits::dr(d) == 0) by (nonlinear_arith)
            requires
                crate::bits::df(d) == 0 || crate::bits::dr(d) == 0,
        ;
    }
}

/// A square shares a diagonal with `i`, without being `i`, exactly when it is
/// on one of the four diagonal rays from `i`.
proof fn lemma_diag_ray_cases(i: u64, j: u64)
    requires
        i < 64,
        j < 64,
        j != i,
    ensures
        (file(j) - rank(j) == file(i) - rank(i) || file(j) + rank(j) == file(i) + rank(i)) <==> (
        exists|d: Direction| #[trigger] diag_dir(d) && on_ray(i, j, d)),
{
    if file(j) == file(i) && rank(j) == rank(i) {
        crate::bits::lemma_index_from_coords(i, j);
    }
    if file(j) - rank(j) == file(i) - rank(i) || file(j) + rank(j) == file(i) + rank(i) {
        if file(j) - rank(j) == file(i) - rank(i) && file(j) > file(i) {
            assert(crate::bits::ray_at(i, j, Direction::UpRight, file(j) - file(i)));
            assert(diag_dir(Direction::UpRight) && on_ray(i, j, Direction::UpRight));
        } else if file(j) - rank(j) == file(i) - rank(i) && file(j) < file(i) {
            assert(crate::bits::ray_at(i, j, Direction::DownLeft, file(i) - file(j)));
            assert(diag_dir(Direction::DownLeft) && on_ray(i, j, Direction::DownLeft));
        } else if file(j) + rank(j) == file(i) + rank(i) && file(j) < file(i) {
            let m: int = file(i) - file(j);
            assert(m >= 1);
            assert(file(j) == file(i) + m * crate::bits::df(Direction::UpLeft)) by (nonlinear_arith)
                requires
                    m == file(i) - file(j),
                    crate::bits::df(Direction::UpLeft) == -1,
            ;
            assert(rank(j) == rank(i) + m * crate::bits::dr(Direction::UpLeft)) by (nonlinear_arith)
                requires
                    m == rank(j) - rank(i),
                    crate::bits::dr(Direction::UpLeft) == 1,
            ;
            assert(crate::bits::ray_at(i, j, Direction::UpLeft, m));
            assert(diag_dir(Direction::UpLeft) && on_ray(i, j, Direction::UpLeft));
        } else {
            assert(crate::bits::ray_at(i, j, Direction::DownRight, file(j) - file(i)));
            assert(diag_dir(Direction::DownRight) && on_ray(i, j, Direction::DownRight));
        }
    }
    if exists|d: Direction| #[trigger] diag_dir(d) && on_ray(i, j, d) {
        let d: Direction = choose|d: Direction| #[trigger] diag_dir(d) && on_ray(i, j, d);
        let m: int = choose|m: int| crate::bits::ray_at(i, j, d, m);
        assert(m * crate::bits::df(d) == m * crate::bits::dr(d) || m * crate::bits::df(d) + m
            * crate::bits::dr(d) == 0) by (nonlinear_arith)
            requires
                crate::bits::df(d) == crate::bits::dr(d) || crate::bits::df(d) + crate::bits::dr(d)
                    == 0,
        ;
    }
}

/// What the cross resolver means square by square: a square is reachable
/// exactly when it is not the origin, lies on one of the four straight rays,
/// and no occupied square stands strictly between it and the origin — so the
/// first blocker itself is reachable, and everything beyond it is not.
pub proof fn lemma_open_cross_bit(board: u64, i: u64, j: u64)
    requires
        i < 64,
        j < 64,
    ensures
        bit(open_cross(board, i), j) <==> (j != i && exists|d: Direction| #[trigger]
            cross_dir(d) && unblocked_on(board, i, j, d)),
{
    let block = cross_blocked(board, i);
    let m = cross_mask(i);
    crate::bits::lemma_bit_ops(block & m, m, j);
    crate::bits::lemma_bit_ops(block, m, j);
    crate::bits::lemma_bit_ops((block & m) ^ m, 1u64 << i, j);
    crate::bits::lemma_single(i, j);
    crate::mask_for_square::lemma_cross_mask_bit(i, j);
    crate::bits::lemma_bit_ops(
        crate::find_block::blocked_beyond(board, i, Direction::Right),
        crate::find_block::blocked_beyond(board, i, Direction::Left),
        j,
    );
    crate::bits::lemma_bit_ops(
        crate::find_block::blocked_beyond(board, i, Direction::Right) | crate::find_block::blocked_beyond(
            board,
            i,
            Direction::Left,
        ),
        crate::find_block::blocked_beyond(board, i, Direction::Up),
        j,
    );
    crate::bits::lemma_bit_ops(
        crate::find_block::blocked_beyond(board, i, Direction::Right) | crate::find_block::blocked_beyond(
            board,
            i,
            Direction::Left,
        ) | crate::find_block::blocked_beyond(board, i, Direction::Up),
        crate::find_block::blocked_beyond(board, i, Direction::Down),
        j,
    );
    lemma_blocked_beyond_bit(board, i, Direction::Right, j);
    lemma_blocked_beyond_bit(board, i, Direction::Left, j);
    lemma_blocked_beyond_bit(board, i, Direction::Up, j);
    lemma_blocked_beyond_bit(board, i, Direction::Down, j);
    lemma_not_on_own_ray(i, Direction::Right);
    lemma_not_on_own_ray(i, Direction::Left);
    lemma_not_on_own_ray(i, Direction::Up);
    lemma_not_on_own_ray(i, Direction::Down);
    if j != i {
        lemma_cross_ray_cases(i, j);
        if exists|d: Direction| #[trigger] cross_dir(d) && on_ray(i, j, d) {
            let d: Direction = choose|d: Direction| #[trigger] cross_dir(d) && on_ray(i, j, d);
            if bit(open_cross(board, i), j) {
                assert(!bit(block, j));
                assert(unblocked_on(board, i, j, d)) by {
                    if exists|k: u64|
                        on_ray(i, k, d) && bit(board, k) && #[trigger] on_ray(k, j, d) {
                        assert(bit(crate::find_block::blocked_beyond(board, i, d), j));
                    }
                }
            }
            if exists|d2: Direction| #[trigger] cross_dir(d2) && unblocked_on(board, i, j, d2) {
                let d2: Direction = choose|d2: Direction| #[trigger]
                    cross_dir(d2) && unblocked_on(board, i, j, d2);
                assert(!bit(block, j)) by {
                    lemma_ray_direction_unique_cross(i, j, d2);
                }
            }
        }
    }
}

/// Two straight rays from the same square never share a square.
proof fn lemma_ray_direction_unique_cross(i: u64, j: u64, d: Direction)
    requires
        i < 64,
        j < 64,
        cross_dir(d),
        on_ray(i, j, d),
    ensures
        forall|d2: Direction| cross_dir(d2) && #[trigger] on_ray(i, j, d2) ==> d2 == d,
{
    assert forall|d2: Direction| cross_dir(d2) && #[trigger] on_ray(i, j, d2) implies d2 == d by {
        let m: int = choose|m: int| crate::bits::ray_at(i, j, d, m);
        let m2: int = choose|m2: int| crate::bits::ray_at(i, j, d2, m2);
        if d2 != d {
            assert(m * crate::bits::df(d) == m2 * crate::bits::df(d2) && m * crate::bits::dr(d)
                == m2 * crate::bits::dr(d2) && m >= 1 && m2 >= 1 ==> false) by (nonlinear_arith)
                requires
                    (crate::bits::df(d) != crate::bits::df(d2) || crate::bits::dr(d)
                        != crate::bits::dr(d2)),
                    crate::bits::df(d) == 0 || crate::bits::dr(d) == 0,
                    crate::bits::df(d2) == 0 || crate::bits::dr(d2) == 0,
                    crate::bits::df(d) != 0 || crate::bits::dr(d) != 0,
                    crate::bits::df(d2) != 0 || crate::bits::dr(d2) != 0,
            ;
        }
    }
}

/// Two diagonal rays from the same square never share a square.
proof fn lemma_ray_direction_unique_diag(i: u64, j: u64, d: Direction)
    requires
        i < 64,
        j < 64,
        diag_dir(d),
        on_ray(i, j, d),
    ensures
        forall|d2: Direction| diag_dir(d2) && #[trigger] on_ray(i, j, d2) ==> d2 == d,
{
    assert forall|d2: Direction| diag_dir(d2) && #[trigger] on_ray(i, j, d2) implies d2 == d by {
        let m: int = choose|m: int| crate::bits::ray_at(i, j, d, m);
        let m2: int = choose|m2: int| crate::bits::ray_at(i, j, d2, m2);
        if d2 != d {
            assert(m * crate::bits::df(d) == m2 * crate::bits::df(d2) && m * crate::bits::dr(d)
                == m2 * crate::bits::dr(d2) && m >= 1 && m2 >= 1 ==> false) by (nonlinear_arith)
                requires
                    (crate::bits::df(d) != crate::bits::df(d2) || crate::bits::dr(d)
                        != crate::bits::dr(d2)),
                    crate::bits::df(d) == 1 || crate::bits::df(d) == -1,
                    crate::bits::dr(d) == 1 || crate::bits::dr(d) == -1,
                    crate::bits::df(d2) == 1 || crate::bits::df(d2) == -1,
                    crate::bits::dr(d2) == 1 || crate::bits::dr(d2) == -1,
            ;
        }
    }
}

/// What the diagonal resolver means square by square, mirroring the cross
/// law: reachable squares are the unblocked diagonal ray squares, the origin
/// excluded and the first blocker included.
pub proof fn lemma_open_diagonal_bit(board: u64, i: u64, j: u64)
    requires
        i < 64,
        j < 64,
    ensures
        bit(open_diagonal(board, i), j) <==> (j != i && exists|d: Direction| #[trigger]
            diag_dir(d) && unblocked_on(board, i, j, d)),
{
    let block = diagonal_blocked(board, i);
    let m = diag_mask(i);
    crate::bits::lemma_bit_ops(block & m, m, j);
    crate::bits::lemma_bit_ops(block, m, j);
    crate::bits::lemma_bit_ops((block & m) ^ m, 1u64 << i, j);
    crate::bits::lemma_single(i, j);
    crate::mask_for_square::lemma_diag_mask_bit(i, j);
    crate::bits::lemma_bit_ops(
        crate::find_block::blocked_beyond(board, i, Direction::UpLeft),
        crate::find_block::blocked_beyond(board, i, Direction::UpRight),
        j,
    );
    crate::bits::lemma_bit_ops(
        crate::find_block::blocked_beyond(board, i, Direction::UpLeft)
            | crate::find_block::blocked_beyond(board, i, Direction::UpRight),
        crate::find_block::blocked_beyond(board, i, Direction::DownLeft),
        j,
    );
    crate::bits::lemma_bit_ops(
        crate::find_block::blocked_beyond(board, i, Direction::UpLeft)
            | crate::find_block::blocked_beyond(board, i, Direction::UpRight)
            | crate::find_block::blocked_beyond(board, i, Direction::DownLeft),
        crate::find_block::blocked_beyond(board, i, Direction::DownRight),
        j,
    );
    lemma_blocked_beyond_bit(board, i, Direction::UpLeft, j);
    lemma_blocked_beyond_bit(board, i, Direction::UpRight, j);
    lemma_blocked_beyond_bit(board, i, Direction::DownLeft, j);
    lemma_blocked_beyond_bit(board, i, Direction::DownRight, j);
    lemma_not_on_own_ray(i, Direction::UpLeft);
    lemma_not_on_own_ray(i, Direction::UpRight);
    lemma_not_on_own_ray(i, Direction::DownLeft);
    lemma_not_on_own_ray(i, Direction::DownRight);
    if j != i {
        lemma_diag_ray_cases(i, j);
        if exists|d: Direction| #[trigger] diag_dir(d) && on_ray(i, j, d) {
            let d: Direction = choose|d: Direction| #[trigger] diag_dir(d) && on_ray(i, j, d);
            if bit(open_diagonal(board, i), j) {
                assert(!bit(block, j));
                assert(unblocked_on(board, i, j, d)) by {
                    if exists|k: u64|
                        on_ray(i, k, d) && bit(board, k) && #[trigger] on_ray(k, j, d) {
                        assert(bit(crate::find_block::blocked_beyond(board, i, d), j));
                    }
                }
            }
            if exists|d2: Direction| #[trigger] diag_dir(d2) && unblocked_on(board, i, j, d2) {
                let d2: Direction = choose|d2: Direction| #[trigger]
                    diag_dir(d2) && unblocked_on(board, i, j, d2);
                assert(!bit(block, j)) by {
                    lemma_ray_direction_unique_diag(i, j, d2);
                }
            }
        }
    }
}

/// Reachable squares for the cross shape, blockers included, origin excluded.
pub fn cross(board: u64, bit: u64) -> (r: u64)
    requires
        single_bit(bit),
    ensures
        r == open_cross(board, index_of(bit)),
{
    let block: u64 = crate::find_block::cross(board, bit);
    proof {
        lemma_single(index_of(bit), 0);
    }
    let cross_mask: u64 = crate::mask_for_square::for_square(bit_to_index(bit) - 1);
    (block & cross_mask) ^ cross_mask ^ bit
}

/// Reachable squares for the diagonal shape, blockers included, origin
/// excluded.
pub fn diagonal(board: u64, bit: u64) -> (r: u64)
    requires
        single_bit(bit),
    ensures
        r == open_diagonal(board, index_of(bit)),
{
    let block: u64 = crate::find_block::diagonal(board, bit);
    proof {
        lemma_single(index_of(bit), 0);
    }
    let diagonal_mask: u64 = crate::mask_for_square::for_square_diagonal(bit_to_index(bit) - 1);
    (block & diagonal_mask) ^ diagonal_mask ^ bit
}

#[allow(non_snake_case)]
pub fn L_shape(square: u64) -> (r: u64)
    requires
        single_bit(square),
    ensures
        r == knight_board(index_of(square)),
{
    let mut offsets: Vec<i8> = Vec::new();
    offsets.push(-15);
    offsets.push(-17);
    offsets.push(-10);
    offsets.push(-6);
    offsets.push(6);
    offsets.push(10);
    offsets.push(15);
    offsets.push(17);
    let ghost offs: Seq<i8> = offsets@;
    let ghost i: u64 = index_of(square);
    let r: u64 = find_offsets_on_board_within_distance(0, square, offsets, 2);
    proof {
        lemma_single(i, 0);
        let s = squares_from_offsets(offs, i as int);
        let w = within_distance(s, i as u8, 2);
        lemma_squares_from_offsets_bound(offs, i as int);
        lemma_within_distance_sub(s, i as u8, 2);
        assert forall|m: int| 0 <= m < w.len() implies w[m] < 64 by {
            let n: int = choose|n: int| 0 <= n < s.len() && s[n] == w[m];
        }
        assert forall|j: u64| j < 64 implies bit(r, j) == bit(knight_board(i), j) by {
            lemma_board_where_bit(|j: u64| knight_move(i, j), j);
            lemma_indices_to_board_bit(w, j);
            lemma_within_distance_contains(s, i as u8, 2, j as u8);
            lemma_squares_from_offsets_contains(offs, i as int, j as u8);
            assert(j as int == 8 * (rank(j) as int) + (file(j) as int));
            assert(i as int == 8 * (rank(i) as int) + (file(i) as int));
            if bit(r, j) {
                let k: int = choose|k: int|
                    0 <= k < offs.len() && 0 <= i + offs[k] <= 63 && (j as u8) == (i
                        + offs[k]) as u8;
                assert(j == i + offs[k]);
                assert(knight_move(i, j));
            }
            if knight_move(i, j) {
                let fd = file(j) - file(i);
                let rd = rank(j) - rank(i);
                let o: int = 8 * rd + fd;
                assert(j == i + o);
                if o == -15 {
                    assert(0 <= i + offs[0] <= 63 && (j as u8) == (i + offs[0]) as u8);
                } else if o == -17 {
                    assert(0 <= i + offs[1] <= 63 && (j as u8) == (i + offs[1]) as u8);
                } else if o == -10 {
                    assert(0 <= i + offs[2] <= 63 && (j as u8) == (i + offs[2]) as u8);
                } else if o == -6 {
                    assert(0 <= i + offs[3] <= 63 && (j as u8) == (i + offs[3]) as u8);
                } else if o == 6 {
                    assert(0 <= i + offs[4] <= 63 && (j as u8) == (i + offs[4]) as u8);
                } else if o == 10 {
                    assert(0 <= i + offs[5] <= 63 && (j as u8) == (i + offs[5]) as u8);
                } else if o == 15 {
                    assert(0 <= i + offs[6] <= 63 && (j as u8) == (i + offs[6]) as u8);
                } else {
                    assert(o == 17);
                    assert(0 <= i + offs[7] <= 63 && (j as u8) == (i + offs[7]) as u8);
                }
                assert(near(j as u8, i as u8, 2));
                assert(w.contains(j as u8));
            }
        }
        lemma_bits_eq(r, knight_board(i));
    }
    r
}

/// Reachable squares for the king's one-step shape.
pub fn square_shape(square: u64) -> (r: u64)
    requires
        single_bit(square),
    ensures
        r == king_board(index_of(square)),
{
    let mut offsets: Vec<i8> = Vec::new();
    offsets.push(-9);
    offsets.push(-8);
    offsets.push(-7);
    offsets.push(-1);
    offsets.push(1);
    offsets.push(7);
    offsets.push(8);
    offsets.push(9);
    let ghost offs: Seq<i8> = offsets@;
    let ghost i: u64 = index_of(square);
    let r: u64 = find_offsets_on_board_within_distance(0, square, offsets, 1);
    proof {
        lemma_single(i, 0);
        let s = squares_from_offsets(offs, i as int);
        let w = within_distance(s, i as u8, 1);
        lemma_squares_from_offsets_bound(offs, i as int);
        lemma_within_distance_sub(s, i as u8, 1);
        assert forall|m: int| 0 <= m < w.len() implies w[m] < 64 by {
            let n: int = choose|n: int| 0 <= n < s.len() && s[n] == w[m];
        }
        assert forall|j: u64| j < 64 implies bit(r, j) == bit(king_board(i), j) by {
            lemma_board_where_bit(|j: u64| king_move(i, j), j);
            lemma_indices_to_board_bit(w, j);
            lemma_within_distance_contains(s, i as u8, 1, j as u8);
            lemma_squares_from_offsets_contains(offs, i as int, j as u8);
            assert(j as int == 8 * (rank(j) as int) + (file(j) as int));
            assert(i as int == 8 * (rank(i) as int) + (file(i) as int));
            if bit(r, j) {
                let k: int = choose|k: int|
                    0 <= k < offs.len() && 0 <= i + offs[k] <= 63 && (j as u8) == (i
                        + offs[k]) as u8;
                assert(j == i + offs[k]);
                assert(king_move(i, j));
            }
            if king_move(i, j) {
                let fd = file(j) - file(i);
                let rd = rank(j) - rank(i);
                let o: int = 8 * rd + fd;
                assert(j == i + o);
                if o == -9 {
                    assert(0 <= i + offs[0] <= 63 && (j as u8) == (i + offs[0]) as u8);
                } else if o == -8 {
                    assert(0 <= i + offs[1] <= 63 && (j as u8) == (i + offs[1]) as u8);
                } else if o == -7 {
                    assert(0 <= i + offs[2] <= 63 && (j as u8) == (i + offs[2]) as u8);
                } else if o == -1 {
                    assert(0 <= i + offs[3] <= 63 && (j as u8) == (i + offs[3]) as u8);
                } else if o == 1 {
                    assert(0 <= i + offs[4] <= 63 && (j as u8) == (i + offs[4]) as u8);
                } else if o == 7 {
                    assert(0 <= i + offs[5] <= 63 && (j as u8) == (i + offs[5]) as u8);
                } else if o == 8 {
                    assert(0 <= i + offs[6] <= 63 && (j as u8) == (i + offs[6]) as u8);
                } else {
                    assert(o == 9);
                    assert(0 <= i + offs[7] <= 63 && (j as u8) == (i + offs[7]) as u8);
                }
                assert(near(j as u8, i as u8, 1));
                assert(w.contains(j as u8));
            }
        }
        lemma_bits_eq(r, king_board(i));
    }
    r
}

} // verus!
