//! Small bitboard utilities: index arithmetic, border tests, least and most
//! significant bit isolation, population count, and offset-list filtering.

use vstd::prelude::*;

use crate::bits::bit;
use crate::bits::file;
use crate::bits::index_of;
use crate::bits::lemma_bit_ops;
use crate::bits::lemma_bits_eq;
use crate::bits::lemma_index_of;
use crate::bits::lemma_single;
use crate::bits::pop;
use crate::bits::pop_below;
use crate::bits::rank;
use crate::bits::single_bit;

verus! {

/// `b` shifted by `s` squares: toward higher indices for non-negative `s`,
/// toward lower ones otherwise.
pub open spec fn two_way(b: u64, s: int) -> u64
    recommends
        -63 <= s <= 63,
{
    if s < 0 {
        b >> ((-s) as u64)
    } else {
        b << (s as u64)
    }
}

proof fn lemma_two_way_bv(x: u64, s: u64, j: u64, e: u64)
    by (bit_vector)
    requires
        s < 64,
        j < 64,
        e < 64,
    ensures
        bit(x << s, j) <==> (j >= s && bit(x, ((j - s) as u64))),
        bit(x >> s, j) <==> (j + s < 64 && bit(x, ((j + s) as u64))),
        e >= s ==> (1u64 << e) >> s == 1u64 << ((e - s) as u64),
        e + s < 64 ==> (1u64 << e) << s == 1u64 << ((e + s) as u64),
{
}

/// How a two-way shift moves squares: square `j` of the shifted board was
/// square `j - s` of the original, and a shifted one-square board is the
/// one-square board of the shifted index.
pub proof fn lemma_two_way_props(x: u64, s: int, j: u64, e: u64)
    requires
        -63 <= s <= 63,
        j < 64,
        e < 64,
    ensures
        bit(two_way(x, s), j) <==> (0 <= j - s < 64 && bit(x, ((j - s) as u64))),
        0 <= e + s < 64 ==> two_way(1u64 << e, s) == 1u64 << ((e + s) as u64),
{
    if s >= 0 {
        lemma_two_way_bv(x, s as u64, j, e);
    } else {
        lemma_two_way_bv(x, (-s) as u64, j, e);
    }
}

/// Index of the highest occupied square plus one, or 0 for the empty board.
pub fn bit_to_index(bit: u64) -> (r: u8)
    ensures
        bit == 0 ==> r == 0,
        bit != 0 ==> 1 <= r <= 64 && crate::bits::bit(bit, (r - 1) as u64),
        forall|j: u64| r <= j < 64 ==> !crate::bits::bit(bit, j),
        single_bit(bit) ==> r == index_of(bit) + 1,
{
    let mut cur: u64 = bit;
    let mut index: u8 = 0;
    proof {
        assert(bit >> 0u64 == bit) by (bit_vector);
    }
    while cur != 0
        invariant
            index <= 64,
            index < 64 ==> cur == bit >> (index as u64),
            index == 64 ==> cur == 0,
            index > 0 ==> bit >> ((index - 1) as u64) != 0,
        decreases 64 - index,
    {
        proof {
            let n: u64 = index as u64;
            assert(n < 63 ==> (bit >> n) >> 1u64 == bit >> ((n + 1) as u64)) by (bit_vector);
            assert(n == 63 ==> (bit >> n) >> 1u64 == 0) by (bit_vector);
        }
        cur = cur >> 1u64;
        index = index + 1;
    }
    proof {
        let r: u64 = index as u64;
        assert(r < 64 ==> bit >> r == 0);
        assert forall|j: u64| r <= j < 64 implies !crate::bits::bit(bit, j) by {
            assert((bit >> r == 0 && r <= j < 64) ==> (bit & (1u64 << j) == 0)) by (bit_vector);
        }
        if bit == 0 && index > 0 {
            let m: u64 = (index - 1) as u64;
            assert(0u64 >> m == 0) by (bit_vector);
        }
        if bit != 0 {
            assert(bit >> 0u64 == bit) by (bit_vector);
            assert(r >= 1);
            let n: u64 = (r - 1) as u64;
            if n == 63 {
                assert((bit >> 63u64 != 0) ==> bit & (1u64 << 63u64) != 0) by (bit_vector);
            } else {
                assert((bit >> n != 0 && bit >> ((n + 1) as u64) == 0 && n < 63) ==> bit & (1u64
                    << n) != 0) by (bit_vector);
            }
        }
        if single_bit(bit) {
            let i: u64 = index_of(bit);
            lemma_single(i, i);
            if bit != 0 {
                lemma_single(i, (r - 1) as u64);
            }
        }
    }
    index
}

/// Shift `board` by `shift` square indices, in either direction.
#[inline(always)]
pub fn two_way_shift(board: u64, shift: i8) -> (r: u64)
    requires
        -63 <= shift <= 63,
    ensures
        r == two_way(board, shift as int),
{
    if shift < 0 {
        board >> ((-(shift as i16)) as u64)
    } else {
        board << (shift as u64)
    }
}

/// Shift `board` by `shift` square indices, in either direction.
pub fn bit_shift_two_way(board: u64, shift: i8) -> (r: u64)
    requires
        -63 <= shift <= 63,
    ensures
        r == two_way(board, shift as int),
{
    two_way_shift(board, shift)
}

/// Whether the square lies on any border of the grid.
pub fn border_bit(bit: u64) -> (r: bool)
    requires
        single_bit(bit),
    ensures
        r == (file(index_of(bit)) == 0 || file(index_of(bit)) == 7 || rank(index_of(bit)) == 0
            || rank(index_of(bit)) == 7),
{
    let index: u8 = bit_to_index(bit) - 1;
    proof {
        assert(1u64 << index_of(bit) != 0) by {
            lemma_single(index_of(bit), 0);
        }
    }
    index % 8 == 0 || index % 8 == 7 || index / 8 == 0 || index / 8 == 7
}

/// Whether the square lies on the bottom rank.
pub fn bottom_bit(bit: u64) -> (r: bool)
    requires
        single_bit(bit),
    ensures
        r == (rank(index_of(bit)) == 0),
{
    let index: u8 = bit_to_index(bit) - 1;
    proof {
        assert(1u64 << index_of(bit) != 0) by {
            lemma_single(index_of(bit), 0);
        }
    }
    index / 8 == 0
}

/// Whether the square lies on the top rank.
pub fn top_bit(bit: u64) -> (r: bool)
    requires
        single_bit(bit),
    ensures
        r == (rank(index_of(bit)) == 7),
{
    let index: u8 = bit_to_index(bit) - 1;
    proof {
        assert(1u64 << index_of(bit) != 0) by {
            lemma_single(index_of(bit), 0);
        }
    }
    index / 8 == 7
}

/// Whether the square lies on the rightmost file.
pub fn right_bit(bit: u64) -> (r: bool)
    requires
        single_bit(bit),
    ensures
        r == (file(index_of(bit)) == 7),
{
    let index: u8 = bit_to_index(bit) - 1;
    proof {
        assert(1u64 << index_of(bit) != 0) by {
            lemma_single(index_of(bit), 0);
        }
    }
    index % 8 == 7
}

/// Whether the square lies on the leftmost file.
pub fn left_bit(bit: u64) -> (r: bool)
    requires
        single_bit(bit),
    ensures
        r == (file(index_of(bit)) == 0),
{
    let index: u8 = bit_to_index(bit) - 1;
    proof {
        assert(1u64 << index_of(bit) != 0) by {
            lemma_single(index_of(bit), 0);
        }
    }
    index % 8 == 0
}

/// Whether a step up and to the right would leave the board.
pub fn up_right_bit(bit: u64) -> (r: bool)
    requires
        single_bit(bit),
    ensures
        r == (file(index_of(bit)) == 7 || rank(index_of(bit)) == 7),
{
    right_bit(bit) || top_bit(bit)
}

/// Whether a step up and to the left would leave the board.
pub fn up_left_bit(bit: u64) -> (r: bool)
    requires
        single_bit(bit),
    ensures
        r == (file(index_of(bit)) == 0 || rank(index_of(bit)) == 7),
{
    left_bit(bit) || top_bit(bit)
}

/// Whether a step down and to the right would leave the board.
pub fn bottom_right_bit(bit: u64) -> (r: bool)
    requires
        single_bit(bit),
    ensures
        r == (file(index_of(bit)) == 7 || rank(index_of(bit)) == 0),
{
    right_bit(bit) || bottom_bit(bit)
}

/// Whether a step down and to the left would leave the board.
pub fn bottom_left_bit(bit: u64) -> (r: bool)
    requires
        single_bit(bit),
    ensures
        r == (file(index_of(bit)) == 0 || rank(index_of(bit)) == 0),
{
    left_bit(bit) || bottom_bit(bit)
}

/// The lowest occupied square of `board` as a one-square board, or the empty
/// board.
pub fn isolate_lsb(board: u64) -> (r: u64)
    ensures
        board == 0 ==> r == 0,
        board != 0 ==> single_bit(r) && bit(board, index_of(r)) && (forall|j: u64|
            j < index_of(r) ==> !bit(board, j)),
{
    let mut i: u64 = 0;
    while i < 64
        invariant
            i <= 64,
            forall|j: u64| j < i ==> !bit(board, j),
        decreases 64 - i,
    {
        if board & (1u64 << i) != 0 {
            proof {
                lemma_index_of(i);
                lemma_bit_ops(board, board, i);
                assert(board != 0);
            }
            return 1u64 << i;
        }
        i = i + 1;
    }
    proof {
        assert forall|j: u64| j < 64 implies bit(board, j) == bit(0u64, j) by {
            lemma_bit_ops(board, board, j);
        }
        lemma_bits_eq(board, 0);
    }
    0
}

/// The highest occupied square of `board` as a one-square board, or the empty
/// board.
pub fn isolate_msb(board: u64) -> (r: u64)
    ensures
        board == 0 ==> r == 0,
        board != 0 ==> single_bit(r) && bit(board, index_of(r)) && (forall|j: u64|
            index_of(r) < j < 64 ==> !bit(board, j)),
{
    let mut i: u64 = 64;
    while i > 0
        invariant
            i <= 64,
            forall|j: u64| i <= j < 64 ==> !bit(board, j),
        decreases i,
    {
        i = i - 1;
        if board & (1u64 << i) != 0 {
            proof {
                lemma_index_of(i);
                lemma_bit_ops(board, board, i);
                assert(board != 0);
            }
            return 1u64 << i;
        }
    }
    proof {
        assert forall|j: u64| j < 64 implies bit(board, j) == bit(0u64, j) by {
            lemma_bit_ops(board, board, j);
        }
        lemma_bits_eq(board, 0);
    }
    0
}

/// The members of `offs` added to `idx`, keeping the sums that stay within
/// the board's index range, in list order.
pub open spec fn squares_from_offsets(offs: Seq<i8>, idx: int) -> Seq<u8>
    decreases offs.len(),
{
    if offs.len() == 0 {
        Seq::<u8>::empty()
    } else {
        let rest = squares_from_offsets(offs.drop_last(), idx);
        if 0 <= idx + offs.last() && idx + offs.last() <= 63 {
            rest.push((idx + offs.last()) as u8)
        } else {
            rest
        }
    }
}

/// Whether square `x` is within `lim` files and `lim` ranks of square `q`.
pub open spec fn near(x: u8, q: u8, lim: u8) -> bool {
    -(lim as int) <= file(x as u64) - file(q as u64) <= lim as int && -(lim as int) <= rank(
        x as u64,
    ) - rank(q as u64) <= lim as int
}

/// The members of `s` within `lim` files and ranks of `q`, in list order.
pub open spec fn within_distance(s: Seq<u8>, q: u8, lim: u8) -> Seq<u8>
    decreases s.len(),
{
    if s.len() == 0 {
        Seq::<u8>::empty()
    } else {
        let rest = within_distance(s.drop_last(), q, lim);
        if near(s.last(), q, lim) {
            rest.push(s.last())
        } else {
            rest
        }
    }
}

/// The board whose occupied squares are exactly the members of `s`.
pub open spec fn indices_to_board(s: Seq<u8>) -> u64
    decreases s.len(),
{
    if s.len() == 0 {
        0u64
    } else {
        indices_to_board(s.drop_last()) | (1u64 << (s.last() as u64))
    }
}

/// A square of the assembled board is occupied exactly when its index is a
/// member of the list.
pub proof fn lemma_indices_to_board_bit(s: Seq<u8>, j: u64)
    requires
        j < 64,
        forall|k: int| 0 <= k < s.len() ==> s[k] < 64,
    ensures
        bit(indices_to_board(s), j) <==> s.contains(j as u8),
    decreases s.len(),
{
    if s.len() == 0 {
        lemma_bit_ops(0, 0, j);
    } else {
        lemma_indices_to_board_bit(s.drop_last(), j);
        lemma_bit_ops(indices_to_board(s.drop_last()), 1u64 << (s.last() as u64), j);
        lemma_single(s.last() as u64, j);
        if s.contains(j as u8) {
            let k: int = choose|k: int| 0 <= k < s.len() && s[k] == j as u8;
            if k < s.len() - 1 {
                assert(s.drop_last()[k] == j as u8);
            }
        }
        if s.drop_last().contains(j as u8) {
            let k: int = choose|k: int| 0 <= k < s.drop_last().len() && s.drop_last()[k] == j as u8;
            assert(s[k] == j as u8);
        }
    }
}

/// Every member of an offset list mapped onto the board is a board index.
pub proof fn lemma_squares_from_offsets_bound(offs: Seq<i8>, idx: int)
    ensures
        forall|k: int|
            0 <= k < squares_from_offsets(offs, idx).len() ==> squares_from_offsets(offs, idx)[k]
                < 64,
    decreases offs.len(),
{
    if offs.len() > 0 {
        lemma_squares_from_offsets_bound(offs.drop_last(), idx);
        let s = squares_from_offsets(offs, idx);
        let rest = squares_from_offsets(offs.drop_last(), idx);
        assert forall|k: int| 0 <= k < s.len() implies s[k] < 64 by {
            if k < rest.len() {
                assert(rest[k] < 64);
            }
        }
    }
}

/// Distance filtering keeps only members of the list.
pub proof fn lemma_within_distance_sub(s: Seq<u8>, q: u8, lim: u8)
    ensures
        forall|k: int|
            0 <= k < within_distance(s, q, lim).len() ==> s.contains(
                #[trigger] within_distance(s, q, lim)[k],
            ),
    decreases s.len(),
{
    if s.len() > 0 {
        lemma_within_distance_sub(s.drop_last(), q, lim);
        assert forall|k: int| 0 <= k < within_distance(s, q, lim).len() implies s.contains(
            #[trigger] within_distance(s, q, lim)[k],
        ) by {
            let w = within_distance(s, q, lim);
            let rest = within_distance(s.drop_last(), q, lim);
            if k < rest.len() {
                let m: int = choose|m: int|
                    0 <= m < s.drop_last().len() && s.drop_last()[m] == rest[k];
                assert(s[m] == rest[k]);
            } else {
                assert(s[s.len() - 1] == s.last());
            }
        }
    }
}

/// Membership in the distance-filtered list: the member was in the original
/// list and lies within the distance bound.
pub proof fn lemma_within_distance_contains(s: Seq<u8>, q: u8, lim: u8, x: u8)
    ensures
        within_distance(s, q, lim).contains(x) <==> (s.contains(x) && near(x, q, lim)),
    decreases s.len(),
{
    if s.len() == 0 {
    } else {
        lemma_within_distance_contains(s.drop_last(), q, lim, x);
        let w = within_distance(s, q, lim);
        let rest = within_distance(s.drop_last(), q, lim);
        if w.contains(x) {
            let k: int = choose|k: int| 0 <= k < w.len() && w[k] == x;
            if k < rest.len() {
                assert(rest[k] == x);
                assert(rest.contains(x));
                let m: int = choose|m: int|
                    0 <= m < s.drop_last().len() && s.drop_last()[m] == x;
                assert(s[m] == x);
            } else {
                assert(x == s.last());
                assert(s[s.len() - 1] == x);
            }
        }
        if s.contains(x) && near(x, q, lim) {
            let k: int = choose|k: int| 0 <= k < s.len() && s[k] == x;
            if k < s.len() - 1 {
                assert(s.drop_last()[k] == x);
                assert(s.drop_last().contains(x));
                let m: int = choose|m: int| 0 <= m < rest.len() && rest[m] == x;
                if near(s.last(), q, lim) {
                    assert(w[m] == x);
                } else {
                    assert(w[m] == x);
                }
            } else {
                assert(w[w.len() - 1] == x);
            }
        }
    }
}

/// Membership in the on-board offset list: the member is the origin index
/// plus some offset of the list, and lies on the board.
pub proof fn lemma_squares_from_offsets_contains(offs: Seq<i8>, idx: int, x: u8)
    ensures
        squares_from_offsets(offs, idx).contains(x) <==> (exists|k: int|
            0 <= k < offs.len() && 0 <= idx + offs[k] <= 63 && x == (idx + offs[k]) as u8),
    decreases offs.len(),
{
    if offs.len() == 0 {
    } else {
        lemma_squares_from_offsets_contains(offs.drop_last(), idx, x);
        let s = squares_from_offsets(offs, idx);
        let rest = squares_from_offsets(offs.drop_last(), idx);
        if s.contains(x) {
            let k: int = choose|k: int| 0 <= k < s.len() && s[k] == x;
            if k < rest.len() {
                assert(rest[k] == x);
                assert(rest.contains(x));
                let m: int = choose|m: int|
                    0 <= m < offs.drop_last().len() && 0 <= idx + offs.drop_last()[m] <= 63 && x
                        == (idx + offs.drop_last()[m]) as u8;
                assert(offs[m] == offs.drop_last()[m]);
            } else {
                assert(0 <= idx + offs.last() <= 63 && x == (idx + offs.last()) as u8);
                assert(offs[offs.len() - 1] == offs.last());
            }
        }
        if exists|k: int|
            0 <= k < offs.len() && 0 <= idx + offs[k] <= 63 && x == (idx + offs[k]) as u8 {
            let k: int = choose|k: int|
                0 <= k < offs.len() && 0 <= idx + offs[k] <= 63 && x == (idx + offs[k]) as u8;
            if k < offs.len() - 1 {
                assert(offs.drop_last()[k] == offs[k]);
                assert(rest.contains(x));
                let m: int = choose|m: int| 0 <= m < rest.len() && rest[m] == x;
                if 0 <= idx + offs.last() <= 63 {
                    assert(s[m] == x);
                } else {
                    assert(s[m] == x);
                }
            } else {
                assert(s[s.len() - 1] == x);
            }
        }
    }
}

/// Keep the offsets whose sum with the origin's index stays on the board, and
/// return those sums as square indices.
pub fn find_squares_in_list_on_board(offsets: Vec<i8>, square: u64) -> (r: Vec<u8>)
    requires
        single_bit(square),
    ensures
        r@ == squares_from_offsets(offsets@, index_of(square) as int),
{
    let idx: i16 = (bit_to_index(square) - 1) as i16;
    let mut out: Vec<u8> = Vec::new();
    let mut k: usize = 0;
    proof {
        assert(offsets@.take(0) =~= Seq::<i8>::empty());
    }
    while k < offsets.len()
        invariant
            k <= offsets.len(),
            0 <= idx <= 63,
            idx == index_of(square),
            out@ == squares_from_offsets(offsets@.take(k as int), idx as int),
        decreases offsets.len() - k,
    {
        let o: i16 = offsets[k] as i16;
        let t: i16 = idx + o;
        if 0 <= t && t <= 63 {
            out.push(t as u8);
        }
        proof {
            assert(offsets@.take(k + 1).drop_last() =~= offsets@.take(k as int));
            assert(offsets@.take(k + 1).last() == offsets@[k as int]);
        }
        k = k + 1;
    }
    proof {
        assert(offsets@.take(offsets@.len() as int) =~= offsets@);
    }
    out
}

/// Keep the squares within `distance_limit` files and ranks of `square`.
pub fn find_squares_within_given_distance(squares: Vec<u8>, square: u8, distance_limit: u8) -> (r:
    Vec<u8>)
    ensures
        r@ == within_distance(squares@, square, distance_limit),
{
    let mut out: Vec<u8> = Vec::new();
    let mut k: usize = 0;
    proof {
        assert(squares@.take(0) =~= Seq::<u8>::empty());
    }
    while k < squares.len()
        invariant
            k <= squares.len(),
            out@ == within_distance(squares@.take(k as int), square, distance_limit),
        decreases squares.len() - k,
    {
        let x: u8 = squares[k];
        let fd: i16 = (x % 8) as i16 - (square % 8) as i16;
        let rd: i16 = (x / 8) as i16 - (square / 8) as i16;
        let lim: i16 = distance_limit as i16;
        if -lim <= fd && fd <= lim && -lim <= rd && rd <= lim {
            out.push(x);
        }
        proof {
            assert(squares@.take(k + 1).drop_last() =~= squares@.take(k as int));
            assert(squares@.take(k + 1).last() == squares@[k as int]);
        }
        k = k + 1;
    }
    proof {
        assert(squares@.take(squares@.len() as int) =~= squares@);
    }
    out
}

/// Assemble a list of square indices into one bitboard.
pub fn reduce_square_indices_to_slice(squares: Vec<u8>) -> (r: u64)
    requires
        forall|k: int| 0 <= k < squares@.len() ==> squares@[k] < 64,
    ensures
        r == indices_to_board(squares@),
{
    let mut board: u64 = 0;
    let mut k: usize = 0;
    proof {
        assert(squares@.take(0) =~= Seq::<u8>::empty());
    }
    while k < squares.len()
        invariant
            k <= squares.len(),
            forall|m: int| 0 <= m < squares@.len() ==> squares@[m] < 64,
            board == indices_to_board(squares@.take(k as int)),
        decreases squares.len() - k,
    {
        board = board | (1u64 << (squares[k] as u64));
        proof {
            assert(squares@.take(k + 1).drop_last() =~= squares@.take(k as int));
            assert(squares@.take(k + 1).last() == squares@[k as int]);
        }
        k = k + 1;
    }
    proof {
        assert(squares@.take(squares@.len() as int) =~= squares@);
    }
    board
}

/// The squares reached by the given offsets from `square`, kept on the board
/// and within the distance bound, as one bitboard.
pub fn find_offsets_on_board_within_distance(
    _board: u64,
    square: u64,
    offsets: Vec<i8>,
    distance_limit: u8,
) -> (r: u64)
    requires
        single_bit(square),
    ensures
        r == indices_to_board(
            within_distance(
                squares_from_offsets(offsets@, index_of(square) as int),
                index_of(square) as u8,
                distance_limit,
            ),
        ),
{
    let square_index: u8 = bit_to_index(square) - 1;
    let squares: Vec<u8> = find_squares_in_list_on_board(offsets, square);
    let new_squares: Vec<u8> = find_squares_within_given_distance(
        squares,
        square_index,
        distance_limit,
    );
    proof {
        lemma_squares_from_offsets_bound(offsets@, index_of(square) as int);
        lemma_within_distance_sub(
            squares_from_offsets(offsets@, index_of(square) as int),
            index_of(square) as u8,
            distance_limit,
        );
        let w = within_distance(
            squares_from_offsets(offsets@, index_of(square) as int),
            index_of(square) as u8,
            distance_limit,
        );
        assert forall|m: int| 0 <= m < w.len() implies w[m] < 64 by {
            let s = squares_from_offsets(offsets@, index_of(square) as int);
            let i: int = choose|i: int| 0 <= i < s.len() && s[i] == w[m];
        }
    }
    reduce_square_indices_to_slice(new_squares)
}

/// Number of occupied squares of `board`.
pub fn number_of_bits(board: u64) -> (r: u32)
    ensures
        r == pop(board),
{
    let mut count: u32 = 0;
    let mut i: u64 = 0;
    while i < 64
        invariant
            i <= 64,
            count == pop_below(board, i as nat),
            count <= i,
        decreases 64 - i,
    {
        if board & (1u64 << i) != 0 {
            count = count + 1;
        }
        i = i + 1;
    }
    count
}

} // verus!
