//! The move map cache: memoized reachable-square lookups keyed by origin
//! square and masked occupancy.  Every stored value equals what a fresh
//! computation would produce, so a hit and a miss are indistinguishable to
//! callers, and repeating a lookup neither changes a stored value nor grows
//! the cache.

use vstd::prelude::*;

use crate::bits::index_of;
use crate::bits::single_bit;
use crate::crop::crop;
use crate::crop::crop_board;
use crate::mask_for_square::cross_mask;
use crate::mask_for_square::cross_mask_from_bit;
use crate::mask_for_square::diag_mask;
use crate::mask_for_square::diagonal_mask_from_bit;
use crate::open_squares::king_board;
use crate::open_squares::knight_board;
use crate::open_squares::open_cross;
use crate::open_squares::open_diagonal;

verus! {

/// The movement shapes a move map can serve.
#[derive(Clone, Copy, PartialEq, Eq, Structural, Debug)]
pub enum Shape {
    Cross,
    Diagonal,
    Knight,
    King,
}

/// The part of the occupancy that can influence a shape's reachable squares:
/// the shape's own mask for sliding shapes, nothing for the fixed-offset
/// shapes.
pub open spec fn shape_mask(shape: Shape, i: u64) -> u64 {
    match shape {
        Shape::Cross => cross_mask(i),
        Shape::Diagonal => diag_mask(i),
        Shape::Knight => 0u64,
        Shape::King => 0u64,
    }
}

/// The reachable squares of a shape from square `i` under a masked occupancy.
pub open spec fn shape_open(shape: Shape, masked: u64, i: u64) -> u64 {
    match shape {
        Shape::Cross => open_cross(masked, i),
        Shape::Diagonal => open_diagonal(masked, i),
        Shape::Knight => knight_board(i),
        Shape::King => king_board(i),
    }
}

/// The cache key an occupancy reduces to: masked by the shape's mask and
/// cropped around the origin square.
pub open spec fn masked_key(shape: Shape, board: u64, i: u64) -> u64 {
    crop(board & shape_mask(shape, i), i)
}

/// A memoizing map from (origin square, masked occupancy) to reachable
/// squares, for one movement shape.
pub struct MoveMap {
    shape: Shape,
    entries: Vec<(u64, u64, u64)>,
}

impl MoveMap {
    /// The shape this map serves.
    pub closed spec fn spec_shape(&self) -> Shape {
        self.shape
    }

    /// Whether the pair (square, masked occupancy) is cached.
    pub closed spec fn has_key(&self, square: u64, masked: u64) -> bool {
        exists|k: int|
            0 <= k < self.entries@.len() && (#[trigger] self.entries@[k]).0 == square
                && self.entries@[k].1 == masked
    }

    /// Number of cached entries.
    pub closed spec fn size(&self) -> nat {
        self.entries@.len()
    }

    /// Every cached value equals the pure function of its key.
    pub closed spec fn wf(&self) -> bool {
        forall|k: int|
            0 <= k < self.entries@.len() ==> single_bit((#[trigger] self.entries@[k]).0)
                && self.entries@[k].2 == shape_open(
                self.shape,
                self.entries@[k].1,
                index_of(self.entries@[k].0),
            )
    }

    /// Whether the exact pair (square, masked occupancy) is already cached.
    /// The occupancy is compared as stored: already masked and cropped.
    pub fn contains_entry(&self, square: u64, masked_board: u64) -> (r: bool)
        ensures
            r == self.has_key(square, masked_board),
    {
        let mut k: usize = 0;
        while k < self.entries.len()
            invariant
                k <= self.entries@.len(),
                forall|m: int|
                    0 <= m < k ==> !((#[trigger] self.entries@[m]).0 == square
                        && self.entries@[m].1 == masked_board),
            decreases self.entries@.len() - k,
        {
            let e: (u64, u64, u64) = self.entries[k];
            if e.0 == square && e.1 == masked_board {
                return true;
            }
            k = k + 1;
        }
        false
    }

    /// The reachable squares for `square` on `board`: answered from the
    /// cache when the reduced key is present, computed and inserted
    /// otherwise.  Either way the result is the pure function of the key, a
    /// present key leaves the map untouched, and a miss grows it by exactly
    /// one entry.
    pub fn get_value(&mut self, square: u64, board: u64) -> (r: u64)
        requires
            old(self).wf(),
            single_bit(square),
        ensures
            final(self).wf(),
            final(self).spec_shape() == old(self).spec_shape(),
            r == shape_open(
                old(self).spec_shape(),
                masked_key(old(self).spec_shape(), board, index_of(square)),
                index_of(square),
            ),
            final(self).has_key(
                square,
                masked_key(old(self).spec_shape(), board, index_of(square)),
            ),
            old(self).has_key(square, masked_key(old(self).spec_shape(), board, index_of(square)))
                ==> *final(self) == *old(self),
            !old(self).has_key(square, masked_key(old(self).spec_shape(), board, index_of(square)))
                ==> final(self).size() == old(self).size() + 1,
            forall|sq: u64, mb: u64| old(self).has_key(sq, mb) ==> final(self).has_key(sq, mb),
    {
        let ghost i: u64 = index_of(square);
        let mask: u64 = match self.shape {
            Shape::Cross => cross_mask_from_bit(square),
            Shape::Diagonal => diagonal_mask_from_bit(square),
            Shape::Knight => 0u64,
            Shape::King => 0u64,
        };
        proof {
            crate::bits::lemma_single(i, 0);
            if self.shape == Shape::Knight || self.shape == Shape::King {
                assert(board & 0u64 == 0) by (bit_vector);
            }
        }
        let mut b: u64 = board & mask;
        crop_board(&mut b, square);
        proof {
            assert(b == masked_key(self.shape, board, i));
        }
        let mut k: usize = 0;
        while k < self.entries.len()
            invariant
                *self == *old(self),
                old(self).wf(),
                single_bit(square),
                i == index_of(square),
                b == masked_key(old(self).spec_shape(), board, i),
                k <= self.entries@.len(),
                forall|m: int|
                    0 <= m < k ==> !((#[trigger] self.entries@[m]).0 == square
                        && self.entries@[m].1 == b),
            decreases self.entries@.len() - k,
        {
            let e: (u64, u64, u64) = self.entries[k];
            if e.0 == square && e.1 == b {
                proof {
                    crate::bits::lemma_index_of(i);
                }
                return e.2;
            }
            k = k + 1;
        }
        let open: u64 = match self.shape {
            Shape::Cross => crate::open_squares::cross(b, square),
            Shape::Diagonal => crate::open_squares::diagonal(b, square),
            Shape::Knight => crate::open_squares::L_shape(square),
            Shape::King => crate::open_squares::square_shape(square),
        };
        self.entries.push((square, b, open));
        proof {
            let n: int = self.entries@.len() - 1;
            assert(self.entries@[n].0 == square && self.entries@[n].1 == b);
            assert forall|sq: u64, mb: u64| old(self).has_key(sq, mb) implies self.has_key(
                sq,
                mb,
            ) by {
                let m: int = choose|m: int|
                    0 <= m < old(self).entries@.len() && (#[trigger] old(self).entries@[m]).0 == sq
                        && old(self).entries@[m].1 == mb;
                assert(self.entries@[m].0 == sq && self.entries@[m].1 == mb);
            }
        }
        open
    }
}

/// A fresh, empty move map for the given shape.
pub fn make_move_map(shape: Shape) -> (m: MoveMap)
    ensures
        m.wf(),
        m.size() == 0,
        m.spec_shape() == shape,
{
    MoveMap { shape, entries: Vec::new() }
}

} // verus!
