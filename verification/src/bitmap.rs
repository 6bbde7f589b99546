//! Fixed-width bitmaps indexed by niche integers, with a double-ended
//! iterator over the set bits.
//!
//! The [`Bitmap`] trait is implemented for `u8`, `u16`, `u32`, `u64`, `u128`
//! (indexed by `U3`–`U7`) and the 256-bit [`U256`](crate::u256::U256)
//! (indexed by `u8`). A bitmap is modelled as the sequence of its bits, least
//! significant first.

use vstd::prelude::*;

use crate::count::{
    all_clear, count_true, is_clear_at_or_below, is_clear_in, is_highest, is_lowest, is_select,
};
use crate::niche::Niche;

verus! {

/// A fixed-width bitmap addressed by a [`Niche`] index type.
pub trait Bitmap: Copy + Eq + core::fmt::Debug + core::hash::Hash + Sized {
    /// The niche index type; `Index::COUNT == WIDTH`.
    type Index: Niche;
    /// The little-endian byte form (`[u8; BYTES]`).
    type Bytes: View<V = Seq<u8>>;
    /// The number of bits (`8`, `16`, `32`, `64`, `128`, or `256`).
    const WIDTH: usize;
    /// The number of bytes in the little-endian byte form (`WIDTH / 8`).
    const BYTES: usize;

    /// The bits, least significant first; the length is `WIDTH`.
    spec fn bit_seq(self) -> Seq<bool>;

    /// The little-endian byte encoding.
    spec fn le_bytes(self) -> Seq<u8>;

    /// The shape facts every bitmap satisfies.
    proof fn lemma_shape(self)
        ensures
            self.bit_seq().len() == Self::WIDTH,
            self.le_bytes().len() == Self::BYTES,
            Self::WIDTH == <Self::Index as Niche>::COUNT,
            Self::BYTES * 8 == Self::WIDTH,
            8 <= Self::WIDTH <= 256,
    ;

    /// The empty bitmap.
    fn zero() -> (r: Self)
        ensures
            r.bit_seq() == all_clear(Self::WIDTH as nat),
    ;

    /// A bitmap is determined by its bits.
    proof fn lemma_bits_determine(a: Self, b: Self)
        requires
            a.bit_seq() == b.bit_seq(),
        ensures
            a == b,
    ;

    /// A bitmap is determined by its byte encoding.
    proof fn lemma_bytes_determine(a: Self, b: Self)
        requires
            a.le_bytes() == b.le_bytes(),
        ensures
            a == b,
    ;

    /// Returns `true` if no bit is set.
    fn is_zero(self) -> (r: bool)
        ensures
            r == (count_true(self.bit_seq()) == 0),
    ;

    /// Returns the number of set bits.
    fn count_ones(self) -> (r: u32)
        ensures
            r == count_true(self.bit_seq()),
    ;

    /// Returns `true` if the bit at `i` is set.
    fn test(self, i: Self::Index) -> (r: bool)
        ensures
            r == self.bit_seq()[i.value() as int],
    ;

    /// Returns `self` with the bit at `i` set.
    fn with_bit(self, i: Self::Index) -> (r: Self)
        ensures
            r.bit_seq() == self.bit_seq().update(i.value() as int, true),
    ;

    /// Returns the number of set bits strictly below `i` (the dense rank of
    /// `i`).
    fn rank(self, i: Self::Index) -> (r: u32)
        ensures
            r == count_true(self.bit_seq().take(i.value() as int)),
    ;

    /// Returns `self` with the bit at `i` cleared. Clearing an unset bit is a
    /// no-op.
    fn without_bit(self, i: Self::Index) -> (r: Self)
        ensures
            r.bit_seq() == self.bit_seq().update(i.value() as int, false),
    ;

    /// Returns `true` if no bit is set.
    fn raw_is_zero(self) -> (r: bool)
        ensures
            r == (count_true(self.bit_seq()) == 0),
    ;

    /// Returns the number of set bits.
    fn raw_popcount(self) -> (r: u32)
        ensures
            r == count_true(self.bit_seq()),
    ;

    /// The position of the lowest set bit; the bitmap must be non-zero.
    fn raw_lowest_pos(self) -> (r: usize)
        requires
            count_true(self.bit_seq()) > 0,
        ensures
            is_lowest(self.bit_seq(), r as int),
    ;

    /// The position of the highest set bit; the bitmap must be non-zero.
    fn raw_highest_pos(self) -> (r: usize)
        requires
            count_true(self.bit_seq()) > 0,
        ensures
            is_highest(self.bit_seq(), r as int),
    ;

    /// `self` with its lowest set bit cleared; zero stays zero.
    fn raw_clear_lowest(self) -> (r: Self)
        ensures
            count_true(self.bit_seq()) == 0 ==> r == self,
            forall|p: int|
                is_lowest(self.bit_seq(), p) ==> r.bit_seq() == #[trigger] self.bit_seq().update(
                    p,
                    false,
                ),
    ;

    /// `self` with its highest set bit cleared; zero stays zero.
    fn raw_clear_highest(self) -> (r: Self)
        ensures
            count_true(self.bit_seq()) == 0 ==> r == self,
            forall|p: int|
                is_highest(self.bit_seq(), p) ==> r.bit_seq() == #[trigger] self.bit_seq().update(
                    p,
                    false,
                ),
    ;

    /// The position (`< WIDTH`) of the `n`-th set bit (0-based), or `None` if
    /// `n >= raw_popcount()`.
    fn raw_select(self, n: u32) -> (r: Option<usize>)
        ensures
            match r {
                Some(p) => is_select(self.bit_seq(), n as int, p as int),
                None => n >= count_true(self.bit_seq()),
            },
    ;

    /// The position of the greatest clear bit at or below `from`, or `None` if
    /// bits `0..=from` are all set.
    fn raw_nearest_clear_at_or_below(self, from: usize) -> (r: Option<usize>)
        requires
            from < Self::WIDTH,
        ensures
            match r {
                Some(p) => is_clear_at_or_below(self.bit_seq(), from as int, p as int),
                None => forall|j: int| 0 <= j <= from ==> #[trigger] self.bit_seq()[j],
            },
    ;

    /// The position of the least clear bit in `[from, limit)`, or `None` if that
    /// range is fully set.
    fn raw_nearest_clear_in(self, from: usize, limit: usize) -> (r: Option<usize>)
        requires
            from <= limit <= Self::WIDTH,
        ensures
            match r {
                Some(p) => is_clear_in(self.bit_seq(), from as int, limit as int, p as int),
                None => forall|j: int| from <= j < limit ==> #[trigger] self.bit_seq()[j],
            },
    ;

    /// Returns the index of the `n`-th set bit (0-based), or `None` if
    /// `n >= count_ones()`. The inverse of [`rank`](Bitmap::rank).
    fn select(self, n: u32) -> (r: Option<Self::Index>)
        ensures
            match r {
                Some(i) => is_select(self.bit_seq(), n as int, i.value() as int),
                None => n >= count_true(self.bit_seq()),
            },
    {
        proof {
            self.lemma_shape();
        }
        match self.raw_select(n) {
            None => None,
            Some(pos) => Self::Index::try_from_usize(pos),
        }
    }

    /// Returns the index of the greatest clear bit at or below `from`, or
    /// `None` if every bit in `0..=from` is set. `from` must be `< WIDTH`.
    fn nearest_clear_at_or_below(self, from: usize) -> (r: Option<Self::Index>)
        requires
            from < Self::WIDTH,
        ensures
            match r {
                Some(i) => is_clear_at_or_below(self.bit_seq(), from as int, i.value() as int),
                None => forall|j: int| 0 <= j <= from ==> #[trigger] self.bit_seq()[j],
            },
    {
        proof {
            self.lemma_shape();
        }
        match self.raw_nearest_clear_at_or_below(from) {
            None => None,
            Some(pos) => Self::Index::try_from_usize(pos),
        }
    }

    /// Returns the index of the least clear bit in `[from, limit)`, or `None`
    /// if that range is fully set. Requires `from <= limit <= WIDTH`.
    fn nearest_clear_in(self, from: usize, limit: usize) -> (r: Option<Self::Index>)
        requires
            from <= limit <= Self::WIDTH,
        ensures
            match r {
                Some(i) => is_clear_in(self.bit_seq(), from as int, limit as int, i.value() as int),
                None => forall|j: int| from <= j < limit ==> #[trigger] self.bit_seq()[j],
            },
    {
        proof {
            self.lemma_shape();
        }
        match self.raw_nearest_clear_in(from, limit) {
            None => None,
            Some(pos) => Self::Index::try_from_usize(pos),
        }
    }

    /// Returns the bitmap's little-endian byte encoding.
    fn to_bytes(self) -> (r: Self::Bytes)
        ensures
            r@ == self.le_bytes(),
    ;

    /// Reconstructs a bitmap from its little-endian byte encoding.
    fn from_bytes(bytes: Self::Bytes) -> (r: Self)
        ensures
            bytes@.len() == Self::BYTES ==> r.le_bytes() == bytes@,
    ;

    /// Reconstructs a bitmap from a little-endian byte slice, returning `None`
    /// unless `buf.len()` equals [`BYTES`](Bitmap::BYTES).
    fn try_from_bytes(buf: &[u8]) -> (r: Option<Self>)
        ensures
            r is Some <==> buf@.len() == Self::BYTES,
            r matches Some(x) ==> x.le_bytes() == buf@,
    ;
}

/// Yields the set bits of a bitmap, ascending, as the bitmap's [`Niche`]
/// index. Holds a `Copy` snapshot of the bitmap and drains it from both ends.
#[derive(Clone, Copy, Debug)]
pub struct BitIter<B: Bitmap> {
    remaining: B,
}

impl<B: Bitmap> BitIter<B> {
    /// The bits still to be yielded.
    pub closed spec fn remaining(&self) -> Seq<bool> {
        self.remaining.bit_seq()
    }

    /// An iterator over the set bits of `remaining`.
    pub fn new(remaining: B) -> (r: Self)
        ensures
            r.remaining() == remaining.bit_seq(),
    {
        BitIter { remaining }
    }

    /// Yields the lowest remaining set bit.
    pub fn next(&mut self) -> (r: Option<B::Index>)
        ensures
            count_true(old(self).remaining()) == 0 ==> r is None && final(self).remaining() == old(
                self,
            ).remaining(),
            count_true(old(self).remaining()) > 0 ==> (r matches Some(i) && is_lowest(
                old(self).remaining(),
                i.value() as int,
            ) && final(self).remaining() == old(self).remaining().update(i.value() as int, false)),
    {
        if self.remaining.raw_is_zero() {
            return None;
        }
        let pos = self.remaining.raw_lowest_pos();
        let ghost before = self.remaining;
        self.remaining = self.remaining.raw_clear_lowest();
        proof {
            before.lemma_shape();
            assert(self.remaining.bit_seq() == before.bit_seq().update(pos as int, false));
        }
        B::Index::try_from_usize(pos)
    }

    /// Yields the highest remaining set bit.
    pub fn next_back(&mut self) -> (r: Option<B::Index>)
        ensures
            count_true(old(self).remaining()) == 0 ==> r is None && final(self).remaining() == old(
                self,
            ).remaining(),
            count_true(old(self).remaining()) > 0 ==> (r matches Some(i) && is_highest(
                old(self).remaining(),
                i.value() as int,
            ) && final(self).remaining() == old(self).remaining().update(i.value() as int, false)),
    {
        if self.remaining.raw_is_zero() {
            return None;
        }
        let pos = self.remaining.raw_highest_pos();
        let ghost before = self.remaining;
        self.remaining = self.remaining.raw_clear_highest();
        proof {
            before.lemma_shape();
            assert(self.remaining.bit_seq() == before.bit_seq().update(pos as int, false));
        }
        B::Index::try_from_usize(pos)
    }

    /// The number of set bits still to be yielded.
    pub fn len(&self) -> (r: usize)
        ensures
            r == count_true(self.remaining()),
    {
        self.remaining.raw_popcount() as usize
    }
}

/// Iteration over the set bits of any bitmap.
pub trait Bits: Bitmap {
    /// Iterates over the set bits, ascending, as a double-ended iterator.
    fn bits(self) -> (r: BitIter<Self>)
        ensures
            r.remaining() == self.bit_seq(),
    ;
}

impl<B: Bitmap> Bits for B {
    fn bits(self) -> (r: BitIter<Self>) {
        BitIter::new(self)
    }
}

} // verus!
