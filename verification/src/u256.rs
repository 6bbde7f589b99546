//! The 256-bit bitmap backing (`Bitmap::Index == u8`): a self-contained
//! two-limb integer.

use vstd::prelude::*;

use crate::bitmap::Bitmap;
use crate::count::{
    all_clear, count_true, is_highest, is_lowest, is_select, lemma_count_concat,
    lemma_count_take_subrange, lemma_count_zero,
};
use crate::word::{
    bit, le_bytes_spec, lemma_and, lemma_bytes_determine_width, lemma_ext, lemma_mask, lemma_not,
    lemma_zero_full, lemma_zero_iff, mask_spec, word_count, word_from_le, word_highest,
    word_lowest, word_mask, word_rank, word_select, word_seq, word_test, word_to_le, word_with,
    word_without,
};

verus! {

/// A 256-bit bitmap: bit `i` lives in `lo` for `i < 128`, else in `hi` at
/// `i - 128`.
#[derive(Clone, Copy, PartialEq, Eq, Hash, Debug, Structural)]
pub struct U256 {
    lo: u128,
    hi: u128,
}

impl Default for U256 {
    fn default() -> (r: Self)
        ensures
            r.bit_seq() == all_clear(256),
    {
        Self::zero()
    }
}

/// Position (`< 128`) of the `n`-th set bit of a `u128` limb. Precondition:
/// `n < limb.count_ones()`. Popcount-guided binary search, `O(log 128)`.
pub fn select_in_u128(limb: u128, n: u32) -> (r: usize)
    requires
        n < count_true(word_seq(limb, 128)),
    ensures
        is_select(word_seq(limb, 128), n as int, r as int),
{
    proof {
        lemma_zero_full();
    }
    match word_select(limb, n, 128) {
        Some(p) => p as usize,
        None => 0,
    }
}

/// Two-limb little-endian mask of bits `[0, k)` (`k <= 256`):
/// `(lo_mask, hi_mask)`.
pub fn low_mask(k: usize) -> (r: (u128, u128))
    requires
        k <= 256,
    ensures
        forall|j: int| #[trigger] bit(r.0, j) == (0 <= j < 128 && j < k),
        forall|j: int| #[trigger] bit(r.1, j) == (0 <= j && j + 128 < k),
{
    proof {
        lemma_zero_full();
    }
    if k == 0 {
        (0, 0)
    } else if k < 128 {
        (word_mask(k as u32), 0)
    } else if k == 128 {
        (!0, 0)
    } else if k < 256 {
        let m = word_mask((k - 128) as u32);
        assert forall|j: int| #[trigger] bit(m, j) == (0 <= j && j + 128 < k) by {}
        (!0, m)
    } else {
        (!0, !0)
    }
}

impl U256 {
    /// The low limb.
    pub closed spec fn lo_limb(self) -> u128 {
        self.lo
    }

    /// The high limb.
    pub closed spec fn hi_limb(self) -> u128 {
        self.hi
    }

    /// Splits a bit index `i` into `(limb_is_hi, bit_within_limb)`.
    pub fn split(i: u8) -> (r: (bool, u32))
        ensures
            r.0 == (i >= 128),
            r.1 == if i < 128 {
                i as int
            } else {
                i - 128
            },
    {
        if i < 128 {
            (false, i as u32)
        } else {
            (true, (i - 128) as u32)
        }
    }

    /// Builds a `U256` from its two little-endian 128-bit limbs.
    pub fn from_limbs(lo: u128, hi: u128) -> (r: Self)
        ensures
            r.lo_limb() == lo,
            r.hi_limb() == hi,
            r.bit_seq() == word_seq(lo, 128) + word_seq(hi, 128),
    {
        U256 { lo, hi }
    }
}

/// The width of the 256-bit backing, for use outside this module.
pub proof fn lemma_u256_width()
    ensures
        <U256 as Bitmap>::WIDTH == 256,
        <U256 as Bitmap>::BYTES == 32,
{
    assert(<U256 as Bitmap>::WIDTH == 256);
    assert(<U256 as Bitmap>::BYTES == 32);
}

impl Bitmap for U256 {
    type Index = u8;
    type Bytes = [u8; 32];
    const WIDTH: usize = 256;
    const BYTES: usize = 32;

    closed spec fn bit_seq(self) -> Seq<bool> {
        word_seq(self.lo, 128) + word_seq(self.hi, 128)
    }

    closed spec fn le_bytes(self) -> Seq<u8> {
        le_bytes_spec(self.lo, 16) + le_bytes_spec(self.hi, 16)
    }

    proof fn lemma_shape(self) {
        assert(<U256 as Bitmap>::WIDTH == 256);
        assert(<U256 as Bitmap>::BYTES == 32);
        crate::niche::lemma_u8_count();
        assert(le_bytes_spec(self.lo, 16).len() == 16);
        assert(le_bytes_spec(self.hi, 16).len() == 16);
        assert(self.le_bytes().len() == 32);
    }

    fn zero() -> U256 {
        let r = U256 { lo: 0, hi: 0 };
        proof {
            lemma_zero_full();
            assert(<U256 as Bitmap>::WIDTH == 256);
            assert(r.bit_seq() =~= all_clear(256));
        }
        r
    }

    proof fn lemma_bits_determine(a: Self, b: Self) {
        assert forall|j: int| 0 <= j < 128 implies #[trigger] bit(a.lo, j) == bit(b.lo, j) by {
            assert(a.bit_seq()[j] == b.bit_seq()[j]);
            assert(a.bit_seq()[j] == word_seq(a.lo, 128)[j]);
            assert(b.bit_seq()[j] == word_seq(b.lo, 128)[j]);
        }
        assert forall|j: int| 0 <= j < 128 implies #[trigger] bit(a.hi, j) == bit(b.hi, j) by {
            assert(a.bit_seq()[j + 128] == b.bit_seq()[j + 128]);
            assert(a.bit_seq()[j + 128] == word_seq(a.hi, 128)[j]);
            assert(b.bit_seq()[j + 128] == word_seq(b.hi, 128)[j]);
        }
        lemma_ext(a.lo, b.lo);
        lemma_ext(a.hi, b.hi);
    }

    proof fn lemma_bytes_determine(a: Self, b: Self) {
        assert(le_bytes_spec(a.lo, 16) =~= a.le_bytes().take(16));
        assert(le_bytes_spec(b.lo, 16) =~= b.le_bytes().take(16));
        assert(le_bytes_spec(a.hi, 16) =~= a.le_bytes().skip(16));
        assert(le_bytes_spec(b.hi, 16) =~= b.le_bytes().skip(16));
        lemma_bytes_determine_width(a.lo, b.lo, 16);
        lemma_bytes_determine_width(a.hi, b.hi, 16);
    }

    fn is_zero(self) -> bool {
        self.raw_is_zero()
    }

    fn count_ones(self) -> u32 {
        self.raw_popcount()
    }

    fn test(self, i: u8) -> bool {
        let (is_hi, b) = Self::split(i);
        let limb = if is_hi {
            self.hi
        } else {
            self.lo
        };
        word_test(limb, b)
    }

    fn with_bit(self, i: u8) -> U256 {
        let (is_hi, b) = Self::split(i);
        let r = if is_hi {
            U256 { lo: self.lo, hi: word_with(self.hi, b) }
        } else {
            U256 { lo: word_with(self.lo, b), hi: self.hi }
        };
        assert(r.bit_seq() =~= self.bit_seq().update(i as int, true));
        r
    }

    fn rank(self, i: u8) -> u32 {
        let (is_hi, b) = Self::split(i);
        let ghost s = self.bit_seq();
        let ghost sl = word_seq(self.lo, 128);
        let ghost sh = word_seq(self.hi, 128);
        if is_hi {
            let lo_count = word_count(self.lo);
            let hi_count = word_rank(self.hi, b);
            proof {
                assert(s.take(i as int) =~= sl + sh.take(b as int));
                lemma_count_concat(sl, sh.take(b as int));
                crate::count::lemma_count_le_len(sh.take(b as int));
            }
            lo_count + hi_count
        } else {
            proof {
                assert(s.take(i as int) =~= sl.take(b as int));
            }
            word_rank(self.lo, b)
        }
    }

    fn without_bit(self, i: u8) -> U256 {
        let (is_hi, b) = Self::split(i);
        let r = if is_hi {
            U256 { lo: self.lo, hi: word_without(self.hi, b) }
        } else {
            U256 { lo: word_without(self.lo, b), hi: self.hi }
        };
        assert(r.bit_seq() =~= self.bit_seq().update(i as int, false));
        r
    }

    fn raw_is_zero(self) -> bool {
        proof {
            lemma_count_concat(word_seq(self.lo, 128), word_seq(self.hi, 128));
            lemma_count_zero(word_seq(self.lo, 128));
            lemma_count_zero(word_seq(self.hi, 128));
            lemma_zero_iff(self.lo);
            lemma_zero_iff(self.hi);
            if count_true(word_seq(self.lo, 128)) == 0 {
                assert forall|j: int| !#[trigger] bit(self.lo, j) by {
                    if 0 <= j < 128 {
                        assert(word_seq(self.lo, 128)[j] == bit(self.lo, j));
                    }
                }
            }
            if count_true(word_seq(self.hi, 128)) == 0 {
                assert forall|j: int| !#[trigger] bit(self.hi, j) by {
                    if 0 <= j < 128 {
                        assert(word_seq(self.hi, 128)[j] == bit(self.hi, j));
                    }
                }
            }
        }
        self.lo == 0 && self.hi == 0
    }

    fn raw_popcount(self) -> u32 {
        proof {
            lemma_count_concat(word_seq(self.lo, 128), word_seq(self.hi, 128));
        }
        word_count(self.lo) + word_count(self.hi)
    }

    fn raw_lowest_pos(self) -> usize {
        proof {
            lemma_count_concat(word_seq(self.lo, 128), word_seq(self.hi, 128));
            lemma_count_zero(word_seq(self.hi, 128));
            lemma_zero_iff(self.lo);
            lemma_zero_iff(self.hi);
        }
        if self.lo != 0 {
            word_lowest(self.lo) as usize
        } else {
            proof {
                lemma_count_zero(word_seq(self.lo, 128));
                assert(self.hi != 0) by {
                    if self.hi == 0 {
                        assert forall|j: int| 0 <= j < 128 implies !#[trigger] word_seq(
                            self.hi,
                            128,
                        )[j] by {}
                    }
                }
            }
            128 + word_lowest(self.hi) as usize
        }
    }

    fn raw_highest_pos(self) -> usize {
        proof {
            lemma_count_concat(word_seq(self.lo, 128), word_seq(self.hi, 128));
            lemma_count_zero(word_seq(self.lo, 128));
            lemma_zero_iff(self.lo);
            lemma_zero_iff(self.hi);
        }
        if self.hi != 0 {
            128 + word_highest(self.hi) as usize
        } else {
            proof {
                assert(self.lo != 0) by {
                    if self.lo == 0 {
                        assert forall|j: int| 0 <= j < 128 implies !#[trigger] word_seq(
                            self.lo,
                            128,
                        )[j] by {}
                    }
                }
            }
            word_highest(self.lo) as usize
        }
    }

    fn raw_clear_lowest(self) -> U256 {
        if self.raw_is_zero() {
            proof {
                lemma_count_zero(self.bit_seq());
            }
            return self;
        }
        let p = self.raw_lowest_pos();
        let r = if p < 128 {
            U256 { lo: word_without(self.lo, p as u32), hi: self.hi }
        } else {
            U256 { lo: self.lo, hi: word_without(self.hi, (p - 128) as u32) }
        };
        proof {
            assert(r.bit_seq() =~= self.bit_seq().update(p as int, false));
            assert forall|q: int| is_lowest(self.bit_seq(), q) implies q == p by {
                if q < p {
                    assert(!self.bit_seq()[q]);
                }
                if p < q {
                    assert(!self.bit_seq()[p as int]);
                }
            }
        }
        r
    }

    fn raw_clear_highest(self) -> U256 {
        if self.raw_is_zero() {
            proof {
                lemma_count_zero(self.bit_seq());
            }
            return self;
        }
        let p = self.raw_highest_pos();
        let r = if p < 128 {
            U256 { lo: word_without(self.lo, p as u32), hi: self.hi }
        } else {
            U256 { lo: self.lo, hi: word_without(self.hi, (p - 128) as u32) }
        };
        proof {
            assert(r.bit_seq() =~= self.bit_seq().update(p as int, false));
            assert forall|q: int| is_highest(self.bit_seq(), q) implies q == p by {
                if q < p {
                    assert(!self.bit_seq()[q]);
                }
                if p < q {
                    assert(!self.bit_seq()[p as int]);
                }
            }
        }
        r
    }

    fn raw_select(self, n: u32) -> Option<usize> {
        let ghost s = self.bit_seq();
        let ghost sl = word_seq(self.lo, 128);
        let ghost sh = word_seq(self.hi, 128);
        proof {
            lemma_count_concat(sl, sh);
        }
        let lo_pop = word_count(self.lo);
        if n < lo_pop {
            let p = select_in_u128(self.lo, n);
            proof {
                assert(s.take(p as int) =~= sl.take(p as int));
            }
            Some(p)
        } else {
            let n_hi = n - lo_pop;
            if n_hi < word_count(self.hi) {
                let p = select_in_u128(self.hi, n_hi);
                proof {
                    assert(s.take(128 + p) =~= sl + sh.take(p as int));
                    lemma_count_concat(sl, sh.take(p as int));
                }
                Some(128 + p)
            } else {
                None
            }
        }
    }

    fn raw_nearest_clear_at_or_below(self, from: usize) -> Option<usize> {
        proof {
            assert(<U256 as Bitmap>::WIDTH == 256);
        }
        let (lo_mask, hi_mask) = low_mask(from + 1);
        let holes_lo = !self.lo & lo_mask;
        let holes_hi = !self.hi & hi_mask;
        proof {
            lemma_not(self.lo);
            lemma_not(self.hi);
            lemma_and(!self.lo, lo_mask);
            lemma_and(!self.hi, hi_mask);
            lemma_zero_iff(holes_lo);
            lemma_zero_iff(holes_hi);
        }
        if holes_hi != 0 {
            let p = word_highest(holes_hi);
            proof {
                assert forall|j: int| p + 129 <= j < from + 1 implies #[trigger] self.bit_seq()[j] by {
                    assert(!bit(holes_hi, j - 128));
                }
            }
            Some(128 + p as usize)
        } else if holes_lo != 0 {
            let p = word_highest(holes_lo);
            proof {
                assert forall|j: int| p + 1 <= j < from + 1 implies #[trigger] self.bit_seq()[j] by {
                    if j < 128 {
                        assert(!bit(holes_lo, j));
                    } else {
                        assert(!bit(holes_hi, j - 128));
                    }
                }
            }
            Some(p as usize)
        } else {
            proof {
                assert forall|j: int| 0 <= j <= from implies #[trigger] self.bit_seq()[j] by {
                    if j < 128 {
                        assert(!bit(holes_lo, j));
                    } else {
                        assert(!bit(holes_hi, j - 128));
                    }
                }
            }
            None
        }
    }

    fn raw_nearest_clear_in(self, from: usize, limit: usize) -> Option<usize> {
        proof {
            assert(<U256 as Bitmap>::WIDTH == 256);
        }
        let (l_lo, l_hi) = low_mask(limit);
        let (f_lo, f_hi) = low_mask(from);
        let holes_lo = !self.lo & l_lo & !f_lo;
        let holes_hi = !self.hi & l_hi & !f_hi;
        proof {
            lemma_not(self.lo);
            lemma_not(self.hi);
            lemma_not(f_lo);
            lemma_not(f_hi);
            lemma_and(!self.lo, l_lo);
            lemma_and(!self.hi, l_hi);
            lemma_and(!self.lo & l_lo, !f_lo);
            lemma_and(!self.hi & l_hi, !f_hi);
            lemma_zero_iff(holes_lo);
            lemma_zero_iff(holes_hi);
        }
        if holes_lo != 0 {
            let p = word_lowest(holes_lo);
            proof {
                assert forall|j: int| from <= j < p implies #[trigger] self.bit_seq()[j] by {
                    assert(!bit(holes_lo, j));
                }
            }
            Some(p as usize)
        } else if holes_hi != 0 {
            let p = word_lowest(holes_hi);
            proof {
                assert forall|j: int| from <= j < p + 128 implies #[trigger] self.bit_seq()[j] by {
                    if j < 128 {
                        assert(!bit(holes_lo, j));
                    } else {
                        assert(!bit(holes_hi, j - 128));
                    }
                }
            }
            Some(128 + p as usize)
        } else {
            proof {
                assert forall|j: int| from <= j < limit implies #[trigger] self.bit_seq()[j] by {
                    if j < 128 {
                        assert(!bit(holes_lo, j));
                    } else {
                        assert(!bit(holes_hi, j - 128));
                    }
                }
            }
            None
        }
    }

    fn to_bytes(self) -> [u8; 32] {
        let a = word_to_le(self.lo, 16);
        let b = word_to_le(self.hi, 16);
        let r = [
            a[0],
            a[1],
            a[2],
            a[3],
            a[4],
            a[5],
            a[6],
            a[7],
            a[8],
            a[9],
            a[10],
            a[11],
            a[12],
            a[13],
            a[14],
            a[15],
            b[0],
            b[1],
            b[2],
            b[3],
            b[4],
            b[5],
            b[6],
            b[7],
            b[8],
            b[9],
            b[10],
            b[11],
            b[12],
            b[13],
            b[14],
            b[15],
        ];
        assert(r@ =~= a@ + b@);
        r
    }

    fn from_bytes(bytes: [u8; 32]) -> U256 {
        let lo = word_from_le(bytes.as_slice(), 0, 16);
        let hi = word_from_le(bytes.as_slice(), 16, 16);
        let r = U256 { lo, hi };
        proof {
            assert(<U256 as Bitmap>::BYTES == 32);
            assert(r.le_bytes() =~= bytes@);
        }
        r
    }

    fn try_from_bytes(buf: &[u8]) -> Option<U256> {
        proof {
            assert(<U256 as Bitmap>::BYTES == 32);
        }
        if buf.len() != 32 {
            return None;
        }
        let lo = word_from_le(buf, 0, 16);
        let hi = word_from_le(buf, 16, 16);
        let r = U256 { lo, hi };
        proof {
            assert(r.le_bytes() =~= buf@);
        }
        Some(r)
    }
}

} // verus!
