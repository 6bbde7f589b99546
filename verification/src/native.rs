//! `Bitmap` impls for the native unsigned integers `u8`..`u128`, each handled
//! as a 128-bit word whose bits at and above its width are clear.

use vstd::prelude::*;

use crate::bitmap::Bitmap;
use crate::count::{all_clear, count_true, is_highest, is_lowest, lemma_count_zero};
use crate::niche::{U3, U4, U5, U6, U7};
use crate::word::{
    below_width, bit, le_bytes_spec, lemma_bytes_determine_width, lemma_ext_width, lemma_native,
    lemma_native_widths, lemma_width_view, lemma_zero_full, lemma_zero_iff, word_count,
    word_from_le, word_highest, word_lowest, word_nearest_clear_at_or_below,
    word_nearest_clear_in, word_rank, word_select, word_seq, word_test, word_to_le, word_with,
    word_without,
};

verus! {

/// The widths of the native backings, for use outside this module.
pub proof fn lemma_native_consts()
    ensures
        <u8 as Bitmap>::WIDTH == 8,
        <u16 as Bitmap>::WIDTH == 16,
        <u32 as Bitmap>::WIDTH == 32,
        <u64 as Bitmap>::WIDTH == 64,
        <u128 as Bitmap>::WIDTH == 128,
        <u8 as Bitmap>::BYTES == 1,
        <u16 as Bitmap>::BYTES == 2,
        <u32 as Bitmap>::BYTES == 4,
        <u64 as Bitmap>::BYTES == 8,
        <u128 as Bitmap>::BYTES == 16,
{
    assert(<u8 as Bitmap>::WIDTH == 8);
    assert(<u16 as Bitmap>::WIDTH == 16);
    assert(<u32 as Bitmap>::WIDTH == 32);
    assert(<u64 as Bitmap>::WIDTH == 64);
    assert(<u128 as Bitmap>::WIDTH == 128);
    assert(<u8 as Bitmap>::BYTES == 1);
    assert(<u16 as Bitmap>::BYTES == 2);
    assert(<u32 as Bitmap>::BYTES == 4);
    assert(<u64 as Bitmap>::BYTES == 8);
    assert(<u128 as Bitmap>::BYTES == 16);
}

impl Bitmap for u8 {
    type Index = U3;
    type Bytes = [u8; 1];
    const WIDTH: usize = 8;
    const BYTES: usize = 1;

    open spec fn bit_seq(self) -> Seq<bool> {
        word_seq(self as u128, 8)
    }

    open spec fn le_bytes(self) -> Seq<u8> {
        le_bytes_spec(self as u128, 1)
    }

    proof fn lemma_shape(self) {
        assert(<u8 as Bitmap>::WIDTH == 8);
        assert(<u8 as Bitmap>::BYTES == 1);
        assert(le_bytes_spec(self as u128, 1).len() == 1);
        assert(self.le_bytes().len() == 1);
        U3::lemma_count_value();
    }

    fn zero() -> u8 {
        proof {
            lemma_zero_full();
            assert(<u8 as Bitmap>::WIDTH == 8);
            assert(word_seq(0u128, 8) =~= all_clear(8));
        }
        0
    }

    proof fn lemma_bits_determine(a: Self, b: Self) {
        lemma_native(a as u128, 8);
        lemma_native(b as u128, 8);
        lemma_ext_width(a as u128, b as u128, 8);
    }

    proof fn lemma_bytes_determine(a: Self, b: Self) {
        lemma_native(a as u128, 8);
        lemma_native(b as u128, 8);
        lemma_bytes_determine_width(a as u128, b as u128, 1);
    }

    fn is_zero(self) -> bool {
        self.raw_is_zero()
    }

    fn count_ones(self) -> u32 {
        self.raw_popcount()
    }

    fn test(self, i: U3) -> bool {
        proof {
            i.lemma_val();
        }
        word_test(self as u128, i.as_u8() as u32)
    }

    fn with_bit(self, i: U3) -> u8 {
        proof {
            i.lemma_val();
            lemma_native(self as u128, 8);
        }
        let r = word_with(self as u128, i.as_u8() as u32);
        proof {
            assert(below_width(r, 8));
            lemma_native_widths();
            assert(word_seq(r, 8) =~= self.bit_seq().update(i.val() as int, true));
        }
        r as u8
    }

    fn rank(self, i: U3) -> u32 {
        proof {
            i.lemma_val();
            lemma_native(self as u128, 8);
            lemma_width_view(self as u128, 8);
            assert(word_seq(self as u128, 128).take(i.val() as int) == word_seq(
                self as u128,
                8,
            ).take(i.val() as int));
        }
        word_rank(self as u128, i.as_u8() as u32)
    }

    fn without_bit(self, i: U3) -> u8 {
        proof {
            i.lemma_val();
            lemma_native(self as u128, 8);
        }
        let r = word_without(self as u128, i.as_u8() as u32);
        proof {
            assert(word_seq(r, 8) =~= self.bit_seq().update(i.val() as int, false));
        }
        r as u8
    }

    fn raw_is_zero(self) -> bool {
        proof {
            lemma_native(self as u128, 8);
            lemma_zero_iff(self as u128);
            lemma_count_zero(self.bit_seq());
            if count_true(self.bit_seq()) == 0 {
                assert forall|j: int| #![trigger bit(self as u128, j)] !bit(self as u128, j) by {
                    if 0 <= j < 8 {
                        assert(self.bit_seq()[j] == bit(self as u128, j));
                    }
                }
            }
        }
        self == 0
    }

    fn raw_popcount(self) -> u32 {
        proof {
            lemma_native(self as u128, 8);
            lemma_width_view(self as u128, 8);
        }
        word_count(self as u128)
    }

    fn raw_lowest_pos(self) -> usize {
        proof {
            lemma_native(self as u128, 8);
            lemma_count_zero(self.bit_seq());
            lemma_zero_iff(self as u128);
        }
        word_lowest(self as u128) as usize
    }

    fn raw_highest_pos(self) -> usize {
        proof {
            lemma_native(self as u128, 8);
            lemma_count_zero(self.bit_seq());
            lemma_zero_iff(self as u128);
        }
        word_highest(self as u128) as usize
    }

    fn raw_clear_lowest(self) -> u8 {
        if self.raw_is_zero() {
            proof {
                lemma_count_zero(self.bit_seq());
            }
            return self;
        }
        let p = self.raw_lowest_pos();
        let r = word_without(self as u128, p as u32);
        proof {
            assert(word_seq(r, 8) =~= self.bit_seq().update(p as int, false));
            assert forall|q: int| is_lowest(self.bit_seq(), q) implies q == p by {
                if q < p {
                    assert(!self.bit_seq()[q]);
                }
                if p < q {
                    assert(!self.bit_seq()[p as int]);
                }
            }
        }
        r as u8
    }

    fn raw_clear_highest(self) -> u8 {
        if self.raw_is_zero() {
            proof {
                lemma_count_zero(self.bit_seq());
            }
            return self;
        }
        let p = self.raw_highest_pos();
        let r = word_without(self as u128, p as u32);
        proof {
            assert(word_seq(r, 8) =~= self.bit_seq().update(p as int, false));
            assert forall|q: int| is_highest(self.bit_seq(), q) implies q == p by {
                if q < p {
                    assert(!self.bit_seq()[q]);
                }
                if p < q {
                    assert(!self.bit_seq()[p as int]);
                }
            }
        }
        r as u8
    }

    fn raw_select(self, n: u32) -> Option<usize> {
        proof {
            lemma_native(self as u128, 8);
            lemma_width_view(self as u128, 8);
        }
        match word_select(self as u128, n, 8) {
            Some(p) => {
                proof {
                    assert(word_seq(self as u128, 128).take(p as int) == self.bit_seq().take(
                        p as int,
                    ));
                }
                Some(p as usize)
            },
            None => None,
        }
    }

    fn raw_nearest_clear_at_or_below(self, from: usize) -> Option<usize> {
        proof {
            assert(<u8 as Bitmap>::WIDTH == 8);
        }
        match word_nearest_clear_at_or_below(self as u128, from as u32) {
            Some(p) => Some(p as usize),
            None => None,
        }
    }

    fn raw_nearest_clear_in(self, from: usize, limit: usize) -> Option<usize> {
        proof {
            assert(<u8 as Bitmap>::WIDTH == 8);
        }
        match word_nearest_clear_in(self as u128, from as u32, limit as u32) {
            Some(p) => Some(p as usize),
            None => None,
        }
    }

    fn to_bytes(self) -> [u8; 1] {
        let v = word_to_le(self as u128, 1);
        let r = [v[0]];
        assert(r@ =~= v@);
        r
    }

    fn from_bytes(bytes: [u8; 1]) -> u8 {
        let r = word_from_le(bytes.as_slice(), 0, 1);
        proof {
            assert(<u8 as Bitmap>::BYTES == 1);
            lemma_native_widths();
            assert(bytes@.subrange(0, 1) =~= bytes@);
        }
        r as u8
    }

    fn try_from_bytes(buf: &[u8]) -> Option<u8> {
        proof {
            assert(<u8 as Bitmap>::BYTES == 1);
        }
        if buf.len() != 1 {
            return None;
        }
        let r = word_from_le(buf, 0, 1);
        proof {
            lemma_native_widths();
            assert(buf@.subrange(0, 1) =~= buf@);
        }
        Some(r as u8)
    }
}

impl Bitmap for u16 {
    type Index = U4;
    type Bytes = [u8; 2];
    const WIDTH: usize = 16;
    const BYTES: usize = 2;

    open spec fn bit_seq(self) -> Seq<bool> {
        word_seq(self as u128, 16)
    }

    open spec fn le_bytes(self) -> Seq<u8> {
        le_bytes_spec(self as u128, 2)
    }

    proof fn lemma_shape(self) {
        assert(<u16 as Bitmap>::WIDTH == 16);
        assert(<u16 as Bitmap>::BYTES == 2);
        assert(le_bytes_spec(self as u128, 2).len() == 2);
        assert(self.le_bytes().len() == 2);
        U4::lemma_count_value();
    }

    fn zero() -> u16 {
        proof {
            lemma_zero_full();
            assert(<u16 as Bitmap>::WIDTH == 16);
            assert(word_seq(0u128, 16) =~= all_clear(16));
        }
        0
    }

    proof fn lemma_bits_determine(a: Self, b: Self) {
        lemma_native(a as u128, 16);
        lemma_native(b as u128, 16);
        lemma_ext_width(a as u128, b as u128, 16);
    }

    proof fn lemma_bytes_determine(a: Self, b: Self) {
        lemma_native(a as u128, 16);
        lemma_native(b as u128, 16);
        lemma_bytes_determine_width(a as u128, b as u128, 2);
    }

    fn is_zero(self) -> bool {
        self.raw_is_zero()
    }

    fn count_ones(self) -> u32 {
        self.raw_popcount()
    }

    fn test(self, i: U4) -> bool {
        proof {
            i.lemma_val();
        }
        word_test(self as u128, i.as_u8() as u32)
    }

    fn with_bit(self, i: U4) -> u16 {
        proof {
            i.lemma_val();
            lemma_native(self as u128, 16);
        }
        let r = word_with(self as u128, i.as_u8() as u32);
        proof {
            assert(below_width(r, 16));
            lemma_native_widths();
            assert(word_seq(r, 16) =~= self.bit_seq().update(i.val() as int, true));
        }
        r as u16
    }

    fn rank(self, i: U4) -> u32 {
        proof {
            i.lemma_val();
            lemma_native(self as u128, 16);
            lemma_width_view(self as u128, 16);
            assert(word_seq(self as u128, 128).take(i.val() as int) == word_seq(
                self as u128,
                16,
            ).take(i.val() as int));
        }
        word_rank(self as u128, i.as_u8() as u32)
    }

    fn without_bit(self, i: U4) -> u16 {
        proof {
            i.lemma_val();
            lemma_native(self as u128, 16);
        }
        let r = word_without(self as u128, i.as_u8() as u32);
        proof {
            assert(word_seq(r, 16) =~= self.bit_seq().update(i.val() as int, false));
        }
        r as u16
    }

    fn raw_is_zero(self) -> bool {
        proof {
            lemma_native(self as u128, 16);
            lemma_zero_iff(self as u128);
            lemma_count_zero(self.bit_seq());
            if count_true(self.bit_seq()) == 0 {
                assert forall|j: int| #![trigger bit(self as u128, j)] !bit(self as u128, j) by {
                    if 0 <= j < 16 {
                        assert(self.bit_seq()[j] == bit(self as u128, j));
                    }
                }
            }
        }
        self == 0
    }

    fn raw_popcount(self) -> u32 {
        proof {
            lemma_native(self as u128, 16);
            lemma_width_view(self as u128, 16);
        }
        word_count(self as u128)
    }

    fn raw_lowest_pos(self) -> usize {
        proof {
            lemma_native(self as u128, 16);
            lemma_count_zero(self.bit_seq());
            lemma_zero_iff(self as u128);
        }
        word_lowest(self as u128) as usize
    }

    fn raw_highest_pos(self) -> usize {
        proof {
            lemma_native(self as u128, 16);
            lemma_count_zero(self.bit_seq());
            lemma_zero_iff(self as u128);
        }
        word_highest(self as u128) as usize
    }

    fn raw_clear_lowest(self) -> u16 {
        if self.raw_is_zero() {
            proof {
                lemma_count_zero(self.bit_seq());
            }
            return self;
        }
        let p = self.raw_lowest_pos();
        let r = word_without(self as u128, p as u32);
        proof {
            assert(word_seq(r, 16) =~= self.bit_seq().update(p as int, false));
            assert forall|q: int| is_lowest(self.bit_seq(), q) implies q == p by {
                if q < p {
                    assert(!self.bit_seq()[q]);
                }
                if p < q {
                    assert(!self.bit_seq()[p as int]);
                }
            }
        }
        r as u16
    }

    fn raw_clear_highest(self) -> u16 {
        if self.raw_is_zero() {
            proof {
                lemma_count_zero(self.bit_seq());
            }
            return self;
        }
        let p = self.raw_highest_pos();
        let r = word_without(self as u128, p as u32);
        proof {
            assert(word_seq(r, 16) =~= self.bit_seq().update(p as int, false));
            assert forall|q: int| is_highest(self.bit_seq(), q) implies q == p by {
                if q < p {
                    assert(!self.bit_seq()[q]);
                }
                if p < q {
                    assert(!self.bit_seq()[p as int]);
                }
            }
        }
        r as u16
    }

    fn raw_select(self, n: u32) -> Option<usize> {
        proof {
            lemma_native(self as u128, 16);
            lemma_width_view(self as u128, 16);
        }
        match word_select(self as u128, n, 16) {
            Some(p) => {
                proof {
                    assert(word_seq(self as u128, 128).take(p as int) == self.bit_seq().take(
                        p as int,
                    ));
                }
                Some(p as usize)
            },
            None => None,
        }
    }

    fn raw_nearest_clear_at_or_below(self, from: usize) -> Option<usize> {
        proof {
            assert(<u16 as Bitmap>::WIDTH == 16);
        }
        match word_nearest_clear_at_or_below(self as u128, from as u32) {
            Some(p) => Some(p as usize),
            None => None,
        }
    }

    fn raw_nearest_clear_in(self, from: usize, limit: usize) -> Option<usize> {
        proof {
            assert(<u16 as Bitmap>::WIDTH == 16);
        }
        match word_nearest_clear_in(self as u128, from as u32, limit as u32) {
            Some(p) => Some(p as usize),
            None => None,
        }
    }

    fn to_bytes(self) -> [u8; 2] {
        let v = word_to_le(self as u128, 2);
        let r = [v[0], v[1]];
        assert(r@ =~= v@);
        r
    }

    fn from_bytes(bytes: [u8; 2]) -> u16 {
        let r = word_from_le(bytes.as_slice(), 0, 2);
        proof {
            assert(<u16 as Bitmap>::BYTES == 2);
            lemma_native_widths();
            assert(bytes@.subrange(0, 2) =~= bytes@);
        }
        r as u16
    }

    fn try_from_bytes(buf: &[u8]) -> Option<u16> {
        proof {
            assert(<u16 as Bitmap>::BYTES == 2);
        }
        if buf.len() != 2 {
            return None;
        }
        let r = word_from_le(buf, 0, 2);
        proof {
            lemma_native_widths();
            assert(buf@.subrange(0, 2) =~= buf@);
        }
        Some(r as u16)
    }
}

impl Bitmap for u32 {
    type Index = U5;
    type Bytes = [u8; 4];
    const WIDTH: usize = 32;
    const BYTES: usize = 4;

    open spec fn bit_seq(self) -> Seq<bool> {
        word_seq(self as u128, 32)
    }

    open spec fn le_bytes(self) -> Seq<u8> {
        le_bytes_spec(self as u128, 4)
    }

    proof fn lemma_shape(self) {
        assert(<u32 as Bitmap>::WIDTH == 32);
        assert(<u32 as Bitmap>::BYTES == 4);
        assert(le_bytes_spec(self as u128, 4).len() == 4);
        assert(self.le_bytes().len() == 4);
        U5::lemma_count_value();
    }

    fn zero() -> u32 {
        proof {
            lemma_zero_full();
            assert(<u32 as Bitmap>::WIDTH == 32);
            assert(word_seq(0u128, 32) =~= all_clear(32));
        }
        0
    }

    proof fn lemma_bits_determine(a: Self, b: Self) {
        lemma_native(a as u128, 32);
        lemma_native(b as u128, 32);
        lemma_ext_width(a as u128, b as u128, 32);
    }

    proof fn lemma_bytes_determine(a: Self, b: Self) {
        lemma_native(a as u128, 32);
        lemma_native(b as u128, 32);
        lemma_bytes_determine_width(a as u128, b as u128, 4);
    }

    fn is_zero(self) -> bool {
        self.raw_is_zero()
    }

    fn count_ones(self) -> u32 {
        self.raw_popcount()
    }

    fn test(self, i: U5) -> bool {
        proof {
            i.lemma_val();
        }
        word_test(self as u128, i.as_u8() as u32)
    }

    fn with_bit(self, i: U5) -> u32 {
        proof {
            i.lemma_val();
            lemma_native(self as u128, 32);
        }
        let r = word_with(self as u128, i.as_u8() as u32);
        proof {
            assert(below_width(r, 32));
            lemma_native_widths();
            assert(word_seq(r, 32) =~= self.bit_seq().update(i.val() as int, true));
        }
        r as u32
    }

    fn rank(self, i: U5) -> u32 {
        proof {
            i.lemma_val();
            lemma_native(self as u128, 32);
            lemma_width_view(self as u128, 32);
            assert(word_seq(self as u128, 128).take(i.val() as int) == word_seq(
                self as u128,
                32,
            ).take(i.val() as int));
        }
        word_rank(self as u128, i.as_u8() as u32)
    }

    fn without_bit(self, i: U5) -> u32 {
        proof {
            i.lemma_val();
            lemma_native(self as u128, 32);
        }
        let r = word_without(self as u128, i.as_u8() as u32);
        proof {
            assert(word_seq(r, 32) =~= self.bit_seq().update(i.val() as int, false));
        }
        r as u32
    }

    fn raw_is_zero(self) -> bool {
        proof {
            lemma_native(self as u128, 32);
            lemma_zero_iff(self as u128);
            lemma_count_zero(self.bit_seq());
            if count_true(self.bit_seq()) == 0 {
                assert forall|j: int| #![trigger bit(self as u128, j)] !bit(self as u128, j) by {
                    if 0 <= j < 32 {
                        assert(self.bit_seq()[j] == bit(self as u128, j));
                    }
                }
            }
        }
        self == 0
    }

    fn raw_popcount(self) -> u32 {
        proof {
            lemma_native(self as u128, 32);
            lemma_width_view(self as u128, 32);
        }
        word_count(self as u128)
    }

    fn raw_lowest_pos(self) -> usize {
        proof {
            lemma_native(self as u128, 32);
            lemma_count_zero(self.bit_seq());
            lemma_zero_iff(self as u128);
        }
        word_lowest(self as u128) as usize
    }

    fn raw_highest_pos(self) -> usize {
        proof {
            lemma_native(self as u128, 32);
            lemma_count_zero(self.bit_seq());
            lemma_zero_iff(self as u128);
        }
        word_highest(self as u128) as usize
    }

    fn raw_clear_lowest(self) -> u32 {
        if self.raw_is_zero() {
            proof {
                lemma_count_zero(self.bit_seq());
            }
            return self;
        }
        let p = self.raw_lowest_pos();
        let r = word_without(self as u128, p as u32);
        proof {
            assert(word_seq(r, 32) =~= self.bit_seq().update(p as int, false));
            assert forall|q: int| is_lowest(self.bit_seq(), q) implies q == p by {
                if q < p {
                    assert(!self.bit_seq()[q]);
                }
                if p < q {
                    assert(!self.bit_seq()[p as int]);
                }
            }
        }
        r as u32
    }

    fn raw_clear_highest(self) -> u32 {
        if self.raw_is_zero() {
            proof {
                lemma_count_zero(self.bit_seq());
            }
            return self;
        }
        let p = self.raw_highest_pos();
        let r = word_without(self as u128, p as u32);
        proof {
            assert(word_seq(r, 32) =~= self.bit_seq().update(p as int, false));
            assert forall|q: int| is_highest(self.bit_seq(), q) implies q == p by {
                if q < p {
                    assert(!self.bit_seq()[q]);
                }
                if p < q {
                    assert(!self.bit_seq()[p as int]);
                }
            }
        }
        r as u32
    }

    fn raw_select(self, n: u32) -> Option<usize> {
        proof {
            lemma_native(self as u128, 32);
            lemma_width_view(self as u128, 32);
        }
        match word_select(self as u128, n, 32) {
            Some(p) => {
                proof {
                    assert(word_seq(self as u128, 128).take(p as int) == self.bit_seq().take(
                        p as int,
                    ));
                }
                Some(p as usize)
            },
            None => None,
        }
    }

    fn raw_nearest_clear_at_or_below(self, from: usize) -> Option<usize> {
        proof {
            assert(<u32 as Bitmap>::WIDTH == 32);
        }
        match word_nearest_clear_at_or_below(self as u128, from as u32) {
            Some(p) => Some(p as usize),
            None => None,
        }
    }

    fn raw_nearest_clear_in(self, from: usize, limit: usize) -> Option<usize> {
        proof {
            assert(<u32 as Bitmap>::WIDTH == 32);
        }
        match word_nearest_clear_in(self as u128, from as u32, limit as u32) {
            Some(p) => Some(p as usize),
            None => None,
        }
    }

    fn to_bytes(self) -> [u8; 4] {
        let v = word_to_le(self as u128, 4);
        let r = [v[0], v[1], v[2], v[3]];
        assert(r@ =~= v@);
        r
    }

    fn from_bytes(bytes: [u8; 4]) -> u32 {
        let r = word_from_le(bytes.as_slice(), 0, 4);
        proof {
            assert(<u32 as Bitmap>::BYTES == 4);
            lemma_native_widths();
            assert(bytes@.subrange(0, 4) =~= bytes@);
        }
        r as u32
    }

    fn try_from_bytes(buf: &[u8]) -> Option<u32> {
        proof {
            assert(<u32 as Bitmap>::BYTES == 4);
        }
        if buf.len() != 4 {
            return None;
        }
        let r = word_from_le(buf, 0, 4);
        proof {
            lemma_native_widths();
            assert(buf@.subrange(0, 4) =~= buf@);
        }
        Some(r as u32)
    }
}

impl Bitmap for u64 {
    type Index = U6;
    type Bytes = [u8; 8];
    const WIDTH: usize = 64;
    const BYTES: usize = 8;

    open spec fn bit_seq(self) -> Seq<bool> {
        word_seq(self as u128, 64)
    }

    open spec fn le_bytes(self) -> Seq<u8> {
        le_bytes_spec(self as u128, 8)
    }

    proof fn lemma_shape(self) {
        assert(<u64 as Bitmap>::WIDTH == 64);
        assert(<u64 as Bitmap>::BYTES == 8);
        assert(le_bytes_spec(self as u128, 8).len() == 8);
        assert(self.le_bytes().len() == 8);
        U6::lemma_count_value();
    }

    fn zero() -> u64 {
        proof {
            lemma_zero_full();
            assert(<u64 as Bitmap>::WIDTH == 64);
            assert(word_seq(0u128, 64) =~= all_clear(64));
        }
        0
    }

    proof fn lemma_bits_determine(a: Self, b: Self) {
        lemma_native(a as u128, 64);
        lemma_native(b as u128, 64);
        lemma_ext_width(a as u128, b as u128, 64);
    }

    proof fn lemma_bytes_determine(a: Self, b: Self) {
        lemma_native(a as u128, 64);
        lemma_native(b as u128, 64);
        lemma_bytes_determine_width(a as u128, b as u128, 8);
    }

    fn is_zero(self) -> bool {
        self.raw_is_zero()
    }

    fn count_ones(self) -> u32 {
        self.raw_popcount()
    }

    fn test(self, i: U6) -> bool {
        proof {
            i.lemma_val();
        }
        word_test(self as u128, i.as_u8() as u32)
    }

    fn with_bit(self, i: U6) -> u64 {
        proof {
            i.lemma_val();
            lemma_native(self as u128, 64);
        }
        let r = word_with(self as u128, i.as_u8() as u32);
        proof {
            assert(below_width(r, 64));
            lemma_native_widths();
            assert(word_seq(r, 64) =~= self.bit_seq().update(i.val() as int, true));
        }
        r as u64
    }

    fn rank(self, i: U6) -> u32 {
        proof {
            i.lemma_val();
            lemma_native(self as u128, 64);
            lemma_width_view(self as u128, 64);
            assert(word_seq(self as u128, 128).take(i.val() as int) == word_seq(
                self as u128,
                64,
            ).take(i.val() as int));
        }
        word_rank(self as u128, i.as_u8() as u32)
    }

    fn without_bit(self, i: U6) -> u64 {
        proof {
            i.lemma_val();
            lemma_native(self as u128, 64);
        }
        let r = word_without(self as u128, i.as_u8() as u32);
        proof {
            assert(word_seq(r, 64) =~= self.bit_seq().update(i.val() as int, false));
        }
        r as u64
    }

    fn raw_is_zero(self) -> bool {
        proof {
            lemma_native(self as u128, 64);
            lemma_zero_iff(self as u128);
            lemma_count_zero(self.bit_seq());
            if count_true(self.bit_seq()) == 0 {
                assert forall|j: int| #![trigger bit(self as u128, j)] !bit(self as u128, j) by {
                    if 0 <= j < 64 {
                        assert(self.bit_seq()[j] == bit(self as u128, j));
                    }
                }
            }
        }
        self == 0
    }

    fn raw_popcount(self) -> u32 {
        proof {
            lemma_native(self as u128, 64);
            lemma_width_view(self as u128, 64);
        }
        word_count(self as u128)
    }

    fn raw_lowest_pos(self) -> usize {
        proof {
            lemma_native(self as u128, 64);
            lemma_count_zero(self.bit_seq());
            lemma_zero_iff(self as u128);
        }
        word_lowest(self as u128) as usize
    }

    fn raw_highest_pos(self) -> usize {
        proof {
            lemma_native(self as u128, 64);
            lemma_count_zero(self.bit_seq());
            lemma_zero_iff(self as u128);
        }
        word_highest(self as u128) as usize
    }

    fn raw_clear_lowest(self) -> u64 {
        if self.raw_is_zero() {
            proof {
                lemma_count_zero(self.bit_seq());
            }
            return self;
        }
        let p = self.raw_lowest_pos();
        let r = word_without(self as u128, p as u32);
        proof {
            assert(word_seq(r, 64) =~= self.bit_seq().update(p as int, false));
            assert forall|q: int| is_lowest(self.bit_seq(), q) implies q == p by {
                if q < p {
                    assert(!self.bit_seq()[q]);
                }
                if p < q {
                    assert(!self.bit_seq()[p as int]);
                }
            }
        }
        r as u64
    }

    fn raw_clear_highest(self) -> u64 {
        if self.raw_is_zero() {
            proof {
                lemma_count_zero(self.bit_seq());
            }
            return self;
        }
        let p = self.raw_highest_pos();
        let r = word_without(self as u128, p as u32);
        proof {
            assert(word_seq(r, 64) =~= self.bit_seq().update(p as int, false));
            assert forall|q: int| is_highest(self.bit_seq(), q) implies q == p by {
                if q < p {
                    assert(!self.bit_seq()[q]);
                }
                if p < q {
                    assert(!self.bit_seq()[p as int]);
                }
            }
        }
        r as u64
    }

    fn raw_select(self, n: u32) -> Option<usize> {
        proof {
            lemma_native(self as u128, 64);
            lemma_width_view(self as u128, 64);
        }
        match word_select(self as u128, n, 64) {
            Some(p) => {
                proof {
                    assert(word_seq(self as u128, 128).take(p as int) == self.bit_seq().take(
                        p as int,
                    ));
                }
                Some(p as usize)
            },
            None => None,
        }
    }

    fn raw_nearest_clear_at_or_below(self, from: usize) -> Option<usize> {
        proof {
            assert(<u64 as Bitmap>::WIDTH == 64);
        }
        match word_nearest_clear_at_or_below(self as u128, from as u32) {
            Some(p) => Some(p as usize),
            None => None,
        }
    }

    fn raw_nearest_clear_in(self, from: usize, limit: usize) -> Option<usize> {
        proof {
            assert(<u64 as Bitmap>::WIDTH == 64);
        }
        match word_nearest_clear_in(self as u128, from as u32, limit as u32) {
            Some(p) => Some(p as usize),
            None => None,
        }
    }

    fn to_bytes(self) -> [u8; 8] {
        let v = word_to_le(self as u128, 8);
        let r = [v[0], v[1], v[2], v[3], v[4], v[5], v[6], v[7]];
        assert(r@ =~= v@);
        r
    }

    fn from_bytes(bytes: [u8; 8]) -> u64 {
        let r = word_from_le(bytes.as_slice(), 0, 8);
        proof {
            assert(<u64 as Bitmap>::BYTES == 8);
            lemma_native_widths();
            assert(bytes@.subrange(0, 8) =~= bytes@);
        }
        r as u64
    }

    fn try_from_bytes(buf: &[u8]) -> Option<u64> {
        proof {
            assert(<u64 as Bitmap>::BYTES == 8);
        }
        if buf.len() != 8 {
            return None;
        }
        let r = word_from_le(buf, 0, 8);
        proof {
            lemma_native_widths();
            assert(buf@.subrange(0, 8) =~= buf@);
        }
        Some(r as u64)
    }
}

impl Bitmap for u128 {
    type Index = U7;
    type Bytes = [u8; 16];
    const WIDTH: usize = 128;
    const BYTES: usize = 16;

    open spec fn bit_seq(self) -> Seq<bool> {
        word_seq(self as u128, 128)
    }

    open spec fn le_bytes(self) -> Seq<u8> {
        le_bytes_spec(self as u128, 16)
    }

    proof fn lemma_shape(self) {
        assert(<u128 as Bitmap>::WIDTH == 128);
        assert(<u128 as Bitmap>::BYTES == 16);
        assert(le_bytes_spec(self as u128, 16).len() == 16);
        assert(self.le_bytes().len() == 16);
        U7::lemma_count_value();
    }

    fn zero() -> u128 {
        proof {
            lemma_zero_full();
            assert(<u128 as Bitmap>::WIDTH == 128);
            assert(word_seq(0u128, 128) =~= all_clear(128));
        }
        0
    }

    proof fn lemma_bits_determine(a: Self, b: Self) {
        lemma_native(a as u128, 128);
        lemma_native(b as u128, 128);
        lemma_ext_width(a as u128, b as u128, 128);
    }

    proof fn lemma_bytes_determine(a: Self, b: Self) {
        lemma_native(a as u128, 128);
        lemma_native(b as u128, 128);
        lemma_bytes_determine_width(a as u128, b as u128, 16);
    }

    fn is_zero(self) -> bool {
        self.raw_is_zero()
    }

    fn count_ones(self) -> u32 {
        self.raw_popcount()
    }

    fn test(self, i: U7) -> bool {
        proof {
            i.lemma_val();
        }
        word_test(self as u128, i.as_u8() as u32)
    }

    fn with_bit(self, i: U7) -> u128 {
        proof {
            i.lemma_val();
            lemma_native(self as u128, 128);
        }
        let r = word_with(self as u128, i.as_u8() as u32);
        proof {
            assert(below_width(r, 128));
            lemma_native_widths();
            assert(word_seq(r, 128) =~= self.bit_seq().update(i.val() as int, true));
        }
        r as u128
    }

    fn rank(self, i: U7) -> u32 {
        proof {
            i.lemma_val();
            lemma_native(self as u128, 128);
            lemma_width_view(self as u128, 128);
            assert(word_seq(self as u128, 128).take(i.val() as int) == word_seq(
                self as u128,
                128,
            ).take(i.val() as int));
        }
        word_rank(self as u128, i.as_u8() as u32)
    }

    fn without_bit(self, i: U7) -> u128 {
        proof {
            i.lemma_val();
            lemma_native(self as u128, 128);
        }
        let r = word_without(self as u128, i.as_u8() as u32);
        proof {
            assert(word_seq(r, 128) =~= self.bit_seq().update(i.val() as int, false));
        }
        r as u128
    }

    fn raw_is_zero(self) -> bool {
        proof {
            lemma_native(self as u128, 128);
            lemma_zero_iff(self as u128);
            lemma_count_zero(self.bit_seq());
            if count_true(self.bit_seq()) == 0 {
                assert forall|j: int| #![trigger bit(self as u128, j)] !bit(self as u128, j) by {
                    if 0 <= j < 128 {
                        assert(self.bit_seq()[j] == bit(self as u128, j));
                    }
                }
            }
        }
        self == 0
    }

    fn raw_popcount(self) -> u32 {
        proof {
            lemma_native(self as u128, 128);
            lemma_width_view(self as u128, 128);
        }
        word_count(self as u128)
    }

    fn raw_lowest_pos(self) -> usize {
        proof {
            lemma_native(self as u128, 128);
            lemma_count_zero(self.bit_seq());
            lemma_zero_iff(self as u128);
        }
        word_lowest(self as u128) as usize
    }

    fn raw_highest_pos(self) -> usize {
        proof {
            lemma_native(self as u128, 128);
            lemma_count_zero(self.bit_seq());
            lemma_zero_iff(self as u128);
        }
        word_highest(self as u128) as usize
    }

    fn raw_clear_lowest(self) -> u128 {
        if self.raw_is_zero() {
            proof {
                lemma_count_zero(self.bit_seq());
            }
            return self;
        }
        let p = self.raw_lowest_pos();
        let r = word_without(self as u128, p as u32);
        proof {
            assert(word_seq(r, 128) =~= self.bit_seq().update(p as int, false));
            assert forall|q: int| is_lowest(self.bit_seq(), q) implies q == p by {
                if q < p {
                    assert(!self.bit_seq()[q]);
                }
                if p < q {
                    assert(!self.bit_seq()[p as int]);
                }
            }
        }
        r as u128
    }

    fn raw_clear_highest(self) -> u128 {
        if self.raw_is_zero() {
            proof {
                lemma_count_zero(self.bit_seq());
            }
            return self;
        }
        let p = self.raw_highest_pos();
        let r = word_without(self as u128, p as u32);
        proof {
            assert(word_seq(r, 128) =~= self.bit_seq().update(p as int, false));
            assert forall|q: int| is_highest(self.bit_seq(), q) implies q == p by {
                if q < p {
                    assert(!self.bit_seq()[q]);
                }
                if p < q {
                    assert(!self.bit_seq()[p as int]);
                }
            }
        }
        r as u128
    }

    fn raw_select(self, n: u32) -> Option<usize> {
        proof {
            lemma_native(self as u128, 128);
            lemma_width_view(self as u128, 128);
        }
        match word_select(self as u128, n, 128) {
            Some(p) => {
                proof {
                    assert(word_seq(self as u128, 128).take(p as int) == self.bit_seq().take(
                        p as int,
                    ));
                }
                Some(p as usize)
            },
            None => None,
        }
    }

    fn raw_nearest_clear_at_or_below(self, from: usize) -> Option<usize> {
        proof {
            assert(<u128 as Bitmap>::WIDTH == 128);
        }
        match word_nearest_clear_at_or_below(self as u128, from as u32) {
            Some(p) => Some(p as usize),
            None => None,
        }
    }

    fn raw_nearest_clear_in(self, from: usize, limit: usize) -> Option<usize> {
        proof {
            assert(<u128 as Bitmap>::WIDTH == 128);
        }
        match word_nearest_clear_in(self as u128, from as u32, limit as u32) {
            Some(p) => Some(p as usize),
            None => None,
        }
    }

    fn to_bytes(self) -> [u8; 16] {
        let v = word_to_le(self as u128, 16);
        let r = [v[0], v[1], v[2], v[3], v[4], v[5], v[6], v[7], v[8], v[9], v[10], v[11], v[12], v[13], v[14], v[15]];
        assert(r@ =~= v@);
        r
    }

    fn from_bytes(bytes: [u8; 16]) -> u128 {
        let r = word_from_le(bytes.as_slice(), 0, 16);
        proof {
            assert(<u128 as Bitmap>::BYTES == 16);
            lemma_native_widths();
            assert(bytes@.subrange(0, 16) =~= bytes@);
        }
        r as u128
    }

    fn try_from_bytes(buf: &[u8]) -> Option<u128> {
        proof {
            assert(<u128 as Bitmap>::BYTES == 16);
        }
        if buf.len() != 16 {
            return None;
        }
        let r = word_from_le(buf, 0, 16);
        proof {
            lemma_native_widths();
            assert(buf@.subrange(0, 16) =~= buf@);
        }
        Some(r as u128)
    }
}

} // verus!
