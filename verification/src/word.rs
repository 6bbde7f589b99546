//! Bit-level facts about 128-bit words, and the word operations every bitmap
//! width is built on. A narrower word (`u8` … `u64`) is handled as a `u128`
//! whose bits at and above its width are clear.

use vstd::prelude::*;

use crate::count::{
    count_true, lemma_count_clear_tail, lemma_count_ext, lemma_count_take_subrange,
    lemma_count_zero, lemma_count_take_step,
};

verus! {

/// Bit `i` of `x`, for a shift amount given as a word.
pub open spec fn bit_at(x: u128, i: u128) -> bool {
    (x >> i) & 1u128 == 1u128
}

/// Bit `i` of `x`; every position outside `0..128` is clear.
pub open spec fn bit(x: u128, i: int) -> bool {
    0 <= i < 128 && bit_at(x, i as u128)
}

/// The low `w` bits of `x`, least significant first.
pub open spec fn word_seq(x: u128, w: nat) -> Seq<bool> {
    Seq::new(w, |i: int| bit(x, i))
}

/// The mask of bits `[0, k)`, for `k <= 128`.
pub open spec fn mask_spec(k: u128) -> u128 {
    if k >= 128 {
        !0u128
    } else {
        ((1u128 << k) - 1) as u128
    }
}

/// Byte `k` (little-endian) of `x`.
pub open spec fn byte_of(x: u128, k: int) -> u8 {
    ((x >> ((8 * k) as u128)) & 0xffu128) as u8
}

/// The first `n` little-endian bytes of `x`.
pub open spec fn le_bytes_spec(x: u128, n: nat) -> Seq<u8> {
    Seq::new(n, |k: int| byte_of(x, k))
}

/// The value `2^w` as a word bound, for `w < 128`.
pub open spec fn below_width(x: u128, w: u128) -> bool {
    w >= 128 || x < (1u128 << w)
}

proof fn bv_single(i: u128, j: u128)
    by (bit_vector)
    requires
        i < 128,
        j < 128,
    ensures
        bit_at(1u128 << i, j) == (i == j),
{
}

proof fn bv_or(a: u128, b: u128, j: u128)
    by (bit_vector)
    ensures
        bit_at(a | b, j) == (bit_at(a, j) || bit_at(b, j)),
{
}

proof fn bv_and(a: u128, b: u128, j: u128)
    by (bit_vector)
    ensures
        bit_at(a & b, j) == (bit_at(a, j) && bit_at(b, j)),
{
}

proof fn bv_not(a: u128, j: u128)
    by (bit_vector)
    requires
        j < 128,
    ensures
        bit_at(!a, j) == !bit_at(a, j),
{
}

proof fn bv_mask(k: u128, j: u128)
    by (bit_vector)
    requires
        k < 128,
        j < 128,
    ensures
        bit_at(((1u128 << k) - 1) as u128, j) == (j < k),
        (1u128 << k) >= 1,
{
}

proof fn bv_full(j: u128)
    by (bit_vector)
    requires
        j < 128,
    ensures
        bit_at(!0u128, j),
        !bit_at(0u128, j),
{
}

proof fn bv_shr(x: u128, k: u128, j: u128)
    by (bit_vector)
    requires
        k < 128,
        j < 128,
    ensures
        bit_at(x >> k, j) == (j + k < 128 && bit_at(x, (j + k) as u128)),
{
}

proof fn bv_small(x: u128, w: u128, j: u128)
    by (bit_vector)
    requires
        w < 128,
        x < (1u128 << w),
        w <= j < 128,
    ensures
        !bit_at(x, j),
{
}

proof fn bv_bounds(a: u128, b: u128, w: u128)
    by (bit_vector)
    requires
        w < 128,
        a < (1u128 << w),
        b < (1u128 << w),
    ensures
        (a | b) < (1u128 << w),
        (a & b) <= a,
        (a & b) <= b,
{
}

proof fn bv_and_le(a: u128, b: u128)
    by (bit_vector)
    ensures
        (a & b) <= a,
{
}

proof fn bv_ext_top(x: u128, y: u128)
    by (bit_vector)
    requires
        bit_at(x, 127u128) == bit_at(y, 127u128),
    ensures
        (x >> 127u128) == (y >> 127u128),
{
}

proof fn bv_ext_step(x: u128, y: u128, k: u128)
    by (bit_vector)
    requires
        k < 127,
        bit_at(x, k) == bit_at(y, k),
        x >> ((k + 1) as u128) == y >> ((k + 1) as u128),
    ensures
        x >> k == y >> k,
{
}

proof fn bv_single_bound(i: u128, w: u128)
    by (bit_vector)
    requires
        i < w,
        w < 128,
    ensures
        (1u128 << i) < (1u128 << w),
{
}

/// The bits of `1 << i`.
pub proof fn lemma_single(i: u128)
    requires
        i < 128,
    ensures
        forall|j: int| #[trigger] bit(1u128 << i, j) == (j == i),
{
    assert forall|j: int| #[trigger] bit(1u128 << i, j) == (j == i) by {
        if 0 <= j < 128 {
            bv_single(i, j as u128);
        }
    }
}

/// The bits of a disjunction.
pub proof fn lemma_or(a: u128, b: u128)
    ensures
        forall|j: int| #[trigger] bit(a | b, j) == (bit(a, j) || bit(b, j)),
{
    assert forall|j: int| #[trigger] bit(a | b, j) == (bit(a, j) || bit(b, j)) by {
        if 0 <= j < 128 {
            bv_or(a, b, j as u128);
        }
    }
}

/// The bits of a conjunction.
pub proof fn lemma_and(a: u128, b: u128)
    ensures
        forall|j: int| #[trigger] bit(a & b, j) == (bit(a, j) && bit(b, j)),
{
    assert forall|j: int| #[trigger] bit(a & b, j) == (bit(a, j) && bit(b, j)) by {
        if 0 <= j < 128 {
            bv_and(a, b, j as u128);
        }
    }
}

/// The bits of a complement.
pub proof fn lemma_not(a: u128)
    ensures
        forall|j: int| 0 <= j < 128 ==> #[trigger] bit(!a, j) == !bit(a, j),
{
    assert forall|j: int| 0 <= j < 128 implies #[trigger] bit(!a, j) == !bit(a, j) by {
        bv_not(a, j as u128);
    }
}

/// The bits of a mask.
pub proof fn lemma_mask(k: u128)
    requires
        k <= 128,
    ensures
        forall|j: int| #[trigger] bit(mask_spec(k), j) == (0 <= j < k),
{
    assert forall|j: int| #[trigger] bit(mask_spec(k), j) == (0 <= j < k) by {
        if 0 <= j < 128 {
            if k < 128 {
                bv_mask(k, j as u128);
            } else {
                bv_full(j as u128);
            }
        }
    }
}

/// Zero has no bits set, and all-ones has every bit set.
pub proof fn lemma_zero_full()
    ensures
        forall|j: int| !#[trigger] bit(0u128, j),
        forall|j: int| 0 <= j < 128 ==> #[trigger] bit(!0u128, j),
{
    assert forall|j: int| !#[trigger] bit(0u128, j) by {
        if 0 <= j < 128 {
            bv_full(j as u128);
        }
    }
    assert forall|j: int| 0 <= j < 128 implies #[trigger] bit(!0u128, j) by {
        bv_full(j as u128);
    }
}

/// The bits of a right shift.
pub proof fn lemma_shr(x: u128, k: u128)
    requires
        k < 128,
    ensures
        forall|j: int| #[trigger] bit(x >> k, j) == (0 <= j && bit(x, j + k)),
{
    assert forall|j: int| #[trigger] bit(x >> k, j) == (0 <= j && bit(x, j + k)) by {
        if 0 <= j < 128 {
            bv_shr(x, k, j as u128);
        }
    }
}

/// A word below `2^w` has no bit set at or above `w`.
pub proof fn lemma_small(x: u128, w: u128)
    requires
        below_width(x, w),
    ensures
        forall|j: int| w <= j ==> !#[trigger] bit(x, j),
{
    assert forall|j: int| w <= j implies !#[trigger] bit(x, j) by {
        if 0 <= j < 128 && w < 128 {
            bv_small(x, w, j as u128);
        }
    }
}

/// Words below `2^w` stay below it under `|` and `&`.
pub proof fn lemma_bounds(a: u128, b: u128, w: u128)
    requires
        below_width(a, w),
        below_width(b, w),
    ensures
        below_width(a | b, w),
        below_width(a & b, w),
        (a & b) <= a,
{
    bv_and_le(a, b);
    if w < 128 {
        bv_bounds(a, b, w);
    }
}

/// `a & b` is at most `a`.
pub proof fn lemma_and_le(a: u128, b: u128)
    ensures
        (a & b) <= a,
{
    bv_and_le(a, b);
}

/// A single bit below `w` is below `2^w`.
pub proof fn lemma_single_bound(i: u128, w: u128)
    requires
        i < w,
        w <= 128,
    ensures
        below_width(1u128 << i, w),
{
    if w < 128 {
        bv_single_bound(i, w);
    }
}

proof fn lemma_ext_from(x: u128, y: u128, k: u128)
    requires
        k <= 127,
        forall|j: int| 0 <= j < 128 ==> #[trigger] bit(x, j) == bit(y, j),
    ensures
        x >> k == y >> k,
    decreases 127 - k,
{
    assert(bit(x, k as int) == bit(y, k as int));
    if k == 127 {
        bv_ext_top(x, y);
    } else {
        lemma_ext_from(x, y, (k + 1) as u128);
        bv_ext_step(x, y, k);
    }
}

/// Two words with the same bits are equal.
pub proof fn lemma_ext(x: u128, y: u128)
    requires
        forall|j: int| 0 <= j < 128 ==> #[trigger] bit(x, j) == bit(y, j),
    ensures
        x == y,
{
    lemma_ext_from(x, y, 0);
    assert(x >> 0u128 == x) by (bit_vector);
    assert(y >> 0u128 == y) by (bit_vector);
}

/// Two words agreeing on their low `w` bits, with every bit at or above `w`
/// clear in both, are equal.
pub proof fn lemma_ext_width(x: u128, y: u128, w: nat)
    requires
        w <= 128,
        word_seq(x, w) == word_seq(y, w),
        forall|j: int| w <= j ==> !#[trigger] bit(x, j),
        forall|j: int| w <= j ==> !#[trigger] bit(y, j),
    ensures
        x == y,
{
    assert forall|j: int| 0 <= j < 128 implies #[trigger] bit(x, j) == bit(y, j) by {
        if j < w {
            assert(word_seq(x, w)[j] == bit(x, j));
            assert(word_seq(y, w)[j] == bit(y, j));
        }
    }
    lemma_ext(x, y);
}

/// The number of set bits, counted one position at a time.
fn u128_count_ones(x: u128) -> (r: u32)
    ensures
        r == count_true(word_seq(x, 128)),
{
    let ghost s = word_seq(x, 128);
    let mut c: u32 = 0;
    let mut j: u32 = 0;
    while j < 128
        invariant
            j <= 128,
            s == word_seq(x, 128),
            c == count_true(s.take(j as int)),
            c <= j,
        decreases 128 - j,
    {
        proof {
            lemma_count_take_step(s, j as int);
        }
        if word_test(x, j) {
            c = c + 1;
        }
        j = j + 1;
    }
    proof {
        assert(s.take(128) =~= s);
    }
    c
}

/// The position of the lowest set bit, or 128 for zero.
fn u128_trailing_zeros(x: u128) -> (r: u32)
    ensures
        r <= 128,
        forall|j: int| 0 <= j < r ==> !#[trigger] bit(x, j),
        r < 128 ==> bit(x, r as int),
{
    let mut j: u32 = 0;
    while j < 128
        invariant
            j <= 128,
            forall|k: int| 0 <= k < j ==> !#[trigger] bit(x, k),
        decreases 128 - j,
    {
        if word_test(x, j) {
            return j;
        }
        j = j + 1;
    }
    j
}

/// The position of the highest set bit of a non-zero word.
fn u128_ilog2(x: u128) -> (r: u32)
    requires
        x != 0,
    ensures
        r < 128,
        bit(x, r as int),
        forall|j: int| r < j ==> !#[trigger] bit(x, j),
{
    proof {
        lemma_zero_iff(x);
    }
    let mut j: u32 = 128;
    while j > 0
        invariant
            j <= 128,
            exists|k: int| 0 <= k < 128 && #[trigger] bit(x, k),
            forall|k: int| j <= k ==> !#[trigger] bit(x, k),
        decreases j,
    {
        if word_test(x, j - 1) {
            return j - 1;
        }
        j = j - 1;
    }
    j
}

/// A word is zero exactly when it has no bit set.
pub proof fn lemma_zero_iff(x: u128)
    ensures
        (x == 0) <==> (forall|j: int| !#[trigger] bit(x, j)),
{
    lemma_zero_full();
    if forall|j: int| !#[trigger] bit(x, j) {
        lemma_ext(x, 0);
    }
}

/// The mask of bits `[0, k)`.
pub fn word_mask(k: u32) -> (r: u128)
    requires
        k <= 128,
    ensures
        r == mask_spec(k as u128),
        forall|j: int| #[trigger] bit(r, j) == (0 <= j < k),
{
    proof {
        lemma_mask(k as u128);
    }
    if k >= 128 {
        !0u128
    } else {
        proof {
            bv_mask(k as u128, 0);
        }
        (1u128 << k) - 1
    }
}

/// Whether bit `i` is set.
pub fn word_test(x: u128, i: u32) -> (r: bool)
    requires
        i < 128,
    ensures
        r == bit(x, i as int),
{
    (x >> i) & 1u128 == 1u128
}

/// `x` with bit `i` set.
pub fn word_with(x: u128, i: u32) -> (r: u128)
    requires
        i < 128,
    ensures
        forall|j: int| #[trigger] bit(r, j) == (bit(x, j) || j == i),
        forall|w: u128| below_width(x, w) && i < w ==> below_width(r, w),
{
    proof {
        lemma_single(i as u128);
        lemma_or(x, 1u128 << i);
        assert forall|w: u128| below_width(x, w) && i < w implies below_width(x | (1u128 << i), w) by {
            if w <= 128 {
                lemma_single_bound(i as u128, w);
                lemma_bounds(x, 1u128 << i, w);
            }
        }
    }
    x | (1u128 << i)
}

/// `x` with bit `i` clear.
pub fn word_without(x: u128, i: u32) -> (r: u128)
    requires
        i < 128,
    ensures
        forall|j: int| #[trigger] bit(r, j) == (bit(x, j) && j != i),
        r <= x,
{
    proof {
        lemma_single(i as u128);
        lemma_not(1u128 << i);
        lemma_and(x, !(1u128 << i));
        lemma_and_le(x, !(1u128 << i));
    }
    x & !(1u128 << i)
}

/// The number of set bits.
pub fn word_count(x: u128) -> (r: u32)
    ensures
        r == count_true(word_seq(x, 128)),
        r <= 128,
{
    proof {
        crate::count::lemma_count_le_len(word_seq(x, 128));
    }
    u128_count_ones(x)
}

/// The number of set bits strictly below `i`.
pub fn word_rank(x: u128, i: u32) -> (r: u32)
    requires
        i <= 128,
    ensures
        r == count_true(word_seq(x, 128).take(i as int)),
{
    let m = word_mask(i);
    let y = x & m;
    proof {
        lemma_and(x, m);
        let sy = word_seq(y, 128);
        let sx = word_seq(x, 128);
        assert forall|j: int| i <= j < 128 implies !sy[j] by {}
        lemma_count_clear_tail(sy, i as int);
        assert forall|j: int| 0 <= j < i implies #[trigger] sy.take(i as int)[j] == sx.take(i as int)[j] by {}
        lemma_count_ext(sy.take(i as int), sx.take(i as int));
    }
    u128_count_ones(y)
}

/// The position of the lowest set bit; `x` must be non-zero.
pub fn word_lowest(x: u128) -> (r: u32)
    requires
        x != 0,
    ensures
        r < 128,
        bit(x, r as int),
        forall|j: int| 0 <= j < r ==> !#[trigger] bit(x, j),
{
    proof {
        lemma_zero_iff(x);
    }
    let r = u128_trailing_zeros(x);
    proof {
        if r == 128 {
            assert forall|j: int| !#[trigger] bit(x, j) by {}
        }
    }
    r
}

/// The position of the highest set bit; `x` must be non-zero.
pub fn word_highest(x: u128) -> (r: u32)
    requires
        x != 0,
    ensures
        r < 128,
        bit(x, r as int),
        forall|j: int| r < j ==> !#[trigger] bit(x, j),
{
    u128_ilog2(x)
}

/// Whether `size` is a power of two no larger than 64.
pub open spec fn half_width(size: u32) -> bool {
    size == 1 || size == 2 || size == 4 || size == 8 || size == 16 || size == 32 || size == 64
}

/// A supported bitmap width.
pub open spec fn valid_width(w: u32) -> bool {
    w == 8 || w == 16 || w == 32 || w == 64 || w == 128
}

/// The position of the `n`-th set bit (0-based) of `x`, whose set bits all
/// lie below `w`, or `None` if `x` has no more than `n` set bits. A
/// popcount-guided binary search over halving windows.
pub fn word_select(x: u128, n: u32, w: u32) -> (r: Option<u32>)
    requires
        valid_width(w),
        forall|j: int| w <= j ==> !#[trigger] bit(x, j),
    ensures
        match r {
            Some(p) => p < w && bit(x, p as int) && count_true(word_seq(x, 128).take(p as int))
                == n,
            None => n >= count_true(word_seq(x, 128)),
        },
{
    let ghost s = word_seq(x, 128);
    let total = word_count(x);
    if n >= total {
        return None;
    }
    proof {
        lemma_count_clear_tail(s, w as int);
        assert(s.subrange(0, w as int) =~= s.take(w as int));
        assert(s.take(0) =~= Seq::<bool>::empty());
    }
    let ghost n0 = n;
    let mut k = n;
    let mut cur = x;
    let mut pos: u32 = 0;
    let mut size: u32 = w / 2;
    loop
        invariant
            s == word_seq(x, 128),
            valid_width(w),
            half_width(size),
            pos + 2 * size <= w,
            forall|j: int| 0 <= j ==> #[trigger] bit(cur, j) == bit(x, j + pos),
            n0 == n,
            count_true(s.take(pos as int)) + k == n0,
            k < count_true(s.subrange(pos as int, pos + 2 * size)),
        decreases size,
    {
        let lo_count = word_rank(cur, size);
        proof {
            let sc = word_seq(cur, 128);
            assert forall|j: int| 0 <= j < size implies #[trigger] sc.take(size as int)[j]
                == s.subrange(pos as int, pos + size)[j] by {
                assert(bit(cur, j) == bit(x, j + pos));
            }
            lemma_count_ext(sc.take(size as int), s.subrange(pos as int, pos + size));
            lemma_count_take_subrange(s, pos as int, pos + size);
            lemma_count_take_subrange(s, pos as int, pos + 2 * size);
            lemma_count_take_subrange(s, pos + size, pos + 2 * size);
        }
        if k >= lo_count {
            k = k - lo_count;
            proof {
                lemma_shr(cur, size as u128);
            }
            cur = cur >> size;
            pos = pos + size;
        }
        assert(k < count_true(s.subrange(pos as int, pos + size)));
        if size == 1 {
            proof {
                lemma_count_take_step(s, pos as int);
                let one = s.subrange(pos as int, pos + 1);
                assert(one.drop_last().len() == 0);
                assert(count_true(one.drop_last()) == 0);
                assert(s.subrange(pos as int, pos + 1).drop_last() =~= Seq::<bool>::empty());
                assert(one.last() == s[pos as int]);
                assert(count_true(one) == count_true(one.drop_last()) + if one.last() {
                    1nat
                } else {
                    0nat
                });
                assert(s[pos as int]);
                assert(k == 0);
                assert(bit(x, pos as int));
                assert(pos < w);
                assert(count_true(s.take(pos as int)) == n0);
            }
            return Some(pos);
        }
        size = size / 2;
    }
}

/// The greatest clear position at or below `from`, or `None` if bits
/// `0..=from` are all set.
pub fn word_nearest_clear_at_or_below(x: u128, from: u32) -> (r: Option<u32>)
    requires
        from < 128,
    ensures
        match r {
            Some(p) => p <= from && !bit(x, p as int) && forall|j: int|
                p < j <= from ==> #[trigger] bit(x, j),
            None => forall|j: int| 0 <= j <= from ==> #[trigger] bit(x, j),
        },
{
    let m = word_mask(from + 1);
    let holes = !x & m;
    proof {
        lemma_not(x);
        lemma_and(!x, m);
        lemma_zero_iff(holes);
    }
    if holes == 0 {
        proof {
            assert forall|j: int| 0 <= j <= from implies #[trigger] bit(x, j) by {
                assert(!bit(holes, j));
            }
        }
        None
    } else {
        let p = word_highest(holes);
        proof {
            assert forall|j: int| p < j <= from implies #[trigger] bit(x, j) by {
                assert(!bit(holes, j));
            }
        }
        Some(p)
    }
}

/// The least clear position in `[from, limit)`, or `None` if that range is
/// fully set.
pub fn word_nearest_clear_in(x: u128, from: u32, limit: u32) -> (r: Option<u32>)
    requires
        from <= limit <= 128,
    ensures
        match r {
            Some(p) => from <= p < limit && !bit(x, p as int) && forall|j: int|
                from <= j < p ==> #[trigger] bit(x, j),
            None => forall|j: int| from <= j < limit ==> #[trigger] bit(x, j),
        },
{
    let ml = word_mask(limit);
    let mf = word_mask(from);
    let holes = !x & ml & !mf;
    proof {
        lemma_not(x);
        lemma_not(mf);
        lemma_and(!x, ml);
        lemma_and(!x & ml, !mf);
        lemma_zero_iff(holes);
    }
    if holes == 0 {
        proof {
            assert forall|j: int| from <= j < limit implies #[trigger] bit(x, j) by {
                assert(!bit(holes, j));
            }
        }
        None
    } else {
        let p = word_lowest(holes);
        proof {
            assert forall|j: int| from <= j < p implies #[trigger] bit(x, j) by {
                assert(!bit(holes, j));
            }
        }
        Some(p)
    }
}

proof fn bv_acc(acc: u128, v: u128, sh: u128, t: u128)
    by (bit_vector)
    requires
        sh <= 120,
        v < 256,
        sh == 0 ==> acc == 0,
        sh > 0 ==> acc < (1u128 << sh),
        t + 8 <= sh,
    ensures
        ((acc | (v << sh)) >> t) & 0xffu128 == (acc >> t) & 0xffu128,
{
}

proof fn bv_acc_top(acc: u128, v: u128, sh: u128)
    by (bit_vector)
    requires
        sh <= 120,
        v < 256,
        sh == 0 ==> acc == 0,
        sh > 0 ==> acc < (1u128 << sh),
    ensures
        ((acc | (v << sh)) >> sh) & 0xffu128 == v,
        sh < 120 ==> (acc | (v << sh)) < (1u128 << ((sh + 8) as u128)),
{
}

proof fn bv_byte_bit(x: u128, t: u128, b: u128)
    by (bit_vector)
    requires
        b < 8,
        t + b < 128,
    ensures
        bit_at((x >> t) & 0xffu128, b) == bit_at(x, (t + b) as u128),
        (x >> t) & 0xffu128 < 256,
{
}

/// The first `n` little-endian bytes of `x`.
pub fn word_to_le(x: u128, n: usize) -> (r: Vec<u8>)
    requires
        n <= 16,
    ensures
        r@ == le_bytes_spec(x, n as nat),
{
    let mut out: Vec<u8> = Vec::new();
    let mut k: usize = 0;
    while k < n
        invariant
            k <= n <= 16,
            out@ =~= le_bytes_spec(x, k as nat),
        decreases n - k,
    {
        let sh: u32 = (8 * k) as u32;
        out.push(((x >> sh) & 0xffu128) as u8);
        k = k + 1;
    }
    out
}

/// The word whose first `n` little-endian bytes are `buf[off..off + n]` and
/// whose other bytes are zero.
pub fn word_from_le(buf: &[u8], off: usize, n: usize) -> (r: u128)
    requires
        n <= 16,
        off + n <= buf@.len(),
    ensures
        le_bytes_spec(r, n as nat) == buf@.subrange(off as int, off + n),
        n < 16 ==> below_width(r, (8 * n) as u128),
{
    let len = buf.len();
    let mut acc: u128 = 0;
    let mut k: usize = 0;
    while k < n
        invariant
            k <= n <= 16,
            len == buf@.len(),
            off + n <= len,
            k == 0 ==> acc == 0,
            0 < k < 16 ==> acc < (1u128 << ((8 * k) as u128)),
            forall|j: int| 0 <= j < k ==> #[trigger] byte_of(acc, j) == buf@[off + j],
        decreases n - k,
    {
        let v = buf[off + k];
        let sh: u32 = (8 * k) as u32;
        assert(sh as u128 == (8 * k) as u128);
        let ghost old_acc = acc;
        let next = acc | ((v as u128) << sh);
        proof {
            bv_acc_top(acc, v as u128, sh as u128);
            assert(next == acc | ((v as u128) << (sh as u128)));
            assert forall|j: int| 0 <= j < k implies #[trigger] byte_of(next, j) == buf@[off + j] by {
                let t = (8 * j) as u128;
                bv_acc(acc, v as u128, sh as u128, t);
                assert((next >> t) & 0xffu128 == (acc >> t) & 0xffu128);
                assert(byte_of(acc, j) == buf@[off + j]);
            }
            assert(byte_of(next, k as int) == v);
        }
        acc = next;
        k = k + 1;
    }
    proof {
        assert(le_bytes_spec(acc, n as nat) =~= buf@.subrange(off as int, off + n));
        if 0 < n && n < 16 {
            assert(below_width(acc, (8 * n) as u128));
        }
        if n == 0 {
            assert(acc < (1u128 << 0u128)) by (bit_vector)
                requires acc == 0;
        }
    }
    acc
}

/// For a word whose bits at and above `w` are clear, the low `w` bits carry
/// every set bit.
pub proof fn lemma_width_view(x: u128, w: nat)
    requires
        w <= 128,
        forall|j: int| w <= j ==> !#[trigger] bit(x, j),
    ensures
        count_true(word_seq(x, 128)) == count_true(word_seq(x, w)),
        forall|i: int| 0 <= i <= w ==> #[trigger] word_seq(x, 128).take(i) == word_seq(x, w).take(i),
        word_seq(x, 128).take(w as int) == word_seq(x, w),
{
    let s = word_seq(x, 128);
    assert(s.take(w as int) =~= word_seq(x, w));
    lemma_count_clear_tail(s, w as int);
    assert forall|i: int| 0 <= i <= w implies #[trigger] s.take(i) == word_seq(x, w).take(i) by {
        assert(s.take(i) =~= word_seq(x, w).take(i));
    }
}

/// `2^w` as a word, for each native width below 128.
pub proof fn lemma_native_widths()
    ensures
        (1u128 << 8u128) == 0x100,
        (1u128 << 16u128) == 0x1_0000,
        (1u128 << 32u128) == 0x1_0000_0000,
        (1u128 << 64u128) == 0x1_0000_0000_0000_0000,
{
    assert((1u128 << 8u128) == 0x100) by (bit_vector);
    assert((1u128 << 16u128) == 0x1_0000) by (bit_vector);
    assert((1u128 << 32u128) == 0x1_0000_0000) by (bit_vector);
    assert((1u128 << 64u128) == 0x1_0000_0000_0000_0000) by (bit_vector);
}

/// A value of a native width `w` has no bit set at or above `w`.
pub proof fn lemma_native(x: u128, w: u128)
    requires
        (w == 8 && x < 0x100) || (w == 16 && x < 0x1_0000) || (w == 32 && x < 0x1_0000_0000) || (w
            == 64 && x < 0x1_0000_0000_0000_0000) || w == 128,
    ensures
        below_width(x, w),
        forall|j: int| w <= j ==> !#[trigger] bit(x, j),
{
    lemma_native_widths();
    lemma_small(x, w);
}

/// A word with no bit set at or above `8 * n` is determined by its first `n`
/// bytes.
pub proof fn lemma_bytes_determine_width(x: u128, y: u128, n: nat)
    requires
        1 <= n <= 16,
        le_bytes_spec(x, n) == le_bytes_spec(y, n),
        forall|j: int| 8 * n <= j ==> !#[trigger] bit(x, j),
        forall|j: int| 8 * n <= j ==> !#[trigger] bit(y, j),
    ensures
        x == y,
{
    assert forall|j: int| 0 <= j < 128 implies #[trigger] bit(x, j) == bit(y, j) by {
        if j < 8 * n {
            let k = j / 8;
            let b = j % 8;
            let t = (8 * k) as u128;
            assert(0 <= k < n);
            assert(le_bytes_spec(x, n)[k] == le_bytes_spec(y, n)[k]);
            assert(le_bytes_spec(x, n)[k] == byte_of(x, k));
            assert(le_bytes_spec(y, n)[k] == byte_of(y, k));
            bv_byte_bit(x, t, b as u128);
            bv_byte_bit(y, t, b as u128);
            let bx = (x >> t) & 0xffu128;
            let by_ = (y >> t) & 0xffu128;
            assert(bx as u8 == by_ as u8);
            assert(bx == by_);
            assert((t + b) as u128 == j as u128);
        }
    }
    lemma_ext(x, y);
}

} // verus!
