//! Counting set positions in a sequence of booleans: the mathematical model
//! behind popcount, rank and select.

use vstd::prelude::*;

verus! {

/// The number of `true` entries of `s`.
pub open spec fn count_true(s: Seq<bool>) -> nat
    decreases s.len(),
{
    if s.len() == 0 {
        0
    } else {
        count_true(s.drop_last()) + if s.last() {
            1nat
        } else {
            0nat
        }
    }
}

/// A sequence of `n` clear positions.
pub open spec fn all_clear(n: nat) -> Seq<bool> {
    Seq::new(n, |i: int| false)
}

/// Counting distributes over concatenation.
pub proof fn lemma_count_concat(a: Seq<bool>, b: Seq<bool>)
    ensures
        count_true(a + b) == count_true(a) + count_true(b),
    decreases b.len(),
{
    if b.len() == 0 {
        assert(a + b =~= a);
    } else {
        lemma_count_concat(a, b.drop_last());
        assert((a + b).drop_last() =~= a + b.drop_last());
    }
}

/// A prefix and the matching suffix count up to the whole.
pub proof fn lemma_count_split(s: Seq<bool>, k: int)
    requires
        0 <= k <= s.len(),
    ensures
        count_true(s) == count_true(s.take(k)) + count_true(s.skip(k)),
{
    lemma_count_concat(s.take(k), s.skip(k));
    assert(s.take(k) + s.skip(k) =~= s);
}

/// Prefix counts add up over adjacent ranges.
pub proof fn lemma_count_take_subrange(s: Seq<bool>, a: int, b: int)
    requires
        0 <= a <= b <= s.len(),
    ensures
        count_true(s.take(b)) == count_true(s.take(a)) + count_true(s.subrange(a, b)),
{
    lemma_count_concat(s.take(a), s.subrange(a, b));
    assert(s.take(a) + s.subrange(a, b) =~= s.take(b));
}

/// A count never exceeds the length.
pub proof fn lemma_count_le_len(s: Seq<bool>)
    ensures
        count_true(s) <= s.len(),
    decreases s.len(),
{
    if s.len() > 0 {
        lemma_count_le_len(s.drop_last());
    }
}

/// The count is zero exactly when every entry is clear.
pub proof fn lemma_count_zero(s: Seq<bool>)
    ensures
        (count_true(s) == 0) <==> (forall|i: int| 0 <= i < s.len() ==> !s[i]),
    decreases s.len(),
{
    if s.len() > 0 {
        lemma_count_zero(s.drop_last());
        if count_true(s) == 0 {
            assert forall|i: int| 0 <= i < s.len() implies !s[i] by {
                if i < s.len() - 1 {
                    assert(s.drop_last()[i] == s[i]);
                }
            }
        }
        if forall|i: int| 0 <= i < s.len() ==> !s[i] {
            assert forall|i: int| 0 <= i < s.drop_last().len() implies !s.drop_last()[i] by {
                assert(s.drop_last()[i] == s[i]);
            }
        }
    }
}

/// The count equals the length exactly when every entry is set.
pub proof fn lemma_count_full(s: Seq<bool>)
    ensures
        (count_true(s) == s.len()) <==> (forall|i: int| 0 <= i < s.len() ==> s[i]),
    decreases s.len(),
{
    if s.len() > 0 {
        lemma_count_full(s.drop_last());
        lemma_count_le_len(s.drop_last());
        if count_true(s) == s.len() {
            assert forall|i: int| 0 <= i < s.len() implies s[i] by {
                if i < s.len() - 1 {
                    assert(s.drop_last()[i] == s[i]);
                }
            }
        }
        if forall|i: int| 0 <= i < s.len() ==> s[i] {
            assert forall|i: int| 0 <= i < s.drop_last().len() implies s.drop_last()[i] by {
                assert(s.drop_last()[i] == s[i]);
            }
        }
    }
}

/// A single entry counts one or zero.
pub proof fn lemma_count_single(s: Seq<bool>)
    requires
        s.len() == 1,
    ensures
        count_true(s) == if s[0] {
            1nat
        } else {
            0nat
        },
{
    assert(s.drop_last().len() == 0);
    assert(count_true(s.drop_last()) == 0);
    assert(s.last() == s[0]);
}

/// Setting or clearing one entry changes the count by at most one, as
/// expected.
pub proof fn lemma_count_update(s: Seq<bool>, i: int, v: bool)
    requires
        0 <= i < s.len(),
    ensures
        count_true(s.update(i, v)) + (if s[i] {
            1int
        } else {
            0int
        }) == count_true(s) + (if v {
            1int
        } else {
            0int
        }),
{
    let t = s.update(i, v);
    lemma_count_split(s, i);
    lemma_count_split(t, i);
    lemma_count_split(s.skip(i), 1);
    lemma_count_split(t.skip(i), 1);
    assert(s.take(i) =~= t.take(i));
    assert(s.skip(i).skip(1) =~= t.skip(i).skip(1));
    lemma_count_single(s.skip(i).take(1));
    lemma_count_single(t.skip(i).take(1));
}

/// Entries that agree on a range count the same over it.
pub proof fn lemma_count_ext(a: Seq<bool>, b: Seq<bool>)
    requires
        a.len() == b.len(),
        forall|i: int| 0 <= i < a.len() ==> a[i] == b[i],
    ensures
        count_true(a) == count_true(b),
{
    assert(a =~= b);
}

/// A set entry at `i` puts every prefix longer than `i` strictly above the
/// prefix that stops at `i`.
pub proof fn lemma_count_strict(s: Seq<bool>, i: int, j: int)
    requires
        0 <= i < j <= s.len(),
        s[i],
    ensures
        count_true(s.take(j)) >= count_true(s.take(i)) + 1,
{
    lemma_count_take_subrange(s, i, j);
    lemma_count_split(s.subrange(i, j), 1);
    lemma_count_single(s.subrange(i, j).take(1));
}

/// Prefix counts never decrease.
pub proof fn lemma_count_mono(s: Seq<bool>, i: int, j: int)
    requires
        0 <= i <= j <= s.len(),
    ensures
        count_true(s.take(i)) <= count_true(s.take(j)),
{
    lemma_count_take_subrange(s, i, j);
}

/// The `n`-th set entry (0-based) is at most one position.
pub proof fn lemma_select_unique(s: Seq<bool>, i: int, j: int)
    requires
        0 <= i < s.len(),
        0 <= j < s.len(),
        s[i],
        s[j],
        count_true(s.take(i)) == count_true(s.take(j)),
    ensures
        i == j,
{
    if i < j {
        lemma_count_strict(s, i, j);
    } else if j < i {
        lemma_count_strict(s, j, i);
    }
}

/// Prefix counts step by one entry.
pub proof fn lemma_count_take_step(s: Seq<bool>, i: int)
    requires
        0 <= i < s.len(),
    ensures
        count_true(s.take(i + 1)) == count_true(s.take(i)) + if s[i] {
            1nat
        } else {
            0nat
        },
{
    assert(s.take(i + 1).drop_last() =~= s.take(i));
}

/// When every entry from `k` on is clear, the count is the count of the
/// first `k` entries.
pub proof fn lemma_count_clear_tail(s: Seq<bool>, k: int)
    requires
        0 <= k <= s.len(),
        forall|i: int| k <= i < s.len() ==> !s[i],
    ensures
        count_true(s) == count_true(s.take(k)),
{
    lemma_count_split(s, k);
    lemma_count_zero(s.skip(k));
}

/// Every entry in `[a, b)` is set.
pub open spec fn all_set_in(s: Seq<bool>, a: int, b: int) -> bool {
    forall|j: int| a <= j < b ==> #[trigger] s[j]
}

/// `p` is the position of the `n`-th set entry (0-based) of `s`.
pub open spec fn is_select(s: Seq<bool>, n: int, p: int) -> bool {
    0 <= p < s.len() && s[p] && count_true(s.take(p)) == n
}

/// `p` is the lowest set position of `s`.
pub open spec fn is_lowest(s: Seq<bool>, p: int) -> bool {
    0 <= p < s.len() && s[p] && forall|j: int| 0 <= j < p ==> !#[trigger] s[j]
}

/// `p` is the highest set position of `s`.
pub open spec fn is_highest(s: Seq<bool>, p: int) -> bool {
    0 <= p < s.len() && s[p] && forall|j: int| p < j < s.len() ==> !#[trigger] s[j]
}

/// `p` is the greatest clear position at or below `from`.
pub open spec fn is_clear_at_or_below(s: Seq<bool>, from: int, p: int) -> bool {
    0 <= p <= from && !s[p] && all_set_in(s, p + 1, from + 1)
}

/// `p` is the least clear position in `[from, limit)`.
pub open spec fn is_clear_in(s: Seq<bool>, from: int, limit: int, p: int) -> bool {
    from <= p < limit && !s[p] && all_set_in(s, from, p)
}

/// The lowest set position is the 0-th selected one.
pub proof fn lemma_lowest_is_select_zero(s: Seq<bool>, p: int)
    requires
        is_lowest(s, p),
    ensures
        is_select(s, 0, p),
{
    lemma_count_zero(s.take(p));
}

/// The highest set position is the last selected one.
pub proof fn lemma_highest_is_select_last(s: Seq<bool>, p: int)
    requires
        is_highest(s, p),
    ensures
        is_select(s, count_true(s) - 1, p),
{
    lemma_count_split(s, p + 1);
    lemma_count_zero(s.skip(p + 1));
    lemma_count_take_step(s, p);
}

} // verus!
