//! [`PackedArray`]: storage of only the present elements, addressed by bitmap
//! rank-select.

use vstd::prelude::*;

use crate::arity::Arity;
use crate::bitmap::{Bitmap, Bits};
use crate::count::{
    all_clear, count_true, lemma_count_clear_tail, is_lowest, lemma_count_le_len, lemma_count_split, lemma_count_strict,
    lemma_count_take_step, lemma_count_update, lemma_count_zero,
};
use crate::fixed::{
    clones_of, lemma_present_entries_push, lemma_present_entries_skip, present_count, present_entries,
    present_pairs, FixedArray,
};
use crate::niche::Niche;

verus! {

/// The slot view of a presence bitmap and the present values in ascending
/// slot order: slot `i` holds the value of dense rank `rank(i)` when present.
pub open spec fn packed_view<T>(bits: Seq<bool>, vals: Seq<T>) -> Seq<Option<T>> {
    Seq::new(
        bits.len(),
        |i: int|
            if bits[i] {
                Some(vals[count_true(bits.take(i)) as int])
            } else {
                None
            },
    )
}

/// Setting a clear position raises the rank of every later position by one.
pub proof fn lemma_rank_after_set(b: Seq<bool>, i: int, j: int)
    requires
        0 <= i < b.len(),
        0 <= j <= b.len(),
        !b[i],
    ensures
        count_true(b.update(i, true).take(j)) == count_true(b.take(j)) + if i < j {
            1int
        } else {
            0int
        },
{
    if i < j {
        assert(b.update(i, true).take(j) =~= b.take(j).update(i, true));
        lemma_count_update(b.take(j), i, true);
    } else {
        assert(b.update(i, true).take(j) =~= b.take(j));
    }
}

/// Clearing a set position lowers the rank of every later position by one.
pub proof fn lemma_rank_after_clear(b: Seq<bool>, i: int, j: int)
    requires
        0 <= i < b.len(),
        0 <= j <= b.len(),
        b[i],
    ensures
        count_true(b.update(i, false).take(j)) + if i < j {
            1int
        } else {
            0int
        } == count_true(b.take(j)),
{
    if i < j {
        assert(b.update(i, false).take(j) =~= b.take(j).update(i, false));
        lemma_count_update(b.take(j), i, false);
    } else {
        assert(b.update(i, false).take(j) =~= b.take(j));
    }
}

/// The rank of a set position is below the total count.
pub proof fn lemma_rank_lt_count(b: Seq<bool>, i: int)
    requires
        0 <= i < b.len(),
        b[i],
    ensures
        count_true(b.take(i)) < count_true(b),
{
    lemma_count_strict(b, i, b.len() as int);
    assert(b.take(b.len() as int) =~= b);
}

/// The slot view has as many present slots as the bitmap has set bits.
pub proof fn lemma_packed_view_count<T>(bits: Seq<bool>, vals: Seq<T>)
    ensures
        present_count(packed_view(bits, vals)) == count_true(bits),
    decreases bits.len(),
{
    if bits.len() > 0 {
        let n = bits.len() - 1;
        let short = bits.drop_last();
        lemma_packed_view_count(short, vals);
        assert forall|i: int| 0 <= i < n implies #[trigger] short.take(i) == bits.take(i) by {
            assert(short.take(i) =~= bits.take(i));
        }
        assert(packed_view(bits, vals).drop_last() =~= packed_view(short, vals));
        assert(bits.take(n) =~= short);
    }
}

/// Inserting a value at the rank of a clear slot fills exactly that slot.
pub proof fn lemma_packed_view_insert<T>(bits: Seq<bool>, vals: Seq<T>, i: int, v: T)
    requires
        0 <= i < bits.len(),
        !bits[i],
        vals.len() == count_true(bits),
    ensures
        packed_view(bits.update(i, true), vals.insert(count_true(bits.take(i)) as int, v))
            == packed_view(bits, vals).update(i, Some(v)),
{
    let r = count_true(bits.take(i)) as int;
    let b2 = bits.update(i, true);
    let v2 = vals.insert(r, v);
    crate::count::lemma_count_mono(bits, i, bits.len() as int);
    assert(bits.take(bits.len() as int) =~= bits);
    vals.insert_ensures(r, v);
    assert forall|j: int| 0 <= j < bits.len() implies #[trigger] packed_view(b2, v2)[j]
        == packed_view(bits, vals).update(i, Some(v))[j] by {
        lemma_rank_after_set(bits, i, j);
        if j != i && bits[j] {
            let rj = count_true(bits.take(j)) as int;
            lemma_rank_lt_count(bits, j);
            if i < j {
                crate::count::lemma_count_mono(bits, i, j);
                assert(v2[rj + 1] == vals[rj]);
            } else {
                lemma_count_strict(bits, j, i);
                assert(v2[rj] == vals[rj]);
            }
        }
    }
    assert(packed_view(b2, v2) =~= packed_view(bits, vals).update(i, Some(v)));
}

/// Removing the value at the rank of a set slot empties exactly that slot.
pub proof fn lemma_packed_view_remove<T>(bits: Seq<bool>, vals: Seq<T>, i: int)
    requires
        0 <= i < bits.len(),
        bits[i],
        vals.len() == count_true(bits),
    ensures
        packed_view(bits.update(i, false), vals.remove(count_true(bits.take(i)) as int))
            == packed_view(bits, vals).update(i, None),
{
    let r = count_true(bits.take(i)) as int;
    let b2 = bits.update(i, false);
    let v2 = vals.remove(r);
    lemma_rank_lt_count(bits, i);
    vals.remove_ensures(r);
    assert forall|j: int| 0 <= j < bits.len() implies #[trigger] packed_view(b2, v2)[j]
        == packed_view(bits, vals).update(i, None)[j] by {
        lemma_rank_after_clear(bits, i, j);
        if j != i && bits[j] {
            let rj = count_true(bits.take(j)) as int;
            lemma_rank_lt_count(bits, j);
            if i < j {
                lemma_count_strict(bits, i, j);
                assert(v2[rj - 1] == vals[rj]);
            } else {
                lemma_count_strict(bits, j, i);
                assert(v2[rj] == vals[rj]);
            }
        }
    }
    assert(packed_view(b2, v2) =~= packed_view(bits, vals).update(i, None));
}

/// Replacing the value at the rank of a set slot replaces exactly that slot.
pub proof fn lemma_packed_view_replace<T>(bits: Seq<bool>, vals: Seq<T>, i: int, v: T)
    requires
        0 <= i < bits.len(),
        bits[i],
        vals.len() == count_true(bits),
    ensures
        packed_view(bits, vals.update(count_true(bits.take(i)) as int, v)) == packed_view(
            bits,
            vals,
        ).update(i, Some(v)),
{
    let r = count_true(bits.take(i)) as int;
    lemma_rank_lt_count(bits, i);
    assert forall|j: int| 0 <= j < bits.len() implies #[trigger] packed_view(
        bits,
        vals.update(r, v),
    )[j] == packed_view(bits, vals).update(i, Some(v))[j] by {
        if j != i && bits[j] {
            lemma_rank_lt_count(bits, j);
            if i < j {
                lemma_count_strict(bits, i, j);
            } else {
                lemma_count_strict(bits, j, i);
            }
        }
    }
    assert(packed_view(bits, vals.update(r, v)) =~= packed_view(bits, vals).update(i, Some(v)));
}

/// The present values of a slot view, in slot order, are the stored values.
pub proof fn lemma_somes_packed_view<T>(bits: Seq<bool>, vals: Seq<T>)
    requires
        vals.len() >= count_true(bits),
    ensures
        crate::gapped::somes(packed_view(bits, vals)) == vals.take(count_true(bits) as int),
    decreases bits.len(),
{
    if bits.len() > 0 {
        let n = bits.len() - 1;
        let short = bits.drop_last();
        assert(bits.take(n) =~= short);
        lemma_somes_packed_view(short, vals);
        assert forall|i: int| 0 <= i < n implies #[trigger] short.take(i) == bits.take(i) by {
            assert(short.take(i) =~= bits.take(i));
        }
        assert(packed_view(bits, vals).drop_last() =~= packed_view(short, vals));
        if bits.last() {
            assert(vals.take(count_true(short) as int).push(vals[count_true(short) as int])
                =~= vals.take(count_true(bits) as int));
        }
    }
}

/// Storage of only the present elements of an arity-`A` array.
///
/// Invariant: the number of stored values equals the number of set bits in
/// the bitmap, and the values are in ascending slot (rank) order.
#[derive(PartialEq, Eq, Hash, Debug)]
pub struct PackedArray<T, A: Arity> {
    bitmap: A::Bitmap,
    values: Vec<T>,
}

impl<T, A: Arity> View for PackedArray<T, A> {
    type V = Seq<Option<T>>;

    /// Slot `i` is `Some(v)` when present with value `v`, `None` otherwise.
    closed spec fn view(&self) -> Seq<Option<T>> {
        packed_view(self.bitmap.bit_seq(), self.values@)
    }
}

impl<T, A: Arity> PackedArray<T, A> {
    #[verifier::type_invariant]
    spec fn inv(self) -> bool {
        &&& self.bitmap.bit_seq().len() == A::LEN
        &&& self.values@.len() == count_true(self.bitmap.bit_seq())
    }

    /// Creates an empty `PackedArray` (no elements).
    pub fn new() -> (r: Self)
        ensures
            r@ == Seq::new(A::LEN as nat, |k: int| None::<T>),
    {
        let bitmap = A::Bitmap::zero();
        proof {
            A::lemma_len();
            bitmap.lemma_shape();
            lemma_count_zero(bitmap.bit_seq());
        }
        let r = PackedArray { bitmap, values: Vec::new() };
        assert(r@ =~= Seq::new(A::LEN as nat, |k: int| None::<T>));
        r
    }

    /// Assembles a packed array from a presence bitmap and the present values
    /// in ascending slot order.
    pub(crate) fn from_parts(bitmap: A::Bitmap, values: Vec<T>) -> (r: Self)
        requires
            values@.len() == count_true(bitmap.bit_seq()),
        ensures
            r@ == packed_view(bitmap.bit_seq(), values@),
    {
        proof {
            A::lemma_len();
            bitmap.lemma_shape();
        }
        PackedArray { bitmap, values }
    }

    /// Takes a packed array apart into its presence bitmap and its present
    /// values in ascending slot order.
    pub(crate) fn into_parts(self) -> (r: (A::Bitmap, Vec<T>))
        ensures
            r.1@.len() == count_true(r.0.bit_seq()),
            r.0.bit_seq().len() == A::LEN,
            self@ == packed_view(r.0.bit_seq(), r.1@),
    {
        proof {
            use_type_invariant(&self);
        }
        let PackedArray { bitmap, values } = self;
        (bitmap, values)
    }

    /// The present values, ascending by index.
    pub(crate) fn value_refs(&self) -> (r: Vec<&T>)
        ensures
            r@.map_values(|x: &T| *x) == crate::gapped::somes(self@),
    {
        proof {
            use_type_invariant(self);
            lemma_somes_packed_view(self.bitmap.bit_seq(), self.values@);
            assert(self.values@.take(self.values@.len() as int) =~= self.values@);
        }
        let mut out: Vec<&T> = Vec::new();
        let mut k: usize = 0;
        while k < self.values.len()
            invariant
                k <= self.values@.len(),
                out@.len() == k,
                forall|m: int| 0 <= m < k ==> *#[trigger] out@[m] == self.values@[m],
            decreases self.values@.len() - k,
        {
            out.push(&self.values[k]);
            k = k + 1;
        }
        proof {
            assert(out@.map_values(|x: &T| *x) =~= self.values@);
        }
        out
    }

    /// Returns the bitmap of present slots (zero when empty).
    pub fn bitmap(&self) -> (r: A::Bitmap)
        ensures
            r.bit_seq().len() == self@.len(),
            forall|k: int| 0 <= k < self@.len() ==> #[trigger] r.bit_seq()[k] == self@[k] is Some,
    {
        proof {
            use_type_invariant(self);
        }
        self.bitmap
    }

    /// Returns the number of present elements.
    pub fn count(&self) -> (r: usize)
        ensures
            r == present_count(self@),
    {
        proof {
            use_type_invariant(self);
            lemma_packed_view_count(self.bitmap.bit_seq(), self.values@);
        }
        self.values.len()
    }

    /// Returns `true` if there are no elements.
    pub fn is_empty(&self) -> (r: bool)
        ensures
            r == (present_count(self@) == 0),
    {
        self.count() == 0
    }

    /// Returns a reference to the element at `index`, or `None` if absent.
    pub fn get(&self, index: A::Index) -> (r: Option<&T>)
        ensures
            match r {
                Some(x) => self@[index.value() as int] == Some(*x),
                None => self@[index.value() as int] is None,
            },
    {
        proof {
            use_type_invariant(self);
            A::lemma_len();
            index.lemma_value();
        }
        let bm = self.bitmap;
        if !bm.test(index) {
            return None;
        }
        let rank = bm.rank(index) as usize;
        proof {
            lemma_rank_lt_count(bm.bit_seq(), index.value() as int);
        }
        Some(&self.values[rank])
    }

    /// Returns a mutable reference to the element at `index`, or `None` if
    /// absent. Does not change which slots are present.
    pub fn get_mut(&mut self, index: A::Index) -> (r: Option<&mut T>)
        ensures
            old(self)@[index.value() as int] is None ==> r is None && final(self)@ == old(self)@,
            old(self)@[index.value() as int] is Some ==> r is Some && Some(*r->0) == old(
                self,
            )@[index.value() as int] && final(self)@ == old(self)@.update(
                index.value() as int,
                Some(*final(r->0)),
            ),
    {
        proof {
            use_type_invariant(&*self);
            A::lemma_len();
            index.lemma_value();
        }
        let bm = self.bitmap;
        if !bm.test(index) {
            return None;
        }
        let rank = bm.rank(index) as usize;
        proof {
            lemma_rank_lt_count(bm.bit_seq(), index.value() as int);
        }
        let ghost vals = self.values@;
        let slot = &mut self.values[rank];
        proof {
            lemma_packed_view_replace(bm.bit_seq(), vals, index.value() as int, *final(slot));
        }
        Some(slot)
    }

    /// Stores `value` at `index`, returning the value it displaced.
    pub fn insert(&mut self, index: A::Index, value: T) -> (r: Option<T>)
        ensures
            r == old(self)@[index.value() as int],
            final(self)@ == old(self)@.update(index.value() as int, Some(value)),
    {
        proof {
            use_type_invariant(&*self);
            A::lemma_len();
            index.lemma_value();
        }
        let mut whole = PackedArray::new();
        core::mem::swap(self, &mut whole);
        let PackedArray { bitmap, mut values } = whole;
        let ghost b = bitmap.bit_seq();
        let ghost vals = values@;
        let rank = bitmap.rank(index) as usize;
        if bitmap.test(index) {
            proof {
                lemma_rank_lt_count(b, index.value() as int);
            }
            let mut v = value;
            core::mem::swap(&mut values[rank], &mut v);
            proof {
                lemma_packed_view_replace(b, vals, index.value() as int, value);
                assert(values@ == vals.update(rank as int, value));
            }
            *self = PackedArray { bitmap, values };
            Some(v)
        } else {
            proof {
                lemma_count_split(b, index.value() as int);
                lemma_count_le_len(b.skip(index.value() as int));
                lemma_packed_view_insert(b, vals, index.value() as int, value);
                lemma_count_update(b, index.value() as int, true);
            }
            values.insert(rank, value);
            let nb = bitmap.with_bit(index);
            *self = PackedArray { bitmap: nb, values };
            None
        }
    }

    /// Removes and returns the element at `index`.
    pub fn remove(&mut self, index: A::Index) -> (r: Option<T>)
        ensures
            r == old(self)@[index.value() as int],
            final(self)@ == old(self)@.update(index.value() as int, None),
    {
        proof {
            use_type_invariant(&*self);
            A::lemma_len();
            index.lemma_value();
        }
        if !self.bitmap.test(index) {
            proof {
                assert(self@ =~= old(self)@.update(index.value() as int, None));
            }
            return None;
        }
        let mut whole = PackedArray::new();
        core::mem::swap(self, &mut whole);
        let PackedArray { bitmap, mut values } = whole;
        let ghost b = bitmap.bit_seq();
        let ghost vals = values@;
        let rank = bitmap.rank(index) as usize;
        proof {
            lemma_rank_lt_count(b, index.value() as int);
            lemma_packed_view_remove(b, vals, index.value() as int);
            lemma_count_update(b, index.value() as int, false);
        }
        let v = values.remove(rank);
        let nb = bitmap.without_bit(index);
        *self = PackedArray { bitmap: nb, values };
        Some(v)
    }

    /// Calls `f` on the element at `index`, if present, to update it in
    /// place; returns whether it was present. Does not change which slots are
    /// present.
    pub fn replace_at(&mut self, index: A::Index, value: T) -> (r: Option<T>)
        ensures
            r == old(self)@[index.value() as int],
            r is Some ==> final(self)@ == old(self)@.update(index.value() as int, Some(value)),
            r is None ==> final(self)@ == old(self)@,
    {
        proof {
            use_type_invariant(&*self);
        }
        if self.get(index).is_none() {
            return None;
        }
        self.insert(index, value)
    }

    /// The present elements as `(A::Index, &T)`, ascending.
    pub fn iter_present(&self) -> (r: Vec<(A::Index, &T)>)
        ensures
            present_pairs(r@, self@),
    {
        proof {
            use_type_invariant(self);
            A::lemma_len();
        }
        let ghost b = self.bitmap.bit_seq();
        let mut out: Vec<(A::Index, &T)> = Vec::new();
        let mut rank: usize = 0;
        let mut k: usize = 0;
        while k < A::LEN
            invariant
                k <= A::LEN,
                A::LEN <= 256,
                rank <= k,
                b == self.bitmap.bit_seq(),
                b.len() == A::LEN,
                A::LEN == <A::Index as Niche>::COUNT,
                self.values@.len() == count_true(b),
                rank == count_true(b.take(k as int)),
                present_pairs(out@, self@.take(k as int)),
            decreases A::LEN - k,
        {
            proof {
                lemma_count_take_step(b, k as int);
                assert(self@.take(k + 1).drop_last() =~= self@.take(k as int));
                assert(self@.take(k + 1).last() == self@[k as int]);
            }
            match A::Index::try_from_usize(k) {
                Some(i) => {
                    if self.bitmap.test(i) {
                        proof {
                            lemma_rank_lt_count(b, k as int);
                            crate::fixed::lemma_present_pairs_push(
                                out@,
                                self@.take(k as int),
                                i,
                                &self.values@[rank as int],
                            );
                        }
                        out.push((i, &self.values[rank]));
                        rank = rank + 1;
                        proof {
                            lemma_count_le_len(b.take(k as int));
                        }
                    } else {
                        proof {
                            crate::fixed::lemma_present_pairs_skip(out@, self@.take(k as int));
                        }
                    }
                },
                None => {},
            }
            k = k + 1;
        }
        proof {
            assert(self@.take(k as int) =~= self@);
        }
        out
    }

    /// If exactly one element is present, removes and returns it with its
    /// index; otherwise returns `None` and leaves the array unchanged.
    pub fn take_only_child(&mut self) -> (r: Option<(A::Index, T)>)
        ensures
            present_count(old(self)@) == 1 ==> (r matches Some((i, v)) && old(self)@[i.value() as int]
                == Some(v) && final(self)@ == old(self)@.update(i.value() as int, None)),
            present_count(old(self)@) != 1 ==> r is None && final(self)@ == old(self)@,
    {
        proof {
            use_type_invariant(&*self);
            A::lemma_len();
            lemma_packed_view_count(self.bitmap.bit_seq(), self.values@);
        }
        if self.count() != 1 {
            return None;
        }
        match self.bitmap.select(0) {
            Some(i) => {
                proof {
                    i.lemma_value();
                }
                match self.remove(i) {
                    Some(v) => Some((i, v)),
                    None => None,
                }
            },
            None => None,
        }
    }

    /// Every slot as `(A::Index, Option<&T>)`, ascending.
    pub fn iter(&self) -> (r: Vec<(A::Index, Option<&T>)>)
        ensures
            r@.len() == self@.len(),
            forall|k: int|
                0 <= k < r@.len() ==> (#[trigger] r@[k]).0.value() == k && match r@[k].1 {
                    Some(x) => self@[k] == Some(*x),
                    None => self@[k] is None,
                },
    {
        proof {
            use_type_invariant(self);
            A::lemma_len();
        }
        let mut out: Vec<(A::Index, Option<&T>)> = Vec::new();
        let mut k: usize = 0;
        while k < A::LEN
            invariant
                k <= A::LEN,
                self@.len() == A::LEN,
                A::LEN == <A::Index as Niche>::COUNT,
                out@.len() == k,
                forall|j: int|
                    0 <= j < k ==> (#[trigger] out@[j]).0.value() == j && match out@[j].1 {
                        Some(x) => self@[j] == Some(*x),
                        None => self@[j] is None,
                    },
            decreases A::LEN - k,
        {
            match A::Index::try_from_usize(k) {
                Some(i) => out.push((i, self.get(i))),
                None => {},
            }
            k = k + 1;
        }
        out
    }

    /// Consumes the array, yielding the present elements with their indices,
    /// ascending.
    pub fn into_pairs(self) -> (r: Vec<(A::Index, T)>)
        ensures
            present_entries(r@, self@),
    {
        proof {
            use_type_invariant(&self);
            A::lemma_len();
        }
        let ghost view = self@;
        let PackedArray { bitmap, values } = self;
        let ghost b = bitmap.bit_seq();
        let ghost vals = values@;
        let mut rev = reversed(values);
        let mut out: Vec<(A::Index, T)> = Vec::new();
        let mut k: usize = 0;
        while k < A::LEN
            invariant
                k <= A::LEN,
                b == bitmap.bit_seq(),
                b.len() == A::LEN,
                A::LEN == <A::Index as Niche>::COUNT,
                vals.len() == count_true(b),
                view == packed_view(b, vals),
                rev@.len() == vals.len() - count_true(b.take(k as int)),
                forall|m: int| 0 <= m < rev@.len() ==> #[trigger] rev@[m] == vals[vals.len() - 1 - m],
                present_entries(out@, view.take(k as int)),
            decreases A::LEN - k,
        {
            proof {
                lemma_count_take_step(b, k as int);
                assert(view.take(k + 1).drop_last() =~= view.take(k as int));
                assert(view.take(k + 1).last() == view[k as int]);
                crate::count::lemma_count_mono(b, k + 1, b.len() as int);
                assert(b.take(b.len() as int) =~= b);
            }
            match A::Index::try_from_usize(k) {
                Some(i) => {
                    if bitmap.test(i) {
                        let v = rev.pop().unwrap();
                        proof {
                            lemma_present_entries_push(out@, view.take(k as int), i, v);
                        }
                        out.push((i, v));
                    } else {
                        proof {
                            lemma_present_entries_skip(out@, view.take(k as int));
                        }
                    }
                },
                None => {},
            }
            k = k + 1;
        }
        proof {
            assert(view.take(k as int) =~= view);
        }
        out
    }

    /// Moves each element back into a full-width array of `Option<T>`.
    pub fn into_fixed(self) -> (r: FixedArray<Option<T>, A>)
        ensures
            r@ == self@,
    {
        proof {
            use_type_invariant(&self);
            A::lemma_len();
        }
        let ghost view = self@;
        let PackedArray { bitmap, values } = self;
        let ghost b = bitmap.bit_seq();
        let ghost vals = values@;
        let mut rev = reversed(values);
        let mut out: Vec<Option<T>> = Vec::new();
        let mut k: usize = 0;
        while k < A::LEN
            invariant
                k <= A::LEN,
                b == bitmap.bit_seq(),
                b.len() == A::LEN,
                A::LEN == <A::Index as Niche>::COUNT,
                vals.len() == count_true(b),
                view == packed_view(b, vals),
                rev@.len() == vals.len() - count_true(b.take(k as int)),
                forall|m: int| 0 <= m < rev@.len() ==> #[trigger] rev@[m] == vals[vals.len() - 1 - m],
                out@ == view.take(k as int),
            decreases A::LEN - k,
        {
            proof {
                lemma_count_take_step(b, k as int);
                crate::count::lemma_count_mono(b, k + 1, b.len() as int);
                assert(b.take(b.len() as int) =~= b);
            }
            match A::Index::try_from_usize(k) {
                Some(i) => {
                    if bitmap.test(i) {
                        let v = rev.pop().unwrap();
                        out.push(Some(v));
                    } else {
                        out.push(None);
                    }
                },
                None => {},
            }
            k = k + 1;
            assert(out@ =~= view.take(k as int));
        }
        proof {
            assert(view.take(k as int) =~= view);
        }
        FixedArray::from_vec(out)
    }

    /// Moves each `Some` element of a full-width array into a packed array;
    /// `None` slots are dropped.
    pub fn from_fixed(src: FixedArray<Option<T>, A>) -> (r: Self)
        ensures
            r@ == src@,
    {
        proof {
            A::lemma_len();
        }
        let ghost target = src@;
        let slots = src.into_vec();
        let mut rev = reversed(slots);
        let mut bitmap = A::Bitmap::zero();
        let mut values: Vec<T> = Vec::new();
        proof {
            bitmap.lemma_shape();
            lemma_count_zero(bitmap.bit_seq());
            assert(packed_view(bitmap.bit_seq(), values@) =~= target.take(0).add(
                Seq::new(A::LEN as nat, |j: int| None::<T>),
            ));
        }
        let mut k: usize = 0;
        while k < A::LEN
            invariant
                k <= A::LEN,
                target.len() == A::LEN,
                A::LEN == <A::Index as Niche>::COUNT,
                A::LEN == <A::Bitmap as Bitmap>::WIDTH,
                bitmap.bit_seq().len() == A::LEN,
                values@.len() == count_true(bitmap.bit_seq()),
                forall|j: int| k <= j < A::LEN ==> !#[trigger] bitmap.bit_seq()[j],
                rev@.len() == A::LEN - k,
                forall|m: int| 0 <= m < rev@.len() ==> #[trigger] rev@[m] == target[A::LEN - 1 - m],
                packed_view(bitmap.bit_seq(), values@) == target.take(k as int).add(
                    Seq::new((A::LEN - k) as nat, |j: int| None::<T>),
                ),
            decreases A::LEN - k,
        {
            let slot = rev.pop().unwrap();
            let ghost b = bitmap.bit_seq();
            let ghost vals = values@;
            match A::Index::try_from_usize(k) {
                Some(i) => {
                    match slot {
                        Some(v) => {
                            proof {
                                lemma_count_clear_tail(b, k as int);
                                lemma_packed_view_insert(b, vals, k as int, v);
                                lemma_count_update(b, k as int, true);
                                assert(vals.insert(vals.len() as int, v) =~= vals.push(v));
                            }
                            bitmap = bitmap.with_bit(i);
                            values.push(v);
                            proof {
                                assert(packed_view(bitmap.bit_seq(), values@) =~= target.take(
                                    k + 1,
                                ).add(Seq::new((A::LEN - (k + 1)) as nat, |j: int| None::<T>)));
                            }
                        },
                        None => {
                            proof {
                                assert(packed_view(bitmap.bit_seq(), values@) =~= target.take(
                                    k + 1,
                                ).add(Seq::new((A::LEN - (k + 1)) as nat, |j: int| None::<T>)));
                            }
                        },
                    }
                },
                None => {},
            }
            k = k + 1;
        }
        proof {
            assert(target.take(k as int).add(Seq::new(0, |j: int| None::<T>)) =~= target);
        }
        PackedArray { bitmap, values }
    }
}

impl<T: Clone, A: Arity> PackedArray<T, A> {
    /// Clones each `Some` element of a full-width array into a packed array.
    pub fn from_fixed_ref(src: &FixedArray<Option<T>, A>) -> (r: Self)
        ensures
            clones_of(src@, r@),
    {
        proof {
            A::lemma_len();
        }
        let len = src.len();
        let mut out: FixedArray<Option<T>, A> = FixedArray::new();
        let mut k: usize = 0;
        while k < len
            invariant
                len == A::LEN,
                k <= A::LEN,
                src@.len() == A::LEN,
                out@.len() == A::LEN,
                A::LEN == <A::Index as Niche>::COUNT,
                forall|j: int| k <= j < A::LEN ==> #[trigger] out@[j] is None,
                forall|j: int|
                    0 <= j < k ==> (#[trigger] src@[j] is Some <==> out@[j] is Some) && (src@[j] is Some
                        ==> cloned(src@[j]->0, out@[j]->0)),
            decreases A::LEN - k,
        {
            match A::Index::try_from_usize(k) {
                Some(i) => {
                    match src.get(i) {
                        Some(v) => {
                            let c = v.clone();
                            out.replace(i, Some(c));
                        },
                        None => {},
                    }
                },
                None => {},
            }
            k = k + 1;
        }
        Self::from_fixed(out)
    }

    /// Clones each present element into a full-width array of `Option<T>`.
    pub fn to_fixed(&self) -> (r: FixedArray<Option<T>, A>)
        ensures
            clones_of(self@, r@),
    {
        proof {
            use_type_invariant(self);
            A::lemma_len();
        }
        let mut out: FixedArray<Option<T>, A> = FixedArray::new();
        let mut k: usize = 0;
        while k < A::LEN
            invariant
                k <= A::LEN,
                self@.len() == A::LEN,
                out@.len() == A::LEN,
                A::LEN == <A::Index as Niche>::COUNT,
                forall|j: int| k <= j < A::LEN ==> #[trigger] out@[j] is None,
                forall|j: int|
                    0 <= j < k ==> (#[trigger] self@[j] is Some <==> out@[j] is Some) && (self@[j] is Some
                        ==> cloned(self@[j]->0, out@[j]->0)),
            decreases A::LEN - k,
        {
            match A::Index::try_from_usize(k) {
                Some(i) => {
                    match self.get(i) {
                        Some(v) => {
                            let c = v.clone();
                            out.replace(i, Some(c));
                        },
                        None => {},
                    }
                },
                None => {},
            }
            k = k + 1;
        }
        out
    }
}

impl<T: Clone, A: Arity> Clone for PackedArray<T, A> {
    /// An independent copy: the same slots present, each value cloned.
    fn clone(&self) -> (r: Self)
        ensures
            clones_of(self@, r@),
    {
        proof {
            use_type_invariant(self);
        }
        let values = self.values.clone();
        let r = PackedArray { bitmap: self.bitmap, values };
        proof {
            let b = self.bitmap.bit_seq();
            assert forall|k: int| 0 <= k < self@.len() && self@[k] is Some implies cloned(
                self@[k]->0,
                r@[k]->0,
            ) by {
                lemma_rank_lt_count(b, k);
            }
        }
        r
    }
}

impl<T, A: Arity> Default for PackedArray<T, A> {
    fn default() -> (r: Self)
        ensures
            r@ == Seq::new(A::LEN as nat, |k: int| None::<T>),
    {
        Self::new()
    }
}

/// The elements of `v` in reverse order.
pub(crate) fn reversed<T>(v: Vec<T>) -> (r: Vec<T>)
    ensures
        r@.len() == v@.len(),
        forall|m: int| 0 <= m < r@.len() ==> #[trigger] r@[m] == v@[v@.len() - 1 - m],
{
    let ghost orig = v@;
    let mut src = v;
    let mut out: Vec<T> = Vec::new();
    while src.len() > 0
        invariant
            src@ == orig.take(src@.len() as int),
            out@.len() + src@.len() == orig.len(),
            forall|m: int| 0 <= m < out@.len() ==> #[trigger] out@[m] == orig[orig.len() - 1 - m],
        decreases src@.len(),
    {
        let x = src.pop().unwrap();
        out.push(x);
        assert(src@ =~= orig.take(src@.len() as int));
    }
    out
}

} // verus!
