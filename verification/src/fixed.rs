//! [`FixedArray`]: full-width storage, one `T` per slot.

use core::marker::PhantomData;

use vstd::prelude::*;

use crate::arity::Arity;
use crate::niche::Niche;

verus! {

/// A full-width array with one `T` per slot, indexed by `A::Index`.
#[derive(PartialEq, Eq, PartialOrd, Ord, Hash, Debug)]
pub struct FixedArray<T, A: Arity> {
    slots: Vec<T>,
    _arity: PhantomData<A>,
}

impl<T, A: Arity> View for FixedArray<T, A> {
    type V = Seq<T>;

    closed spec fn view(&self) -> Seq<T> {
        self.slots@
    }
}

/// The index of value `k`, for `k < A::LEN`.
pub open spec fn index_of<A: Arity>(k: int) -> A::Index {
    choose|i: A::Index| i.value() == k
}

impl<T, A: Arity> FixedArray<T, A> {
    #[verifier::type_invariant]
    spec fn inv(self) -> bool {
        self.slots@.len() == A::LEN
    }

    /// The number of slots, always `A::LEN`.
    pub fn len(&self) -> (r: usize)
        ensures
            r == self@.len(),
            r == A::LEN,
    {
        proof {
            use_type_invariant(self);
        }
        self.slots.len()
    }

    /// Wraps a vector of exactly `A::LEN` slots.
    pub(crate) fn from_vec(slots: Vec<T>) -> (r: Self)
        requires
            slots@.len() == A::LEN,
        ensures
            r@ == slots@,
    {
        FixedArray { slots, _arity: PhantomData }
    }

    /// Unwraps the slots.
    pub(crate) fn into_vec(self) -> (r: Vec<T>)
        ensures
            r@ == self@,
            r@.len() == A::LEN,
    {
        proof {
            use_type_invariant(&self);
        }
        self.slots
    }

    /// Builds a `FixedArray` by calling `f` for every index in ascending order.
    pub fn from_fn<F: Fn(A::Index) -> T>(f: F) -> (r: Self)
        requires
            forall|i: A::Index| #[trigger] f.requires((i,)),
        ensures
            r@.len() == A::LEN,
            forall|i: A::Index| f.ensures((i,), #[trigger] r@[i.value() as int]),
    {
        proof {
            A::lemma_len();
        }
        let mut slots: Vec<T> = Vec::new();
        let mut k: usize = 0;
        while k < A::LEN
            invariant
                k <= A::LEN,
                A::LEN == <A::Index as Niche>::COUNT,
                slots@.len() == k,
                forall|i: A::Index| #[trigger] f.requires((i,)),
                forall|i: A::Index|
                    i.value() < k ==> f.ensures((i,), #[trigger] slots@[i.value() as int]),
            decreases A::LEN - k,
        {
            match A::Index::try_from_usize(k) {
                Some(i) => {
                    let v = f(i);
                    proof {
                        assert forall|j: A::Index| j.value() < k + 1 implies f.ensures(
                            (j,),
                            #[trigger] slots@.push(v)[j.value() as int],
                        ) by {
                            if j.value() == k {
                                A::Index::lemma_injective(i, j);
                            }
                        }
                    }
                    slots.push(v);
                },
                None => {},
            }
            k = k + 1;
        }
        proof {
            assert forall|i: A::Index| f.ensures((i,), #[trigger] slots@[i.value() as int]) by {
                i.lemma_value();
            }
        }
        FixedArray { slots, _arity: PhantomData }
    }

    /// Returns a reference to the element at `index`. Infallible: every value
    /// of `A::Index` is in bounds.
    pub fn get(&self, index: A::Index) -> (r: &T)
        ensures
            *r == self@[index.value() as int],
    {
        proof {
            use_type_invariant(self);
            index.lemma_value();
            A::lemma_len();
        }
        &self.slots[index.as_usize()]
    }

    /// Returns a mutable reference to the element at `index`.
    pub fn get_mut(&mut self, index: A::Index) -> (r: &mut T)
        ensures
            *r == old(self)@[index.value() as int],
            final(self)@ == old(self)@.update(index.value() as int, *final(r)),
    {
        proof {
            use_type_invariant(&*self);
            index.lemma_value();
            A::lemma_len();
        }
        &mut self.slots[index.as_usize()]
    }

    /// Replaces the element at `index`, returning the previous value.
    pub fn replace(&mut self, index: A::Index, value: T) -> (r: T)
        ensures
            r == old(self)@[index.value() as int],
            final(self)@ == old(self)@.update(index.value() as int, value),
    {
        let mut v = value;
        core::mem::swap(self.get_mut(index), &mut v);
        v
    }

    /// Maps each element to a new value, with its index, returning a new
    /// array.
    pub fn map<O, F: Fn(A::Index, T) -> O>(self, f: F) -> (r: FixedArray<O, A>)
        requires
            forall|i: A::Index, t: T| #[trigger] f.requires((i, t)),
        ensures
            r@.len() == A::LEN,
            forall|i: A::Index|
                f.ensures((i, self@[i.value() as int]), #[trigger] r@[i.value() as int]),
    {
        proof {
            use_type_invariant(&self);
            A::lemma_len();
        }
        let ghost orig = self@;
        let FixedArray { slots, _arity } = self;
        let mut src = slots;
        let mut rev: Vec<O> = Vec::new();
        let mut k: usize = A::LEN;
        while k > 0
            invariant
                k <= A::LEN,
                A::LEN == <A::Index as Niche>::COUNT,
                orig.len() == A::LEN,
                src@ == orig.take(k as int),
                rev@.len() == A::LEN - k,
                forall|i: A::Index, t: T| #[trigger] f.requires((i, t)),
                forall|i: A::Index|
                    k <= i.value() < A::LEN ==> f.ensures(
                        (i, orig[i.value() as int]),
                        #[trigger] rev@[A::LEN - 1 - i.value()],
                    ),
            decreases k,
        {
            k = k - 1;
            let t = src.pop().unwrap();
            match A::Index::try_from_usize(k) {
                Some(i) => {
                    let o = f(i, t);
                    proof {
                        assert forall|j: A::Index| k <= j.value() < A::LEN implies f.ensures(
                            (j, orig[j.value() as int]),
                            #[trigger] rev@.push(o)[A::LEN - 1 - j.value()],
                        ) by {
                            if j.value() == k {
                                A::Index::lemma_injective(i, j);
                            }
                        }
                    }
                    rev.push(o);
                },
                None => {},
            }
            assert(src@ =~= orig.take(k as int));
        }
        let mut out: Vec<O> = Vec::new();
        let ghost full = rev@;
        while rev.len() > 0
            invariant
                rev@ == full.take(rev@.len() as int),
                full.len() == A::LEN,
                out@.len() + rev@.len() == A::LEN,
                forall|m: int| 0 <= m < out@.len() ==> #[trigger] out@[m] == full[A::LEN - 1 - m],
            decreases rev@.len(),
        {
            let o = rev.pop().unwrap();
            out.push(o);
            assert(rev@ =~= full.take(rev@.len() as int));
        }
        proof {
            assert forall|i: A::Index|
                f.ensures((i, orig[i.value() as int]), #[trigger] out@[i.value() as int]) by {
                i.lemma_value();
                assert(out@[i.value() as int] == full[A::LEN - 1 - i.value()]);
            }
        }
        FixedArray { slots: out, _arity: PhantomData }
    }

    /// Every slot with its index, ascending.
    pub fn iter(&self) -> (r: Vec<(A::Index, &T)>)
        ensures
            r@.len() == self@.len(),
            forall|k: int|
                0 <= k < r@.len() ==> (#[trigger] r@[k]).0.value() == k && *r@[k].1 == self@[k],
    {
        proof {
            use_type_invariant(self);
            A::lemma_len();
        }
        let mut out: Vec<(A::Index, &T)> = Vec::new();
        let mut k: usize = 0;
        while k < self.slots.len()
            invariant
                k <= self@.len(),
                self@.len() == A::LEN,
                A::LEN == <A::Index as Niche>::COUNT,
                out@.len() == k,
                forall|j: int|
                    0 <= j < k ==> (#[trigger] out@[j]).0.value() == j && *out@[j].1 == self@[j],
            decreases self@.len() - k,
        {
            match A::Index::try_from_usize(k) {
                Some(i) => out.push((i, &self.slots[k])),
                None => {},
            }
            k = k + 1;
        }
        out
    }

    /// Consumes the array, yielding every slot with its index, ascending.
    pub fn into_pairs(self) -> (r: Vec<(A::Index, T)>)
        ensures
            r@.len() == self@.len(),
            forall|k: int|
                0 <= k < r@.len() ==> (#[trigger] r@[k]).0.value() == k && r@[k].1 == self@[k],
    {
        proof {
            use_type_invariant(&self);
            A::lemma_len();
        }
        let ghost orig = self@;
        let FixedArray { slots, _arity } = self;
        let mut src = slots;
        let mut rev: Vec<(A::Index, T)> = Vec::new();
        let mut k: usize = A::LEN;
        while k > 0
            invariant
                k <= A::LEN,
                A::LEN == <A::Index as Niche>::COUNT,
                orig.len() == A::LEN,
                src@ == orig.take(k as int),
                rev@.len() == A::LEN - k,
                forall|m: int|
                    0 <= m < rev@.len() ==> (#[trigger] rev@[m]).0.value() == A::LEN - 1 - m
                        && rev@[m].1 == orig[A::LEN - 1 - m],
            decreases k,
        {
            k = k - 1;
            let t = src.pop().unwrap();
            match A::Index::try_from_usize(k) {
                Some(i) => rev.push((i, t)),
                None => {},
            }
            assert(src@ =~= orig.take(k as int));
        }
        let mut out: Vec<(A::Index, T)> = Vec::new();
        let ghost full = rev@;
        while rev.len() > 0
            invariant
                rev@ == full.take(rev@.len() as int),
                full.len() == A::LEN,
                out@.len() + rev@.len() == A::LEN,
                forall|m: int| 0 <= m < out@.len() ==> #[trigger] out@[m] == full[A::LEN - 1 - m],
            decreases rev@.len(),
        {
            let o = rev.pop().unwrap();
            out.push(o);
            assert(rev@ =~= full.take(rev@.len() as int));
        }
        out
    }
}

impl<T, A: Arity> FixedArray<Option<T>, A> {
    /// Creates a `FixedArray` with every slot `None`.
    pub fn new() -> (r: Self)
        ensures
            r@ == Seq::new(A::LEN as nat, |k: int| None::<T>),
    {
        proof {
            A::lemma_len();
        }
        let mut slots: Vec<Option<T>> = Vec::new();
        let mut k: usize = 0;
        while k < A::LEN
            invariant
                k <= A::LEN,
                slots@ == Seq::new(k as nat, |j: int| None::<T>),
            decreases A::LEN - k,
        {
            slots.push(None);
            k = k + 1;
            assert(slots@ =~= Seq::new(k as nat, |j: int| None::<T>));
        }
        FixedArray { slots, _arity: PhantomData }
    }

    /// Returns the number of `Some` slots.
    pub fn count(&self) -> (r: usize)
        ensures
            r == present_count(self@),
    {
        proof {
            use_type_invariant(self);
        }
        let mut n: usize = 0;
        let mut k: usize = 0;
        while k < self.slots.len()
            invariant
                k <= self@.len(),
                self@.len() == A::LEN,
                A::LEN <= 256 || true,
                n == present_count(self@.take(k as int)),
                n <= k,
            decreases self@.len() - k,
        {
            proof {
                assert(self@.take(k + 1).drop_last() =~= self@.take(k as int));
            }
            if self.slots[k].is_some() {
                n = n + 1;
            }
            k = k + 1;
        }
        proof {
            assert(self@.take(k as int) =~= self@);
        }
        n
    }

    /// Sets the slot at `index` to `None`, returning the previous value.
    pub fn take(&mut self, index: A::Index) -> (r: Option<T>)
        ensures
            r == old(self)@[index.value() as int],
            final(self)@ == old(self)@.update(index.value() as int, None),
    {
        self.replace(index, None)
    }

    /// The present (`Some`) slots as `(A::Index, &T)`, ascending.
    pub fn iter_present(&self) -> (r: Vec<(A::Index, &T)>)
        ensures
            present_pairs(r@, self@),
    {
        proof {
            use_type_invariant(self);
            A::lemma_len();
        }
        let mut out: Vec<(A::Index, &T)> = Vec::new();
        let mut k: usize = 0;
        while k < self.slots.len()
            invariant
                k <= self@.len(),
                self@.len() == A::LEN,
                A::LEN == <A::Index as Niche>::COUNT,
                present_pairs(out@, self@.take(k as int)),
            decreases self@.len() - k,
        {
            proof {
                assert(self@.take(k + 1).drop_last() =~= self@.take(k as int));
            }
            match &self.slots[k] {
                Some(v) => {
                    match A::Index::try_from_usize(k) {
                        Some(i) => {
                            proof {
                                lemma_present_pairs_push(out@, self@.take(k as int), i, v);
                            }
                            out.push((i, v));
                        },
                        None => {},
                    }
                },
                None => {
                    proof {
                        lemma_present_pairs_skip(out@, self@.take(k as int));
                    }
                },
            }
            k = k + 1;
        }
        proof {
            assert(self@.take(k as int) =~= self@);
        }
        out
    }

    /// If exactly one slot is present, takes and returns it with its index;
    /// otherwise returns `None` and leaves the array unchanged.
    pub fn take_only_child(&mut self) -> (r: Option<(A::Index, T)>)
        ensures
            present_count(old(self)@) == 1 ==> (r matches Some((i, v)) && old(self)@[i.value() as int]
                == Some(v) && final(self)@ == old(self)@.update(i.value() as int, None)),
            present_count(old(self)@) != 1 ==> r is None && final(self)@ == old(self)@,
    {
        let present = self.iter_present();
        if present.len() != 1 {
            proof {
                lemma_present_pairs_len(present@, self@);
            }
            return None;
        }
        let only = present[0].0;
        proof {
            lemma_present_pairs_len(present@, self@);
            lemma_present_pairs_member(present@, self@, 0);
        }
        match self.take(only) {
            Some(v) => Some((only, v)),
            None => None,
        }
    }
}

impl<T: Clone, A: Arity> Clone for FixedArray<T, A> {
    fn clone(&self) -> (r: Self)
        ensures
            r@.len() == self@.len(),
            forall|k: int| 0 <= k < self@.len() ==> cloned::<T>(self@[k], #[trigger] r@[k]),
    {
        proof {
            use_type_invariant(self);
        }
        FixedArray { slots: self.slots.clone(), _arity: PhantomData }
    }
}

impl<T, A: Arity> Default for FixedArray<Option<T>, A> {
    fn default() -> (r: Self)
        ensures
            r@ == Seq::new(A::LEN as nat, |k: int| None::<T>),
    {
        Self::new()
    }
}

/// `b` is a slot-by-slot clone of `a`: the same slots are present, and each
/// present value of `b` is a clone of the value in the same slot of `a`.
pub open spec fn clones_of<T: Clone>(a: Seq<Option<T>>, b: Seq<Option<T>>) -> bool {
    &&& a.len() == b.len()
    &&& forall|k: int|
        0 <= k < a.len() ==> (#[trigger] a[k] is Some <==> b[k] is Some) && (a[k] is Some
            ==> cloned(a[k]->0, b[k]->0))
}

/// The number of `Some` entries.
pub open spec fn present_count<T>(s: Seq<Option<T>>) -> nat
    decreases s.len(),
{
    if s.len() == 0 {
        0
    } else {
        present_count(s.drop_last()) + if s.last() is Some {
            1nat
        } else {
            0nat
        }
    }
}

/// `pairs` lists the `Some` entries of `s` with their positions, ascending.
pub open spec fn present_pairs<I: Niche, T>(pairs: Seq<(I, &T)>, s: Seq<Option<T>>) -> bool {
    &&& pairs.len() == present_count(s)
    &&& forall|m: int|
        0 <= m < pairs.len() ==> 0 <= (#[trigger] pairs[m]).0.value() < s.len() && s[pairs[m].0.value() as int]
            == Some(*pairs[m].1)
    &&& forall|m: int, n: int|
        0 <= m < n < pairs.len() ==> (#[trigger] pairs[m]).0.value() < (#[trigger] pairs[n]).0.value()
}

pub proof fn lemma_present_count_le<T>(s: Seq<Option<T>>)
    ensures
        present_count(s) <= s.len(),
    decreases s.len(),
{
    if s.len() > 0 {
        lemma_present_count_le(s.drop_last());
    }
}

pub proof fn lemma_present_pairs_push<I: Niche, T>(pairs: Seq<(I, &T)>, s: Seq<Option<T>>, i: I, v: &T)
    requires
        present_pairs(pairs, s),
        i.value() == s.len(),
    ensures
        present_pairs(pairs.push((i, v)), s.push(Some(*v))),
{
    assert(s.push(Some(*v)).drop_last() =~= s);
}

pub proof fn lemma_present_pairs_skip<I: Niche, T>(pairs: Seq<(I, &T)>, s: Seq<Option<T>>)
    requires
        present_pairs(pairs, s),
    ensures
        present_pairs(pairs, s.push(None)),
{
    assert(s.push(None).drop_last() =~= s);
}

/// `pairs` lists the `Some` entries of `s`, moved out, with their positions,
/// ascending.
pub open spec fn present_entries<I: Niche, T>(pairs: Seq<(I, T)>, s: Seq<Option<T>>) -> bool {
    &&& pairs.len() == present_count(s)
    &&& forall|m: int|
        0 <= m < pairs.len() ==> 0 <= (#[trigger] pairs[m]).0.value() < s.len() && s[pairs[m].0.value() as int]
            == Some(pairs[m].1)
    &&& forall|m: int, n: int|
        0 <= m < n < pairs.len() ==> (#[trigger] pairs[m]).0.value() < (#[trigger] pairs[n]).0.value()
}

/// Appending an entry for the next slot keeps an entry list exact.
pub proof fn lemma_present_entries_push<I: Niche, T>(pairs: Seq<(I, T)>, s: Seq<Option<T>>, i: I, v: T)
    requires
        present_entries(pairs, s),
        i.value() == s.len(),
    ensures
        present_entries(pairs.push((i, v)), s.push(Some(v))),
{
    assert(s.push(Some(v)).drop_last() =~= s);
}

/// An empty next slot leaves an entry list exact.
pub proof fn lemma_present_entries_skip<I: Niche, T>(pairs: Seq<(I, T)>, s: Seq<Option<T>>)
    requires
        present_entries(pairs, s),
    ensures
        present_entries(pairs, s.push(None)),
{
    assert(s.push(None).drop_last() =~= s);
}

/// A present-pair list has as many entries as there are `Some` slots.
pub proof fn lemma_present_pairs_len<I: Niche, T>(pairs: Seq<(I, &T)>, s: Seq<Option<T>>)
    requires
        present_pairs(pairs, s),
    ensures
        pairs.len() == present_count(s),
{
}

/// Each entry of a present-pair list names a `Some` slot.
pub proof fn lemma_present_pairs_member<I: Niche, T>(
    pairs: Seq<(I, &T)>,
    s: Seq<Option<T>>,
    m: int,
)
    requires
        present_pairs(pairs, s),
        0 <= m < pairs.len(),
    ensures
        s[pairs[m].0.value() as int] == Some(*pairs[m].1),
{
}

} // verus!
