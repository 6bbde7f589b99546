//! Double-ended ranges over [`Niche`](crate::niche::Niche) values.
//!
//! They store bounds as `usize` and reconstruct each value at yield time; the
//! cursor is always `< COUNT` by construction.

use core::marker::PhantomData;

use vstd::prelude::*;

use crate::niche::Niche;

verus! {

/// The integers `lo, lo + 1, ..., hi - 1` (empty when `lo >= hi`).
pub open spec fn int_run(lo: int, hi: int) -> Seq<int> {
    if lo < hi {
        Seq::new((hi - lo) as nat, |k: int| lo + k)
    } else {
        Seq::empty()
    }
}

/// A half-open range `[start, end)` over the values of a [`Niche`] type.
pub struct NicheRange<N: Niche> {
    lo: usize,
    hi: usize,
    _marker: PhantomData<N>,
}

impl<N: Niche> NicheRange<N> {
    #[verifier::type_invariant]
    spec fn inv(self) -> bool {
        self.hi <= N::COUNT
    }

    /// The values still to be yielded, in ascending order.
    pub closed spec fn remaining(&self) -> Seq<int> {
        int_run(self.lo as int, self.hi as int)
    }

    /// Creates the half-open range `[start, end)`. Empty if `start >= end`.
    pub fn new(start: N, end: N) -> (r: Self)
        ensures
            r.remaining() == int_run(start.value() as int, end.value() as int),
    {
        proof {
            end.lemma_value();
        }
        NicheRange { lo: start.as_usize(), hi: end.as_usize(), _marker: PhantomData }
    }

    /// Yields the lowest remaining value.
    pub fn next(&mut self) -> (r: Option<N>)
        ensures
            old(self).remaining().len() == 0 ==> r is None && final(self).remaining() == old(
                self,
            ).remaining(),
            old(self).remaining().len() > 0 ==> (r matches Some(x) && x.value()
                == old(self).remaining()[0]) && final(self).remaining() == old(
                self,
            ).remaining().drop_first(),
    {
        proof {
            use_type_invariant(&*self);
        }
        if self.lo >= self.hi {
            return None;
        }
        let v = N::try_from_usize(self.lo);
        self.lo = self.lo + 1;
        proof {
            assert(self.remaining() =~= old(self).remaining().drop_first());
        }
        v
    }

    /// Yields the highest remaining value.
    pub fn next_back(&mut self) -> (r: Option<N>)
        ensures
            old(self).remaining().len() == 0 ==> r is None && final(self).remaining() == old(
                self,
            ).remaining(),
            old(self).remaining().len() > 0 ==> (r matches Some(x) && x.value()
                == old(self).remaining().last()) && final(self).remaining() == old(
                self,
            ).remaining().drop_last(),
    {
        proof {
            use_type_invariant(&*self);
        }
        if self.lo >= self.hi {
            return None;
        }
        self.hi = self.hi - 1;
        proof {
            assert(self.remaining() =~= old(self).remaining().drop_last());
        }
        N::try_from_usize(self.hi)
    }

    /// The number of values still to be yielded.
    pub fn len(&self) -> (r: usize)
        ensures
            r == self.remaining().len(),
    {
        if self.hi > self.lo {
            self.hi - self.lo
        } else {
            0
        }
    }
}

/// A closed range `[start, end]` over the values of a [`Niche`] type.
pub struct NicheRangeInclusive<N: Niche> {
    lo: usize,
    hi: usize,
    done: bool,
    _marker: PhantomData<N>,
}

impl<N: Niche> NicheRangeInclusive<N> {
    #[verifier::type_invariant]
    spec fn inv(self) -> bool {
        &&& self.hi < N::COUNT
        &&& !self.done ==> self.lo <= self.hi
    }

    /// The values still to be yielded, in ascending order.
    pub closed spec fn remaining(&self) -> Seq<int> {
        if self.done {
            Seq::empty()
        } else {
            int_run(self.lo as int, self.hi as int + 1)
        }
    }

    /// Creates the closed range `[start, end]`. Empty if `start > end`.
    pub fn new(start: N, end: N) -> (r: Self)
        ensures
            r.remaining() == int_run(start.value() as int, end.value() as int + 1),
    {
        proof {
            end.lemma_value();
        }
        let lo = start.as_usize();
        let hi = end.as_usize();
        NicheRangeInclusive { lo, hi, done: lo > hi, _marker: PhantomData }
    }

    /// The whole domain `[0, COUNT - 1]`.
    pub fn full() -> (r: Self)
        ensures
            r.remaining() == Seq::new(N::COUNT as nat, |k: int| k),
    {
        proof {
            N::lemma_count();
        }
        let r = NicheRangeInclusive { lo: 0, hi: N::COUNT - 1, done: false, _marker: PhantomData };
        assert(r.remaining() =~= Seq::new(N::COUNT as nat, |k: int| k));
        r
    }

    /// Yields the lowest remaining value.
    pub fn next(&mut self) -> (r: Option<N>)
        ensures
            old(self).remaining().len() == 0 ==> r is None && final(self).remaining() == old(
                self,
            ).remaining(),
            old(self).remaining().len() > 0 ==> (r matches Some(x) && x.value()
                == old(self).remaining()[0]) && final(self).remaining() == old(
                self,
            ).remaining().drop_first(),
    {
        proof {
            use_type_invariant(&*self);
        }
        if self.done {
            return None;
        }
        let v = N::try_from_usize(self.lo);
        if self.lo == self.hi {
            self.done = true;
        } else {
            self.lo = self.lo + 1;
        }
        proof {
            assert(self.remaining() =~= old(self).remaining().drop_first());
        }
        v
    }

    /// Yields the highest remaining value.
    pub fn next_back(&mut self) -> (r: Option<N>)
        ensures
            old(self).remaining().len() == 0 ==> r is None && final(self).remaining() == old(
                self,
            ).remaining(),
            old(self).remaining().len() > 0 ==> (r matches Some(x) && x.value()
                == old(self).remaining().last()) && final(self).remaining() == old(
                self,
            ).remaining().drop_last(),
    {
        proof {
            use_type_invariant(&*self);
        }
        if self.done {
            return None;
        }
        let v = N::try_from_usize(self.hi);
        if self.lo == self.hi {
            self.done = true;
        } else {
            self.hi = self.hi - 1;
        }
        proof {
            assert(self.remaining() =~= old(self).remaining().drop_last());
        }
        v
    }

    /// The number of values still to be yielded.
    pub fn len(&self) -> (r: usize)
        ensures
            r == self.remaining().len(),
    {
        proof {
            use_type_invariant(self);
        }
        if self.done {
            0
        } else {
            self.hi - self.lo + 1
        }
    }
}

} // verus!
