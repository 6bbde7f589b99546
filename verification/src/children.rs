//! The children representation of a trie node: a marker type selecting one
//! of the three array containers, and the operation set the trie uses on it.

use vstd::prelude::*;

use crate::arity::Arity;
use crate::bitmap::Bitmap;
use crate::count::lemma_count_zero;
use crate::fixed::{present_count, present_entries, present_pairs, FixedArray};
use crate::gapped::GappedArray;
use crate::niche::Niche;
use crate::packed::PackedArray;

verus! {

/// The index-to-edge map the trie uses, and nothing more.
///
/// A map is modelled by [`edges`](ChildMap::edges): one `Option<E>` per index
/// of the arity, `Some` for a present edge.
pub trait ChildMap<A: Arity, E>: Default + Sized {
    /// The edge at each index, `None` where absent.
    spec fn edges(&self) -> Seq<Option<E>>;

    /// The representation invariant the operations keep.
    spec fn wf(&self) -> bool;

    /// A well-formed map has one entry per index.
    proof fn lemma_edges_len(&self)
        requires
            self.wf(),
        ensures
            self.edges().len() == A::LEN,
    ;

    /// The map with no edges.
    fn empty() -> (r: Self)
        ensures
            r.wf(),
            r.edges() == Seq::new(A::LEN as nat, |k: int| None::<E>),
    ;

    /// The edge at `index`, if present.
    fn get(&self, index: A::Index) -> (r: Option<&E>)
        requires
            self.wf(),
        ensures
            match r {
                Some(x) => self.edges()[index.value() as int] == Some(*x),
                None => self.edges()[index.value() as int] is None,
            },
    ;

    /// The edge at `index`, mutably, if present.
    fn get_mut(&mut self, index: A::Index) -> (r: Option<&mut E>)
        requires
            old(self).wf(),
        ensures
            final(self).wf(),
            old(self).edges()[index.value() as int] is None ==> r is None && final(self).edges()
                == old(self).edges(),
            old(self).edges()[index.value() as int] is Some ==> r is Some && Some(*r->0) == old(
                self,
            ).edges()[index.value() as int] && final(self).edges() == old(self).edges().update(
                index.value() as int,
                Some(*final(r->0)),
            ),
    ;

    /// Stores `edge` at `index`, returning the edge it displaced.
    fn insert(&mut self, index: A::Index, edge: E) -> (r: Option<E>)
        requires
            old(self).wf(),
        ensures
            final(self).wf(),
            r == old(self).edges()[index.value() as int],
            final(self).edges() == old(self).edges().update(index.value() as int, Some(edge)),
    ;

    /// Removes and returns the edge at `index`.
    fn remove(&mut self, index: A::Index) -> (r: Option<E>)
        requires
            old(self).wf(),
        ensures
            final(self).wf(),
            r == old(self).edges()[index.value() as int],
            final(self).edges() == old(self).edges().update(index.value() as int, None),
    ;

    /// The number of present edges.
    fn count(&self) -> (r: usize)
        requires
            self.wf(),
        ensures
            r == present_count(self.edges()),
    ;

    /// `true` if no edge is present.
    fn is_empty(&self) -> (r: bool)
        requires
            self.wf(),
        ensures
            r == (present_count(self.edges()) == 0),
    {
        self.count() == 0
    }

    /// If exactly one edge is present, removes and returns it with its
    /// index; otherwise returns `None` and leaves the map unchanged.
    fn take_only_child(&mut self) -> (r: Option<(A::Index, E)>)
        requires
            old(self).wf(),
        ensures
            final(self).wf(),
            present_count(old(self).edges()) == 1 ==> (r matches Some((i, v)) && old(
                self,
            ).edges()[i.value() as int] == Some(v) && final(self).edges() == old(self).edges().update(
                i.value() as int,
                None,
            )),
            present_count(old(self).edges()) != 1 ==> r is None && final(self).edges() == old(
                self,
            ).edges(),
    ;

    /// The present edges, ascending by index.
    fn iter_present(&self) -> (r: Vec<(A::Index, &E)>)
        requires
            self.wf(),
        ensures
            present_pairs(r@, self.edges()),
    ;

    /// The set of present indices.
    fn present(&self) -> (r: A::Bitmap)
        requires
            self.wf(),
        ensures
            r.bit_seq().len() == self.edges().len(),
            forall|k: int|
                0 <= k < self.edges().len() ==> #[trigger] r.bit_seq()[k] == self.edges()[k] is Some,
    ;

    /// Consumes the map, yielding the present edges ascending.
    fn into_edges(self) -> (r: Vec<(A::Index, E)>)
        requires
            self.wf(),
        ensures
            present_entries(r@, self.edges()),
    ;
}

/// Selects the children container of a trie node for edges of type `E`.
pub trait ChildStore<A: Arity, E> {
    /// The container holding edges of type `E`, indexed by `A::Index`.
    type Map: ChildMap<A, E>;
}

/// [`PackedArray`]: only the present edges, reallocated on an insert or
/// remove that changes the child set.
pub struct Packed;

/// [`GappedArray`]: spare capacity, so inserts and removes rarely move
/// edges.
pub struct Gapped;

/// [`FixedArray`]: one slot per index, never reallocated.
pub struct Fixed;

impl<A: Arity, E> ChildStore<A, E> for Packed {
    type Map = PackedArray<E, A>;
}

impl<A: Arity, E> ChildStore<A, E> for Gapped {
    type Map = GappedArray<E, A>;
}

impl<A: Arity, E> ChildStore<A, E> for Fixed {
    type Map = FixedArray<Option<E>, A>;
}

impl<A: Arity, E> ChildMap<A, E> for PackedArray<E, A> {
    open spec fn edges(&self) -> Seq<Option<E>> {
        self@
    }

    open spec fn wf(&self) -> bool {
        self@.len() == A::LEN
    }

    proof fn lemma_edges_len(&self) {
    }

    fn empty() -> (r: Self) {
        PackedArray::new()
    }

    fn get(&self, index: A::Index) -> (r: Option<&E>) {
        PackedArray::get(self, index)
    }

    fn get_mut(&mut self, index: A::Index) -> (r: Option<&mut E>) {
        proof {
            A::lemma_len();
            index.lemma_value();
        }
        PackedArray::get_mut(self, index)
    }

    fn insert(&mut self, index: A::Index, edge: E) -> (r: Option<E>) {
        proof {
            A::lemma_len();
            index.lemma_value();
        }
        PackedArray::insert(self, index, edge)
    }

    fn remove(&mut self, index: A::Index) -> (r: Option<E>) {
        proof {
            A::lemma_len();
            index.lemma_value();
        }
        PackedArray::remove(self, index)
    }

    fn count(&self) -> (r: usize) {
        PackedArray::count(self)
    }

    fn is_empty(&self) -> (r: bool) {
        PackedArray::is_empty(self)
    }

    fn take_only_child(&mut self) -> (r: Option<(A::Index, E)>) {
        proof {
            A::lemma_len();
        }
        let r = PackedArray::take_only_child(self);
        proof {
            if let Some((i, _)) = r {
                i.lemma_value();
            }
        }
        r
    }

    fn iter_present(&self) -> (r: Vec<(A::Index, &E)>) {
        PackedArray::iter_present(self)
    }

    fn present(&self) -> (r: A::Bitmap) {
        self.bitmap()
    }

    fn into_edges(self) -> (r: Vec<(A::Index, E)>) {
        self.into_pairs()
    }
}

impl<A: Arity, E> ChildMap<A, E> for GappedArray<E, A> {
    open spec fn edges(&self) -> Seq<Option<E>> {
        self@
    }

    open spec fn wf(&self) -> bool {
        GappedArray::wf(self) && self@.len() == A::LEN
    }

    proof fn lemma_edges_len(&self) {
    }

    fn empty() -> (r: Self) {
        GappedArray::new()
    }

    fn get(&self, index: A::Index) -> (r: Option<&E>) {
        GappedArray::get(self, index)
    }

    fn get_mut(&mut self, index: A::Index) -> (r: Option<&mut E>) {
        proof {
            A::lemma_len();
            index.lemma_value();
        }
        GappedArray::get_mut(self, index)
    }

    fn insert(&mut self, index: A::Index, edge: E) -> (r: Option<E>) {
        proof {
            A::lemma_len();
            index.lemma_value();
        }
        GappedArray::insert(self, index, edge)
    }

    fn remove(&mut self, index: A::Index) -> (r: Option<E>) {
        proof {
            A::lemma_len();
            index.lemma_value();
        }
        GappedArray::remove(self, index)
    }

    fn count(&self) -> (r: usize) {
        GappedArray::count(self)
    }

    fn is_empty(&self) -> (r: bool) {
        GappedArray::is_empty(self)
    }

    fn take_only_child(&mut self) -> (r: Option<(A::Index, E)>) {
        proof {
            A::lemma_len();
        }
        let r = GappedArray::take_only_child(self);
        proof {
            if let Some((i, _)) = r {
                i.lemma_value();
            }
        }
        r
    }

    fn iter_present(&self) -> (r: Vec<(A::Index, &E)>) {
        GappedArray::iter_present(self)
    }

    fn present(&self) -> (r: A::Bitmap) {
        self.bitmap()
    }

    fn into_edges(self) -> (r: Vec<(A::Index, E)>) {
        self.into_pairs()
    }
}

impl<A: Arity, E> ChildMap<A, E> for FixedArray<Option<E>, A> {
    open spec fn edges(&self) -> Seq<Option<E>> {
        self@
    }

    open spec fn wf(&self) -> bool {
        self@.len() == A::LEN
    }

    proof fn lemma_edges_len(&self) {
    }

    fn empty() -> (r: Self) {
        FixedArray::new()
    }

    fn get(&self, index: A::Index) -> (r: Option<&E>) {
        match FixedArray::get(self, index) {
            Some(x) => Some(x),
            None => None,
        }
    }

    fn get_mut(&mut self, index: A::Index) -> (r: Option<&mut E>) {
        proof {
            A::lemma_len();
            index.lemma_value();
        }
        FixedArray::get_mut(self, index).as_mut()
    }

    fn insert(&mut self, index: A::Index, edge: E) -> (r: Option<E>) {
        proof {
            A::lemma_len();
            index.lemma_value();
        }
        self.replace(index, Some(edge))
    }

    fn remove(&mut self, index: A::Index) -> (r: Option<E>) {
        proof {
            A::lemma_len();
            index.lemma_value();
        }
        self.take(index)
    }

    fn count(&self) -> (r: usize) {
        FixedArray::count(self)
    }

    fn take_only_child(&mut self) -> (r: Option<(A::Index, E)>) {
        proof {
            A::lemma_len();
        }
        let r = FixedArray::take_only_child(self);
        proof {
            if let Some((i, _)) = r {
                i.lemma_value();
            }
        }
        r
    }

    fn iter_present(&self) -> (r: Vec<(A::Index, &E)>) {
        FixedArray::iter_present(self)
    }

    /// One scan of the array; the other two representations keep the bitmap.
    fn present(&self) -> (r: A::Bitmap) {
        proof {
            A::lemma_len();
        }
        let mut bits = A::Bitmap::zero();
        proof {
            bits.lemma_shape();
        }
        let mut k: usize = 0;
        while k < A::LEN
            invariant
                k <= A::LEN,
                self@.len() == A::LEN,
                A::LEN == <A::Index as Niche>::COUNT,
                bits.bit_seq().len() == A::LEN,
                forall|j: int| 0 <= j < A::LEN ==> #[trigger] bits.bit_seq()[j] == (j < k && self@[j] is Some),
            decreases A::LEN - k,
        {
            match A::Index::try_from_usize(k) {
                Some(i) => {
                    if FixedArray::get(self, i).is_some() {
                        bits = bits.with_bit(i);
                    }
                },
                None => {},
            }
            k = k + 1;
        }
        bits
    }

    fn into_edges(self) -> (r: Vec<(A::Index, E)>) {
        proof {
            A::lemma_len();
        }
        let ghost view = self@;
        let slots = self.into_pairs();
        let mut out: Vec<(A::Index, E)> = Vec::new();
        let mut rev = crate::packed::reversed(slots);
        let ghost all = rev@;
        let mut k: usize = 0;
        while k < A::LEN
            invariant
                k <= A::LEN,
                view.len() == A::LEN,
                all.len() == A::LEN,
                rev@.len() == A::LEN - k,
                forall|m: int| 0 <= m < rev@.len() ==> #[trigger] rev@[m] == all[m],
                forall|m: int|
                    0 <= m < A::LEN ==> (#[trigger] all[m]).0.value() == A::LEN - 1 - m
                        && all[m].1 == view[A::LEN - 1 - m],
                present_entries(out@, view.take(k as int)),
            decreases A::LEN - k,
        {
            let (i, slot) = rev.pop().unwrap();
            proof {
                assert(view.take(k + 1).drop_last() =~= view.take(k as int));
            }
            match slot {
                Some(e) => {
                    proof {
                        crate::fixed::lemma_present_entries_push(out@, view.take(k as int), i, e);
                        assert(view.take(k as int).push(Some(e)) =~= view.take(k + 1));
                    }
                    out.push((i, e));
                },
                None => {
                    proof {
                        crate::fixed::lemma_present_entries_skip(out@, view.take(k as int));
                        assert(view.take(k as int).push(None) =~= view.take(k + 1));
                    }
                },
            }
            k = k + 1;
        }
        proof {
            assert(view.take(k as int) =~= view);
        }
        out
    }
}

} // verus!
