//! Owned index paths and the prefix arithmetic the trie shares.

use vstd::prelude::*;
use vstd::slice::slice_subrange;
use vstd::std_specs::cmp::PartialEqSpec;

use crate::arity::Arity;
use crate::niche::Niche;

verus! {

/// An owned run of indices: a node's partial path, or a full key.
#[derive(PartialEq, Eq, PartialOrd, Ord, Hash, Debug)]
pub struct Path<A: Arity> {
    indices: Vec<A::Index>,
}

impl<A: Arity> View for Path<A> {
    type V = Seq<A::Index>;

    closed spec fn view(&self) -> Seq<A::Index> {
        self.indices@
    }
}

/// Appends every element of `s` to `out`.
pub(crate) fn push_all<I: Copy>(out: &mut Vec<I>, s: &[I])
    ensures
        final(out)@ == old(out)@ + s@,
{
    let ghost start = out@;
    let mut k: usize = 0;
    while k < s.len()
        invariant
            k <= s@.len(),
            out@ == start + s@.take(k as int),
        decreases s@.len() - k,
    {
        out.push(s[k]);
        k = k + 1;
        proof {
            assert(out@ =~= start + s@.take(k as int));
        }
    }
    proof {
        assert(s@.take(k as int) =~= s@);
    }
}

impl<A: Arity> Path<A> {
    /// The empty path. Does not allocate.
    pub fn new() -> (r: Self)
        ensures
            r@ == Seq::<A::Index>::empty(),
    {
        Path { indices: Vec::new() }
    }

    /// One index per byte; `None` if any byte is `>= A::LEN`.
    pub fn try_from_bytes(bytes: &[u8]) -> (r: Option<Self>)
        ensures
            r is Some <==> forall|k: int| 0 <= k < bytes@.len() ==> #[trigger] bytes@[k] < A::LEN,
            r matches Some(p) ==> p@.len() == bytes@.len() && forall|k: int|
                0 <= k < bytes@.len() ==> #[trigger] p@[k].value() == bytes@[k],
    {
        proof {
            A::lemma_len();
        }
        match A::Index::try_from_slice(bytes) {
            Some(indices) => Some(Path { indices }),
            None => None,
        }
    }

    /// A path holding the indices of `slice`.
    pub fn from_slice(slice: &[A::Index]) -> (r: Self)
        ensures
            r@ == slice@,
    {
        let mut indices: Vec<A::Index> = Vec::new();
        push_all(&mut indices, slice);
        assert(indices@ =~= slice@);
        Path { indices }
    }

    /// A path taking over the indices of `indices`.
    pub fn from_vec(indices: Vec<A::Index>) -> (r: Self)
        ensures
            r@ == indices@,
    {
        Path { indices }
    }

    /// The indices as a slice.
    pub fn as_slice(&self) -> (r: &[A::Index])
        ensures
            r@ == self@,
    {
        self.indices.as_slice()
    }

    /// The number of indices.
    pub fn len(&self) -> (r: usize)
        ensures
            r == self@.len(),
    {
        self.indices.len()
    }

    /// The path as bytes, one per index.
    pub fn as_bytes(&self) -> (r: Vec<u8>)
        ensures
            r@.len() == self@.len(),
            forall|k: int| 0 <= k < self@.len() ==> #[trigger] r@[k] == self@[k].value(),
    {
        A::Index::as_u8_slice(self.indices.as_slice())
    }
}

impl<A: Arity> Clone for Path<A> {
    fn clone(&self) -> (r: Self)
        ensures
            r@ == self@,
    {
        Path::from_slice(self.indices.as_slice())
    }
}

impl<A: Arity> Default for Path<A> {
    fn default() -> (r: Self)
        ensures
            r@ == Seq::<A::Index>::empty(),
    {
        Path::new()
    }
}

/// The concatenation `head ++ [index] ++ tail`: the partial path of the node
/// that merges a parent (partial path `head`) with its only child (held at
/// `index`, partial path `tail`).
pub fn join<A: Arity>(head: &[A::Index], index: A::Index, tail: &[A::Index]) -> (r: Path<A>)
    ensures
        r@ == head@ + seq![index] + tail@,
{
    let mut indices: Vec<A::Index> = Vec::new();
    push_all(&mut indices, head);
    indices.push(index);
    push_all(&mut indices, tail);
    Path { indices }
}

/// The three-way split of two slices around their longest common prefix.
#[derive(Debug, Clone, Copy, PartialEq, Eq)]
pub struct PrefixOverlap<'a, I> {
    /// The longest common prefix of both inputs.
    pub shared: &'a [I],
    /// What remains of the first input after `shared`.
    pub unique_a: &'a [I],
    /// What remains of the second input after `shared`.
    pub unique_b: &'a [I],
}

/// `==` on `I` follows its specification, which is equality of values.
pub open spec fn eq_is_equality<I: PartialEq>() -> bool {
    &&& I::obeys_eq_spec()
    &&& forall|x: I, y: I| #[trigger] x.eq_spec(&y) <==> x == y
}

/// `n` is the length of the longest common prefix of `a` and `b`, comparing
/// elements by their equality.
pub open spec fn is_common_prefix_len<I: PartialEq>(a: Seq<I>, b: Seq<I>, n: int) -> bool {
    &&& 0 <= n <= a.len()
    &&& n <= b.len()
    &&& forall|k: int| 0 <= k < n ==> (#[trigger] a[k]).eq_spec(&b[k])
    &&& (n == a.len() || n == b.len() || !a[n].eq_spec(&b[n]))
}

/// Splits `a` and `b` around their longest common prefix.
///
/// The first step of a descent: `a` is the unconsumed key and `b` is the
/// current node's partial path, and which of `unique_a` and `unique_b` are
/// empty decides the case. Whatever `I`'s equality, the three parts are a
/// prefix of `a` and the rests of `a` and `b` after it; for an equality that
/// follows its specification the prefix is the longest common one.
pub fn common_prefix<'a, I: PartialEq>(a: &'a [I], b: &'a [I]) -> (r: PrefixOverlap<'a, I>)
    ensures
        r.shared@.len() <= a@.len(),
        r.shared@.len() <= b@.len(),
        r.shared@ == a@.take(r.shared@.len() as int),
        r.unique_a@ == a@.skip(r.shared@.len() as int),
        r.unique_b@ == b@.skip(r.shared@.len() as int),
        r.shared@ + r.unique_a@ == a@,
        (I::obeys_eq_spec() && forall|x: I, y: I| #[trigger] x.eq_spec(&y) ==> x == y) ==> r.shared@
            + r.unique_b@ == b@,
        I::obeys_eq_spec() ==> is_common_prefix_len(a@, b@, r.shared@.len() as int),
{
    let mut n: usize = 0;
    while n < a.len() && n < b.len()
        invariant_except_break
            n <= a@.len(),
            n <= b@.len(),
            I::obeys_eq_spec() ==> forall|k: int| 0 <= k < n ==> (#[trigger] a@[k]).eq_spec(&b@[k]),
        ensures
            n <= a@.len(),
            n <= b@.len(),
            I::obeys_eq_spec() ==> is_common_prefix_len(a@, b@, n as int),
        decreases a@.len() - n,
    {
        if a[n] == b[n] {
            n = n + 1;
        } else {
            break;
        }
    }
    proof {
        assert(a@.take(n as int) + a@.skip(n as int) =~= a@);
        if I::obeys_eq_spec() && forall|x: I, y: I| #[trigger] x.eq_spec(&y) ==> x == y {
            assert(a@.take(n as int) =~= b@.take(n as int));
        }
        assert(b@.take(n as int) + b@.skip(n as int) =~= b@);
    }
    PrefixOverlap {
        shared: slice_subrange(a, 0, n),
        unique_a: slice_subrange(a, n, a.len()),
        unique_b: slice_subrange(b, n, b.len()),
    }
}

} // verus!
