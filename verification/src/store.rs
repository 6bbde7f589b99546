//! The edge store: how the edges of a trie resolve to nodes, and the
//! reference in-memory store.

use core::convert::Infallible;
use core::marker::PhantomData;

use vstd::prelude::*;

use crate::arity::Arity;
use crate::children::{ChildMap, ChildStore};
use crate::node::Node;

verus! {

/// The application's node store over edges of type `E`: how an edge
/// resolves to a node, and how an edge carries a hash once sealed.
///
/// An edge is *inline* when its hash is `None` and *sealed* when it is
/// `Some`. Every edge resolves to one node, whatever the state of the store.
pub trait EdgeStore<V, E, A: Arity, S: ChildStore<A, E>>: Sized {
    /// The hash a sealed edge carries.
    type Hash;
    /// The store's failure type; `Infallible` for a store that cannot fail.
    type Error;

    /// The node `edge` resolves to.
    spec fn target(edge: &E) -> Node<V, E, A, S>;

    /// The cached hash of a sealed edge, `None` for an inline one.
    spec fn sealed(edge: &E) -> Option<Self::Hash>;

    /// A bound on the height of the subtree below an edge: every edge of the
    /// node it resolves to has a smaller rank, so a trie is finite.
    spec fn rank(edge: &E) -> nat;

    /// The store never fails: its reads and materializations always succeed,
    /// as for a store whose `Error` is `Infallible`.
    spec fn cannot_fail() -> bool;

    /// Resolves any edge, inline or sealed, to its node. A node handed out
    /// has a well-formed children map whose edges rank below `edge`.
    fn read<'e>(&'e self, edge: &'e E) -> (r: Result<&'e Node<V, E, A, S>, Self::Error>)
        ensures
            Self::cannot_fail() ==> r is Ok,
            r matches Ok(n) ==> *n == Self::target(edge) && n.children_view().wf(),
            r matches Ok(n) ==> forall|k: int|
                0 <= k < n.children_view().edges().len() ==> (
                #[trigger] n.children_view().edges()[k] matches Some(c) ==> Self::rank(&c)
                    < Self::rank(edge)),
    ;

    /// A fresh inline edge around a node.
    fn inline(&mut self, node: Node<V, E, A, S>) -> (r: E)
        requires
            node.children_view().wf(),
        ensures
            Self::target(&r) == node,
            Self::sealed(&r) is None,
            forall|k: int|
                0 <= k < node.children_view().edges().len() ==> (
                #[trigger] node.children_view().edges()[k] matches Some(c) ==> Self::rank(&c)
                    < Self::rank(&r)),
    ;

    /// The node behind an inline edge, taken out of it without the store
    /// and without I/O; a sealed edge is handed back unchanged.
    fn into_inline(edge: E) -> (r: Result<Node<V, E, A, S>, E>)
        ensures
            match r {
                Ok(n) => {
                    &&& Self::sealed(&edge) is None
                    &&& n == Self::target(&edge)
                    &&& n.children_view().wf()
                    &&& forall|k: int|
                        0 <= k < n.children_view().edges().len() ==> (
                        #[trigger] n.children_view().edges()[k] matches Some(c) ==> Self::rank(&c)
                            < Self::rank(&edge))
                },
                Err(e) => Self::sealed(&edge) is Some && e == edge,
            },
    ;

    /// Turns a sealed edge inline in place; on an inline edge it does
    /// nothing. The edge still resolves to the same node, and on `Err` it is
    /// unchanged.
    fn materialize(&mut self, edge: &mut E) -> (r: Result<(), Self::Error>)
        ensures
            Self::cannot_fail() ==> r is Ok,
            Self::target(final(edge)) == Self::target(old(edge)),
            Self::rank(final(edge)) == Self::rank(old(edge)),
            r is Ok ==> Self::sealed(final(edge)) is None,
            r is Err ==> *final(edge) == *old(edge),
    ;

    /// Marks an edge sealed with `hash`, in place; on a sealed edge,
    /// replaces the cached hash. The edge still resolves to the same node.
    fn seal(&mut self, edge: &mut E, hash: Self::Hash)
        ensures
            Self::target(final(edge)) == Self::target(old(edge)),
            Self::rank(final(edge)) == Self::rank(old(edge)),
            Self::sealed(final(edge)) == Some(hash),
    ;

    /// The cached hash of a sealed edge, `None` for an inline one.
    fn hash(edge: &E) -> (r: Option<&Self::Hash>)
        ensures
            match r {
                Some(h) => Self::sealed(edge) == Some(*h),
                None => Self::sealed(edge) is None,
            },
    ;
}

/// Every present edge in `edges` ranks below `bound`.
pub open spec fn ranks_below<V, E, A: Arity, S: ChildStore<A, E>, St: EdgeStore<V, E, A, S>>(
    edges: Seq<Option<E>>,
    bound: nat,
) -> bool {
    forall|k: int| 0 <= k < edges.len() ==> (#[trigger] edges[k] matches Some(c) ==> St::rank(&c)
        < bound)
}

/// The greatest rank of a present edge in `edges`, `0` if none.
pub open spec fn max_rank<V, E, A: Arity, S: ChildStore<A, E>, St: EdgeStore<V, E, A, S>>(
    edges: Seq<Option<E>>,
) -> nat
    decreases edges.len(),
{
    if edges.len() == 0 {
        0
    } else {
        let rest = max_rank::<V, E, A, S, St>(edges.drop_last());
        match edges.last() {
            Some(c) => if St::rank(&c) > rest {
                St::rank(&c)
            } else {
                rest
            },
            None => rest,
        }
    }
}

/// Every present edge ranks at most the greatest rank.
pub proof fn lemma_max_rank<V, E, A: Arity, S: ChildStore<A, E>, St: EdgeStore<V, E, A, S>>(
    edges: Seq<Option<E>>,
)
    ensures
        ranks_below::<V, E, A, S, St>(edges, max_rank::<V, E, A, S, St>(edges) + 1),
    decreases edges.len(),
{
    if edges.len() > 0 {
        lemma_max_rank::<V, E, A, S, St>(edges.drop_last());
        assert forall|k: int| 0 <= k < edges.len() implies (#[trigger] edges[k] matches Some(c)
            ==> St::rank(&c) < max_rank::<V, E, A, S, St>(edges) + 1) by {
            if k < edges.len() - 1 {
                assert(edges[k] == edges.drop_last()[k]);
            }
        }
    }
}

/// An owning edge: the node behind a `Box`, and its hash once sealed.
pub struct MemEdge<V, A: Arity, S: ChildStore<A, MemEdge<V, A, S, H>>, H> {
    node: Option<Box<Node<V, MemEdge<V, A, S, H>, A, S>>>,
    hash: Option<H>,
    height: Ghost<nat>,
}

impl<V, A: Arity, S: ChildStore<A, MemEdge<V, A, S, H>>, H> MemEdge<V, A, S, H> {
    /// An edge always holds a node, whose children map is well formed.
    #[verifier::type_invariant]
    spec fn inv(self) -> bool {
        &&& self.node is Some
        &&& self.node->0.children_view().wf()
        &&& forall|k: int|
            0 <= k < self.node->0.children_view().edges().len() ==> (
            #[trigger] self.node->0.children_view().edges()[k] matches Some(c) ==> c.height@
                < self.height@)
    }

    /// The bound on the height of the subtree below this edge.
    pub closed spec fn height_view(&self) -> nat {
        self.height@
    }

    /// The greatest height bound of a present edge in `edges`, `0` if none.
    pub open spec fn max_height(edges: Seq<Option<MemEdge<V, A, S, H>>>) -> nat
        decreases edges.len(),
    {
        if edges.len() == 0 {
            0
        } else {
            let rest = Self::max_height(edges.drop_last());
            match edges.last() {
                Some(c) => if c.height_view() > rest {
                    c.height_view()
                } else {
                    rest
                },
                None => rest,
            }
        }
    }

    /// Every present edge is bounded by the greatest height bound.
    pub proof fn lemma_max_height(edges: Seq<Option<MemEdge<V, A, S, H>>>)
        ensures
            forall|k: int|
                0 <= k < edges.len() ==> (#[trigger] edges[k] matches Some(c) ==> c.height_view()
                    <= Self::max_height(edges)),
        decreases edges.len(),
    {
        if edges.len() > 0 {
            Self::lemma_max_height(edges.drop_last());
            assert forall|k: int| 0 <= k < edges.len() implies (#[trigger] edges[k] matches Some(c)
                ==> c.height_view() <= Self::max_height(edges)) by {
                if k < edges.len() - 1 {
                    assert(edges[k] == edges.drop_last()[k]);
                }
            }
        }
    }

    /// The node this edge owns.
    pub closed spec fn node_view(&self) -> Node<V, MemEdge<V, A, S, H>, A, S> {
        *self.node->0
    }

    /// The hash this edge carries, if sealed.
    pub closed spec fn hash_view(&self) -> Option<H> {
        self.hash
    }

    /// Takes the edge apart into its node and its hash.
    pub fn into_parts(self) -> (r: (Node<V, MemEdge<V, A, S, H>, A, S>, Option<H>))
        ensures
            r.0 == self.node_view(),
            r.0.children_view().wf(),
            r.1 == self.hash_view(),
    {
        proof {
            use_type_invariant(&self);
        }
        let MemEdge { node, hash, height: _ } = self;
        match node {
            Some(n) => (*n, hash),
            None => (Node::default(), hash),
        }
    }
}

/// The zero-sized store over [`MemEdge`]; it cannot fail and allocates only
/// in [`inline`](EdgeStore::inline), the one place a new node enters the
/// trie.
pub struct InMemory<H> {
    _hash: PhantomData<H>,
}

impl<H> InMemory<H> {
    /// The store.
    pub fn new() -> Self {
        InMemory { _hash: PhantomData }
    }
}

impl<H> Default for InMemory<H> {
    fn default() -> Self {
        InMemory::new()
    }
}

impl<V, A: Arity, S: ChildStore<A, MemEdge<V, A, S, H>>, H> EdgeStore<
    V,
    MemEdge<V, A, S, H>,
    A,
    S,
> for InMemory<H> {
    type Hash = H;

    type Error = Infallible;

    open spec fn target(edge: &MemEdge<V, A, S, H>) -> Node<V, MemEdge<V, A, S, H>, A, S> {
        edge.node_view()
    }

    open spec fn sealed(edge: &MemEdge<V, A, S, H>) -> Option<H> {
        edge.hash_view()
    }

    open spec fn rank(edge: &MemEdge<V, A, S, H>) -> nat {
        edge.height_view()
    }

    open spec fn cannot_fail() -> bool {
        true
    }

    fn read<'e>(&'e self, edge: &'e MemEdge<V, A, S, H>) -> (r: Result<
        &'e Node<V, MemEdge<V, A, S, H>, A, S>,
        Infallible,
    >) {
        proof {
            use_type_invariant(edge);
        }
        let n: &Box<Node<V, MemEdge<V, A, S, H>, A, S>> = edge.node.as_ref().unwrap();
        Ok(n)
    }

    fn inline(&mut self, node: Node<V, MemEdge<V, A, S, H>, A, S>) -> (r: MemEdge<V, A, S, H>) {
        let ghost edges = node.children_view().edges();
        proof {
            MemEdge::<V, A, S, H>::lemma_max_height(edges);
        }
        MemEdge {
            node: Some(Box::new(node)),
            hash: None,
            height: Ghost(MemEdge::<V, A, S, H>::max_height(edges) + 1),
        }
    }

    fn into_inline(edge: MemEdge<V, A, S, H>) -> (r: Result<
        Node<V, MemEdge<V, A, S, H>, A, S>,
        MemEdge<V, A, S, H>,
    >) {
        proof {
            use_type_invariant(&edge);
        }
        if edge.hash.is_some() {
            return Err(edge);
        }
        let (node, _) = edge.into_parts();
        Ok(node)
    }

    fn materialize(&mut self, edge: &mut MemEdge<V, A, S, H>) -> (r: Result<(), Infallible>) {
        proof {
            use_type_invariant(&*edge);
        }
        edge.hash = None;
        Ok(())
    }

    fn seal(&mut self, edge: &mut MemEdge<V, A, S, H>, hash: H) {
        proof {
            use_type_invariant(&*edge);
        }
        edge.hash = Some(hash);
    }

    fn hash(edge: &MemEdge<V, A, S, H>) -> (r: Option<&H>) {
        match &edge.hash {
            Some(h) => Some(h),
            None => None,
        }
    }
}

} // verus!
