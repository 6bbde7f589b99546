//! The pluggable hash scheme of a trie and the Merkle hash walk.
//!
//! A sealed hash records nothing about the hasher that computed it, and
//! [`hash`] admits any hasher whose `Hash` type matches, so every sealed edge
//! in a trie belongs to one hasher, algorithm and configuration included,
//! for as long as it is sealed; to change hasher, turn every edge inline
//! first (see [`EdgeStore::materialize`]).

use vstd::prelude::*;

use crate::arity::Arity;
use crate::children::{ChildMap, ChildStore};
use crate::fixed::{index_of, present_count};
use crate::niche::Niche;
use crate::node::Node;
use crate::ops::lookup;
use crate::path::push_all;
use crate::store::{lemma_max_rank, max_rank, ranks_below, EdgeStore};

verus! {

/// Everything a scheme needs to hash one node.
///
/// `leading_path` is the full path from the root to the node's slot in its
/// parent; `children` lists the present children's indices and hashes,
/// ascending; `siblings` is the number of present children of the node's
/// parent, counting the node itself, and `0` for the root.
pub struct HashInput<'a, V, A: Arity, H> {
    /// The full path from the root to the node's slot in its parent.
    pub leading_path: &'a [A::Index],
    /// The node's own partial path.
    pub partial_path: &'a [A::Index],
    /// The node's value, if any.
    pub value: Option<&'a V>,
    /// Present children of the parent, counting this node; `0` at the root.
    pub siblings: usize,
    /// The present children's indices and hashes, ascending.
    pub children: Vec<(A::Index, &'a H)>,
}

/// A hash scheme over a trie, implemented by the application.
///
/// A scheme hashes a node from its input alone: the same input always gives
/// the same hash, [`node_hash`](TrieHasher::node_hash).
pub trait TrieHasher<V, A: Arity> {
    /// The hash type; the store's `Hash` must equal it.
    type Hash;

    /// The hash of a node with the given parts.
    spec fn node_hash(
        &self,
        leading_path: Seq<A::Index>,
        partial_path: Seq<A::Index>,
        value: Option<V>,
        siblings: nat,
        children: Seq<(A::Index, Self::Hash)>,
    ) -> Self::Hash;

    /// Hashes one node from its input.
    fn hash_node(&self, input: HashInput<'_, V, A, Self::Hash>) -> (r: Self::Hash)
        ensures
            r == self.node_hash(
                input.leading_path@,
                input.partial_path@,
                match input.value {
                    Some(v) => Some(*v),
                    None => None,
                },
                input.siblings as nat,
                input.children@.map_values(|c: (A::Index, &Self::Hash)| (c.0, *c.1)),
            ),
    ;

    /// Whether the children of the node at this position hash differently
    /// depending on whether they have siblings.
    spec fn sensitive(&self, leading_path: Seq<A::Index>, partial_path: Seq<A::Index>) -> bool;

    /// A child's hash depends on its parent's number of children only
    /// through whether it is an only child, and not at all unless the
    /// parent, at `leading_path` with partial path `partial_path`, is
    /// sibling-sensitive.
    proof fn lemma_sibling_forms(
        &self,
        leading_path: Seq<A::Index>,
        partial_path: Seq<A::Index>,
        index: A::Index,
        child_path: Seq<A::Index>,
        value: Option<V>,
        children: Seq<(A::Index, Self::Hash)>,
        a: nat,
        b: nat,
    )
        requires
            a >= 1,
            b >= 1,
            !self.sensitive(leading_path, partial_path) || ((a == 1) == (b == 1)),
        ensures
            self.node_hash(
                (leading_path + partial_path).push(index),
                child_path,
                value,
                a,
                children,
            ) == self.node_hash(
                (leading_path + partial_path).push(index),
                child_path,
                value,
                b,
                children,
            ),
    ;

    /// `true` if the children of the node at this position hash differently
    /// depending on whether they have siblings: a child's hash may take one
    /// form when it is an only child and another when it has siblings, never
    /// depend on the exact count. A scheme without such a dependency returns
    /// `false`.
    fn sibling_sensitive(&self, leading_path: &[A::Index], partial_path: &[A::Index]) -> (r: bool)
        ensures
            r == self.sensitive(leading_path@, partial_path@),
    ;

    /// The value stored at a node once its children's hashes are known.
    spec fn rewrite(
        &self,
        leading_path: Seq<A::Index>,
        partial_path: Seq<A::Index>,
        children: Seq<(A::Index, Self::Hash)>,
        value: V,
    ) -> V;

    /// Rewrites a node's stored value from its children's hashes before the
    /// node is hashed. A scheme that stores values as written leaves `value`
    /// as it is.
    fn update_value(
        &self,
        leading_path: &[A::Index],
        partial_path: &[A::Index],
        children: Vec<(A::Index, &Self::Hash)>,
        value: &mut V,
    )
        ensures
            *final(value) == self.rewrite(
                leading_path@,
                partial_path@,
                children@.map_values(|c: (A::Index, &Self::Hash)| (c.0, *c.1)),
                *old(value),
            ),
    ;
}

/// The sealed hashes of the present edges in `edges`, with their indices,
/// ascending.
pub open spec fn sealed_children<V, E, A: Arity, S: ChildStore<A, E>, St: EdgeStore<V, E, A, S>>(
    edges: Seq<Option<E>>,
) -> Seq<(A::Index, St::Hash)>
    decreases edges.len(),
{
    if edges.len() == 0 {
        Seq::empty()
    } else {
        let rest = sealed_children::<V, E, A, S, St>(edges.drop_last());
        match edges.last() {
            Some(e) => rest.push((index_of::<A>(edges.len() - 1), St::sealed(&e)->0)),
            None => rest,
        }
    }
}

/// Every present edge in `edges` is sealed.
pub open spec fn all_sealed<V, E, A: Arity, S: ChildStore<A, E>, St: EdgeStore<V, E, A, S>>(
    edges: Seq<Option<E>>,
) -> bool {
    forall|k: int| 0 <= k < edges.len() ==> (#[trigger] edges[k] matches Some(e) ==> St::sealed(
        &e,
    ) is Some)
}

/// The number of present, sealed edges in `edges`.
pub open spec fn sealed_count<V, E, A: Arity, S: ChildStore<A, E>, St: EdgeStore<V, E, A, S>>(
    edges: Seq<Option<E>>,
) -> nat
    decreases edges.len(),
{
    if edges.len() == 0 {
        0
    } else {
        let rest = sealed_count::<V, E, A, S, St>(edges.drop_last());
        match edges.last() {
            Some(e) => if St::sealed(&e) is Some {
                rest + 1
            } else {
                rest
            },
            None => rest,
        }
    }
}

/// The edge at `j` of `edges` is present and sealed.
pub open spec fn sealed_at<V, E, A: Arity, S: ChildStore<A, E>, St: EdgeStore<V, E, A, S>>(
    edges: Seq<Option<E>>,
    j: int,
) -> bool {
    edges[j] matches Some(e) && St::sealed(&e) is Some
}

/// The node at `leading` followed by `partial`, with children `edges`, is
/// sibling-sensitive and has exactly one sealed child, which the walk
/// hashes again.
pub open spec fn lone_sealed<
    V,
    E,
    A: Arity,
    S: ChildStore<A, E>,
    St: EdgeStore<V, E, A, S>,
    Hs: TrieHasher<V, A, Hash = St::Hash>,
>(hs: Hs, edges: Seq<Option<E>>, leading: Seq<A::Index>, partial: Seq<A::Index>) -> bool {
    sealed_count::<V, E, A, S, St>(edges) == 1 && hs.sensitive(leading, partial)
}

/// The scheme is never sibling-sensitive, so the walk never hashes a sealed
/// child again.
pub open spec fn never_sensitive<V, A: Arity, Hs: TrieHasher<V, A>>(hs: Hs) -> bool {
    forall|leading: Seq<A::Index>, partial: Seq<A::Index>|
        #![trigger hs.sensitive(leading, partial)]
        !hs.sensitive(leading, partial)
}

/// A node's value as the walk stores it, once its children hash to
/// `children`.
pub open spec fn rewritten<V, A: Arity, Hs: TrieHasher<V, A>>(
    hs: Hs,
    leading: Seq<A::Index>,
    partial: Seq<A::Index>,
    children: Seq<(A::Index, Hs::Hash)>,
    value: Option<V>,
) -> Option<V> {
    match value {
        Some(v) => Some(hs.rewrite(leading, partial, children, v)),
        None => None,
    }
}

/// The hash the walk gives `node`, whose leading path is `leading` and whose
/// parent has `siblings` present children; `bound` is above the rank of
/// every edge of `node`.
///
/// Each child contributes the hash of [`edge_hash`]; the node's value is
/// first rewritten from those hashes.
pub open spec fn walk_hash<
    V,
    E,
    A: Arity,
    S: ChildStore<A, E>,
    St: EdgeStore<V, E, A, S>,
    Hs: TrieHasher<V, A, Hash = St::Hash>,
>(hs: Hs, node: Node<V, E, A, S>, leading: Seq<A::Index>, siblings: nat, bound: nat) -> Hs::Hash
    decreases bound, 2nat, 0nat,
{
    let edges = node.children_view().edges();
    let lone = lone_sealed::<V, E, A, S, St, Hs>(hs, edges, leading, node.path_view());
    let children = walk_children::<V, E, A, S, St, Hs>(
        hs,
        edges,
        leading + node.path_view(),
        present_count(edges),
        lone,
        bound,
    );
    hs.node_hash(
        leading,
        node.path_view(),
        rewritten(hs, leading, node.path_view(), children, node.value_view()),
        siblings,
        children,
    )
}

/// The indices and walk hashes of the present edges in `edges`, ascending;
/// `prefix` is the parent's full path and `count` its number of children.
pub open spec fn walk_children<
    V,
    E,
    A: Arity,
    S: ChildStore<A, E>,
    St: EdgeStore<V, E, A, S>,
    Hs: TrieHasher<V, A, Hash = St::Hash>,
>(
    hs: Hs,
    edges: Seq<Option<E>>,
    prefix: Seq<A::Index>,
    count: nat,
    lone: bool,
    bound: nat,
) -> Seq<(A::Index, Hs::Hash)>
    decreases bound, 1nat, edges.len(),
{
    if edges.len() == 0 {
        Seq::empty()
    } else {
        let i = index_of::<A>(edges.len() - 1);
        let rest = walk_children::<V, E, A, S, St, Hs>(
            hs,
            edges.drop_last(),
            prefix,
            count,
            lone,
            bound,
        );
        match edges.last() {
            Some(e) => rest.push(
                (i, edge_hash::<V, E, A, S, St, Hs>(hs, e, prefix.push(i), count, lone, bound)),
            ),
            None => rest,
        }
    }
}

/// The hash the walk gives the child behind `e`, at leading path `leading`
/// under a parent with `count` children.
///
/// A sealed edge contributes its cached hash, except the only sealed child
/// of a sibling-sensitive parent (`lone`), which is hashed again from its
/// own children's cached hashes, or walked when some of them are inline.
/// An inline edge is walked.
pub open spec fn edge_hash<
    V,
    E,
    A: Arity,
    S: ChildStore<A, E>,
    St: EdgeStore<V, E, A, S>,
    Hs: TrieHasher<V, A, Hash = St::Hash>,
>(hs: Hs, e: E, leading: Seq<A::Index>, count: nat, lone: bool, bound: nat) -> Hs::Hash
    decreases bound, 0nat, 0nat,
{
    let n = St::target(&e);
    let walked = if St::rank(&e) < bound {
        walk_hash::<V, E, A, S, St, Hs>(hs, n, leading, count, St::rank(&e))
    } else {
        arbitrary()
    };
    match St::sealed(&e) {
        Some(h) => if !lone {
            h
        } else if all_sealed::<V, E, A, S, St>(n.children_view().edges()) {
            hs.node_hash(
                leading,
                n.path_view(),
                n.value_view(),
                count,
                sealed_children::<V, E, A, S, St>(n.children_view().edges()),
            )
        } else {
            walked
        },
        None => walked,
    }
}

/// The hash of the trie rooted at `root`, as [`hash`] computes it.
pub open spec fn trie_hash<
    V,
    E,
    A: Arity,
    S: ChildStore<A, E>,
    St: EdgeStore<V, E, A, S>,
    Hs: TrieHasher<V, A, Hash = St::Hash>,
>(hs: Hs, root: Node<V, E, A, S>) -> Hs::Hash {
    walk_hash::<V, E, A, S, St, Hs>(
        hs,
        root,
        Seq::empty(),
        0,
        max_rank::<V, E, A, S, St>(root.children_view().edges()) + 1,
    )
}

/// After the walk's first pass, the edge at `j` (`e1[j]`, formerly
/// `e0[j]`) is either sealed with its walk hash, or inline with that hash
/// still to be computed from its node.
pub open spec fn settled_at<
    V,
    E,
    A: Arity,
    S: ChildStore<A, E>,
    St: EdgeStore<V, E, A, S>,
    Hs: TrieHasher<V, A, Hash = St::Hash>,
>(
    hs: Hs,
    e0: Seq<Option<E>>,
    e1: Seq<Option<E>>,
    prefix: Seq<A::Index>,
    j: int,
    count: nat,
    lone: bool,
    bound: nat,
) -> bool {
    let leading = prefix.push(index_of::<A>(j));
    match (e0[j], e1[j]) {
        (None, None) => true,
        (Some(a), Some(b)) => match St::sealed(&b) {
            Some(h) => h == edge_hash::<V, E, A, S, St, Hs>(hs, a, leading, count, lone, bound),
            None => St::rank(&b) < bound && edge_hash::<V, E, A, S, St, Hs>(
                hs,
                a,
                leading,
                count,
                lone,
                bound,
            ) == walk_hash::<V, E, A, S, St, Hs>(
                hs,
                St::target(&b),
                leading,
                count,
                St::rank(&b),
            ),
        },
        _ => false,
    }
}

/// The edge at `j` (`cur[j]`, formerly `e0[j]`) is sealed with its walk
/// hash.
pub open spec fn done_at<
    V,
    E,
    A: Arity,
    S: ChildStore<A, E>,
    St: EdgeStore<V, E, A, S>,
    Hs: TrieHasher<V, A, Hash = St::Hash>,
>(
    hs: Hs,
    e0: Seq<Option<E>>,
    cur: Seq<Option<E>>,
    prefix: Seq<A::Index>,
    j: int,
    count: nat,
    lone: bool,
    bound: nat,
) -> bool {
    match (e0[j], cur[j]) {
        (None, None) => true,
        (Some(a), Some(b)) => St::sealed(&b) == Some(
            edge_hash::<V, E, A, S, St, Hs>(
                hs,
                a,
                prefix.push(index_of::<A>(j)),
                count,
                lone,
                bound,
            ),
        ),
        _ => false,
    }
}

/// When every edge of `cur` is sealed with the walk hash of the edge of `e0`
/// at the same index, `cur`'s cached hashes are the walk's children of `e0`.
proof fn lemma_done_children<
    V,
    E,
    A: Arity,
    S: ChildStore<A, E>,
    St: EdgeStore<V, E, A, S>,
    Hs: TrieHasher<V, A, Hash = St::Hash>,
>(
    hs: Hs,
    e0: Seq<Option<E>>,
    cur: Seq<Option<E>>,
    prefix: Seq<A::Index>,
    count: nat,
    lone: bool,
    bound: nat,
    n: int,
)
    requires
        0 <= n <= e0.len(),
        e0.len() == cur.len(),
        forall|j: int|
            0 <= j < n ==> #[trigger] done_at::<V, E, A, S, St, Hs>(
                hs,
                e0,
                cur,
                prefix,
                j,
                count,
                lone,
                bound,
            ),
    ensures
        all_sealed::<V, E, A, S, St>(cur.take(n)),
        sealed_children::<V, E, A, S, St>(cur.take(n)) == walk_children::<V, E, A, S, St, Hs>(
            hs,
            e0.take(n),
            prefix,
            count,
            lone,
            bound,
        ),
    decreases n,
{
    if n > 0 {
        lemma_done_children::<V, E, A, S, St, Hs>(hs, e0, cur, prefix, count, lone, bound, n - 1);
        assert(cur.take(n).drop_last() =~= cur.take(n - 1));
        assert(e0.take(n).drop_last() =~= e0.take(n - 1));
        assert(done_at::<V, E, A, S, St, Hs>(hs, e0, cur, prefix, n - 1, count, lone, bound));
        assert forall|k: int| 0 <= k < cur.take(n).len() implies (#[trigger] cur.take(n)[k] matches Some(
            e,
        ) ==> St::sealed(&e) is Some) by {
            if k < n - 1 {
                assert(cur.take(n)[k] == cur.take(n - 1)[k]);
            }
        }
    }
}

/// `a` and `b` have nodes at the same keys, valued at the same keys.
pub open spec fn same_shape<V, E, A: Arity, S: ChildStore<A, E>, St: EdgeStore<V, E, A, S>>(
    a: Node<V, E, A, S>,
    b: Node<V, E, A, S>,
) -> bool {
    forall|key: Seq<A::Index>|
        #![trigger lookup::<V, E, A, S, St>(a, key)]
        #![trigger lookup::<V, E, A, S, St>(b, key)]
        (lookup::<V, E, A, S, St>(a, key) is Some <==> lookup::<V, E, A, S, St>(b, key) is Some)
            && (lookup::<V, E, A, S, St>(a, key) is Some ==> (lookup::<V, E, A, S, St>(
            a,
            key,
        )->0.value_view() is Some <==> lookup::<V, E, A, S, St>(b, key)->0.value_view() is Some))
}

/// The edges at `j` of `ea` and `eb` are both absent, or both present with
/// targets of the same shape.
pub open spec fn same_shape_at<V, E, A: Arity, S: ChildStore<A, E>, St: EdgeStore<V, E, A, S>>(
    ea: Seq<Option<E>>,
    eb: Seq<Option<E>>,
    j: int,
) -> bool {
    match (ea[j], eb[j]) {
        (None, None) => true,
        (Some(x), Some(y)) => same_shape::<V, E, A, S, St>(St::target(&x), St::target(&y)),
        _ => false,
    }
}

/// The edges at `j` of `ea` and `eb` are both absent, or both present and
/// resolve to the same node.
pub open spec fn same_target_at<V, E, A: Arity, S: ChildStore<A, E>, St: EdgeStore<V, E, A, S>>(
    ea: Seq<Option<E>>,
    eb: Seq<Option<E>>,
    j: int,
) -> bool {
    match (ea[j], eb[j]) {
        (None, None) => true,
        (Some(x), Some(y)) => St::target(&x) == St::target(&y),
        _ => false,
    }
}

/// Two nodes with the same partial path, a value on both or neither, and
/// children of the same shape at every index, have the same shape.
pub proof fn lemma_same_shape<V, E, A: Arity, S: ChildStore<A, E>, St: EdgeStore<V, E, A, S>>(
    a: Node<V, E, A, S>,
    b: Node<V, E, A, S>,
)
    requires
        a.children_view().wf(),
        b.children_view().wf(),
        a.path_view() == b.path_view(),
        a.value_view() is Some <==> b.value_view() is Some,
        forall|j: int|
            0 <= j < a.children_view().edges().len() ==> #[trigger] same_shape_at::<V, E, A, S, St>(
                a.children_view().edges(),
                b.children_view().edges(),
                j,
            ),
    ensures
        same_shape::<V, E, A, S, St>(a, b),
{
    A::lemma_len();
    a.children_view().lemma_edges_len();
    b.children_view().lemma_edges_len();
    let p = a.path_view();
    assert forall|key: Seq<A::Index>|
        #![trigger lookup::<V, E, A, S, St>(a, key)]
        #![trigger lookup::<V, E, A, S, St>(b, key)]
        (lookup::<V, E, A, S, St>(a, key) is Some <==> lookup::<V, E, A, S, St>(b, key) is Some)
            && (lookup::<V, E, A, S, St>(a, key) is Some ==> (lookup::<V, E, A, S, St>(
            a,
            key,
        )->0.value_view() is Some <==> lookup::<V, E, A, S, St>(b, key)->0.value_view()
            is Some)) by {
        if key.len() > p.len() && key.take(p.len() as int) == p {
            key[p.len() as int].lemma_value();
            let j = key[p.len() as int].value() as int;
            let rest = key.skip(p.len() + 1int);
            assert(same_shape_at::<V, E, A, S, St>(
                a.children_view().edges(),
                b.children_view().edges(),
                j,
            ));
            match (a.children_view().edges()[j], b.children_view().edges()[j]) {
                (Some(x), Some(y)) => {
                    assert(lookup::<V, E, A, S, St>(a, key) == lookup::<V, E, A, S, St>(
                        St::target(&x),
                        rest,
                    ));
                    assert(lookup::<V, E, A, S, St>(b, key) == lookup::<V, E, A, S, St>(
                        St::target(&y),
                        rest,
                    ));
                },
                _ => {},
            }
        }
    }
}

/// Every node of the trie below `node` has all its present edges sealed.
pub open spec fn deep_sealed<V, E, A: Arity, S: ChildStore<A, E>, St: EdgeStore<V, E, A, S>>(
    node: Node<V, E, A, S>,
) -> bool {
    forall|key: Seq<A::Index>|
        #![trigger lookup::<V, E, A, S, St>(node, key)]
        lookup::<V, E, A, S, St>(node, key) is Some ==> all_sealed::<V, E, A, S, St>(
            lookup::<V, E, A, S, St>(node, key)->0.children_view().edges(),
        )
}

/// Every sealed edge of every node below `node` leads to a subtree whose
/// edges are all sealed, as a trie that has been hashed keeps it: the walk
/// trusts a sealed edge and does not descend into it.
pub open spec fn sealed_closed<V, E, A: Arity, S: ChildStore<A, E>, St: EdgeStore<V, E, A, S>>(
    node: Node<V, E, A, S>,
) -> bool {
    forall|key: Seq<A::Index>, j: int|
        #![trigger lookup::<V, E, A, S, St>(node, key), sealed_at::<V, E, A, S, St>(lookup::<V, E, A, S, St>(node, key)->0.children_view().edges(), j)]
        0 <= j < A::LEN && lookup::<V, E, A, S, St>(node, key) is Some && sealed_at::<
            V,
            E,
            A,
            S,
            St,
        >(lookup::<V, E, A, S, St>(node, key)->0.children_view().edges(), j) ==> deep_sealed::<
            V,
            E,
            A,
            S,
            St,
        >(
            St::target(&lookup::<V, E, A, S, St>(node, key)->0.children_view().edges()[j]->0),
        )
}

/// The subtree behind a present edge of `node` keeps `node`'s
/// sealed-closedness, and a sealed one is wholly sealed.
pub proof fn lemma_sealed_closed_child<V, E, A: Arity, S: ChildStore<A, E>, St: EdgeStore<V, E, A, S>>(
    node: Node<V, E, A, S>,
    i: A::Index,
    c: E,
)
    requires
        node.children_view().wf(),
        sealed_closed::<V, E, A, S, St>(node),
        node.children_view().edges()[i.value() as int] == Some(c),
    ensures
        sealed_closed::<V, E, A, S, St>(St::target(&c)),
        St::sealed(&c) is Some ==> deep_sealed::<V, E, A, S, St>(St::target(&c)),
{
    A::lemma_len();
    i.lemma_value();
    let p = node.path_view();
    let q = p.push(i);
    assert(p.take(p.len() as int) =~= p);
    assert(lookup::<V, E, A, S, St>(node, p) == Some(node));
    if St::sealed(&c) is Some {
        assert(sealed_at::<V, E, A, S, St>(
            lookup::<V, E, A, S, St>(node, p)->0.children_view().edges(),
            i.value() as int,
        ));
        assert(deep_sealed::<V, E, A, S, St>(
            St::target(&lookup::<V, E, A, S, St>(node, p)->0.children_view().edges()[i.value() as int]->0),
        ));
    }
    assert forall|ck: Seq<A::Index>, j: int|
        #![trigger lookup::<V, E, A, S, St>(St::target(&c), ck), sealed_at::<V, E, A, S, St>(lookup::<V, E, A, S, St>(St::target(&c), ck)->0.children_view().edges(), j)]
        0 <= j < A::LEN && lookup::<V, E, A, S, St>(St::target(&c), ck) is Some && sealed_at::<
            V,
            E,
            A,
            S,
            St,
        >(lookup::<V, E, A, S, St>(St::target(&c), ck)->0.children_view().edges(), j) implies deep_sealed::<
            V,
            E,
            A,
            S,
            St,
        >(
        St::target(&lookup::<V, E, A, S, St>(St::target(&c), ck)->0.children_view().edges()[j]->0),
    ) by {
        let key = q + ck;
        assert(key.take(p.len() as int) =~= p);
        assert(key[p.len() as int] == i);
        assert(key.skip(p.len() + 1int) =~= ck);
        assert(lookup::<V, E, A, S, St>(node, key) == lookup::<V, E, A, S, St>(St::target(&c), ck));
        assert(sealed_at::<V, E, A, S, St>(
            lookup::<V, E, A, S, St>(node, key)->0.children_view().edges(),
            j,
        ));
    }
}

/// A node whose present edges are all sealed, each over a wholly sealed
/// subtree, is wholly sealed.
pub proof fn lemma_deep_sealed<V, E, A: Arity, S: ChildStore<A, E>, St: EdgeStore<V, E, A, S>>(
    node: Node<V, E, A, S>,
)
    requires
        node.children_view().wf(),
        all_sealed::<V, E, A, S, St>(node.children_view().edges()),
        forall|j: int|
            0 <= j < node.children_view().edges().len() ==> (
            #[trigger] node.children_view().edges()[j] matches Some(c) ==> deep_sealed::<
                V,
                E,
                A,
                S,
                St,
            >(St::target(&c))),
    ensures
        deep_sealed::<V, E, A, S, St>(node),
{
    A::lemma_len();
    node.children_view().lemma_edges_len();
    let p = node.path_view();
    assert forall|key: Seq<A::Index>|
        #![trigger lookup::<V, E, A, S, St>(node, key)]
        lookup::<V, E, A, S, St>(node, key) is Some implies all_sealed::<V, E, A, S, St>(
        lookup::<V, E, A, S, St>(node, key)->0.children_view().edges(),
    ) by {
        if key.len() > p.len() {
            key[p.len() as int].lemma_value();
            let j = key[p.len() as int].value() as int;
            let c = node.children_view().edges()[j]->0;
            assert(node.children_view().edges()[j] matches Some(x) ==> deep_sealed::<
                V,
                E,
                A,
                S,
                St,
            >(St::target(&x)));
            assert(lookup::<V, E, A, S, St>(node, key) == lookup::<V, E, A, S, St>(
                St::target(&c),
                key.skip(p.len() + 1int),
            ));
        }
    }
}

/// If `e` is sealed, it carries the hash of its node's current content at
/// its position: the node sits at leading path `leading` under a parent
/// with `siblings` children, its own edges are all sealed, and `e`'s hash is
/// the hash of the node's parts with their cached hashes.
pub open spec fn seal_ok<
    V,
    E,
    A: Arity,
    S: ChildStore<A, E>,
    St: EdgeStore<V, E, A, S>,
    Hs: TrieHasher<V, A, Hash = St::Hash>,
>(hs: Hs, e: E, leading: Seq<A::Index>, siblings: nat) -> bool {
    let t = St::target(&e);
    St::sealed(&e) is Some ==> {
        &&& all_sealed::<V, E, A, S, St>(t.children_view().edges())
        &&& St::sealed(&e) == Some(
            hs.node_hash(
                leading,
                t.path_view(),
                t.value_view(),
                siblings,
                sealed_children::<V, E, A, S, St>(t.children_view().edges()),
            ),
        )
    }
}

/// Every sealed edge below `node`, whose leading path is `leading`, carries
/// the hash of its node's current content and position, so that a walk may
/// trust it.
pub open spec fn sealed_correctly<
    V,
    E,
    A: Arity,
    S: ChildStore<A, E>,
    St: EdgeStore<V, E, A, S>,
    Hs: TrieHasher<V, A, Hash = St::Hash>,
>(hs: Hs, node: Node<V, E, A, S>, leading: Seq<A::Index>) -> bool {
    forall|key: Seq<A::Index>, j: int|
        #![trigger lookup::<V, E, A, S, St>(node, key), sealed_at::<V, E, A, S, St>(lookup::<V, E, A, S, St>(node, key)->0.children_view().edges(), j)]
        0 <= j < A::LEN && lookup::<V, E, A, S, St>(node, key) is Some && sealed_at::<
            V,
            E,
            A,
            S,
            St,
        >(lookup::<V, E, A, S, St>(node, key)->0.children_view().edges(), j)
            ==> seal_ok::<V, E, A, S, St, Hs>(
            hs,
            lookup::<V, E, A, S, St>(node, key)->0.children_view().edges()[j]->0,
            (leading + key).push(index_of::<A>(j)),
            present_count(lookup::<V, E, A, S, St>(node, key)->0.children_view().edges()),
        )
}

/// The edge at `j` of `edges`, under a node with full path `prefix` and
/// `count` children, carries a correct hash if sealed, over a subtree whose
/// sealed edges do too.
pub open spec fn good_at<
    V,
    E,
    A: Arity,
    S: ChildStore<A, E>,
    St: EdgeStore<V, E, A, S>,
    Hs: TrieHasher<V, A, Hash = St::Hash>,
>(hs: Hs, edges: Seq<Option<E>>, prefix: Seq<A::Index>, j: int, count: nat) -> bool {
    edges[j] matches Some(c) ==> seal_ok::<V, E, A, S, St, Hs>(
        hs,
        c,
        prefix.push(index_of::<A>(j)),
        count,
    ) && sealed_correctly::<V, E, A, S, St, Hs>(hs, St::target(&c), prefix.push(index_of::<A>(j)))
}

/// Each child edge of a node whose sealed edges carry correct hashes does
/// so too, and so does its subtree.
pub proof fn lemma_good_child<
    V,
    E,
    A: Arity,
    S: ChildStore<A, E>,
    St: EdgeStore<V, E, A, S>,
    Hs: TrieHasher<V, A, Hash = St::Hash>,
>(hs: Hs, node: Node<V, E, A, S>, leading: Seq<A::Index>, j: int)
    requires
        sealed_correctly::<V, E, A, S, St, Hs>(hs, node, leading),
        0 <= j < A::LEN,
    ensures
        good_at::<V, E, A, S, St, Hs>(
            hs,
            node.children_view().edges(),
            leading + node.path_view(),
            j,
            present_count(node.children_view().edges()),
        ),
{
    A::lemma_len();
    let x = <A::Index as Niche>::lemma_surjective(j as nat);
    A::Index::lemma_injective(x, index_of::<A>(j));
    let i = index_of::<A>(j);
    let p = node.path_view();
    let prefix = leading + p;
    assert(p.take(p.len() as int) =~= p);
    assert(lookup::<V, E, A, S, St>(node, p) == Some(node));
    assert(leading + p == prefix);
    if let Some(c) = node.children_view().edges()[j] {
        if St::sealed(&c) is Some {
            assert(sealed_at::<V, E, A, S, St>(
                lookup::<V, E, A, S, St>(node, p)->0.children_view().edges(),
                j,
            ));
        }
        let q = prefix.push(i);
        assert forall|ck: Seq<A::Index>, j2: int|
            #![trigger lookup::<V, E, A, S, St>(St::target(&c), ck), sealed_at::<V, E, A, S, St>(lookup::<V, E, A, S, St>(St::target(&c), ck)->0.children_view().edges(), j2)]
            0 <= j2 < A::LEN && lookup::<V, E, A, S, St>(St::target(&c), ck) is Some
                && sealed_at::<V, E, A, S, St>(
                lookup::<V, E, A, S, St>(St::target(&c), ck)->0.children_view().edges(),
                j2,
            ) implies seal_ok::<V, E, A, S, St, Hs>(
            hs,
            lookup::<V, E, A, S, St>(St::target(&c), ck)->0.children_view().edges()[j2]->0,
            (q + ck).push(index_of::<A>(j2)),
            present_count(lookup::<V, E, A, S, St>(St::target(&c), ck)->0.children_view().edges()),
        ) by {
            let key = p.push(i) + ck;
            assert(key.take(p.len() as int) =~= p);
            assert(key[p.len() as int] == i);
            assert(key.skip(p.len() + 1int) =~= ck);
            assert(lookup::<V, E, A, S, St>(node, key) == lookup::<V, E, A, S, St>(St::target(&c), ck));
            assert(leading + key =~= q + ck);
            assert(sealed_at::<V, E, A, S, St>(
                lookup::<V, E, A, S, St>(node, key)->0.children_view().edges(),
                j2,
            ));
        }
    }
}

/// A node whose child edges carry correct hashes, each over a subtree whose
/// sealed edges do too, has all its sealed edges carrying correct hashes.
pub proof fn lemma_good_node<
    V,
    E,
    A: Arity,
    S: ChildStore<A, E>,
    St: EdgeStore<V, E, A, S>,
    Hs: TrieHasher<V, A, Hash = St::Hash>,
>(hs: Hs, node: Node<V, E, A, S>, leading: Seq<A::Index>)
    requires
        node.children_view().wf(),
        forall|j: int|
            0 <= j < A::LEN ==> #[trigger] good_at::<V, E, A, S, St, Hs>(
                hs,
                node.children_view().edges(),
                leading + node.path_view(),
                j,
                present_count(node.children_view().edges()),
            ),
    ensures
        sealed_correctly::<V, E, A, S, St, Hs>(hs, node, leading),
{
    A::lemma_len();
    node.children_view().lemma_edges_len();
    let p = node.path_view();
    let prefix = leading + p;
    assert forall|key: Seq<A::Index>, j: int|
        #![trigger lookup::<V, E, A, S, St>(node, key), sealed_at::<V, E, A, S, St>(lookup::<V, E, A, S, St>(node, key)->0.children_view().edges(), j)]
        0 <= j < A::LEN && lookup::<V, E, A, S, St>(node, key) is Some && sealed_at::<
            V,
            E,
            A,
            S,
            St,
        >(lookup::<V, E, A, S, St>(node, key)->0.children_view().edges(), j)
            implies seal_ok::<V, E, A, S, St, Hs>(
        hs,
        lookup::<V, E, A, S, St>(node, key)->0.children_view().edges()[j]->0,
        (leading + key).push(index_of::<A>(j)),
        present_count(lookup::<V, E, A, S, St>(node, key)->0.children_view().edges()),
    ) by {
        if key.len() == p.len() {
            assert(key =~= p) by {
                assert(key.take(p.len() as int) =~= key);
            }
            assert(good_at::<V, E, A, S, St, Hs>(
                hs,
                node.children_view().edges(),
                prefix,
                j,
                present_count(node.children_view().edges()),
            ));
        } else {
            let y = key[p.len() as int];
            y.lemma_value();
            let jy = y.value() as int;
            let x = <A::Index as Niche>::lemma_surjective(jy as nat);
            A::Index::lemma_injective(x, index_of::<A>(jy));
            A::Index::lemma_injective(y, index_of::<A>(jy));
            let c = node.children_view().edges()[jy]->0;
            let rest = key.skip(p.len() + 1int);
            assert(good_at::<V, E, A, S, St, Hs>(
                hs,
                node.children_view().edges(),
                prefix,
                jy,
                present_count(node.children_view().edges()),
            ));
            assert(lookup::<V, E, A, S, St>(node, key) == lookup::<V, E, A, S, St>(
                St::target(&c),
                rest,
            ));
            assert(leading + key =~= prefix.push(y) + rest) by {
                assert forall|t: int| 0 <= t < p.len() implies #[trigger] key[t] == p[t] by {
                    assert(key.take(p.len() as int)[t] == key[t]);
                }
            }
            assert(sealed_at::<V, E, A, S, St>(
                lookup::<V, E, A, S, St>(St::target(&c), rest)->0.children_view().edges(),
                j,
            ));
        }
    }
}

/// Two sequences with entries at the same positions have the same count of
/// entries.
pub proof fn lemma_present_count_same<T>(a: Seq<Option<T>>, b: Seq<Option<T>>)
    requires
        a.len() == b.len(),
        forall|j: int| 0 <= j < a.len() ==> (#[trigger] a[j] is Some <==> b[j] is Some),
    ensures
        present_count(a) == present_count(b),
    decreases a.len(),
{
    if a.len() > 0 {
        assert forall|j: int| 0 <= j < a.drop_last().len() implies (#[trigger] a.drop_last()[j]
            is Some <==> b.drop_last()[j] is Some) by {
            assert(a.drop_last()[j] == a[j]);
            assert(b.drop_last()[j] == b[j]);
        }
        lemma_present_count_same(a.drop_last(), b.drop_last());
        assert(a.last() is Some <==> a[a.len() - 1] is Some);
    }
}

/// `key` reaches a node below `node` through inline edges only: the nodes a
/// walk from `node` descends into and rewrites.
pub open spec fn inline_reach<V, E, A: Arity, S: ChildStore<A, E>, St: EdgeStore<V, E, A, S>>(
    node: Node<V, E, A, S>,
    key: Seq<A::Index>,
) -> bool
    decreases key.len(),
{
    let p = node.path_view();
    if key.len() < p.len() || key.take(p.len() as int) != p {
        false
    } else if key.len() == p.len() {
        true
    } else {
        match node.children_view().edges()[key[p.len() as int].value() as int] {
            Some(e) => St::sealed(&e) is None && inline_reach::<V, E, A, S, St>(
                St::target(&e),
                key.skip((p.len() + 1) as int),
            ),
            None => false,
        }
    }
}

/// Every node that `before`, whose leading path is `leading`, reaches
/// through inline edges only holds in `after` its value as the walk stores
/// it: its old value rewritten from its children's sealed hashes in
/// `after`.
pub open spec fn values_rewritten<
    V,
    E,
    A: Arity,
    S: ChildStore<A, E>,
    St: EdgeStore<V, E, A, S>,
    Hs: TrieHasher<V, A, Hash = St::Hash>,
>(hs: Hs, before: Node<V, E, A, S>, after: Node<V, E, A, S>, leading: Seq<A::Index>) -> bool {
    forall|key: Seq<A::Index>|
        #![trigger inline_reach::<V, E, A, S, St>(before, key)]
        inline_reach::<V, E, A, S, St>(before, key) ==> {
            let o = lookup::<V, E, A, S, St>(before, key)->0;
            let n = lookup::<V, E, A, S, St>(after, key)->0;
            n.value_view() == rewritten(
                hs,
                leading + key.take(key.len() - o.path_view().len()),
                o.path_view(),
                sealed_children::<V, E, A, S, St>(n.children_view().edges()),
                o.value_view(),
            )
        }
}

/// The edge at `j` of `before`, if inline, has an edge at `j` of `after`
/// over a subtree whose values the walk rewrote.
pub open spec fn rewrote_at<
    V,
    E,
    A: Arity,
    S: ChildStore<A, E>,
    St: EdgeStore<V, E, A, S>,
    Hs: TrieHasher<V, A, Hash = St::Hash>,
>(hs: Hs, before: Seq<Option<E>>, after: Seq<Option<E>>, prefix: Seq<A::Index>, j: int) -> bool {
    match before[j] {
        Some(e) => St::sealed(&e) is None ==> (after[j] matches Some(c)
            && values_rewritten::<V, E, A, S, St, Hs>(
            hs,
            St::target(&e),
            St::target(&c),
            prefix.push(index_of::<A>(j)),
        )),
        None => true,
    }
}

/// A node reached through inline edges is found, and its partial path ends
/// the key.
pub proof fn lemma_inline_reach<V, E, A: Arity, S: ChildStore<A, E>, St: EdgeStore<V, E, A, S>>(
    node: Node<V, E, A, S>,
    key: Seq<A::Index>,
)
    requires
        inline_reach::<V, E, A, S, St>(node, key),
    ensures
        lookup::<V, E, A, S, St>(node, key) is Some,
        lookup::<V, E, A, S, St>(node, key)->0.path_view().len() <= key.len(),
    decreases key.len(),
{
    let p = node.path_view();
    if key.len() > p.len() {
        let e = node.children_view().edges()[key[p.len() as int].value() as int]->0;
        lemma_inline_reach::<V, E, A, S, St>(St::target(&e), key.skip((p.len() + 1) as int));
    }
}

/// A node whose value the walk rewrote, and whose inline children's
/// subtrees it rewrote, has had every value it reaches through inline edges
/// rewritten.
pub proof fn lemma_rewrote_node<
    V,
    E,
    A: Arity,
    S: ChildStore<A, E>,
    St: EdgeStore<V, E, A, S>,
    Hs: TrieHasher<V, A, Hash = St::Hash>,
>(hs: Hs, before: Node<V, E, A, S>, after: Node<V, E, A, S>, leading: Seq<A::Index>)
    requires
        before.children_view().wf(),
        after.path_view() == before.path_view(),
        after.value_view() == rewritten(
            hs,
            leading,
            before.path_view(),
            sealed_children::<V, E, A, S, St>(after.children_view().edges()),
            before.value_view(),
        ),
        forall|j: int|
            0 <= j < A::LEN ==> #[trigger] rewrote_at::<V, E, A, S, St, Hs>(
                hs,
                before.children_view().edges(),
                after.children_view().edges(),
                leading + before.path_view(),
                j,
            ),
    ensures
        values_rewritten::<V, E, A, S, St, Hs>(hs, before, after, leading),
{
    A::lemma_len();
    before.children_view().lemma_edges_len();
    let p = before.path_view();
    let prefix = leading + p;
    assert forall|key: Seq<A::Index>|
        #![trigger inline_reach::<V, E, A, S, St>(before, key)]
        inline_reach::<V, E, A, S, St>(before, key) implies {
            let o = lookup::<V, E, A, S, St>(before, key)->0;
            let n = lookup::<V, E, A, S, St>(after, key)->0;
            n.value_view() == rewritten(
                hs,
                leading + key.take(key.len() - o.path_view().len()),
                o.path_view(),
                sealed_children::<V, E, A, S, St>(n.children_view().edges()),
                o.value_view(),
            )
        } by {
        if key.len() == p.len() {
            assert(key =~= p) by {
                assert(key.take(p.len() as int) =~= key);
            }
            assert(key.take(0) =~= Seq::<A::Index>::empty());
            assert(leading + key.take(0) =~= leading);
        } else {
            let y = key[p.len() as int];
            y.lemma_value();
            let jy = y.value() as int;
            let x = <A::Index as Niche>::lemma_surjective(jy as nat);
            A::Index::lemma_injective(x, index_of::<A>(jy));
            A::Index::lemma_injective(y, index_of::<A>(jy));
            let e = before.children_view().edges()[jy]->0;
            let rest = key.skip(p.len() + 1int);
            assert(rewrote_at::<V, E, A, S, St, Hs>(
                hs,
                before.children_view().edges(),
                after.children_view().edges(),
                prefix,
                jy,
            ));
            let c = after.children_view().edges()[jy]->0;
            assert(inline_reach::<V, E, A, S, St>(St::target(&e), rest));
            lemma_inline_reach::<V, E, A, S, St>(St::target(&e), rest);
            let o = lookup::<V, E, A, S, St>(St::target(&e), rest)->0;
            assert(lookup::<V, E, A, S, St>(before, key) == lookup::<V, E, A, S, St>(
                St::target(&e),
                rest,
            ));
            assert(lookup::<V, E, A, S, St>(after, key) == lookup::<V, E, A, S, St>(
                St::target(&c),
                rest,
            ));
            let m = o.path_view().len();
            assert(prefix.push(y) + rest.take(rest.len() - m) =~= leading + key.take(
                key.len() - m,
            )) by {
                assert forall|t: int| 0 <= t < p.len() implies #[trigger] key[t] == p[t] by {
                    assert(key.take(p.len() as int)[t] == key[t]);
                }
            }
        }
    }
}

/// The edge at `j` of `edges` is present and inline.
pub open spec fn inline_at<V, E, A: Arity, S: ChildStore<A, E>, St: EdgeStore<V, E, A, S>>(
    edges: Seq<Option<E>>,
    j: int,
) -> bool {
    edges[j] matches Some(e) && St::sealed(&e) is None
}

/// Every edge that `before`, whose leading path is `leading`, has inline at
/// a node it reaches through inline edges only is present in `after`, and
/// if sealed there carries the hash of its node's content and position: the
/// edges a walk seals carry correct hashes.
pub open spec fn walk_sealed_ok<
    V,
    E,
    A: Arity,
    S: ChildStore<A, E>,
    St: EdgeStore<V, E, A, S>,
    Hs: TrieHasher<V, A, Hash = St::Hash>,
>(hs: Hs, before: Node<V, E, A, S>, after: Node<V, E, A, S>, leading: Seq<A::Index>) -> bool {
    forall|key: Seq<A::Index>, j: int|
        #![trigger inline_reach::<V, E, A, S, St>(before, key), inline_at::<V, E, A, S, St>(lookup::<V, E, A, S, St>(before, key)->0.children_view().edges(), j)]
        0 <= j < A::LEN && inline_reach::<V, E, A, S, St>(before, key) && inline_at::<
            V,
            E,
            A,
            S,
            St,
        >(lookup::<V, E, A, S, St>(before, key)->0.children_view().edges(), j) ==> {
            let after_edges = lookup::<V, E, A, S, St>(after, key)->0.children_view().edges();
            &&& after_edges[j] is Some
            &&& seal_ok::<V, E, A, S, St, Hs>(
                hs,
                after_edges[j]->0,
                (leading + key).push(index_of::<A>(j)),
                present_count(after_edges),
            )
        }
}

/// The edge at `j` of `before`, if inline, is present at `j` of `after`,
/// correct if sealed, over a subtree whose newly sealed edges are correct.
pub open spec fn walked_at<
    V,
    E,
    A: Arity,
    S: ChildStore<A, E>,
    St: EdgeStore<V, E, A, S>,
    Hs: TrieHasher<V, A, Hash = St::Hash>,
>(
    hs: Hs,
    before: Seq<Option<E>>,
    after: Seq<Option<E>>,
    prefix: Seq<A::Index>,
    j: int,
    count: nat,
) -> bool {
    inline_at::<V, E, A, S, St>(before, j) ==> (after[j] matches Some(c) && seal_ok::<
        V,
        E,
        A,
        S,
        St,
        Hs,
    >(hs, c, prefix.push(index_of::<A>(j)), count) && walk_sealed_ok::<V, E, A, S, St, Hs>(
        hs,
        St::target(&before[j]->0),
        St::target(&c),
        prefix.push(index_of::<A>(j)),
    ))
}

/// A subtree left as it was has no newly sealed edges to get wrong.
pub proof fn lemma_walk_sealed_same<
    V,
    E,
    A: Arity,
    S: ChildStore<A, E>,
    St: EdgeStore<V, E, A, S>,
    Hs: TrieHasher<V, A, Hash = St::Hash>,
>(hs: Hs, node: Node<V, E, A, S>, leading: Seq<A::Index>)
    ensures
        walk_sealed_ok::<V, E, A, S, St, Hs>(hs, node, node, leading),
{
}

/// A node whose inline child edges were each left present, correct if
/// sealed, over subtrees whose newly sealed edges are correct, has every
/// newly sealed edge below it correct.
pub proof fn lemma_walked_node<
    V,
    E,
    A: Arity,
    S: ChildStore<A, E>,
    St: EdgeStore<V, E, A, S>,
    Hs: TrieHasher<V, A, Hash = St::Hash>,
>(hs: Hs, before: Node<V, E, A, S>, after: Node<V, E, A, S>, leading: Seq<A::Index>)
    requires
        before.children_view().wf(),
        after.path_view() == before.path_view(),
        forall|j: int|
            0 <= j < A::LEN ==> #[trigger] walked_at::<V, E, A, S, St, Hs>(
                hs,
                before.children_view().edges(),
                after.children_view().edges(),
                leading + before.path_view(),
                j,
                present_count(after.children_view().edges()),
            ),
    ensures
        walk_sealed_ok::<V, E, A, S, St, Hs>(hs, before, after, leading),
{
    A::lemma_len();
    before.children_view().lemma_edges_len();
    let p = before.path_view();
    let prefix = leading + p;
    assert forall|key: Seq<A::Index>, j: int|
        #![trigger inline_reach::<V, E, A, S, St>(before, key), inline_at::<V, E, A, S, St>(lookup::<V, E, A, S, St>(before, key)->0.children_view().edges(), j)]
        0 <= j < A::LEN && inline_reach::<V, E, A, S, St>(before, key) && inline_at::<
            V,
            E,
            A,
            S,
            St,
        >(lookup::<V, E, A, S, St>(before, key)->0.children_view().edges(), j) implies {
            let after_edges = lookup::<V, E, A, S, St>(after, key)->0.children_view().edges();
            &&& after_edges[j] is Some
            &&& seal_ok::<V, E, A, S, St, Hs>(
                hs,
                after_edges[j]->0,
                (leading + key).push(index_of::<A>(j)),
                present_count(after_edges),
            )
        } by {
        if key.len() == p.len() {
            assert(key =~= p) by {
                assert(key.take(p.len() as int) =~= key);
            }
            assert(walked_at::<V, E, A, S, St, Hs>(
                hs,
                before.children_view().edges(),
                after.children_view().edges(),
                prefix,
                j,
                present_count(after.children_view().edges()),
            ));
        } else {
            let y = key[p.len() as int];
            y.lemma_value();
            let jy = y.value() as int;
            let x = <A::Index as Niche>::lemma_surjective(jy as nat);
            A::Index::lemma_injective(x, index_of::<A>(jy));
            A::Index::lemma_injective(y, index_of::<A>(jy));
            let e = before.children_view().edges()[jy]->0;
            let rest = key.skip(p.len() + 1int);
            assert(walked_at::<V, E, A, S, St, Hs>(
                hs,
                before.children_view().edges(),
                after.children_view().edges(),
                prefix,
                jy,
                present_count(after.children_view().edges()),
            ));
            let c = after.children_view().edges()[jy]->0;
            assert(inline_reach::<V, E, A, S, St>(St::target(&e), rest));
            assert(lookup::<V, E, A, S, St>(before, key) == lookup::<V, E, A, S, St>(
                St::target(&e),
                rest,
            ));
            assert(lookup::<V, E, A, S, St>(after, key) == lookup::<V, E, A, S, St>(
                St::target(&c),
                rest,
            ));
            assert(inline_at::<V, E, A, S, St>(
                lookup::<V, E, A, S, St>(St::target(&e), rest)->0.children_view().edges(),
                j,
            ));
            assert(leading + key =~= prefix.push(y) + rest) by {
                assert forall|t: int| 0 <= t < p.len() implies #[trigger] key[t] == p[t] by {
                    assert(key.take(p.len() as int)[t] == key[t]);
                }
            }
        }
    }
}

/// The sealed hashes of `node`'s children, ascending, borrowed from the
/// edges; `None` if any child is inline.
fn sealed_hashes<'a, V, E, A: Arity, S: ChildStore<A, E>, St: EdgeStore<V, E, A, S>>(
    node: &'a Node<V, E, A, S>,
) -> (r: Option<Vec<(A::Index, &'a St::Hash)>>)
    requires
        node.children_view().wf(),
    ensures
        r is Some <==> all_sealed::<V, E, A, S, St>(node.children_view().edges()),
        r matches Some(list) ==> list@.map_values(|c: (A::Index, &St::Hash)| (c.0, *c.1))
            == sealed_children::<V, E, A, S, St>(node.children_view().edges()),
{
    proof {
        A::lemma_len();
        node.children_view().lemma_edges_len();
    }
    let ghost edges = node.children_view().edges();
    let children = node.children();
    let mut list: Vec<(A::Index, &St::Hash)> = Vec::new();
    let mut k: usize = 0;
    while k < A::LEN
        invariant
            k <= A::LEN,
            A::LEN == <A::Index as Niche>::COUNT,
            edges == children.edges(),
            edges == node.children_view().edges(),
            edges.len() == A::LEN,
            children.wf(),
            all_sealed::<V, E, A, S, St>(edges.take(k as int)),
            list@.map_values(|c: (A::Index, &St::Hash)| (c.0, *c.1)) == sealed_children::<
                V,
                E,
                A,
                S,
                St,
            >(edges.take(k as int)),
        decreases A::LEN - k,
    {
        proof {
            assert(edges.take(k + 1).drop_last() =~= edges.take(k as int));
        }
        match A::Index::try_from_usize(k) {
            Some(i) => {
                match children.get(i) {
                    Some(e) => {
                        match St::hash(e) {
                            Some(h) => {
                                let ghost before = list@;
                                proof {
                                    A::Index::lemma_injective(i, index_of::<A>(k as int));
                                }
                                list.push((i, h));
                                proof {
                                    assert(list@.map_values(|c: (A::Index, &St::Hash)| (c.0, *c.1))
                                        =~= before.map_values(
                                        |c: (A::Index, &St::Hash)| (c.0, *c.1),
                                    ).push((i, *h)));
                                }
                            },
                            None => {
                                proof {
                                    assert(edges[k as int] == Some(*e));
                                    assert(!(edges[k as int] matches Some(x) ==> St::sealed(
                                        &x,
                                    ) is Some));
                                }
                                return None;
                            },
                        }
                    },
                    None => {},
                }
            },
            None => {},
        }
        k = k + 1;
    }
    proof {
        assert(edges.take(k as int) =~= edges);
    }
    Some(list)
}

/// Hashes one node whose children are all sealed; `None` if any child is
/// inline.
///
/// For code that holds a node's child hashes without the child nodes, and
/// for the walk's rehash of a lone sealed child. It never rewrites the
/// node's value, and `hasher` must be the one that sealed the children.
pub fn hash_sealed_node<V, E, A: Arity, S: ChildStore<A, E>, St: EdgeStore<V, E, A, S>, Hs: TrieHasher<
    V,
    A,
    Hash = St::Hash,
>>(node: &Node<V, E, A, S>, leading_path: &[A::Index], siblings: usize, hasher: &Hs) -> (r: Option<
    Hs::Hash,
>)
    requires
        node.children_view().wf(),
    ensures
        r is Some <==> all_sealed::<V, E, A, S, St>(node.children_view().edges()),
        r matches Some(h) ==> h == hasher.node_hash(
            leading_path@,
            node.path_view(),
            node.value_view(),
            siblings as nat,
            sealed_children::<V, E, A, S, St>(node.children_view().edges()),
        ),
{
    match sealed_hashes::<V, E, A, S, St>(node) {
        None => None,
        Some(list) => Some(
            hasher.hash_node(
                HashInput {
                    leading_path,
                    partial_path: node.partial_path(),
                    value: node.value(),
                    siblings,
                    children: list,
                },
            ),
        ),
    }
}

/// Rewrites the value of a node whose children are all sealed, then hashes
/// it.
fn finish_node<V, E, A: Arity, S: ChildStore<A, E>, St: EdgeStore<V, E, A, S>, Hs: TrieHasher<
    V,
    A,
    Hash = St::Hash,
>>(node: &mut Node<V, E, A, S>, hasher: &Hs, leading_path: &[A::Index], siblings: usize) -> (r:
    Hs::Hash)
    requires
        old(node).children_view().wf(),
        all_sealed::<V, E, A, S, St>(old(node).children_view().edges()),
    ensures
        final(node).path_view() == old(node).path_view(),
        final(node).children_view() == old(node).children_view(),
        final(node).value_view() == rewritten(
            *hasher,
            leading_path@,
            old(node).path_view(),
            sealed_children::<V, E, A, S, St>(old(node).children_view().edges()),
            old(node).value_view(),
        ),
        r == hasher.node_hash(
            leading_path@,
            final(node).path_view(),
            final(node).value_view(),
            siblings as nat,
            sealed_children::<V, E, A, S, St>(final(node).children_view().edges()),
        ),
{
    let value = match node.set_value(None) {
        Some(v) => {
            let mut v = v;
            let list = sealed_hashes::<V, E, A, S, St>(node).unwrap();
            hasher.update_value(leading_path, node.partial_path(), list, &mut v);
            Some(v)
        },
        None => None,
    };
    node.set_value(value);
    let list = sealed_hashes::<V, E, A, S, St>(node).unwrap();
    hasher.hash_node(
        HashInput {
            leading_path,
            partial_path: node.partial_path(),
            value: node.value(),
            siblings,
            children: list,
        },
    )
}

/// Scans `node`'s children before any of them is walked, whose leading path
/// `buf` holds, and returns how many are present.
///
/// Under a sibling-sensitive node with exactly one sealed child, nothing
/// records whether that child was sealed as an only child or beside peers,
/// so it is hashed again from its own children's cached hashes and sealed
/// anew; a sealed child with inline children is turned inline instead, to
/// be walked like any inline child. With two or more sealed children, each
/// was sealed beside peers and all are kept.
#[verifier::spinoff_prover]
fn prepare<V, E, A: Arity, S: ChildStore<A, E>, St: EdgeStore<V, E, A, S>, Hs: TrieHasher<
    V,
    A,
    Hash = St::Hash,
>>(
    node: &mut Node<V, E, A, S>,
    store: &mut St,
    hasher: &Hs,
    buf: &mut Vec<A::Index>,
    Ghost(bound): Ghost<nat>,
) -> (r: Result<usize, St::Error>)
    requires
        old(node).children_view().wf(),
        ranks_below::<V, E, A, S, St>(old(node).children_view().edges(), bound),
    ensures
        final(buf)@ == old(buf)@,
        final(node).path_view() == old(node).path_view(),
        final(node).value_view() == old(node).value_view(),
        final(node).children_view().wf(),
        St::cannot_fail() || !lone_sealed::<V, E, A, S, St, Hs>(
            *hasher,
            old(node).children_view().edges(),
            old(buf)@,
            old(node).path_view(),
        ) ==> r is Ok,
        !lone_sealed::<V, E, A, S, St, Hs>(
            *hasher,
            old(node).children_view().edges(),
            old(buf)@,
            old(node).path_view(),
        ) ==> final(node).children_view().edges() == old(node).children_view().edges(),
        forall|j: int|
            0 <= j < A::LEN && !sealed_at::<V, E, A, S, St>(old(node).children_view().edges(), j)
                ==> #[trigger] final(node).children_view().edges()[j] == old(
                node,
            ).children_view().edges()[j],
        sealed_correctly::<V, E, A, S, St, Hs>(*hasher, *old(node), old(buf)@) ==> forall|j: int|
            0 <= j < A::LEN ==> #[trigger] good_at::<V, E, A, S, St, Hs>(
                *hasher,
                final(node).children_view().edges(),
                old(buf)@ + old(node).path_view(),
                j,
                present_count(old(node).children_view().edges()),
            ),
        r is Ok && lone_sealed::<V, E, A, S, St, Hs>(
            *hasher,
            old(node).children_view().edges(),
            old(buf)@,
            old(node).path_view(),
        ) ==> forall|j: int|
            0 <= j < A::LEN && #[trigger] sealed_at::<V, E, A, S, St>(
                old(node).children_view().edges(),
                j,
            ) ==> (St::sealed(&final(node).children_view().edges()[j]->0) is Some
                <==> all_sealed::<V, E, A, S, St>(
                St::target(&old(node).children_view().edges()[j]->0).children_view().edges(),
            )),
        forall|j: int|
            0 <= j < A::LEN ==> #[trigger] same_target_at::<V, E, A, S, St>(
                old(node).children_view().edges(),
                final(node).children_view().edges(),
                j,
            ),
        r matches Ok(count) ==> {
            &&& count == present_count(old(node).children_view().edges())
            &&& forall|j: int|
                0 <= j < A::LEN ==> #[trigger] settled_at::<V, E, A, S, St, Hs>(
                    *hasher,
                    old(node).children_view().edges(),
                    final(node).children_view().edges(),
                    old(buf)@ + old(node).path_view(),
                    j,
                    count as nat,
                    lone_sealed::<V, E, A, S, St, Hs>(
                        *hasher,
                        old(node).children_view().edges(),
                        old(buf)@,
                        old(node).path_view(),
                    ),
                    bound,
                )
        },
{
    proof {
        A::lemma_len();
        node.children_view().lemma_edges_len();
    }
    let ghost edges0 = node.children_view().edges();
    let ghost leading = buf@;
    let ghost prefix = buf@ + node.path_view();
    proof {
        if sealed_correctly::<V, E, A, S, St, Hs>(*hasher, *node, leading) {
            assert forall|j: int| 0 <= j < A::LEN implies #[trigger] good_at::<
                V,
                E,
                A,
                S,
                St,
                Hs,
            >(*hasher, edges0, prefix, j, present_count(edges0)) by {
                lemma_good_child::<V, E, A, S, St, Hs>(*hasher, *node, leading, j);
            }
        }
    }
    let mut sealed: usize = 0;
    let mut last_sealed: Option<A::Index> = None;
    let mut k: usize = 0;
    while k < A::LEN
        invariant
            k <= A::LEN,
            A::LEN == <A::Index as Niche>::COUNT,
            edges0 == node.children_view().edges(),
            edges0.len() == A::LEN,
            node.children_view().wf(),
            sealed == sealed_count::<V, E, A, S, St>(edges0.take(k as int)),
            sealed <= k,
            sealed >= 1 ==> (last_sealed matches Some(i) && i.value() < k && sealed_at::<
                V,
                E,
                A,
                S,
                St,
            >(edges0, i.value() as int)),
            sealed == 1 ==> forall|j: int|
                0 <= j < k && #[trigger] sealed_at::<V, E, A, S, St>(edges0, j) ==> j
                    == last_sealed->0.value(),
            sealed == 0 ==> forall|j: int|
                0 <= j < k ==> !#[trigger] sealed_at::<V, E, A, S, St>(edges0, j),
        decreases A::LEN - k,
    {
        proof {
            assert(edges0.take(k + 1).drop_last() =~= edges0.take(k as int));
        }
        match A::Index::try_from_usize(k) {
            Some(i) => {
                match node.children().get(i) {
                    Some(e) => {
                        if St::hash(e).is_some() {
                            sealed = sealed + 1;
                            last_sealed = Some(i);
                        }
                    },
                    None => {},
                }
            },
            None => {},
        }
        k = k + 1;
    }
    proof {
        assert(edges0.take(k as int) =~= edges0);
    }
    let ghost lone = lone_sealed::<V, E, A, S, St, Hs>(*hasher, edges0, leading, node.path_view());
    let count = node.children().count();
    if sealed == 1 && hasher.sibling_sensitive(buf.as_slice(), node.partial_path()) {
        let i = match last_sealed {
            Some(i) => i,
            None => {
                return Ok(count);
            },
        };
        let ghost iv = i.value() as int;
        proof {
            A::Index::lemma_injective(i, index_of::<A>(iv));
        }
        let base = buf.len();
        push_all(buf, node.partial_path());
        buf.push(i);
        let rehashed = match node.children().get(i) {
            Some(edge) => match store.read(edge) {
                Ok(child) => hash_sealed_node::<V, E, A, S, St, Hs>(
                    child,
                    buf.as_slice(),
                    count,
                    hasher,
                ),
                Err(e) => {
                    buf.truncate(base);
                    proof {
                        assert(buf@ =~= leading);
                    }
                    return Err(e);
                },
            },
            None => None,
        };
        let ghost child_leading = buf@;
        buf.truncate(base);
        proof {
            assert(buf@ =~= leading);
            assert(child_leading =~= prefix.push(i));
        }
        let ghost a = edges0[iv]->0;
        match node.children_mut().get_mut(i) {
            Some(edge) => match rehashed {
                Some(h) => {
                    store.seal(edge, h);
                },
                None => {
                    match store.materialize(edge) {
                        Ok(()) => {},
                        Err(e) => {
                            proof {
                                assert(node.children_view().edges() =~= edges0);
                            }
                            return Err(e);
                        },
                    }
                },
            },
            None => {},
        }
        proof {
            let edges1 = node.children_view().edges();
            if sealed_correctly::<V, E, A, S, St, Hs>(*hasher, *old(node), leading) {
                assert forall|j: int| 0 <= j < A::LEN implies #[trigger] good_at::<
                    V,
                    E,
                    A,
                    S,
                    St,
                    Hs,
                >(*hasher, edges1, prefix, j, present_count(edges0)) by {
                    assert(good_at::<V, E, A, S, St, Hs>(
                        *hasher,
                        edges0,
                        prefix,
                        j,
                        present_count(edges0),
                    ));
                    if j != iv {
                        assert(edges1[j] == edges0[j]);
                    } else {
                        assert(child_leading == prefix.push(index_of::<A>(j)));
                    }
                }
            }
            assert forall|j: int| 0 <= j < A::LEN implies #[trigger] settled_at::<
                V,
                E,
                A,
                S,
                St,
                Hs,
            >(*hasher, edges0, edges1, prefix, j, count as nat, lone, bound) by {
                if j != iv {
                    assert(edges1[j] == edges0[j]);
                    if sealed_at::<V, E, A, S, St>(edges0, j) {
                        assert(j == iv);
                    }
                } else {
                    assert(sealed_at::<V, E, A, S, St>(edges0, iv));
                    assert(edges0[iv] == Some(a));
                    assert(prefix.push(index_of::<A>(j)) == child_leading);
                    assert(ranks_below::<V, E, A, S, St>(edges0, bound));
                    assert(edges0[j] matches Some(c) ==> St::rank(&c) < bound);
                }
            }
        }
    }
    Ok(count)
}

/// Walks the inline child at `i` of `parent`, whose leading path `buf`
/// holds, and seals its edge with the child's hash.
///
/// The child is taken out of its edge, walked, and put back behind a fresh
/// inline edge, which is then sealed. On `Err` the child, with whatever the
/// walk sealed below it, is put back inline.
#[verifier::spinoff_prover]
fn hash_pending_child<V, E, A: Arity, S: ChildStore<A, E>, St: EdgeStore<V, E, A, S>, Hs: TrieHasher<
    V,
    A,
    Hash = St::Hash,
>>(
    parent: &mut Node<V, E, A, S>,
    store: &mut St,
    hasher: &Hs,
    buf: &mut Vec<A::Index>,
    i: A::Index,
    siblings: usize,
    Ghost(bound): Ghost<nat>,
) -> (r: Result<(), St::Error>)
    requires
        old(parent).children_view().wf(),
        old(parent).children_view().edges()[i.value() as int] matches Some(e) && St::sealed(&e) is None
            && St::rank(&e) < bound,
    ensures
        final(buf)@ == old(buf)@,
        final(parent).children_view().wf(),
        final(parent).path_view() == old(parent).path_view(),
        final(parent).value_view() == old(parent).value_view(),
        final(parent).children_view().edges().len() == old(parent).children_view().edges().len(),
        forall|j: int|
            0 <= j < old(parent).children_view().edges().len() && j != i.value() ==> (
            #[trigger] final(parent).children_view().edges()[j]) == old(
                parent,
            ).children_view().edges()[j],
        final(parent).children_view().edges()[i.value() as int] is Some,
        St::cannot_fail() || never_sensitive(*hasher) ==> r is Ok,
        r is Ok && sealed_closed::<V, E, A, S, St>(
            St::target(&old(parent).children_view().edges()[i.value() as int]->0),
        ) ==> deep_sealed::<V, E, A, S, St>(
            St::target(&final(parent).children_view().edges()[i.value() as int]->0),
        ),
        seal_ok::<V, E, A, S, St, Hs>(
            *hasher,
            final(parent).children_view().edges()[i.value() as int]->0,
            old(buf)@,
            siblings as nat,
        ),
        sealed_correctly::<V, E, A, S, St, Hs>(
            *hasher,
            St::target(&old(parent).children_view().edges()[i.value() as int]->0),
            old(buf)@,
        ) ==> sealed_correctly::<V, E, A, S, St, Hs>(
            *hasher,
            St::target(&final(parent).children_view().edges()[i.value() as int]->0),
            old(buf)@,
        ),
        same_shape::<V, E, A, S, St>(
            St::target(&old(parent).children_view().edges()[i.value() as int]->0),
            St::target(&final(parent).children_view().edges()[i.value() as int]->0),
        ),
        walk_sealed_ok::<V, E, A, S, St, Hs>(
            *hasher,
            St::target(&old(parent).children_view().edges()[i.value() as int]->0),
            St::target(&final(parent).children_view().edges()[i.value() as int]->0),
            old(buf)@,
        ),
        r is Ok ==> values_rewritten::<V, E, A, S, St, Hs>(
            *hasher,
            St::target(&old(parent).children_view().edges()[i.value() as int]->0),
            St::target(&final(parent).children_view().edges()[i.value() as int]->0),
            old(buf)@,
        ),
        r is Ok ==> St::sealed(&final(parent).children_view().edges()[i.value() as int]->0)
            == Some(
            walk_hash::<V, E, A, S, St, Hs>(
                *hasher,
                St::target(&old(parent).children_view().edges()[i.value() as int]->0),
                old(buf)@,
                siblings as nat,
                St::rank(&old(parent).children_view().edges()[i.value() as int]->0),
            ),
        ),
    decreases bound, 0nat,
{
    proof {
        A::lemma_len();
        parent.children_view().lemma_edges_len();
        i.lemma_value();
    }
    let e = match parent.children_mut().remove(i) {
        Some(e) => e,
        None => {
            return Ok(());
        },
    };
    let ghost rank = St::rank(&e);
    match St::into_inline(e) {
        Ok(child) => {
            let mut child = child;
            let r = hash_subtree(&mut child, store, hasher, buf, siblings, Ghost(rank));
            let mut e2 = store.inline(child);
            match r {
                Ok(h) => {
                    store.seal(&mut e2, h);
                    parent.children_mut().insert(i, e2);
                    Ok(())
                },
                Err(err) => {
                    parent.children_mut().insert(i, e2);
                    Err(err)
                },
            }
        },
        Err(e) => {
            proof {
                lemma_walk_sealed_same::<V, E, A, S, St, Hs>(*hasher, St::target(&e), buf@);
            }
            parent.children_mut().insert(i, e);
            Ok(())
        },
    }
}

/// Walks the subtree of `node`, whose leading path `buf` holds and whose
/// parent has `siblings` present children, sealing every inline edge below
/// it with its node's hash on the way up, and returns `node`'s hash.
///
/// Already sealed children are not descended into, except to rehash the
/// only sealed child of a sibling-sensitive node (see [`prepare`]). The
/// store is read, or asked to turn an edge inline, only there, so under a
/// hasher that is never sibling-sensitive the walk cannot fail.
#[verifier::spinoff_prover]
fn hash_subtree<V, E, A: Arity, S: ChildStore<A, E>, St: EdgeStore<V, E, A, S>, Hs: TrieHasher<
    V,
    A,
    Hash = St::Hash,
>>(
    node: &mut Node<V, E, A, S>,
    store: &mut St,
    hasher: &Hs,
    buf: &mut Vec<A::Index>,
    siblings: usize,
    Ghost(bound): Ghost<nat>,
) -> (r: Result<Hs::Hash, St::Error>)
    requires
        old(node).children_view().wf(),
        ranks_below::<V, E, A, S, St>(old(node).children_view().edges(), bound),
    ensures
        final(buf)@ == old(buf)@,
        final(node).children_view().wf(),
        final(node).path_view() == old(node).path_view(),
        same_shape::<V, E, A, S, St>(*old(node), *final(node)),
        St::cannot_fail() || never_sensitive(*hasher) ==> r is Ok,
        r is Ok && sealed_closed::<V, E, A, S, St>(*old(node)) ==> deep_sealed::<V, E, A, S, St>(
            *final(node),
        ),
        sealed_correctly::<V, E, A, S, St, Hs>(*hasher, *old(node), old(buf)@)
            ==> sealed_correctly::<V, E, A, S, St, Hs>(*hasher, *final(node), old(buf)@),
        walk_sealed_ok::<V, E, A, S, St, Hs>(*hasher, *old(node), *final(node), old(buf)@),
        r is Ok ==> values_rewritten::<V, E, A, S, St, Hs>(
            *hasher,
            *old(node),
            *final(node),
            old(buf)@,
        ),
        r is Ok ==> final(node).value_view() == rewritten(
            *hasher,
            old(buf)@,
            old(node).path_view(),
            sealed_children::<V, E, A, S, St>(final(node).children_view().edges()),
            old(node).value_view(),
        ),
        r matches Ok(h) ==> {
            &&& h == walk_hash::<V, E, A, S, St, Hs>(
                *hasher,
                *old(node),
                old(buf)@,
                siblings as nat,
                bound,
            )
            &&& all_sealed::<V, E, A, S, St>(final(node).children_view().edges())
            &&& h == hasher.node_hash(
                old(buf)@,
                final(node).path_view(),
                final(node).value_view(),
                siblings as nat,
                sealed_children::<V, E, A, S, St>(final(node).children_view().edges()),
            )
        },
    decreases bound, 1nat,
{
    proof {
        A::lemma_len();
        node.children_view().lemma_edges_len();
    }
    let ghost n0 = *node;
    let ghost edges0 = node.children_view().edges();
    let ghost leading = buf@;
    let ghost path = node.path_view();
    let ghost value = node.value_view();
    let ghost prefix = leading + path;
    let ghost lone = lone_sealed::<V, E, A, S, St, Hs>(*hasher, edges0, leading, path);
    let r = prepare(node, store, hasher, buf, Ghost(bound));
    let ghost edges1 = node.children_view().edges();
    proof {
        node.children_view().lemma_edges_len();
        assert forall|j: int| 0 <= j < A::LEN implies #[trigger] walked_at::<V, E, A, S, St, Hs>(
            *hasher,
            edges0,
            edges1,
            prefix,
            j,
            present_count(edges0),
        ) by {
            if inline_at::<V, E, A, S, St>(edges0, j) {
                assert(!sealed_at::<V, E, A, S, St>(edges0, j));
                lemma_walk_sealed_same::<V, E, A, S, St, Hs>(
                    *hasher,
                    St::target(&edges0[j]->0),
                    prefix.push(index_of::<A>(j)),
                );
            }
        }
        assert forall|j: int| 0 <= j < edges0.len() implies (#[trigger] edges0[j] is Some
            <==> edges1[j] is Some) by {
            assert(same_target_at::<V, E, A, S, St>(edges0, edges1, j));
        }
        lemma_present_count_same(edges0, edges1);
        assert forall|j: int| 0 <= j < A::LEN implies #[trigger] same_shape_at::<V, E, A, S, St>(
            edges0,
            edges1,
            j,
        ) by {
            assert(same_target_at::<V, E, A, S, St>(edges0, edges1, j));
        }
    }
    let count = match r {
        Ok(count) => count,
        Err(e) => {
            proof {
                lemma_walked_node::<V, E, A, S, St, Hs>(*hasher, n0, *node, leading);
                lemma_same_shape::<V, E, A, S, St>(n0, *node);
                if sealed_correctly::<V, E, A, S, St, Hs>(*hasher, n0, leading) {
                    assert forall|j: int| 0 <= j < edges0.len() implies (#[trigger] edges0[j]
                        is Some <==> edges1[j] is Some) by {
                        assert(same_target_at::<V, E, A, S, St>(edges0, edges1, j));
                    }
                    lemma_present_count_same(edges0, edges1);
                    lemma_good_node::<V, E, A, S, St, Hs>(*hasher, *node, leading);
                }
            }
            return Err(e);
        },
    };
    let base = buf.len();
    push_all(buf, node.partial_path());
    let mut k: usize = 0;
    while k < A::LEN
        invariant
            k <= A::LEN,
            A::LEN == <A::Index as Niche>::COUNT,
            edges0.len() == A::LEN,
            edges1.len() == A::LEN,
            node.children_view().wf(),
            node.children_view().edges().len() == A::LEN,
            node.path_view() == path,
            node.value_view() == value,
            buf@ == prefix,
            prefix == leading + path,
            leading == old(buf)@,
            path == old(node).path_view(),
            base == leading.len(),
            count == present_count(edges0),
            forall|j: int|
                0 <= j < A::LEN ==> #[trigger] settled_at::<V, E, A, S, St, Hs>(
                    *hasher,
                    edges0,
                    edges1,
                    prefix,
                    j,
                    count as nat,
                    lone,
                    bound,
                ),
            forall|j: int| k <= j < A::LEN ==> #[trigger] node.children_view().edges()[j] == edges1[j],
            n0 == *old(node),
            n0.path_view() == path,
            n0.value_view() == value,
            n0.children_view().wf(),
            n0.children_view().edges() == edges0,
            forall|j: int|
                0 <= j < A::LEN ==> #[trigger] same_target_at::<V, E, A, S, St>(edges0, edges1, j),
            forall|j: int|
                0 <= j < A::LEN && !sealed_at::<V, E, A, S, St>(edges0, j) ==> #[trigger] edges1[j]
                    == edges0[j],
            sealed_closed::<V, E, A, S, St>(n0) ==> forall|j: int|
                0 <= j < k ==> (#[trigger] node.children_view().edges()[j] matches Some(c)
                    ==> deep_sealed::<V, E, A, S, St>(St::target(&c))),
            sealed_correctly::<V, E, A, S, St, Hs>(*hasher, n0, leading) ==> forall|j: int|
                0 <= j < A::LEN ==> #[trigger] good_at::<V, E, A, S, St, Hs>(
                    *hasher,
                    edges1,
                    prefix,
                    j,
                    count as nat,
                ),
            sealed_correctly::<V, E, A, S, St, Hs>(*hasher, n0, leading) ==> forall|j: int|
                0 <= j < k ==> #[trigger] good_at::<V, E, A, S, St, Hs>(
                    *hasher,
                    node.children_view().edges(),
                    prefix,
                    j,
                    count as nat,
                ),
            forall|j: int|
                0 <= j < k ==> #[trigger] same_shape_at::<V, E, A, S, St>(
                    edges0,
                    node.children_view().edges(),
                    j,
                ),
            forall|j: int|
                0 <= j < A::LEN ==> #[trigger] walked_at::<V, E, A, S, St, Hs>(
                    *hasher,
                    edges0,
                    node.children_view().edges(),
                    prefix,
                    j,
                    count as nat,
                ),
            forall|j: int|
                0 <= j < k ==> #[trigger] rewrote_at::<V, E, A, S, St, Hs>(
                    *hasher,
                    edges0,
                    node.children_view().edges(),
                    prefix,
                    j,
                ),
            forall|j: int|
                0 <= j < k ==> #[trigger] done_at::<V, E, A, S, St, Hs>(
                    *hasher,
                    edges0,
                    node.children_view().edges(),
                    prefix,
                    j,
                    count as nat,
                    lone,
                    bound,
                ),
        decreases A::LEN - k,
    {
        let ghost cur = node.children_view().edges();
        proof {
            assert(settled_at::<V, E, A, S, St, Hs>(
                *hasher,
                edges0,
                edges1,
                prefix,
                k as int,
                count as nat,
                lone,
                bound,
            ));
            assert(cur[k as int] == edges1[k as int]);
        }
        match A::Index::try_from_usize(k) {
            Some(i) => {
                proof {
                    A::Index::lemma_injective(i, index_of::<A>(k as int));
                }
                let pending = match node.children().get(i) {
                    Some(e) => St::hash(e).is_none(),
                    None => false,
                };
                if pending {
                    buf.push(i);
                    let r = hash_pending_child(
                        node,
                        store,
                        hasher,
                        buf,
                        i,
                        count,
                        Ghost(bound),
                    );
                    buf.pop();
                    proof {
                        assert(buf@ =~= prefix);
                        let now = node.children_view().edges();
                        assert forall|j: int| 0 <= j < A::LEN implies #[trigger] walked_at::<
                            V,
                            E,
                            A,
                            S,
                            St,
                            Hs,
                        >(*hasher, edges0, now, prefix, j, count as nat) by {
                            assert(walked_at::<V, E, A, S, St, Hs>(
                                *hasher,
                                edges0,
                                cur,
                                prefix,
                                j,
                                count as nat,
                            ));
                            if j != k {
                                assert(now[j] == cur[j]);
                            } else if inline_at::<V, E, A, S, St>(edges0, j) {
                                assert(!sealed_at::<V, E, A, S, St>(edges0, j));
                                assert(cur[j] == edges0[j]);
                                assert(prefix.push(i) == prefix.push(index_of::<A>(j)));
                            }
                        }
                    }
                    proof {
                        let now = node.children_view().edges();
                        assert(same_target_at::<V, E, A, S, St>(edges0, edges1, k as int));
                        assert forall|j: int| 0 <= j < A::LEN implies #[trigger] same_shape_at::<
                            V,
                            E,
                            A,
                            S,
                            St,
                        >(edges0, now, j) by {
                            if j < k {
                                assert(same_shape_at::<V, E, A, S, St>(edges0, cur, j));
                                assert(now[j] == cur[j]);
                            } else if j > k {
                                assert(now[j] == cur[j]);
                                assert(same_target_at::<V, E, A, S, St>(edges0, edges1, j));
                            }
                        }
                        if sealed_correctly::<V, E, A, S, St, Hs>(*hasher, n0, leading) {
                            assert forall|j: int| 0 <= j < A::LEN implies #[trigger] good_at::<
                                V,
                                E,
                                A,
                                S,
                                St,
                                Hs,
                            >(*hasher, now, prefix, j, count as nat) by {
                                if j < k {
                                    assert(good_at::<V, E, A, S, St, Hs>(
                                        *hasher,
                                        cur,
                                        prefix,
                                        j,
                                        count as nat,
                                    ));
                                    assert(now[j] == cur[j]);
                                } else if j > k {
                                    assert(now[j] == cur[j]);
                                    assert(good_at::<V, E, A, S, St, Hs>(
                                        *hasher,
                                        edges1,
                                        prefix,
                                        j,
                                        count as nat,
                                    ));
                                } else {
                                    assert(good_at::<V, E, A, S, St, Hs>(
                                        *hasher,
                                        edges1,
                                        prefix,
                                        j,
                                        count as nat,
                                    ));
                                    assert(prefix.push(i) == prefix.push(index_of::<A>(j)));
                                }
                            }
                            assert forall|j: int| 0 <= j < edges0.len() implies (#[trigger] edges0[j]
                                is Some <==> now[j] is Some) by {
                                assert(same_shape_at::<V, E, A, S, St>(edges0, now, j));
                            }
                            lemma_present_count_same(edges0, now);
                        }
                    }
                    match r {
                        Ok(()) => {
                            proof {
                                if !sealed_at::<V, E, A, S, St>(edges0, k as int) {
                                    assert(cur[k as int] == edges0[k as int]);
                                }
                                assert(rewrote_at::<V, E, A, S, St, Hs>(
                                    *hasher,
                                    edges0,
                                    node.children_view().edges(),
                                    prefix,
                                    k as int,
                                )) by {
                                    assert(prefix.push(i) == prefix.push(index_of::<A>(k as int)));
                                }
                            }
                        },
                        Err(e) => {
                            buf.truncate(base);
                            proof {
                                assert(buf@ =~= leading);
                                let now = node.children_view().edges();
                                assert forall|j: int| 0 <= j < edges0.len() implies (
                                #[trigger] edges0[j] is Some <==> now[j] is Some) by {
                                    assert(same_shape_at::<V, E, A, S, St>(edges0, now, j));
                                }
                                lemma_present_count_same(edges0, now);
                                lemma_walked_node::<V, E, A, S, St, Hs>(*hasher, n0, *node, leading);
                                lemma_same_shape::<V, E, A, S, St>(n0, *node);
                                if sealed_correctly::<V, E, A, S, St, Hs>(*hasher, n0, leading) {
                                    lemma_good_node::<V, E, A, S, St, Hs>(*hasher, *node, leading);
                                }
                            }
                            return Err(e);
                        },
                    }
                }
            },
            None => {},
        }
        proof {
            let now = node.children_view().edges();
            assert forall|j: int| 0 <= j < k + 1 implies #[trigger] done_at::<
                V,
                E,
                A,
                S,
                St,
                Hs,
            >(*hasher, edges0, now, prefix, j, count as nat, lone, bound) by {
                if j < k {
                    assert(done_at::<V, E, A, S, St, Hs>(
                        *hasher,
                        edges0,
                        cur,
                        prefix,
                        j,
                        count as nat,
                        lone,
                        bound,
                    ));
                    assert(now[j] == cur[j]);
                }
            }
            assert forall|j: int| k + 1 <= j < A::LEN implies #[trigger] now[j] == edges1[j] by {
                assert(now[j] == cur[j]);
            }
            assert forall|j: int| 0 <= j < k + 1 implies #[trigger] rewrote_at::<
                V,
                E,
                A,
                S,
                St,
                Hs,
            >(*hasher, edges0, now, prefix, j) by {
                if j < k {
                    assert(rewrote_at::<V, E, A, S, St, Hs>(*hasher, edges0, cur, prefix, j));
                    assert(now[j] == cur[j]);
                }
            }
            assert forall|j: int| 0 <= j < k + 1 implies #[trigger] same_shape_at::<V, E, A, S, St>(
                edges0,
                now,
                j,
            ) by {
                if j < k {
                    assert(same_shape_at::<V, E, A, S, St>(edges0, cur, j));
                    assert(now[j] == cur[j]);
                } else {
                    assert(same_target_at::<V, E, A, S, St>(edges0, edges1, j));
                }
            }
            if sealed_correctly::<V, E, A, S, St, Hs>(*hasher, n0, leading) {
                assert forall|j: int| 0 <= j < k + 1 implies #[trigger] good_at::<
                    V,
                    E,
                    A,
                    S,
                    St,
                    Hs,
                >(*hasher, now, prefix, j, count as nat) by {
                    if j < k {
                        assert(good_at::<V, E, A, S, St, Hs>(
                            *hasher,
                            cur,
                            prefix,
                            j,
                            count as nat,
                        ));
                        assert(now[j] == cur[j]);
                    } else {
                        assert(good_at::<V, E, A, S, St, Hs>(
                            *hasher,
                            edges1,
                            prefix,
                            j,
                            count as nat,
                        ));
                    }
                }
            }
            if sealed_closed::<V, E, A, S, St>(n0) {
                assert forall|j: int| 0 <= j < k + 1 implies (#[trigger] now[j] matches Some(c)
                    ==> deep_sealed::<V, E, A, S, St>(St::target(&c))) by {
                    if j < k {
                        assert(now[j] == cur[j]);
                    } else if now[j] is Some && edges0[j] is Some {
                        let ghost ki = index_of::<A>(j);
                        ki.lemma_value();
                        assert(same_target_at::<V, E, A, S, St>(edges0, edges1, j));
                        lemma_sealed_closed_child::<V, E, A, S, St>(n0, ki, edges0[j]->0);
                    }
                }
            }
        }
        k = k + 1;
    }
    buf.truncate(base);
    proof {
        assert(buf@ =~= leading);
        let cur = node.children_view().edges();
        lemma_done_children::<V, E, A, S, St, Hs>(
            *hasher,
            edges0,
            cur,
            prefix,
            count as nat,
            lone,
            bound,
            A::LEN as int,
        );
        assert(cur.take(A::LEN as int) =~= cur);
        assert(edges0.take(A::LEN as int) =~= edges0);
    }
    let h = finish_node::<V, E, A, S, St, Hs>(node, hasher, buf.as_slice(), siblings);
    proof {
        lemma_rewrote_node::<V, E, A, S, St, Hs>(*hasher, n0, *node, leading);
        let fin = node.children_view().edges();
        assert forall|j: int| 0 <= j < edges0.len() implies (#[trigger] edges0[j] is Some
            <==> fin[j] is Some) by {
            assert(same_shape_at::<V, E, A, S, St>(edges0, fin, j));
        }
        lemma_present_count_same(edges0, fin);
        lemma_walked_node::<V, E, A, S, St, Hs>(*hasher, n0, *node, leading);
        lemma_same_shape::<V, E, A, S, St>(n0, *node);
        if sealed_closed::<V, E, A, S, St>(n0) {
            lemma_deep_sealed::<V, E, A, S, St>(*node);
        }
        if sealed_correctly::<V, E, A, S, St, Hs>(*hasher, n0, leading) {
            let fin = node.children_view().edges();
            assert forall|j: int| 0 <= j < edges0.len() implies (#[trigger] edges0[j] is Some
                <==> fin[j] is Some) by {
                assert(same_shape_at::<V, E, A, S, St>(edges0, fin, j));
            }
            lemma_present_count_same(edges0, fin);
            lemma_good_node::<V, E, A, S, St, Hs>(*hasher, *node, leading);
        }
    }
    Ok(h)
}

/// Hashes the trie under `root`, sealing every inline edge with its node's
/// hash on the way up, and returns the root's hash.
///
/// Already sealed children are trusted and not descended into, except the
/// only sealed child of a sibling-sensitive node, which is hashed again
/// (see [`TrieHasher::sibling_sensitive`]). Every node reached through
/// inline edges has its value rewritten by [`TrieHasher::update_value`]
/// before it is hashed (see [`values_rewritten`]). The root stays inline,
/// since it is not behind an edge.
///
/// Fails only with the store's error from a [`read`](EdgeStore::read) or
/// [`materialize`](EdgeStore::materialize), both of which happen only when a
/// sibling-sensitive node must rehash a sealed child. Whether or not it
/// fails, it leaves a well-formed trie with the same keys in which every
/// edge it sealed carries the hash of its node's content and position (see
/// [`walk_sealed_ok`]), and in which, if every sealed edge did so before
/// (see [`sealed_correctly`]), every sealed edge does so after, so a later
/// hash can trust them.
pub fn hash<V, E, A: Arity, S: ChildStore<A, E>, St: EdgeStore<V, E, A, S>, Hs: TrieHasher<
    V,
    A,
    Hash = St::Hash,
>>(root: &mut Node<V, E, A, S>, store: &mut St, hasher: &Hs) -> (r: Result<Hs::Hash, St::Error>)
    requires
        old(root).children_view().wf(),
    ensures
        final(root).children_view().wf(),
        final(root).path_view() == old(root).path_view(),
        same_shape::<V, E, A, S, St>(*old(root), *final(root)),
        St::cannot_fail() || never_sensitive(*hasher) ==> r is Ok,
        r is Ok && sealed_closed::<V, E, A, S, St>(*old(root)) ==> deep_sealed::<V, E, A, S, St>(
            *final(root),
        ),
        sealed_correctly::<V, E, A, S, St, Hs>(*hasher, *old(root), Seq::empty())
            ==> sealed_correctly::<V, E, A, S, St, Hs>(*hasher, *final(root), Seq::empty()),
        walk_sealed_ok::<V, E, A, S, St, Hs>(*hasher, *old(root), *final(root), Seq::empty()),
        r is Ok ==> values_rewritten::<V, E, A, S, St, Hs>(
            *hasher,
            *old(root),
            *final(root),
            Seq::empty(),
        ),
        r is Ok ==> final(root).value_view() == rewritten(
            *hasher,
            Seq::empty(),
            old(root).path_view(),
            sealed_children::<V, E, A, S, St>(final(root).children_view().edges()),
            old(root).value_view(),
        ),
        r matches Ok(h) ==> {
            &&& h == trie_hash::<V, E, A, S, St, Hs>(*hasher, *old(root))
            &&& all_sealed::<V, E, A, S, St>(final(root).children_view().edges())
            &&& h == hasher.node_hash(
                Seq::empty(),
                final(root).path_view(),
                final(root).value_view(),
                0,
                sealed_children::<V, E, A, S, St>(final(root).children_view().edges()),
            )
        },
{
    let ghost edges = root.children_view().edges();
    proof {
        lemma_max_rank::<V, E, A, S, St>(edges);
    }
    let mut buf: Vec<A::Index> = Vec::new();
    hash_subtree(
        root,
        store,
        hasher,
        &mut buf,
        0,
        Ghost(max_rank::<V, E, A, S, St>(edges) + 1),
    )
}

} // verus!
