//! The structural invariant of a settled trie and how a node breaks it.

use vstd::prelude::*;

use crate::arity::Arity;
use crate::children::{ChildMap, ChildStore};
use crate::fixed::present_count;
use crate::iter::{key_lt, lemma_lt_asym, lemma_lt_at, lemma_not_lt_prefix};
use crate::niche::Niche;
use crate::node::Node;
use crate::ops::lookup;
use crate::path::{push_all, Path};
use crate::store::{lemma_max_rank, max_rank, EdgeStore};

verus! {

/// The two ways a node can break the structural invariant.
#[derive(Debug, Clone, Copy, PartialEq, Eq, Structural)]
pub enum ViolationKind {
    /// A node with no value and exactly one child, which a removal would have
    /// merged with that child.
    ValuelessSingleChild,
    /// A node with no value and no children, which a removal would have
    /// removed.
    ValuelessLeaf,
}

/// A node that breaks the structural invariant, by full path.
#[derive(Debug, Clone, PartialEq, Eq)]
pub struct Violation<A: Arity> {
    /// The offending node's full path.
    pub path: Path<A>,
    /// What is wrong with it.
    pub kind: ViolationKind,
}

/// Why a validation failed: the store failed to read an edge, or the first
/// violation found, in pre-order.
#[derive(Debug, Clone, PartialEq, Eq)]
pub enum ValidateError<A: Arity, E> {
    /// The store failed to read an edge.
    Store(E),
    /// The first violation found, in pre-order.
    Invalid(Violation<A>),
}

/// The structural rule for one node with the given value presence and child
/// count: a node with no value has at least two children, so a node with no
/// children has a value.
pub open spec fn violation_of(has_value: bool, children: nat) -> Option<ViolationKind> {
    if has_value {
        None
    } else if children == 0 {
        Some(ViolationKind::ValuelessLeaf)
    } else if children == 1 {
        Some(ViolationKind::ValuelessSingleChild)
    } else {
        None
    }
}

/// A node keeps the structural invariant exactly when it has a value or at
/// least two children; a valueless node with no children breaks it as a
/// leaf, and one with exactly one child as a single-child node.
pub proof fn lemma_violation_kinds(has_value: bool, children: nat)
    ensures
        violation_of(has_value, children) is None <==> (has_value || children >= 2),
        violation_of(has_value, children) == Some(ViolationKind::ValuelessLeaf) <==> (!has_value
            && children == 0),
        violation_of(has_value, children) == Some(ViolationKind::ValuelessSingleChild) <==> (
        !has_value && children == 1),
{
}

/// How `node` breaks the structural invariant, if it does.
pub fn node_violation<V, E, A: Arity, S: ChildStore<A, E>>(node: &Node<V, E, A, S>) -> (r: Option<
    ViolationKind,
>)
    requires
        node.children_view().wf(),
    ensures
        r == violation_of(
            node.value_view() is Some,
            present_count(node.children_view().edges()),
        ),
{
    if node.value().is_some() {
        return None;
    }
    match node.children().count() {
        0 => Some(ViolationKind::ValuelessLeaf),
        1 => Some(ViolationKind::ValuelessSingleChild),
        _ => None,
    }
}

/// The structural rule for a node: its value and its number of children.
pub open spec fn node_rule<V, E, A: Arity, S: ChildStore<A, E>>(node: Node<V, E, A, S>) -> Option<
    ViolationKind,
> {
    violation_of(node.value_view() is Some, present_count(node.children_view().edges()))
}

/// Every node below `node`, reached by any key, keeps the structural
/// invariant.
pub open spec fn subtree_valid<V, E, A: Arity, S: ChildStore<A, E>, St: EdgeStore<V, E, A, S>>(
    node: Node<V, E, A, S>,
) -> bool {
    forall|key: Seq<A::Index>| #[trigger]
        lookup::<V, E, A, S, St>(node, key) matches Some(m) ==> node_rule(m) is None
}

/// A subtree keeps the structural invariant exactly when every node in it
/// has a value or at least two children.
pub proof fn lemma_subtree_valid_means<
    V,
    E,
    A: Arity,
    S: ChildStore<A, E>,
    St: EdgeStore<V, E, A, S>,
>(node: Node<V, E, A, S>)
    ensures
        subtree_valid::<V, E, A, S, St>(node) <==> forall|key: Seq<A::Index>|
            #[trigger] lookup::<V, E, A, S, St>(node, key) matches Some(m) ==> (m.value_view() is Some
                || present_count(m.children_view().edges()) >= 2),
{
}

/// Every node below `node` whose full path, after `prefix`, sorts before
/// `limit` keeps the structural invariant.
pub open spec fn valid_before<V, E, A: Arity, S: ChildStore<A, E>, St: EdgeStore<V, E, A, S>>(
    node: Node<V, E, A, S>,
    prefix: Seq<A::Index>,
    limit: Seq<A::Index>,
) -> bool {
    forall|key: Seq<A::Index>|
        #![trigger lookup::<V, E, A, S, St>(node, key)]
        key_lt(prefix + key, limit) && lookup::<V, E, A, S, St>(node, key) is Some ==> node_rule(
            lookup::<V, E, A, S, St>(node, key)->0,
        ) is None
}

/// A violation found under the child at `i` of `node`, after every earlier
/// child was found valid and `node` itself keeps the invariant, is the first
/// in key order below `node`.
#[verifier::spinoff_prover]
proof fn lemma_first_violation<V, E, A: Arity, S: ChildStore<A, E>, St: EdgeStore<V, E, A, S>>(
    node: Node<V, E, A, S>,
    start: Seq<A::Index>,
    i: A::Index,
    e: E,
    limit: Seq<A::Index>,
)
    requires
        node.children_view().wf(),
        node.children_view().edges()[i.value() as int] == Some(e),
        node_rule(node) is None,
        forall|j: int|
            0 <= j < i.value() ==> (#[trigger] node.children_view().edges()[j] matches Some(c)
                ==> subtree_valid::<V, E, A, S, St>(St::target(&c))),
        (start + node.path_view()).len() < limit.len(),
        limit.take((start + node.path_view()).len() as int) == start + node.path_view(),
        limit[(start + node.path_view()).len() as int] == i,
        valid_before::<V, E, A, S, St>(
            St::target(&e),
            (start + node.path_view()).push(i),
            limit,
        ),
    ensures
        valid_before::<V, E, A, S, St>(node, start, limit),
{
    A::lemma_len();
    node.children_view().lemma_edges_len();
    let p = node.path_view();
    let before = start + p;
    let edges = node.children_view().edges();
    assert forall|key: Seq<A::Index>|
        #![trigger lookup::<V, E, A, S, St>(node, key)]
        key_lt(start + key, limit) && lookup::<V, E, A, S, St>(node, key) is Some implies node_rule(
            lookup::<V, E, A, S, St>(node, key)->0,
        ) is None by {
        if key.len() == p.len() {
            assert(key =~= p) by {
                assert(key.take(p.len() as int) =~= key);
            }
        } else {
            let j = key[p.len() as int];
            j.lemma_value();
            let ck = key.skip(p.len() + 1int);
            let full = start + key;
            assert(full.take(before.len() as int) =~= before) by {
                assert forall|t: int| 0 <= t < before.len() implies #[trigger] full.take(
                    before.len() as int,
                )[t] == before[t] by {
                    if t >= start.len() {
                        assert(key.take(p.len() as int)[t - start.len()] == p[t - start.len()]);
                    }
                }
            }
            assert(full[before.len() as int] == j);
            if j.value() < i.value() {
                let c = edges[j.value() as int]->0;
                assert(subtree_valid::<V, E, A, S, St>(St::target(&c)));
                assert(lookup::<V, E, A, S, St>(St::target(&c), ck) == lookup::<V, E, A, S, St>(
                    node,
                    key,
                ));
            } else if j.value() == i.value() {
                A::Index::lemma_injective(j, i);
                assert(full =~= before.push(i) + ck) by {
                    assert forall|t: int| 0 <= t < full.len() implies #[trigger] full[t] == (
                    before.push(i) + ck)[t] by {
                        if t < before.len() {
                            assert(full.take(before.len() as int)[t] == before[t]);
                        }
                    }
                }
                assert(lookup::<V, E, A, S, St>(St::target(&e), ck) == lookup::<V, E, A, S, St>(
                    node,
                    key,
                ));
            } else {
                assert(limit.take(before.len() as int) == full.take(before.len() as int));
                lemma_lt_at(limit, full, before.len() as int);
                lemma_lt_asym(limit, full);
            }
        }
    }
}

/// Checks the subtree of `node`, whose full path is `buf` followed by its
/// partial path, in pre-order; `bound` is above the rank of every edge of
/// `node`.
#[verifier::spinoff_prover]
fn validate_node<V, E, A: Arity, S: ChildStore<A, E>, St: EdgeStore<V, E, A, S>>(
    node: &Node<V, E, A, S>,
    store: &St,
    buf: &mut Vec<A::Index>,
    Ghost(bound): Ghost<nat>,
) -> (r: Result<(), ValidateError<A, St::Error>>)
    requires
        node.children_view().wf(),
        forall|k: int|
            0 <= k < node.children_view().edges().len() ==> (
            #[trigger] node.children_view().edges()[k] matches Some(c) ==> St::rank(&c) < bound),
    ensures
        final(buf)@ == old(buf)@,
        r is Ok ==> subtree_valid::<V, E, A, S, St>(*node),
        r matches Err(ValidateError::Invalid(v)) ==> exists|key: Seq<A::Index>|
            #![trigger lookup::<V, E, A, S, St>(*node, key)]
            v.path@ == old(buf)@ + key && (lookup::<V, E, A, S, St>(*node, key) matches Some(m)
                && node_rule(m) == Some(v.kind)),
        r matches Err(ValidateError::Invalid(v)) ==> valid_before::<V, E, A, S, St>(
            *node,
            old(buf)@,
            v.path@,
        ),
        St::cannot_fail() ==> !(r matches Err(ValidateError::Store(_))),
        (forall|j: int|
            0 <= j < node.children_view().edges().len() ==> #[trigger] node.children_view().edges()[j]
                is None) ==> !(r matches Err(ValidateError::Store(_))),
        node_rule(*node) matches Some(kind) ==> (r matches Err(ValidateError::Invalid(v))
            && v.path@ == old(buf)@ + node.path_view() && v.kind == kind),
    decreases bound,
{
    proof {
        A::lemma_len();
        node.children_view().lemma_edges_len();
    }
    let ghost start = buf@;
    let base = buf.len();
    let path = node.partial_path();
    push_all(buf, path);
    let ghost p = path@;
    let ghost edges = node.children_view().edges();
    proof {
        assert(p.take(p.len() as int) =~= p);
        assert(lookup::<V, E, A, S, St>(*node, p) == Some(*node));
    }
    match node_violation(node) {
        Some(kind) => {
            let found = Path::from_slice(buf.as_slice());
            buf.truncate(base);
            proof {
                assert(buf@ =~= start);
                assert forall|key: Seq<A::Index>|
                    #![trigger lookup::<V, E, A, S, St>(*node, key)]
                    lookup::<V, E, A, S, St>(*node, key) is Some implies !key_lt(
                    start + key,
                    found@,
                ) by {
                    assert((start + key).take(found@.len() as int) =~= found@);
                    lemma_not_lt_prefix(start + key, found@);
                }
            }
            return Err(ValidateError::Invalid(Violation { path: found, kind }));
        },
        None => {},
    }
    let children = node.children();
    let mut k: usize = 0;
    while k < A::LEN
        invariant
            k <= A::LEN,
            A::LEN == <A::Index as Niche>::COUNT,
            edges == node.children_view().edges(),
            edges == children.edges(),
            edges.len() == A::LEN,
            children.wf(),
            node.children_view().wf(),
            buf@ == start + p,
            start == old(buf)@,
            base == start.len(),
            p == node.path_view(),
            node_rule(*node) is None,
            forall|j: int|
                0 <= j < A::LEN ==> (#[trigger] edges[j] matches Some(c) ==> St::rank(&c) < bound),
            forall|j: int|
                0 <= j < k ==> (#[trigger] edges[j] matches Some(c) ==> subtree_valid::<
                    V,
                    E,
                    A,
                    S,
                    St,
                >(St::target(&c))),
        decreases A::LEN - k,
    {
        match A::Index::try_from_usize(k) {
            Some(i) => {
                match children.get(i) {
                    Some(edge) => {
                        match store.read(edge) {
                            Err(e) => {
                                buf.truncate(base);
                                proof {
                                    assert(buf@ =~= start);
                                }
                                return Err(ValidateError::Store(e));
                            },
                            Ok(child) => {
                                let ghost before = buf@;
                                buf.push(i);
                                let r = validate_node(child, store, buf, Ghost(St::rank(edge)));
                                let ghost after = buf@;
                                buf.pop();
                                proof {
                                    assert(buf@ =~= before);
                                }
                                match r {
                                    Ok(()) => {},
                                    Err(e) => {
                                        buf.truncate(base);
                                        proof {
                                            assert(buf@ =~= start);
                                            if let ValidateError::Invalid(v) = &e {
                                                let ck = choose|ck: Seq<A::Index>|
                                                    #![trigger lookup::<V, E, A, S, St>(*child, ck)]
                                                    v.path@ == before.push(i) + ck
                                                        && (lookup::<V, E, A, S, St>(*child, ck) matches Some(m)
                                                        && node_rule(m) == Some(v.kind));
                                                let key = p.push(i) + ck;
                                                assert(key.take(p.len() as int) =~= p);
                                                assert(key[p.len() as int] == i);
                                                assert(key.skip((p.len() + 1) as int) =~= ck);
                                                i.lemma_value();
                                                assert(v.path@ =~= start + key);
                                                assert(lookup::<V, E, A, S, St>(*node, key)
                                                    == lookup::<V, E, A, S, St>(*child, ck));
                                                assert(v.path@.take(before.len() as int) =~= before);
                                                assert(v.path@[before.len() as int] == i);
                                                lemma_first_violation::<V, E, A, S, St>(
                                                    *node,
                                                    start,
                                                    i,
                                                    *edge,
                                                    v.path@,
                                                );
                                            }
                                        }
                                        return Err(e);
                                    },
                                }
                            },
                        }
                    },
                    None => {},
                }
            },
            None => {},
        }
        k = k + 1;
    }
    buf.truncate(base);
    proof {
        assert(buf@ =~= start);
        assert forall|key: Seq<A::Index>| #[trigger]
            lookup::<V, E, A, S, St>(*node, key) is Some implies node_rule(
                lookup::<V, E, A, S, St>(*node, key)->0,
            ) is None by {
            if key.len() > p.len() && key.take(p.len() as int) == p {
                let i = key[p.len() as int];
                i.lemma_value();
                let j = i.value() as int;
                if let Some(c) = edges[j] {
                    assert(subtree_valid::<V, E, A, S, St>(St::target(&c)));
                    assert(lookup::<V, E, A, S, St>(St::target(&c), key.skip((p.len() + 1) as int)) matches Some(
                        m2,
                    ) ==> node_rule(m2) is None);
                }
            }
        }
    }
    Ok(())
}

/// Checks the structural invariant: a node with no value has at least two
/// children, and a node with no children has a value.
///
/// A read-only pre-order walk over every node, valued or not, reporting the
/// first violation in key order with the offending node's full path, or the
/// store's error from a [`read`](EdgeStore::read).
pub fn validate<V, E, A: Arity, S: ChildStore<A, E>, St: EdgeStore<V, E, A, S>>(
    root: Option<&Node<V, E, A, S>>,
    store: &St,
) -> (r: Result<(), ValidateError<A, St::Error>>)
    requires
        root matches Some(n) ==> n.children_view().wf(),
    ensures
        root is None ==> r is Ok,
        r is Ok ==> (root matches Some(n) ==> subtree_valid::<V, E, A, S, St>(*n)),
        r matches Err(ValidateError::Invalid(v)) ==> (root matches Some(n) && lookup::<
            V,
            E,
            A,
            S,
            St,
        >(*n, v.path@) matches Some(m) && node_rule(m) == Some(v.kind)),
        r matches Err(ValidateError::Invalid(v)) ==> (root matches Some(n) && valid_before::<
            V,
            E,
            A,
            S,
            St,
        >(*n, Seq::empty(), v.path@)),
        St::cannot_fail() ==> !(r matches Err(ValidateError::Store(_))),
        root matches Some(n) && (forall|j: int|
            0 <= j < n.children_view().edges().len() ==> #[trigger] n.children_view().edges()[j]
                is None) ==> !(r matches Err(ValidateError::Store(_))),
        root matches Some(n) ==> (node_rule(*n) matches Some(kind) ==> (r matches Err(
            ValidateError::Invalid(v),
        ) && v.path@ == n.path_view() && v.kind == kind)),
{
    match root {
        None => Ok(()),
        Some(n) => {
            let mut buf: Vec<A::Index> = Vec::new();
            let ghost edges = n.children_view().edges();
            proof {
                lemma_max_rank::<V, E, A, S, St>(edges);
            }
            let r = validate_node(
                n,
                store,
                &mut buf,
                Ghost(max_rank::<V, E, A, S, St>(edges) + 1),
            );
            proof {
                if let Err(ValidateError::Invalid(v)) = &r {
                    let key = choose|key: Seq<A::Index>|
                        #![trigger lookup::<V, E, A, S, St>(*n, key)]
                        v.path@ == Seq::<A::Index>::empty() + key && (lookup::<V, E, A, S, St>(
                            *n,
                            key,
                        ) matches Some(m) && node_rule(m) == Some(v.kind));
                    assert(Seq::<A::Index>::empty() + key =~= key);
                }
            }
            r
        },
    }
}

} // verus!
