//! The trie node type.

use vstd::prelude::*;

use crate::arity::Arity;
use crate::children::{ChildMap, ChildStore};
use crate::fixed::present_count;
use crate::path::Path;

verus! {

/// A trie node: a partial path, an optional value, and a map of edges.
///
/// A trie is `Option<Node<..>>`; the empty trie is `None`. A leaf is a node
/// with no children. A settled trie has no valueless node with fewer than two
/// children; the type does not enforce this (see
/// [`node_violation`](crate::validate::node_violation)).
pub struct Node<V, E, A: Arity, S: ChildStore<A, E>> {
    partial_path: Path<A>,
    value: Option<V>,
    children: S::Map,
}

impl<V, E, A: Arity, S: ChildStore<A, E>> Node<V, E, A, S> {
    /// The node's partial path.
    pub closed spec fn path_view(&self) -> Seq<A::Index> {
        self.partial_path@
    }

    /// The node's value.
    pub closed spec fn value_view(&self) -> Option<V> {
        self.value
    }

    /// The node's children map.
    pub closed spec fn children_view(&self) -> S::Map {
        self.children
    }

    /// A node from its parts.
    pub fn new(partial_path: Path<A>, value: Option<V>, children: S::Map) -> (r: Self)
        ensures
            r.path_view() == partial_path@,
            r.value_view() == value,
            r.children_view() == children,
    {
        Node { partial_path, value, children }
    }

    /// A node with a value and no children.
    pub fn leaf(partial_path: Path<A>, value: V) -> (r: Self)
        ensures
            r.path_view() == partial_path@,
            r.value_view() == Some(value),
            r.children_view().wf(),
            r.children_view().edges() == Seq::new(A::LEN as nat, |k: int| None::<E>),
    {
        Node::new(partial_path, Some(value), S::Map::empty())
    }

    /// The path from this node's parent to it, excluding the index the
    /// parent holds it under.
    pub fn partial_path(&self) -> (r: &[A::Index])
        ensures
            r@ == self.path_view(),
    {
        self.partial_path.as_slice()
    }

    /// Replaces the partial path, returning the old one.
    pub fn set_partial_path(&mut self, partial_path: Path<A>) -> (r: Path<A>)
        ensures
            r@ == old(self).path_view(),
            final(self).path_view() == partial_path@,
            final(self).value_view() == old(self).value_view(),
            final(self).children_view() == old(self).children_view(),
    {
        let mut p = partial_path;
        core::mem::swap(&mut self.partial_path, &mut p);
        p
    }

    /// The value, if any.
    pub fn value(&self) -> (r: Option<&V>)
        ensures
            match r {
                Some(v) => self.value_view() == Some(*v),
                None => self.value_view() is None,
            },
    {
        match &self.value {
            Some(v) => Some(v),
            None => None,
        }
    }

    /// The value, mutably, if any.
    pub fn value_mut(&mut self) -> (r: Option<&mut V>)
        ensures
            old(self).value_view() is None ==> r is None && final(self).value_view() is None,
            old(self).value_view() is Some ==> r is Some && Some(*r->0) == old(self).value_view()
                && final(self).value_view() == Some(*final(r->0)),
            final(self).path_view() == old(self).path_view(),
            final(self).children_view() == old(self).children_view(),
    {
        self.value.as_mut()
    }

    /// Replaces the value, returning the old one.
    pub fn set_value(&mut self, value: Option<V>) -> (r: Option<V>)
        ensures
            r == old(self).value_view(),
            final(self).value_view() == value,
            final(self).path_view() == old(self).path_view(),
            final(self).children_view() == old(self).children_view(),
    {
        let mut v = value;
        core::mem::swap(&mut self.value, &mut v);
        v
    }

    /// The children map.
    pub fn children(&self) -> (r: &S::Map)
        ensures
            *r == self.children_view(),
    {
        &self.children
    }

    /// The children map, mutably.
    pub fn children_mut(&mut self) -> (r: &mut S::Map)
        ensures
            *r == old(self).children_view(),
            final(self).children_view() == *final(r),
            final(self).path_view() == old(self).path_view(),
            final(self).value_view() == old(self).value_view(),
    {
        &mut self.children
    }

    /// `true` if the node has no children.
    pub fn is_leaf(&self) -> (r: bool)
        requires
            self.children_view().wf(),
        ensures
            r == (present_count(self.children_view().edges()) == 0),
    {
        self.children.is_empty()
    }

    /// Takes the node apart.
    pub fn into_parts(self) -> (r: (Path<A>, Option<V>, S::Map))
        ensures
            r.0@ == self.path_view(),
            r.1 == self.value_view(),
            r.2 == self.children_view(),
    {
        (self.partial_path, self.value, self.children)
    }
}

/// The placeholder node: empty path, no value, empty map.
impl<V, E, A: Arity, S: ChildStore<A, E>> Default for Node<V, E, A, S> {
    fn default() -> (r: Self)
        ensures
            r.path_view() == Seq::<A::Index>::empty(),
            r.value_view() is None,
            r.children_view().wf(),
            r.children_view().edges() == Seq::new(A::LEN as nat, |k: int| None::<E>),
    {
        Node::new(Path::new(), None, S::Map::empty())
    }
}

} // verus!
