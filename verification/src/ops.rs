//! Lookup over a store.

use vstd::prelude::*;
use vstd::slice::slice_subrange;
use vstd::std_specs::cmp::PartialEqSpec;

use crate::arity::Arity;
use crate::children::{ChildMap, ChildStore};
use crate::niche::Niche;
use crate::node::Node;
use crate::path::common_prefix;
use crate::store::EdgeStore;

verus! {

/// The node whose full path, below `node`, equals `key`: `node` itself when
/// `key` is its partial path, otherwise the node found under the child at
/// the next index of `key`, with the rest of `key`.
pub open spec fn lookup<V, E, A: Arity, S: ChildStore<A, E>, St: EdgeStore<V, E, A, S>>(
    node: Node<V, E, A, S>,
    key: Seq<A::Index>,
) -> Option<Node<V, E, A, S>>
    decreases key.len(),
{
    let p = node.path_view();
    if key.len() < p.len() || key.take(p.len() as int) != p {
        None
    } else if key.len() == p.len() {
        Some(node)
    } else {
        match node.children_view().edges()[key[p.len() as int].value() as int] {
            Some(e) => lookup::<V, E, A, S, St>(St::target(&e), key.skip((p.len() + 1) as int)),
            None => None,
        }
    }
}

/// The value stored at `key` in the trie rooted at `root`.
pub open spec fn lookup_value<V, E, A: Arity, S: ChildStore<A, E>, St: EdgeStore<V, E, A, S>>(
    root: Option<Node<V, E, A, S>>,
    key: Seq<A::Index>,
) -> Option<V> {
    match root {
        None => None,
        Some(n) => match lookup::<V, E, A, S, St>(n, key) {
            Some(found) => found.value_view(),
            None => None,
        },
    }
}

/// Looking `key` up below `node` goes on into a present child of `node`,
/// which takes a read of the store.
pub open spec fn descends<V, E, A: Arity, S: ChildStore<A, E>>(
    node: Node<V, E, A, S>,
    key: Seq<A::Index>,
) -> bool {
    let p = node.path_view();
    &&& key.len() > p.len()
    &&& key.take(p.len() as int) == p
    &&& node.children_view().edges()[key[p.len() as int].value() as int] is Some
}

/// The node whose full path equals `key`, valued or not.
///
/// A loop that consumes at least one index of `key` per level, so a key of
/// any length is looked up on a bounded stack. Fails only with the store's
/// error from a [`read`](EdgeStore::read) along the path.
pub fn get_node<'a, V, E, A: Arity, S: ChildStore<A, E>, St: EdgeStore<V, E, A, S>>(
    root: Option<&'a Node<V, E, A, S>>,
    store: &'a St,
    key: &[A::Index],
) -> (r: Result<Option<&'a Node<V, E, A, S>>, St::Error>)
    requires
        root matches Some(n) ==> n.children_view().wf(),
    ensures
        root is None ==> r matches Ok(None),
        St::cannot_fail() ==> r is Ok,
        root matches Some(n) && !descends(*n, key@) ==> r is Ok,
        root matches Some(n) ==> (r matches Ok(found) ==> match found {
            Some(m) => lookup::<V, E, A, S, St>(*n, key@) == Some(*m),
            None => lookup::<V, E, A, S, St>(*n, key@) is None,
        }),
{
    let top = match root {
        None => return Ok(None),
        Some(n) => n,
    };
    proof {
        A::lemma_len();
        <A::Index as Niche>::lemma_eq_spec();
    }
    let mut cur: &'a Node<V, E, A, S> = top;
    let mut rest: &[A::Index] = key;
    let ghost mut descended = false;
    loop
        invariant
            root == Some(top),
            !descended ==> cur == top && rest@ == key@,
            descended ==> descends(*top, key@),
            cur.children_view().wf(),
            lookup::<V, E, A, S, St>(*top, key@) == lookup::<V, E, A, S, St>(*cur, rest@),
            crate::path::eq_is_equality::<A::Index>(),
        decreases rest@.len(),
    {
        let path = cur.partial_path();
        let o = common_prefix(rest, path);
        let ghost n = o.shared@.len() as int;
        proof {
            assert forall|k: int| 0 <= k < n implies rest@[k] == path@[k] by {
                assert(rest@[k].eq_spec(&path@[k]));
            }
        }
        if o.unique_b.len() > 0 {
            proof {
                if rest@.len() >= path@.len() {
                    assert(!rest@[n].eq_spec(&path@[n]));
                    assert(rest@.take(path@.len() as int)[n] != path@[n]);
                }
            }
            return Ok(None);
        }
        proof {
            assert(rest@.take(path@.len() as int) =~= path@);
        }
        if o.unique_a.len() == 0 {
            return Ok(Some(cur));
        }
        let i = o.unique_a[0];
        let key_rest = slice_subrange(o.unique_a, 1, o.unique_a.len());
        proof {
            i.lemma_value();
            assert(i == rest@[path@.len() as int]);
            assert(key_rest@ =~= rest@.skip((path@.len() + 1) as int));
        }
        match cur.children().get(i) {
            None => {
                return Ok(None);
            },
            Some(edge) => {
                proof {
                    if !descended {
                        assert(descends(*top, key@));
                    }
                    descended = true;
                }
                match store.read(edge) {
                    Ok(next) => {
                        cur = next;
                        rest = key_rest;
                    },
                    Err(e) => {
                        return Err(e);
                    },
                }
            },
        }
    }
}

/// The value at `key`, cloned out.
///
/// Fails only with the store's error from a [`read`](EdgeStore::read)
/// along the path.
pub fn get<V: Clone, E, A: Arity, S: ChildStore<A, E>, St: EdgeStore<V, E, A, S>>(
    root: Option<&Node<V, E, A, S>>,
    store: &St,
    key: &[A::Index],
) -> (r: Result<Option<V>, St::Error>)
    requires
        root matches Some(n) ==> n.children_view().wf(),
    ensures
        root is None ==> r matches Ok(None),
        St::cannot_fail() ==> r is Ok,
        root matches Some(n) && !descends(*n, key@) ==> r is Ok,
        r matches Ok(v) ==> {
            let expected = lookup_value::<V, E, A, S, St>(
                match root {
                    Some(n) => Some(*n),
                    None => None,
                },
                key@,
            );
            &&& v is Some <==> expected is Some
            &&& v matches Some(x) ==> cloned(expected->0, x)
        },
{
    match get_node(root, store, key) {
        Err(e) => Err(e),
        Ok(None) => Ok(None),
        Ok(Some(node)) => match node.value() {
            Some(v) => Ok(Some(v.clone())),
            None => Ok(None),
        },
    }
}

} // verus!
