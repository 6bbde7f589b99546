//! In-order iteration over the valued nodes of a trie.
//!
//! Keys are ordered lexicographically by index value, a proper prefix
//! first. Pre-order emission is in that order, because a node's full path is
//! a prefix of, and therefore sorts before, every key beneath it, and a
//! node's children are visited in ascending index order.

use vstd::prelude::*;
use vstd::std_specs::cmp::PartialEqSpec;

use crate::arity::Arity;
use crate::children::{ChildMap, ChildStore};
use crate::niche::Niche;
use crate::node::Node;
use crate::ops::{lookup, lookup_value};
use crate::path::{common_prefix, push_all, Path};
use crate::store::{lemma_max_rank, max_rank, ranks_below, EdgeStore};

verus! {

/// `a` sorts strictly before `b`: lexicographically by index value, a
/// proper prefix first.
pub open spec fn key_lt<I: Niche>(a: Seq<I>, b: Seq<I>) -> bool
    decreases a.len(),
{
    if b.len() == 0 {
        false
    } else if a.len() == 0 {
        true
    } else if a[0].value() != b[0].value() {
        a[0].value() < b[0].value()
    } else {
        key_lt(a.skip(1), b.skip(1))
    }
}

/// `key` is at or after `start`, if there is one.
pub open spec fn at_or_after<I: Niche>(key: Seq<I>, start: Option<Seq<I>>) -> bool {
    match start {
        None => true,
        Some(s) => !key_lt(key, s),
    }
}

/// Two keys that agree before position `n` are ordered by their indices at
/// `n`.
pub proof fn lemma_lt_at<I: Niche>(a: Seq<I>, b: Seq<I>, n: int)
    requires
        0 <= n < a.len(),
        n < b.len(),
        a.take(n) == b.take(n),
        a[n].value() < b[n].value(),
    ensures
        key_lt(a, b),
    decreases n,
{
    if n > 0 {
        assert(a[0] == a.take(n)[0]);
        assert(b[0] == b.take(n)[0]);
        assert(a.skip(1).take(n - 1) =~= b.skip(1).take(n - 1)) by {
            assert forall|k: int| 0 <= k < n - 1 implies #[trigger] a.skip(1).take(n - 1)[k] == b.skip(1).take(
                n - 1,
            )[k] by {
                assert(a[k + 1] == a.take(n)[k + 1]);
                assert(b[k + 1] == b.take(n)[k + 1]);
            }
        }
        lemma_lt_at(a.skip(1), b.skip(1), n - 1);
        assert(a.skip(1)[n - 1] == a[n]);
        assert(b.skip(1)[n - 1] == b[n]);
    }
}

/// A proper prefix sorts first.
pub proof fn lemma_lt_proper_prefix<I: Niche>(a: Seq<I>, b: Seq<I>)
    requires
        a.len() < b.len(),
        b.take(a.len() as int) == a,
    ensures
        key_lt(a, b),
    decreases a.len(),
{
    if a.len() > 0 {
        assert(b.take(a.len() as int)[0] == a[0]);
        assert(b.skip(1).take(a.len() - 1) =~= a.skip(1)) by {
            assert forall|k: int| 0 <= k < a.len() - 1 implies #[trigger] b.skip(1).take(a.len() - 1)[k]
                == a.skip(1)[k] by {
                assert(b.take(a.len() as int)[k + 1] == a[k + 1]);
            }
        }
        lemma_lt_proper_prefix(a.skip(1), b.skip(1));
    }
}

/// The order is asymmetric, so irreflexive.
pub proof fn lemma_lt_asym<I: Niche>(a: Seq<I>, b: Seq<I>)
    requires
        key_lt(a, b),
    ensures
        !key_lt(b, a),
    decreases a.len(),
{
    if a.len() > 0 && b.len() > 0 && a[0].value() == b[0].value() {
        lemma_lt_asym(a.skip(1), b.skip(1));
    }
}

/// A key does not sort before any of its prefixes.
pub proof fn lemma_not_lt_prefix<I: Niche>(a: Seq<I>, s: Seq<I>)
    requires
        s.len() <= a.len(),
        a.take(s.len() as int) == s,
    ensures
        !key_lt(a, s),
    decreases s.len(),
{
    if s.len() > 0 {
        assert(a.take(s.len() as int)[0] == s[0]);
        assert(a.skip(1).take(s.len() - 1) =~= s.skip(1)) by {
            assert forall|k: int| 0 <= k < s.len() - 1 implies #[trigger] a.skip(1).take(s.len() - 1)[k]
                == s.skip(1)[k] by {
                assert(a.take(s.len() as int)[k + 1] == s[k + 1]);
            }
        }
        lemma_not_lt_prefix(a.skip(1), s.skip(1));
    }
}

/// Extending a key that does not sort before `s` keeps it so.
pub proof fn lemma_not_lt_extend<I: Niche>(p: Seq<I>, d: Seq<I>, s: Seq<I>)
    requires
        !key_lt(p, s),
        p.len() <= d.len(),
        d.take(p.len() as int) == p,
    ensures
        !key_lt(d, s),
    decreases p.len(),
{
    if s.len() > 0 && p.len() > 0 {
        assert(d.take(p.len() as int)[0] == p[0]);
        if p[0].value() == s[0].value() {
            assert(d.skip(1).take(p.len() - 1) =~= p.skip(1)) by {
                assert forall|k: int| 0 <= k < p.len() - 1 implies #[trigger] d.skip(1).take(p.len() - 1)[k]
                    == p.skip(1)[k] by {
                    assert(d.take(p.len() as int)[k + 1] == p[k + 1]);
                }
            }
            lemma_not_lt_extend(p.skip(1), d.skip(1), s.skip(1));
        }
    }
}

/// The keys of a start bound, if there is one.
pub open spec fn start_view<I>(start: Option<&[I]>) -> Option<Seq<I>> {
    match start {
        Some(s) => Some(s@),
        None => None,
    }
}

/// `path` is `prefix` followed by the key, below `node`, of a node with
/// value `value`.
pub open spec fn item_of<V, E, A: Arity, S: ChildStore<A, E>, St: EdgeStore<V, E, A, S>>(
    node: Node<V, E, A, S>,
    prefix: Seq<A::Index>,
    path: Seq<A::Index>,
    value: V,
) -> bool {
    &&& prefix.len() <= path.len()
    &&& path.take(prefix.len() as int) == prefix
    &&& lookup::<V, E, A, S, St>(node, path.skip(prefix.len() as int)) matches Some(m)
        && m.value_view() == Some(value)
}

/// `items[from..]` lists, strictly ascending, exactly the valued nodes
/// below `node` whose keys, after `prefix`, are at or after `start`.
pub open spec fn collected<'a, V, E, A: Arity, S: ChildStore<A, E>, St: EdgeStore<V, E, A, S>>(
    node: Node<V, E, A, S>,
    prefix: Seq<A::Index>,
    start: Option<Seq<A::Index>>,
    items: Seq<(Path<A>, &'a V)>,
    from: int,
) -> bool {
    &&& forall|m: int|
        #![trigger items[m]]
        from <= m < items.len() ==> item_of::<V, E, A, S, St>(
            node,
            prefix,
            items[m].0@,
            *items[m].1,
        ) && at_or_after(items[m].0@, start)
    &&& forall|m: int, n: int|
        #![trigger items[m], items[n]]
        from <= m < n < items.len() ==> key_lt(items[m].0@, items[n].0@)
    &&& forall|key: Seq<A::Index>|
        #![trigger lookup::<V, E, A, S, St>(node, key)]
        lookup::<V, E, A, S, St>(node, key) matches Some(m) && m.value_view() is Some
            && at_or_after(prefix + key, start) ==> exists|m: int|
            #![trigger items[m]]
            from <= m < items.len() && items[m].0@ == prefix + key
}

/// Every item of `items[from..]` is an item of `node` after `leading`, at
/// or after `start`.
spec fn sound_items<'a, V, E, A: Arity, S: ChildStore<A, E>, St: EdgeStore<V, E, A, S>>(
    node: Node<V, E, A, S>,
    leading: Seq<A::Index>,
    start: Option<Seq<A::Index>>,
    items: Seq<(Path<A>, &'a V)>,
    from: int,
) -> bool {
    forall|m: int|
        #![trigger items[m]]
        from <= m < items.len() ==> item_of::<V, E, A, S, St>(
            node,
            leading,
            items[m].0@,
            *items[m].1,
        ) && at_or_after(items[m].0@, start)
}

/// The paths of `items[from..]` ascend strictly.
spec fn sorted_items<'a, V, A: Arity>(items: Seq<(Path<A>, &'a V)>, from: int) -> bool {
    forall|m: int, n: int|
        #![trigger items[m], items[n]]
        from <= m < n < items.len() ==> key_lt(items[m].0@, items[n].0@)
}

/// Every path of `items[from..]` is `p`, or continues `p` with an index
/// below `k`.
spec fn placed_items<'a, V, A: Arity>(
    items: Seq<(Path<A>, &'a V)>,
    from: int,
    p: Seq<A::Index>,
    k: nat,
) -> bool {
    forall|m: int|
        #![trigger items[m]]
        from <= m < items.len() ==> items[m].0@ == p || (p.len() < items[m].0@.len()
            && items[m].0@.take(p.len() as int) == p && items[m].0@[p.len() as int].value() < k)
}

/// Every valued node below `node` at or after `start`, and either `node`
/// itself or under a child index below `k`, has its path in
/// `items[from..]`.
spec fn complete_items<'a, V, E, A: Arity, S: ChildStore<A, E>, St: EdgeStore<V, E, A, S>>(
    node: Node<V, E, A, S>,
    leading: Seq<A::Index>,
    start: Option<Seq<A::Index>>,
    items: Seq<(Path<A>, &'a V)>,
    from: int,
    k: nat,
) -> bool {
    forall|key: Seq<A::Index>|
        #![trigger lookup::<V, E, A, S, St>(node, key)]
        lookup::<V, E, A, S, St>(node, key) matches Some(m) && m.value_view() is Some
            && at_or_after(leading + key, start) && (key.len() == node.path_view().len()
            || key[node.path_view().len() as int].value() < k) ==> exists|m: int|
            #![trigger items[m]]
            from <= m < items.len() && items[m].0@ == leading + key
}

/// An item found below the child at `i` of `node` is an item of `node`, and
/// its path continues `node`'s full path with `i`.
proof fn lemma_lift_item<V, E, A: Arity, S: ChildStore<A, E>, St: EdgeStore<V, E, A, S>>(
    node: Node<V, E, A, S>,
    leading: Seq<A::Index>,
    i: A::Index,
    e: E,
    path: Seq<A::Index>,
    value: V,
)
    requires
        node.children_view().edges()[i.value() as int] == Some(e),
        item_of::<V, E, A, S, St>(
            St::target(&e),
            (leading + node.path_view()).push(i),
            path,
            value,
        ),
    ensures
        item_of::<V, E, A, S, St>(node, leading, path, value),
        (leading + node.path_view()).len() < path.len(),
        path.take((leading + node.path_view()).len() as int) == leading + node.path_view(),
        path[(leading + node.path_view()).len() as int] == i,
{
    let p = leading + node.path_view();
    let q = p.push(i);
    let pl = node.path_view().len() as int;
    assert(path.take(q.len() as int) == q);
    assert(path.take(p.len() as int) =~= p) by {
        assert forall|k: int| 0 <= k < p.len() implies #[trigger] path.take(p.len() as int)[k]
            == p[k] by {
            assert(path.take(q.len() as int)[k] == q[k]);
        }
    }
    assert(path[p.len() as int] == i) by {
        assert(path.take(q.len() as int)[p.len() as int] == q[p.len() as int]);
    }
    assert(path.take(leading.len() as int) =~= leading) by {
        assert forall|k: int| 0 <= k < leading.len() implies #[trigger] path.take(
            leading.len() as int,
        )[k] == leading[k] by {
            assert(path.take(p.len() as int)[k] == p[k]);
        }
    }
    let key = path.skip(leading.len() as int);
    assert(key.take(pl) =~= node.path_view()) by {
        assert forall|k: int| 0 <= k < pl implies #[trigger] key.take(pl)[k] == node.path_view()[k] by {
            assert(path.take(p.len() as int)[leading.len() + k] == p[leading.len() + k]);
        }
    }
    assert(key[pl] == i);
    assert(key.skip(pl + 1) =~= path.skip(q.len() as int));
}

/// A key found strictly below `node` continues its partial path with the
/// index of a present child, under which the rest of the key is found.
proof fn lemma_split_key<V, E, A: Arity, S: ChildStore<A, E>, St: EdgeStore<V, E, A, S>>(
    node: Node<V, E, A, S>,
    key: Seq<A::Index>,
)
    requires
        lookup::<V, E, A, S, St>(node, key) is Some,
        key.len() != node.path_view().len(),
    ensures
        key.len() > node.path_view().len(),
        key.take(node.path_view().len() as int) == node.path_view(),
        node.children_view().edges()[key[node.path_view().len() as int].value() as int] matches Some(
            e,
        ) && lookup::<V, E, A, S, St>(
            St::target(&e),
            key.skip(node.path_view().len() + 1int),
        ) == lookup::<V, E, A, S, St>(node, key),
{
}

/// The items `items[b..]`, found under the child at `i` of `node`, are
/// items of `node` after `leading` at or after `start`, and their paths
/// continue `node`'s full path with `i`.
spec fn child_items<'a, V, E, A: Arity, S: ChildStore<A, E>, St: EdgeStore<V, E, A, S>>(
    node: Node<V, E, A, S>,
    leading: Seq<A::Index>,
    start: Option<Seq<A::Index>>,
    i: A::Index,
    items: Seq<(Path<A>, &'a V)>,
    b: int,
) -> bool {
    forall|m: int|
        #![trigger items[m]]
        b <= m < items.len() ==> {
            &&& item_of::<V, E, A, S, St>(node, leading, items[m].0@, *items[m].1)
            &&& (leading + node.path_view()).len() < items[m].0@.len()
            &&& items[m].0@.take((leading + node.path_view()).len() as int) == leading
                + node.path_view()
            &&& items[m].0@[(leading + node.path_view()).len() as int] == i
            &&& at_or_after(items[m].0@, start)
        }
}

/// The items collected under the child at `i` of `node`, with the start
/// that the child's place relative to `start` calls for, are items of
/// `node` at or after `start`.
#[verifier::spinoff_prover]
proof fn lemma_child_items<'a, V, E, A: Arity, S: ChildStore<A, E>, St: EdgeStore<V, E, A, S>>(
    node: Node<V, E, A, S>,
    leading: Seq<A::Index>,
    sv: Option<Seq<A::Index>>,
    split: Option<A::Index>,
    i: A::Index,
    e: E,
    child_sv: Option<Seq<A::Index>>,
    after: Seq<(Path<A>, &'a V)>,
    b: int,
)
    requires
        node.children_view().edges()[i.value() as int] == Some(e),
        0 <= b <= after.len(),
        sound_items::<V, E, A, S, St>(
            St::target(&e),
            (leading + node.path_view()).push(i),
            child_sv,
            after,
            b,
        ),
        split is None ==> child_sv is None && (sv is None || !key_lt(
            leading + node.path_view(),
            sv->0,
        )),
        split matches Some(si) ==> (sv matches Some(s) && (leading + node.path_view()).len()
            < s.len() && s.take((leading + node.path_view()).len() as int) == leading
            + node.path_view() && s[(leading + node.path_view()).len() as int] == si
            && si.value() <= i.value() && (si.value() == i.value() ==> child_sv == sv) && (
        si.value() < i.value() ==> child_sv is None)),
    ensures
        child_items::<V, E, A, S, St>(node, leading, sv, i, after, b),
{
    let p = leading + node.path_view();
    assert forall|m: int| b <= m < after.len() implies {
        &&& item_of::<V, E, A, S, St>(node, leading, (#[trigger] after[m]).0@, *after[m].1)
        &&& p.len() < after[m].0@.len()
        &&& after[m].0@.take(p.len() as int) == p
        &&& after[m].0@[p.len() as int] == i
        &&& at_or_after(after[m].0@, sv)
    } by {
        lemma_lift_item::<V, E, A, S, St>(node, leading, i, e, after[m].0@, *after[m].1);
        match split {
            None => {
                if let Some(s) = sv {
                    lemma_not_lt_extend(p, after[m].0@, s);
                }
            },
            Some(si) => {
                if si.value() < i.value() {
                    let s = sv->0;
                    assert(s.take(p.len() as int) == after[m].0@.take(p.len() as int));
                    lemma_lt_at(s, after[m].0@, p.len() as int);
                    lemma_lt_asym(s, after[m].0@);
                }
            },
        }
    }
}

/// Items that continue `p` with `i`, appended after items that are `p` or
/// continue it with smaller indices, keep the items ascending.
#[verifier::spinoff_prover]
proof fn lemma_child_sorted<'a, V, A: Arity>(
    p: Seq<A::Index>,
    i: A::Index,
    before: Seq<(Path<A>, &'a V)>,
    after: Seq<(Path<A>, &'a V)>,
    from: int,
)
    requires
        0 <= from <= before.len() <= after.len(),
        after.take(before.len() as int) == before,
        sorted_items(before, from),
        placed_items(before, from, p, i.value()),
        sorted_items(after, before.len() as int),
        forall|m: int|
            #![trigger after[m]]
            before.len() <= m < after.len() ==> p.len() < after[m].0@.len() && after[m].0@.take(
                p.len() as int,
            ) == p && after[m].0@[p.len() as int] == i,
    ensures
        sorted_items(after, from),
{
    let b = before.len() as int;
    assert forall|m: int| 0 <= m < b implies #[trigger] after[m] == before[m] by {
        assert(after.take(b)[m] == before[m]);
    }
    assert forall|m: int, n: int| from <= m < n < after.len() implies key_lt(
        (#[trigger] after[m]).0@,
        (#[trigger] after[n]).0@,
    ) by {
        if n < b {
            assert(after[m] == before[m]);
            assert(after[n] == before[n]);
        } else if m < b {
            assert(after[m] == before[m]);
            if before[m].0@ == p {
                lemma_lt_proper_prefix(p, after[n].0@);
            } else {
                assert(after[m].0@.take(p.len() as int) == after[n].0@.take(p.len() as int));
                lemma_lt_at(after[m].0@, after[n].0@, p.len() as int);
            }
        }
    }
}

/// After the child at `i` of `node` is collected, every valued node at or
/// after `start`, at `node` or under an index up to `i`, has its path among
/// the items.
#[verifier::spinoff_prover]
proof fn lemma_child_complete<'a, V, E, A: Arity, S: ChildStore<A, E>, St: EdgeStore<V, E, A, S>>(
    node: Node<V, E, A, S>,
    leading: Seq<A::Index>,
    sv: Option<Seq<A::Index>>,
    i: A::Index,
    e: E,
    child_sv: Option<Seq<A::Index>>,
    before: Seq<(Path<A>, &'a V)>,
    after: Seq<(Path<A>, &'a V)>,
    from: int,
)
    requires
        node.children_view().edges()[i.value() as int] == Some(e),
        0 <= from <= before.len() <= after.len(),
        after.take(before.len() as int) == before,
        collected::<V, E, A, S, St>(
            St::target(&e),
            (leading + node.path_view()).push(i),
            child_sv,
            after,
            before.len() as int,
        ),
        child_sv is None || child_sv == sv,
        complete_items::<V, E, A, S, St>(node, leading, sv, before, from, i.value()),
    ensures
        complete_items::<V, E, A, S, St>(node, leading, sv, after, from, i.value() + 1),
{
    let p = leading + node.path_view();
    let q = p.push(i);
    let pl = node.path_view().len() as int;
    let child = St::target(&e);
    let b = before.len() as int;
    assert forall|key: Seq<A::Index>|
        #![trigger lookup::<V, E, A, S, St>(node, key)]
        lookup::<V, E, A, S, St>(node, key) matches Some(mm) && mm.value_view() is Some
            && at_or_after(leading + key, sv) && (key.len() == pl || key[pl].value() < i.value()
            + 1) implies exists|m: int|
        #![trigger after[m]]
        from <= m < after.len() && after[m].0@ == leading + key by {
        if key.len() == pl || key[pl].value() < i.value() {
            let m = choose|m: int|
                #![trigger before[m]]
                from <= m < before.len() && before[m].0@ == leading + key;
            assert(after.take(b)[m] == before[m]);
        } else {
            lemma_split_key::<V, E, A, S, St>(node, key);
            A::Index::lemma_injective(key[pl], i);
            let ck = key.skip(pl + 1);
            assert(leading + key =~= q + ck) by {
                assert(key =~= node.path_view().push(i) + ck) by {
                    assert forall|k: int| 0 <= k < pl implies #[trigger] key[k]
                        == node.path_view()[k] by {
                        assert(key.take(pl)[k] == key[k]);
                    }
                }
            }
            assert(lookup::<V, E, A, S, St>(child, ck) == lookup::<V, E, A, S, St>(node, key));
            let m = choose|m: int|
                #![trigger after[m]]
                b <= m < after.len() && after[m].0@ == q + ck;
        }
    }
}

/// Walking the child at `i` of `node` after the children before it, with
/// the start its place relative to `start` calls for, keeps the walk's
/// items sound, ascending, placed and complete up to `i`.
#[verifier::spinoff_prover]
proof fn lemma_child_step<'a, V, E, A: Arity, S: ChildStore<A, E>, St: EdgeStore<V, E, A, S>>(
    node: Node<V, E, A, S>,
    leading: Seq<A::Index>,
    sv: Option<Seq<A::Index>>,
    split: Option<A::Index>,
    i: A::Index,
    e: E,
    child_sv: Option<Seq<A::Index>>,
    before: Seq<(Path<A>, &'a V)>,
    after: Seq<(Path<A>, &'a V)>,
    from: int,
)
    requires
        node.children_view().edges()[i.value() as int] == Some(e),
        0 <= from <= before.len() <= after.len(),
        after.take(before.len() as int) == before,
        collected::<V, E, A, S, St>(
            St::target(&e),
            (leading + node.path_view()).push(i),
            child_sv,
            after,
            before.len() as int,
        ),
        split is None ==> child_sv is None && (sv is None || !key_lt(
            leading + node.path_view(),
            sv->0,
        )),
        split matches Some(si) ==> (sv matches Some(s) && (leading + node.path_view()).len()
            < s.len() && s.take((leading + node.path_view()).len() as int) == leading
            + node.path_view() && s[(leading + node.path_view()).len() as int] == si
            && si.value() <= i.value() && (si.value() == i.value() ==> child_sv == sv) && (
        si.value() < i.value() ==> child_sv is None)),
        sound_items::<V, E, A, S, St>(node, leading, sv, before, from),
        sorted_items(before, from),
        placed_items(before, from, leading + node.path_view(), i.value()),
        complete_items::<V, E, A, S, St>(node, leading, sv, before, from, i.value()),
    ensures
        sound_items::<V, E, A, S, St>(node, leading, sv, after, from),
        sorted_items(after, from),
        placed_items(after, from, leading + node.path_view(), i.value() + 1),
        complete_items::<V, E, A, S, St>(node, leading, sv, after, from, i.value() + 1),
{
    let p = leading + node.path_view();
    let b = before.len() as int;
    lemma_child_items::<V, E, A, S, St>(node, leading, sv, split, i, e, child_sv, after, b);
    lemma_child_sorted(p, i, before, after, from);
    lemma_child_complete::<V, E, A, S, St>(node, leading, sv, i, e, child_sv, before, after, from);
    assert forall|m: int| 0 <= m < b implies #[trigger] after[m] == before[m] by {
        assert(after.take(b)[m] == before[m]);
    }
}

/// Every valued node below `node` at or after `start` whose full path
/// sorts before some path of `items[from..]` has its path there too: the
/// items are a prefix of the full ordered list.
spec fn complete_before<'a, V, E, A: Arity, S: ChildStore<A, E>, St: EdgeStore<V, E, A, S>>(
    node: Node<V, E, A, S>,
    leading: Seq<A::Index>,
    start: Option<Seq<A::Index>>,
    items: Seq<(Path<A>, &'a V)>,
    from: int,
) -> bool {
    forall|key: Seq<A::Index>, n: int|
        #![trigger lookup::<V, E, A, S, St>(node, key), items[n]]
        from <= n < items.len() && lookup::<V, E, A, S, St>(node, key) is Some
            && lookup::<V, E, A, S, St>(node, key)->0.value_view() is Some && at_or_after(
            leading + key,
            start,
        ) && key_lt(leading + key, items[n].0@) ==> exists|m: int|
            #![trigger items[m]]
            from <= m < items.len() && items[m].0@ == leading + key
}

/// A key found below `node` under a child index at or after `k` sorts after
/// every path that is `node`'s full path or continues it with an index
/// below `k`.
proof fn lemma_after_placed<V, E, A: Arity, S: ChildStore<A, E>, St: EdgeStore<V, E, A, S>>(
    node: Node<V, E, A, S>,
    leading: Seq<A::Index>,
    key: Seq<A::Index>,
    other: Seq<A::Index>,
    k: nat,
)
    requires
        lookup::<V, E, A, S, St>(node, key) is Some,
        key.len() != node.path_view().len(),
        key[node.path_view().len() as int].value() >= k,
        other == leading + node.path_view() || ((leading + node.path_view()).len() < other.len()
            && other.take((leading + node.path_view()).len() as int) == leading + node.path_view()
            && other[(leading + node.path_view()).len() as int].value() < k),
    ensures
        !key_lt(leading + key, other),
{
    let p = leading + node.path_view();
    let pl = node.path_view().len() as int;
    let full = leading + key;
    lemma_split_key::<V, E, A, S, St>(node, key);
    assert(full.take(p.len() as int) =~= p) by {
        assert forall|t: int| 0 <= t < p.len() implies #[trigger] full.take(p.len() as int)[t]
            == p[t] by {
            if t >= leading.len() {
                assert(key.take(pl)[t - leading.len()] == key[t - leading.len()]);
            }
        }
    }
    assert(full[p.len() as int] == key[pl]);
    if other == p {
        lemma_lt_proper_prefix(p, full);
        lemma_lt_asym(p, full);
    } else {
        assert(other.take(p.len() as int) == full.take(p.len() as int));
        lemma_lt_at(other, full, p.len() as int);
        lemma_lt_asym(other, full);
    }
}

/// Items that are placed and complete up to the child index `k` are a
/// prefix of the full ordered list.
#[verifier::spinoff_prover]
proof fn lemma_prefix_at<'a, V, E, A: Arity, S: ChildStore<A, E>, St: EdgeStore<V, E, A, S>>(
    node: Node<V, E, A, S>,
    leading: Seq<A::Index>,
    sv: Option<Seq<A::Index>>,
    items: Seq<(Path<A>, &'a V)>,
    from: int,
    k: nat,
)
    requires
        placed_items(items, from, leading + node.path_view(), k),
        complete_items::<V, E, A, S, St>(node, leading, sv, items, from, k),
    ensures
        complete_before::<V, E, A, S, St>(node, leading, sv, items, from),
{
    let pl = node.path_view().len() as int;
    assert forall|key: Seq<A::Index>, n: int|
        #![trigger lookup::<V, E, A, S, St>(node, key), items[n]]
        from <= n < items.len() && lookup::<V, E, A, S, St>(node, key) is Some
            && lookup::<V, E, A, S, St>(node, key)->0.value_view() is Some && at_or_after(
            leading + key,
            sv,
        ) && key_lt(leading + key, items[n].0@) implies exists|m: int|
        #![trigger items[m]]
        from <= m < items.len() && items[m].0@ == leading + key by {
        if key.len() != pl && key[pl].value() >= k {
            lemma_after_placed::<V, E, A, S, St>(node, leading, key, items[n].0@, k);
        }
    }
}

/// After a failing read under the child at `i` of `node`, the items found
/// so far are a prefix of the full ordered list.
#[verifier::spinoff_prover]
proof fn lemma_child_prefix<'a, V, E, A: Arity, S: ChildStore<A, E>, St: EdgeStore<V, E, A, S>>(
    node: Node<V, E, A, S>,
    leading: Seq<A::Index>,
    sv: Option<Seq<A::Index>>,
    i: A::Index,
    e: E,
    child_sv: Option<Seq<A::Index>>,
    before: Seq<(Path<A>, &'a V)>,
    after: Seq<(Path<A>, &'a V)>,
    from: int,
)
    requires
        node.children_view().edges()[i.value() as int] == Some(e),
        0 <= from <= before.len() <= after.len(),
        after.take(before.len() as int) == before,
        child_items::<V, E, A, S, St>(node, leading, sv, i, after, before.len() as int),
        complete_before::<V, E, A, S, St>(
            St::target(&e),
            (leading + node.path_view()).push(i),
            child_sv,
            after,
            before.len() as int,
        ),
        child_sv is None || child_sv == sv,
        placed_items(before, from, leading + node.path_view(), i.value()),
        complete_items::<V, E, A, S, St>(node, leading, sv, before, from, i.value()),
    ensures
        complete_before::<V, E, A, S, St>(node, leading, sv, after, from),
{
    let p = leading + node.path_view();
    let q = p.push(i);
    let pl = node.path_view().len() as int;
    let b = before.len() as int;
    let child = St::target(&e);
    assert forall|m: int| 0 <= m < b implies #[trigger] after[m] == before[m] by {
        assert(after.take(b)[m] == before[m]);
    }
    assert forall|key: Seq<A::Index>, n: int|
        #![trigger lookup::<V, E, A, S, St>(node, key), after[n]]
        from <= n < after.len() && lookup::<V, E, A, S, St>(node, key) is Some
            && lookup::<V, E, A, S, St>(node, key)->0.value_view() is Some && at_or_after(
            leading + key,
            sv,
        ) && key_lt(leading + key, after[n].0@) implies exists|m: int|
        #![trigger after[m]]
        from <= m < after.len() && after[m].0@ == leading + key by {
        if key.len() == pl || key[pl].value() < i.value() {
            let m = choose|m: int|
                #![trigger before[m]]
                from <= m < before.len() && before[m].0@ == leading + key;
            assert(after[m] == before[m]);
        } else if n < b {
            assert(after[n] == before[n]);
            lemma_after_placed::<V, E, A, S, St>(node, leading, key, before[n].0@, i.value());
        } else if key[pl].value() > i.value() {
            lemma_after_placed::<V, E, A, S, St>(node, leading, key, after[n].0@, i.value() + 1);
        } else {
            lemma_split_key::<V, E, A, S, St>(node, key);
            A::Index::lemma_injective(key[pl], i);
            let ck = key.skip(pl + 1);
            assert(leading + key =~= q + ck) by {
                assert(key =~= node.path_view().push(i) + ck) by {
                    assert forall|t: int| 0 <= t < pl implies #[trigger] key[t]
                        == node.path_view()[t] by {
                        assert(key.take(pl)[t] == key[t]);
                    }
                }
            }
            assert(lookup::<V, E, A, S, St>(child, ck) == lookup::<V, E, A, S, St>(node, key));
            let m = choose|m: int|
                #![trigger after[m]]
                b <= m < after.len() && after[m].0@ == q + ck;
        }
    }
}

/// The items collected under the child at `i` of `node` before a failing
/// read keep the walk's items sound and ascending.
#[verifier::spinoff_prover]
proof fn lemma_child_partial<'a, V, E, A: Arity, S: ChildStore<A, E>, St: EdgeStore<V, E, A, S>>(
    node: Node<V, E, A, S>,
    leading: Seq<A::Index>,
    sv: Option<Seq<A::Index>>,
    split: Option<A::Index>,
    i: A::Index,
    e: E,
    child_sv: Option<Seq<A::Index>>,
    before: Seq<(Path<A>, &'a V)>,
    after: Seq<(Path<A>, &'a V)>,
    from: int,
)
    requires
        node.children_view().edges()[i.value() as int] == Some(e),
        0 <= from <= before.len() <= after.len(),
        after.take(before.len() as int) == before,
        sound_items::<V, E, A, S, St>(
            St::target(&e),
            (leading + node.path_view()).push(i),
            child_sv,
            after,
            before.len() as int,
        ),
        sorted_items(after, before.len() as int),
        split is None ==> child_sv is None && (sv is None || !key_lt(
            leading + node.path_view(),
            sv->0,
        )),
        split matches Some(si) ==> (sv matches Some(s) && (leading + node.path_view()).len()
            < s.len() && s.take((leading + node.path_view()).len() as int) == leading
            + node.path_view() && s[(leading + node.path_view()).len() as int] == si
            && si.value() <= i.value() && (si.value() == i.value() ==> child_sv == sv) && (
        si.value() < i.value() ==> child_sv is None)),
        sound_items::<V, E, A, S, St>(node, leading, sv, before, from),
        sorted_items(before, from),
        placed_items(before, from, leading + node.path_view(), i.value()),
    ensures
        sound_items::<V, E, A, S, St>(node, leading, sv, after, from),
        sorted_items(after, from),
{
    let p = leading + node.path_view();
    let b = before.len() as int;
    lemma_child_items::<V, E, A, S, St>(node, leading, sv, split, i, e, child_sv, after, b);
    lemma_child_sorted(p, i, before, after, from);
    assert forall|m: int| 0 <= m < b implies #[trigger] after[m] == before[m] by {
        assert(after.take(b)[m] == before[m]);
    }
}

/// Passing over the child index `k` of `node`, absent or wholly before
/// `start`, keeps the walk's items placed and complete up to `k`.
proof fn lemma_skip_step<'a, V, E, A: Arity, S: ChildStore<A, E>, St: EdgeStore<V, E, A, S>>(
    node: Node<V, E, A, S>,
    leading: Seq<A::Index>,
    sv: Option<Seq<A::Index>>,
    k: nat,
    items: Seq<(Path<A>, &'a V)>,
    from: int,
)
    requires
        k < node.children_view().edges().len(),
        node.children_view().edges()[k as int] is None || (sv matches Some(s) && (leading
            + node.path_view()).len() < s.len() && s.take((leading + node.path_view()).len() as int)
            == leading + node.path_view() && k < s[(leading + node.path_view()).len() as int].value()),
        placed_items(items, from, leading + node.path_view(), k),
        complete_items::<V, E, A, S, St>(node, leading, sv, items, from, k),
    ensures
        placed_items(items, from, leading + node.path_view(), k + 1),
        complete_items::<V, E, A, S, St>(node, leading, sv, items, from, k + 1),
{
    let p = leading + node.path_view();
    let pl = node.path_view().len() as int;
    assert forall|key: Seq<A::Index>|
        #![trigger lookup::<V, E, A, S, St>(node, key)]
        lookup::<V, E, A, S, St>(node, key) matches Some(mm) && mm.value_view() is Some
            && at_or_after(leading + key, sv) && (key.len() == pl || key[pl].value() < k
            + 1) implies exists|m: int|
        #![trigger items[m]]
        from <= m < items.len() && items[m].0@ == leading + key by {
        if key.len() != pl && key[pl].value() == k {
            lemma_split_key::<V, E, A, S, St>(node, key);
            let s = sv->0;
            let full = leading + key;
            assert(full.take(p.len() as int) =~= p) by {
                assert forall|j: int| 0 <= j < pl implies #[trigger] key[j]
                    == node.path_view()[j] by {
                    assert(key.take(pl)[j] == key[j]);
                }
            }
            assert(full[p.len() as int] == key[pl]);
            lemma_lt_at(full, s, p.len() as int);
        }
    }
}

/// Appends to `out`, ascending, every valued node below `node` whose full
/// path is at or after `start`, with that path; `buf` holds `node`'s
/// leading path, and `bound` is above the rank of every edge of `node`.
///
/// Subtrees that sort wholly before `start` are not read.
#[verifier::spinoff_prover]
fn collect<'a, V, E, A: Arity, S: ChildStore<A, E>, St: EdgeStore<V, E, A, S>>(
    node: &'a Node<V, E, A, S>,
    store: &'a St,
    buf: &mut Vec<A::Index>,
    start: Option<&[A::Index]>,
    out: &mut Vec<(Path<A>, &'a V)>,
    Ghost(bound): Ghost<nat>,
) -> (r: Result<(), St::Error>)
    requires
        node.children_view().wf(),
        ranks_below::<V, E, A, S, St>(node.children_view().edges(), bound),
    ensures
        final(buf)@ == old(buf)@,
        old(out)@.len() <= final(out)@.len(),
        final(out)@.take(old(out)@.len() as int) == old(out)@,
        St::cannot_fail() ==> r is Ok,
        (forall|j: int|
            0 <= j < node.children_view().edges().len() ==> #[trigger] node.children_view().edges()[j]
                is None) ==> r is Ok,
        sound_items::<V, E, A, S, St>(
            *node,
            old(buf)@,
            start_view(start),
            final(out)@,
            old(out)@.len() as int,
        ),
        sorted_items(final(out)@, old(out)@.len() as int),
        complete_before::<V, E, A, S, St>(
            *node,
            old(buf)@,
            start_view(start),
            final(out)@,
            old(out)@.len() as int,
        ),
        r is Ok ==> collected::<V, E, A, S, St>(
            *node,
            old(buf)@,
            start_view(start),
            final(out)@,
            old(out)@.len() as int,
        ),
    decreases bound,
{
    proof {
        A::lemma_len();
        node.children_view().lemma_edges_len();
        <A::Index as Niche>::lemma_eq_spec();
    }
    let ghost leading = buf@;
    let ghost from = out@.len() as int;
    let ghost sv = start_view(start);
    let ghost path = node.path_view();
    let ghost edges = node.children_view().edges();
    let base = buf.len();
    push_all(buf, node.partial_path());
    let ghost p = buf@;
    let mut emit_self = true;
    let mut split: Option<A::Index> = None;
    match start {
        None => {},
        Some(s) => {
            let o = common_prefix(buf.as_slice(), s);
            let ghost c = o.shared@.len() as int;
            proof {
                assert forall|k: int| 0 <= k < c implies p[k] == s@[k] by {
                    assert(p[k].eq_spec(&s@[k]));
                }
                assert(p.take(c) =~= s@.take(c));
            }
            if o.unique_b.len() == 0 {
                proof {
                    assert(p.take(s@.len() as int) =~= s@);
                    lemma_not_lt_prefix(p, s@);
                }
            } else if o.unique_a.len() == 0 {
                emit_self = false;
                split = Some(o.unique_b[0]);
                proof {
                    assert(s@.take(p.len() as int) =~= p);
                }
            } else if o.unique_a[0].as_usize() > o.unique_b[0].as_usize() {
                proof {
                    lemma_lt_at(s@, p, c);
                    lemma_lt_asym(s@, p);
                }
            } else {
                proof {
                    assert(!p[c].eq_spec(&s@[c]));
                    assert(p[c].value() != s@[c].value()) by {
                        if p[c].value() == s@[c].value() {
                            A::Index::lemma_injective(p[c], s@[c]);
                        }
                    }
                    assert forall|key: Seq<A::Index>|
                        #![trigger lookup::<V, E, A, S, St>(*node, key)]
                        lookup::<V, E, A, S, St>(*node, key) is Some implies !at_or_after(
                            leading + key,
                            sv,
                        ) by {
                        let full = leading + key;
                        assert(full.take(c) =~= p.take(c));
                        assert(full[c] == p[c]);
                        lemma_lt_at(full, s@, c);
                    }
                }
                buf.truncate(base);
                proof {
                    assert(buf@ =~= leading);
                    assert(out@.take(from) =~= out@);
                }
                return Ok(());
            }
        },
    }
    let ghost after_self = out@.len() as int;
    if emit_self {
        match node.value() {
            Some(v) => {
                out.push((Path::from_slice(buf.as_slice()), v));
            },
            None => {},
        }
    }
    proof {
        assert(p.take(leading.len() as int) =~= leading);
        assert(p.skip(leading.len() as int) =~= path);
        assert(path.take(path.len() as int) =~= path);
        assert(out@.take(from) =~= old(out)@);
        assert forall|key: Seq<A::Index>|
            #![trigger lookup::<V, E, A, S, St>(*node, key)]
            lookup::<V, E, A, S, St>(*node, key) matches Some(m) && m.value_view() is Some
                && at_or_after(leading + key, sv) && (key.len() == path.len()
                || key[path.len() as int].value() < 0nat) implies exists|m: int|
            #![trigger out@[m]]
            from <= m < out@.len() && out@[m].0@ == leading + key by {
            if key.len() == path.len() {
                assert(key =~= path) by {
                    assert(key.take(path.len() as int) =~= key);
                }
                assert(leading + key =~= p);
                if split is Some {
                    lemma_lt_proper_prefix(p, sv->0);
                }
                assert(out@[after_self].0@ == leading + key);
            }
        }
    }
    let children = node.children();
    let mut k: usize = 0;
    while k < A::LEN
        invariant
            k <= A::LEN,
            A::LEN == <A::Index as Niche>::COUNT,
            edges == node.children_view().edges(),
            edges == children.edges(),
            edges.len() == A::LEN,
            children.wf(),
            ranks_below::<V, E, A, S, St>(edges, bound),
            path == node.path_view(),
            buf@ == p,
            p == leading + path,
            leading == old(buf)@,
            base == leading.len(),
            sv == start_view(start),
            from == old(out)@.len(),
            from <= out@.len(),
            out@.take(from) == old(out)@,
            split is None ==> (sv is None || !key_lt(p, sv->0)),
            split matches Some(si) ==> (sv matches Some(s) && p.len() < s.len() && s.take(
                p.len() as int,
            ) == p && s[p.len() as int] == si),
            sound_items::<V, E, A, S, St>(*node, leading, sv, out@, from),
            sorted_items(out@, from),
            placed_items(out@, from, p, k as nat),
            complete_items::<V, E, A, S, St>(*node, leading, sv, out@, from, k as nat),
        decreases A::LEN - k,
    {
        let ghost before = out@;
        match A::Index::try_from_usize(k) {
            Some(i) => {
                match children.get(i) {
                    Some(edge) => {
                        let mut visit = true;
                        let mut child_start: Option<&[A::Index]> = None;
                        match split {
                            None => {},
                            Some(si) => {
                                if i.as_usize() < si.as_usize() {
                                    visit = false;
                                } else if i.as_usize() == si.as_usize() {
                                    child_start = start;
                                }
                            },
                        }
                        if visit {
                            match store.read(edge) {
                                Err(e) => {
                                    buf.truncate(base);
                                    proof {
                                        assert(buf@ =~= leading);
                                        lemma_prefix_at::<V, E, A, S, St>(
                                            *node,
                                            leading,
                                            sv,
                                            out@,
                                            from,
                                            k as nat,
                                        );
                                    }
                                    return Err(e);
                                },
                                Ok(child) => {
                                    buf.push(i);
                                    let r = collect(
                                        child,
                                        store,
                                        buf,
                                        child_start,
                                        out,
                                        Ghost(St::rank(edge)),
                                    );
                                    buf.pop();
                                    proof {
                                        assert(buf@ =~= p);
                                        assert(out@.take(from) =~= before.take(from)) by {
                                            assert forall|m: int| 0 <= m < from implies #[trigger] out@[m]
                                                == before[m] by {
                                                assert(out@.take(before.len() as int)[m] == before[m]);
                                            }
                                        }
                                    }
                                    match r {
                                        Ok(()) => {
                                            proof {
                                                lemma_child_step::<V, E, A, S, St>(
                                                    *node,
                                                    leading,
                                                    sv,
                                                    split,
                                                    i,
                                                    *edge,
                                                    start_view(child_start),
                                                    before,
                                                    out@,
                                                    from,
                                                );
                                            }
                                        },
                                        Err(e) => {
                                            buf.truncate(base);
                                            proof {
                                                assert(buf@ =~= leading);
                                                lemma_child_partial::<V, E, A, S, St>(
                                                    *node,
                                                    leading,
                                                    sv,
                                                    split,
                                                    i,
                                                    *edge,
                                                    start_view(child_start),
                                                    before,
                                                    out@,
                                                    from,
                                                );
                                                lemma_child_items::<V, E, A, S, St>(
                                                    *node,
                                                    leading,
                                                    sv,
                                                    split,
                                                    i,
                                                    *edge,
                                                    start_view(child_start),
                                                    out@,
                                                    before.len() as int,
                                                );
                                                lemma_child_prefix::<V, E, A, S, St>(
                                                    *node,
                                                    leading,
                                                    sv,
                                                    i,
                                                    *edge,
                                                    start_view(child_start),
                                                    before,
                                                    out@,
                                                    from,
                                                );
                                            }
                                            return Err(e);
                                        },
                                    }
                                },
                            }
                        } else {
                            proof {
                                lemma_skip_step::<V, E, A, S, St>(
                                    *node,
                                    leading,
                                    sv,
                                    k as nat,
                                    out@,
                                    from,
                                );
                            }
                        }
                    },
                    None => {
                        proof {
                            lemma_skip_step::<V, E, A, S, St>(
                                *node,
                                leading,
                                sv,
                                k as nat,
                                out@,
                                from,
                            );
                        }
                    },
                }
            },
            None => {},
        }
        k = k + 1;
    }
    buf.truncate(base);
    proof {
        assert(buf@ =~= leading);
        assert forall|key: Seq<A::Index>|
            #![trigger lookup::<V, E, A, S, St>(*node, key)]
            lookup::<V, E, A, S, St>(*node, key) matches Some(m) && m.value_view() is Some
                && at_or_after(leading + key, sv) implies exists|m: int|
            #![trigger out@[m]]
            from <= m < out@.len() && out@[m].0@ == leading + key by {
            if key.len() != path.len() {
                lemma_split_key::<V, E, A, S, St>(*node, key);
                key[path.len() as int].lemma_value();
            }
        }
    }
    Ok(())
}

/// The node a trie's root reference refers to, if any.
pub open spec fn root_view<V, E, A: Arity, S: ChildStore<A, E>>(
    root: Option<&Node<V, E, A, S>>,
) -> Option<Node<V, E, A, S>> {
    match root {
        Some(n) => Some(*n),
        None => None,
    }
}

/// Every valued node at or after `start`, ascending by full path, with its
/// full path and a reference to its value, and the store's error if a read
/// failed.
///
/// A pre-order walk that never reads a subtree sorting wholly before
/// `start`. A failing [`read`](EdgeStore::read) ends the walk: the items
/// found before it, a prefix of the full list, are returned with its error.
pub fn iter<'a, V, E, A: Arity, S: ChildStore<A, E>, St: EdgeStore<V, E, A, S>>(
    root: Option<&'a Node<V, E, A, S>>,
    store: &'a St,
    start: Option<&[A::Index]>,
) -> (r: (Vec<(Path<A>, &'a V)>, Option<St::Error>))
    requires
        root matches Some(n) ==> n.children_view().wf(),
    ensures
        root is None ==> r.0@.len() == 0 && r.1 is None,
        St::cannot_fail() ==> r.1 is None,
        root matches Some(n) && (forall|j: int|
            0 <= j < n.children_view().edges().len() ==> #[trigger] n.children_view().edges()[j]
                is None) ==> r.1 is None,
        forall|m: int|
            #![trigger r.0@[m]]
            0 <= m < r.0@.len() ==> lookup_value::<V, E, A, S, St>(root_view(root), r.0@[m].0@)
                == Some(*r.0@[m].1) && at_or_after(r.0@[m].0@, start_view(start)),
        forall|m: int, n: int|
            #![trigger r.0@[m], r.0@[n]]
            0 <= m < n < r.0@.len() ==> key_lt(r.0@[m].0@, r.0@[n].0@),
        forall|key: Seq<A::Index>, n: int|
            #![trigger lookup_value::<V, E, A, S, St>(root_view(root), key), r.0@[n]]
            0 <= n < r.0@.len() && lookup_value::<V, E, A, S, St>(root_view(root), key) is Some
                && at_or_after(key, start_view(start)) && key_lt(key, r.0@[n].0@) ==> exists|
                m: int,
            | #![trigger r.0@[m]] 0 <= m < r.0@.len() && r.0@[m].0@ == key,
        r.1 is None ==> forall|key: Seq<A::Index>|
            #![trigger lookup_value::<V, E, A, S, St>(root_view(root), key)]
            lookup_value::<V, E, A, S, St>(root_view(root), key) is Some && at_or_after(
                key,
                start_view(start),
            ) ==> exists|m: int| #![trigger r.0@[m]] 0 <= m < r.0@.len() && r.0@[m].0@ == key,
{
    let mut out: Vec<(Path<A>, &'a V)> = Vec::new();
    match root {
        None => (out, None),
        Some(n) => {
            let mut buf: Vec<A::Index> = Vec::new();
            let ghost edges = n.children_view().edges();
            proof {
                lemma_max_rank::<V, E, A, S, St>(edges);
            }
            let r = collect(
                n,
                store,
                &mut buf,
                start,
                &mut out,
                Ghost(max_rank::<V, E, A, S, St>(edges) + 1),
            );
            proof {
                assert forall|m: int| #![trigger out@[m]] 0 <= m < out@.len() implies lookup_value::<
                    V,
                    E,
                    A,
                    S,
                    St,
                >(root_view(root), out@[m].0@) == Some(*out@[m].1) by {
                    assert(out@[m].0@.skip(0) =~= out@[m].0@);
                }
                assert forall|key: Seq<A::Index>, k: int|
                    #![trigger lookup_value::<V, E, A, S, St>(root_view(root), key), out@[k]]
                    0 <= k < out@.len() && lookup_value::<V, E, A, S, St>(root_view(root), key)
                        is Some && at_or_after(key, start_view(start)) && key_lt(key, out@[k].0@)
                        implies exists|m: int| #![trigger out@[m]] 0 <= m < out@.len() && out@[m].0@ == key by {
                    assert(Seq::<A::Index>::empty() + key =~= key);
                    assert(lookup::<V, E, A, S, St>(*n, key) is Some);
                }
                if r is Ok {
                    assert forall|key: Seq<A::Index>|
                        #![trigger lookup_value::<V, E, A, S, St>(root_view(root), key)]
                        lookup_value::<V, E, A, S, St>(root_view(root), key) is Some
                            && at_or_after(key, start_view(start)) implies exists|m: int|
                        #![trigger out@[m]]
                        0 <= m < out@.len() && out@[m].0@ == key by {
                        assert(Seq::<A::Index>::empty() + key =~= key);
                        assert(lookup::<V, E, A, S, St>(*n, key) is Some);
                    }
                }
            }
            match r {
                Err(e) => (out, Some(e)),
                Ok(()) => (out, None),
            }
        },
    }
}

} // verus!
