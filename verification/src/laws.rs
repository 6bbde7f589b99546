//! Properties that relate several operations of the library.

use vstd::prelude::*;

use crate::arity::Arity;
use crate::bitmap::Bitmap;
use crate::children::{ChildMap, ChildStore};
use crate::count::{count_true, is_select, lemma_select_unique};
use crate::fixed::{index_of, present_count};
use crate::niche::Niche;
use crate::gapped::{lemma_somes_len, somes};
use crate::hash::{
    all_sealed, deep_sealed, edge_hash, good_at, inline_reach, lemma_good_child, lone_sealed,
    sealed_at, sealed_children, sealed_closed, sealed_correctly, trie_hash, walk_children,
    walk_hash, TrieHasher,
};
use crate::node::Node;
use crate::ops::lookup;
use crate::store::{max_rank, ranks_below, EdgeStore};
use crate::packed::packed_view;

verus! {

/// Selection inverts ranking: a set bit `i` is the one selected by its own
/// rank, and it is the only position that rank selects.
pub proof fn lemma_select_inverts_rank<B: Bitmap>(b: B, i: int)
    requires
        0 <= i < b.bit_seq().len(),
        b.bit_seq()[i],
    ensures
        is_select(b.bit_seq(), count_true(b.bit_seq().take(i)) as int, i),
        forall|p: int| #[trigger]
            is_select(b.bit_seq(), count_true(b.bit_seq().take(i)) as int, p) ==> p == i,
{
    assert forall|p: int| #[trigger]
        is_select(b.bit_seq(), count_true(b.bit_seq().take(i)) as int, p) implies p == i by {
        lemma_select_unique(b.bit_seq(), p, i);
    }
}

/// Ranking inverts selection: the position selected for `n` has rank `n`,
/// and no other position is selected for `n`.
pub proof fn lemma_rank_inverts_select<B: Bitmap>(b: B, n: int, p: int)
    requires
        is_select(b.bit_seq(), n, p),
    ensures
        count_true(b.bit_seq().take(p)) == n,
        forall|q: int| #[trigger] is_select(b.bit_seq(), n, q) ==> q == p,
{
    assert forall|q: int| #[trigger] is_select(b.bit_seq(), n, q) implies q == p by {
        lemma_select_unique(b.bit_seq(), p, q);
    }
}

/// Storing into an empty slot adds one present entry; overwriting a full
/// slot keeps the count.
pub proof fn lemma_count_after_store<E>(m: Seq<Option<E>>, i: int, v: E)
    requires
        0 <= i < m.len(),
    ensures
        present_count(m.update(i, Some(v))) == present_count(m) + if m[i] is None {
            1int
        } else {
            0int
        },
{
    crate::gapped::lemma_somes_around(m, i, Some(v));
    crate::gapped::lemma_somes_around(m, i, m[i]);
    assert(m.update(i, m[i]) =~= m);
    crate::gapped::lemma_somes_single(Some(v));
    crate::gapped::lemma_somes_single(m[i]);
    lemma_somes_len(m);
    lemma_somes_len(m.update(i, Some(v)));
}

/// Emptying a full slot removes one present entry; emptying an empty slot
/// keeps the count.
pub proof fn lemma_count_after_clear<E>(m: Seq<Option<E>>, i: int)
    requires
        0 <= i < m.len(),
    ensures
        present_count(m.update(i, None)) + if m[i] is Some {
            1int
        } else {
            0int
        } == present_count(m),
{
    crate::gapped::lemma_somes_around(m, i, None);
    crate::gapped::lemma_somes_around(m, i, m[i]);
    assert(m.update(i, m[i]) =~= m);
    crate::gapped::lemma_somes_single(None::<E>);
    crate::gapped::lemma_somes_single(m[i]);
    lemma_somes_len(m);
    lemma_somes_len(m.update(i, None));
}

/// A slot view is rebuilt exactly from its presence bits and its present
/// values in order: the compact form loses nothing.
pub proof fn lemma_packed_view_of_somes<T>(bits: Seq<bool>, s: Seq<Option<T>>)
    requires
        bits.len() == s.len(),
        forall|k: int| 0 <= k < s.len() ==> #[trigger] bits[k] == s[k] is Some,
    ensures
        packed_view(bits, somes(s)) == s,
        count_true(bits) == somes(s).len(),
    decreases s.len(),
{
    if s.len() > 0 {
        let n = s.len() - 1;
        let bs = bits.drop_last();
        let ss = s.drop_last();
        lemma_packed_view_of_somes(bs, ss);
        assert(bits.take(n) =~= bs);
        assert forall|k: int| 0 <= k < n implies #[trigger] packed_view(bits, somes(s))[k] == s[k] by {
            assert(bits.take(k) =~= bs.take(k));
            if s[k] is Some {
                lemma_somes_len(ss);
                crate::packed::lemma_rank_lt_count(bs, k);
                assert(packed_view(bs, somes(ss))[k] == s[k]);
            }
        }
        if s.last() is Some {
            lemma_somes_len(ss);
        }
        assert(packed_view(bits, somes(s)) =~= s);
    } else {
        assert(packed_view(bits, somes(s)) =~= s);
    }
}

/// Decoding the compact form of an array gives the array back: a bitmap
/// read from the bytes of the array's presence bitmap, with the array's
/// present values in order, has the array's slot view.
pub proof fn lemma_compact_round_trip<B: Bitmap, T>(present: B, decoded: B, s: Seq<Option<T>>)
    requires
        present.bit_seq().len() == s.len(),
        forall|k: int| 0 <= k < s.len() ==> #[trigger] present.bit_seq()[k] == s[k] is Some,
        decoded.le_bytes() == present.le_bytes(),
    ensures
        count_true(decoded.bit_seq()) == somes(s).len(),
        packed_view(decoded.bit_seq(), somes(s)) == s,
{
    B::lemma_bytes_determine(decoded, present);
    lemma_packed_view_of_somes(present.bit_seq(), s);
}

/// The walk takes the cached hash of every sealed child that it does not
/// hash again.
pub proof fn lemma_walk_trusts_sealed_children<
    V,
    E,
    A: Arity,
    S: ChildStore<A, E>,
    St: EdgeStore<V, E, A, S>,
    Hs: TrieHasher<V, A, Hash = St::Hash>,
>(hs: Hs, edges: Seq<Option<E>>, prefix: Seq<A::Index>, count: nat, bound: nat)
    requires
        all_sealed::<V, E, A, S, St>(edges),
    ensures
        walk_children::<V, E, A, S, St, Hs>(hs, edges, prefix, count, false, bound)
            == sealed_children::<V, E, A, S, St>(edges),
    decreases edges.len(),
{
    if edges.len() > 0 {
        assert forall|k: int| 0 <= k < edges.drop_last().len() implies (
        #[trigger] edges.drop_last()[k] matches Some(e) ==> St::sealed(&e) is Some) by {
            assert(edges.drop_last()[k] == edges[k]);
        }
        lemma_walk_trusts_sealed_children::<V, E, A, S, St, Hs>(
            hs,
            edges.drop_last(),
            prefix,
            count,
            bound,
        );
        assert(edges.last() == edges[edges.len() - 1]);
        if let Some(e) = edges.last() {
            let i = index_of::<A>(edges.len() - 1);
            assert(edge_hash::<V, E, A, S, St, Hs>(hs, e, prefix.push(i), count, false, bound)
                == St::sealed(&e)->0);
        }
    }
}

/// Hashing is stable: once a hash has sealed every edge of the root and
/// returned `h`, hashing again returns `h`, provided the root does not have
/// its one sealed child hashed again under a sibling-sensitive scheme and
/// rewriting its value a second time leaves it as it is.
pub proof fn lemma_hash_is_stable<
    V,
    E,
    A: Arity,
    S: ChildStore<A, E>,
    St: EdgeStore<V, E, A, S>,
    Hs: TrieHasher<V, A, Hash = St::Hash>,
>(hs: Hs, root: Node<V, E, A, S>, h: Hs::Hash)
    requires
        all_sealed::<V, E, A, S, St>(root.children_view().edges()),
        h == hs.node_hash(
            Seq::empty(),
            root.path_view(),
            root.value_view(),
            0,
            sealed_children::<V, E, A, S, St>(root.children_view().edges()),
        ),
        !lone_sealed::<V, E, A, S, St, Hs>(
            hs,
            root.children_view().edges(),
            Seq::empty(),
            root.path_view(),
        ),
        root.value_view() matches Some(v) ==> hs.rewrite(
            Seq::empty(),
            root.path_view(),
            sealed_children::<V, E, A, S, St>(root.children_view().edges()),
            v,
        ) == v,
    ensures
        trie_hash::<V, E, A, S, St, Hs>(hs, root) == h,
{
    let edges = root.children_view().edges();
    lemma_walk_trusts_sealed_children::<V, E, A, S, St, Hs>(
        hs,
        edges,
        Seq::empty() + root.path_view(),
        present_count(edges),
        max_rank::<V, E, A, S, St>(edges) + 1,
    );
}

/// A trie that a hash has wholly sealed meets the condition under which the
/// next hash seals it wholly again: below every sealed edge, every edge is
/// sealed.
pub proof fn lemma_deep_sealed_is_closed<
    V,
    E,
    A: Arity,
    S: ChildStore<A, E>,
    St: EdgeStore<V, E, A, S>,
>(node: Node<V, E, A, S>)
    requires
        deep_sealed::<V, E, A, S, St>(node),
    ensures
        sealed_closed::<V, E, A, S, St>(node),
{
    assert forall|key: Seq<A::Index>, j: int|
        #![trigger lookup::<V, E, A, S, St>(node, key), sealed_at::<V, E, A, S, St>(lookup::<V, E, A, S, St>(node, key)->0.children_view().edges(), j)]
        0 <= j < A::LEN && lookup::<V, E, A, S, St>(node, key) is Some && sealed_at::<
            V,
            E,
            A,
            S,
            St,
        >(lookup::<V, E, A, S, St>(node, key)->0.children_view().edges(), j) implies deep_sealed::<
            V,
            E,
            A,
            S,
            St,
        >(
        St::target(&lookup::<V, E, A, S, St>(node, key)->0.children_view().edges()[j]->0),
    ) by {
        let m = lookup::<V, E, A, S, St>(node, key)->0;
        let c = m.children_view().edges()[j]->0;
        let i = index_of::<A>(j);
        lemma_lookup_extend::<V, E, A, S, St>(node, key, j);
        assert forall|ck: Seq<A::Index>|
            #![trigger lookup::<V, E, A, S, St>(St::target(&c), ck)]
            lookup::<V, E, A, S, St>(St::target(&c), ck) is Some implies all_sealed::<
            V,
            E,
            A,
            S,
            St,
        >(lookup::<V, E, A, S, St>(St::target(&c), ck)->0.children_view().edges()) by {
            let full = key.push(i) + ck;
            assert(lookup::<V, E, A, S, St>(node, full) == lookup::<V, E, A, S, St>(
                St::target(&c),
                ck,
            ));
        }
    }
}

/// Below the node found at `key`, the child at position `j` is found at
/// `key` extended by its index, and the rest of a longer key is looked up
/// below it.
pub proof fn lemma_lookup_extend<V, E, A: Arity, S: ChildStore<A, E>, St: EdgeStore<V, E, A, S>>(
    node: Node<V, E, A, S>,
    key: Seq<A::Index>,
    j: int,
)
    requires
        lookup::<V, E, A, S, St>(node, key) is Some,
        0 <= j < A::LEN,
        lookup::<V, E, A, S, St>(node, key)->0.children_view().edges()[j] is Some,
    ensures
        index_of::<A>(j).value() == j,
        forall|ck: Seq<A::Index>|
            #![trigger lookup::<V, E, A, S, St>(
                St::target(&lookup::<V, E, A, S, St>(node, key)->0.children_view().edges()[j]->0),
                ck,
            )]
            lookup::<V, E, A, S, St>(node, key.push(index_of::<A>(j)) + ck) == lookup::<
                V,
                E,
                A,
                S,
                St,
            >(St::target(&lookup::<V, E, A, S, St>(node, key)->0.children_view().edges()[j]->0), ck),
    decreases key.len(),
{
    let m = lookup::<V, E, A, S, St>(node, key)->0;
    A::lemma_len();
    let x = <A::Index as Niche>::lemma_surjective(j as nat);
    A::Index::lemma_injective(x, index_of::<A>(j));
    let i = index_of::<A>(j);
    let p = node.path_view();
    if key.len() == p.len() {
        assert(key =~= p) by {
            assert(key.take(p.len() as int) =~= key);
        }
        assert forall|ck: Seq<A::Index>|
            #![trigger lookup::<V, E, A, S, St>(
                St::target(&m.children_view().edges()[j]->0),
                ck,
            )]
            lookup::<V, E, A, S, St>(node, key.push(i) + ck) == lookup::<V, E, A, S, St>(
                St::target(&m.children_view().edges()[j]->0),
                ck,
            ) by {
            let full = key.push(i) + ck;
            assert(full.take(p.len() as int) =~= p);
            assert(full[p.len() as int] == i);
            assert(full.skip(p.len() + 1int) =~= ck);
        }
    } else {
        let y = key[p.len() as int];
        let rest = key.skip(p.len() + 1int);
        let c = node.children_view().edges()[y.value() as int]->0;
        lemma_lookup_extend::<V, E, A, S, St>(St::target(&c), rest, j);
        assert forall|ck: Seq<A::Index>|
            #![trigger lookup::<V, E, A, S, St>(
                St::target(&m.children_view().edges()[j]->0),
                ck,
            )]
            lookup::<V, E, A, S, St>(node, key.push(i) + ck) == lookup::<V, E, A, S, St>(
                St::target(&m.children_view().edges()[j]->0),
                ck,
            ) by {
            let full = key.push(i) + ck;
            assert(full.take(p.len() as int) =~= key.take(p.len() as int));
            assert(full[p.len() as int] == y);
            assert(full.skip(p.len() + 1int) =~= rest.push(i) + ck);
            assert(lookup::<V, E, A, S, St>(St::target(&c), rest.push(i) + ck) == lookup::<
                V,
                E,
                A,
                S,
                St,
            >(St::target(&m.children_view().edges()[j]->0), ck));
        }
    }
}

/// `s` is a number of children under which a child of the node at
/// `leading`, with partial path `partial` and `count` children, hashes in
/// the form it has now.
pub open spec fn same_form<V, A: Arity, Hs: TrieHasher<V, A>>(
    hs: Hs,
    leading: Seq<A::Index>,
    partial: Seq<A::Index>,
    s: nat,
    count: nat,
) -> bool {
    s >= 1 && count >= 1 && (!hs.sensitive(leading, partial) || ((s == 1) == (count == 1)))
}

/// If `e`, the child at `i` of the node at `leading` with partial path
/// `partial` and `count` children, is sealed, its node's edges are all
/// sealed and it carries its node's hash at its position, under a number of
/// children of the same form as `count`.
pub open spec fn seal_fits<
    V,
    E,
    A: Arity,
    S: ChildStore<A, E>,
    St: EdgeStore<V, E, A, S>,
    Hs: TrieHasher<V, A, Hash = St::Hash>,
>(
    hs: Hs,
    e: E,
    leading: Seq<A::Index>,
    partial: Seq<A::Index>,
    i: A::Index,
    count: nat,
) -> bool {
    let t = St::target(&e);
    St::sealed(&e) is Some ==> {
        &&& all_sealed::<V, E, A, S, St>(t.children_view().edges())
        &&& exists|s: nat|
            #![trigger same_form::<V, A, Hs>(hs, leading, partial, s, count)]
            same_form::<V, A, Hs>(hs, leading, partial, s, count) && St::sealed(&e) == Some(
                hs.node_hash(
                    (leading + partial).push(i),
                    t.path_view(),
                    t.value_view(),
                    s,
                    sealed_children::<V, E, A, S, St>(t.children_view().edges()),
                ),
            )
    }
}

/// Every sealed edge below `node`, whose leading path is `leading`, fits
/// its position (see [`seal_fits`]); when `walked`, the only sealed child of
/// a sibling-sensitive node that a walk reaches through inline edges is
/// exempt, as long as its node's edges are all sealed, since the walk hashes
/// it again.
pub open spec fn hashes_fit<
    V,
    E,
    A: Arity,
    S: ChildStore<A, E>,
    St: EdgeStore<V, E, A, S>,
    Hs: TrieHasher<V, A, Hash = St::Hash>,
>(hs: Hs, node: Node<V, E, A, S>, leading: Seq<A::Index>, walked: bool) -> bool {
    forall|key: Seq<A::Index>, j: int|
        #![trigger lookup::<V, E, A, S, St>(node, key), sealed_at::<V, E, A, S, St>(lookup::<V, E, A, S, St>(node, key)->0.children_view().edges(), j)]
        0 <= j < A::LEN && lookup::<V, E, A, S, St>(node, key) is Some && sealed_at::<
            V,
            E,
            A,
            S,
            St,
        >(lookup::<V, E, A, S, St>(node, key)->0.children_view().edges(), j) ==> {
            let m = lookup::<V, E, A, S, St>(node, key)->0;
            let edges = m.children_view().edges();
            let lm = leading + key.take(key.len() - m.path_view().len());
            ||| seal_fits::<V, E, A, S, St, Hs>(
                hs,
                edges[j]->0,
                lm,
                m.path_view(),
                index_of::<A>(j),
                present_count(edges),
            )
            ||| walked && inline_reach::<V, E, A, S, St>(node, key) && lone_sealed::<
                V,
                E,
                A,
                S,
                St,
                Hs,
            >(hs, edges, lm, m.path_view()) && all_sealed::<V, E, A, S, St>(
                St::target(&edges[j]->0).children_view().edges(),
            )
        }
}

/// The node a key finds ends the key.
pub proof fn lemma_lookup_ends<V, E, A: Arity, S: ChildStore<A, E>, St: EdgeStore<V, E, A, S>>(
    node: Node<V, E, A, S>,
    key: Seq<A::Index>,
)
    requires
        lookup::<V, E, A, S, St>(node, key) is Some,
    ensures
        lookup::<V, E, A, S, St>(node, key)->0.path_view().len() <= key.len(),
        key == key.take(key.len() - lookup::<V, E, A, S, St>(node, key)->0.path_view().len())
            + lookup::<V, E, A, S, St>(node, key)->0.path_view(),
    decreases key.len(),
{
    let p = node.path_view();
    if key.len() == p.len() {
        assert(key.take(p.len() as int) =~= key);
        assert(key =~= key.take(0) + p);
    } else {
        let e = node.children_view().edges()[key[p.len() as int].value() as int]->0;
        let rest = key.skip((p.len() + 1) as int);
        lemma_lookup_ends::<V, E, A, S, St>(St::target(&e), rest);
        let m = lookup::<V, E, A, S, St>(St::target(&e), rest)->0;
        let ml = m.path_view().len();
        assert(key.take(key.len() - ml) + m.path_view() =~= key) by {
            assert(rest =~= rest.take(rest.len() - ml) + m.path_view());
            assert forall|t: int| 0 <= t < key.len() implies #[trigger] (key.take(
                key.len() - ml,
            ) + m.path_view())[t] == key[t] by {
                if t >= key.len() - ml {
                    assert(m.path_view()[t - (key.len() - ml)] == rest[t - (p.len() + 1)]);
                }
            }
        }
    }
}

/// The edge at `j` of a node whose sealed edges fit fits its position, and
/// the subtree behind it fits too, walked only if the edge is inline.
proof fn lemma_fit_child<
    V,
    E,
    A: Arity,
    S: ChildStore<A, E>,
    St: EdgeStore<V, E, A, S>,
    Hs: TrieHasher<V, A, Hash = St::Hash>,
>(hs: Hs, node: Node<V, E, A, S>, leading: Seq<A::Index>, walked: bool, j: int)
    requires
        hashes_fit::<V, E, A, S, St, Hs>(hs, node, leading, walked),
        0 <= j < A::LEN,
    ensures
        index_of::<A>(j).value() == j,
        node.children_view().edges()[j] matches Some(c) ==> {
            &&& hashes_fit::<V, E, A, S, St, Hs>(
                hs,
                St::target(&c),
                (leading + node.path_view()).push(index_of::<A>(j)),
                walked && St::sealed(&c) is None,
            )
            &&& St::sealed(&c) is Some ==> (seal_fits::<V, E, A, S, St, Hs>(
                hs,
                c,
                leading,
                node.path_view(),
                index_of::<A>(j),
                present_count(node.children_view().edges()),
            ) || (walked && lone_sealed::<V, E, A, S, St, Hs>(
                hs,
                node.children_view().edges(),
                leading,
                node.path_view(),
            ) && all_sealed::<V, E, A, S, St>(St::target(&c).children_view().edges())))
        },
{
    A::lemma_len();
    let x = <A::Index as Niche>::lemma_surjective(j as nat);
    A::Index::lemma_injective(x, index_of::<A>(j));
    let i = index_of::<A>(j);
    let p = node.path_view();
    let prefix = leading + p;
    assert(p.take(p.len() as int) =~= p);
    assert(lookup::<V, E, A, S, St>(node, p) == Some(node));
    assert(p.take(0) =~= Seq::<A::Index>::empty());
    assert(leading + p.take(0) =~= leading);
    assert(inline_reach::<V, E, A, S, St>(node, p));
    if let Some(c) = node.children_view().edges()[j] {
        if St::sealed(&c) is Some {
            assert(sealed_at::<V, E, A, S, St>(
                lookup::<V, E, A, S, St>(node, p)->0.children_view().edges(),
                j,
            ));
        }
        let t = St::target(&c);
        let q = prefix.push(i);
        let w = walked && St::sealed(&c) is None;
        assert forall|ck: Seq<A::Index>, j2: int|
            #![trigger lookup::<V, E, A, S, St>(t, ck), sealed_at::<V, E, A, S, St>(lookup::<V, E, A, S, St>(t, ck)->0.children_view().edges(), j2)]
            0 <= j2 < A::LEN && lookup::<V, E, A, S, St>(t, ck) is Some && sealed_at::<
                V,
                E,
                A,
                S,
                St,
            >(lookup::<V, E, A, S, St>(t, ck)->0.children_view().edges(), j2) implies {
                let m = lookup::<V, E, A, S, St>(t, ck)->0;
                let edges = m.children_view().edges();
                let lm = q + ck.take(ck.len() - m.path_view().len());
                ||| seal_fits::<V, E, A, S, St, Hs>(
                    hs,
                    edges[j2]->0,
                    lm,
                    m.path_view(),
                    index_of::<A>(j2),
                    present_count(edges),
                )
                ||| w && inline_reach::<V, E, A, S, St>(t, ck) && lone_sealed::<
                    V,
                    E,
                    A,
                    S,
                    St,
                    Hs,
                >(hs, edges, lm, m.path_view()) && all_sealed::<V, E, A, S, St>(
                    St::target(&edges[j2]->0).children_view().edges(),
                )
            } by {
            let key = p.push(i) + ck;
            assert(key.take(p.len() as int) =~= p);
            assert(key[p.len() as int] == i);
            assert(key.skip(p.len() + 1int) =~= ck);
            assert(lookup::<V, E, A, S, St>(node, key) == lookup::<V, E, A, S, St>(t, ck));
            assert(inline_reach::<V, E, A, S, St>(node, key) == (St::sealed(&c) is None
                && inline_reach::<V, E, A, S, St>(t, ck)));
            let m = lookup::<V, E, A, S, St>(t, ck)->0;
            lemma_lookup_ends::<V, E, A, S, St>(t, ck);
            let ml = m.path_view().len();
            assert(leading + key.take(key.len() - ml) =~= q + ck.take(ck.len() - ml));
            assert(sealed_at::<V, E, A, S, St>(
                lookup::<V, E, A, S, St>(node, key)->0.children_view().edges(),
                j2,
            ));
        }
    }
}

/// A sequence with a present entry counts at least one.
proof fn lemma_present_count_pos<T>(s: Seq<Option<T>>, j: int)
    requires
        0 <= j < s.len(),
        s[j] is Some,
    ensures
        present_count(s) >= 1,
    decreases s.len(),
{
    if j < s.len() - 1 {
        assert(s.drop_last()[j] == s[j]);
        lemma_present_count_pos(s.drop_last(), j);
    }
}

/// In a ranked trie, sealed edges that carry correct hashes (see
/// [`sealed_correctly`]) fit their positions.
pub proof fn lemma_correct_hashes_fit<
    V,
    E,
    A: Arity,
    S: ChildStore<A, E>,
    St: EdgeStore<V, E, A, S>,
    Hs: TrieHasher<V, A, Hash = St::Hash>,
>(hs: Hs, node: Node<V, E, A, S>, leading: Seq<A::Index>, walked: bool, bound: nat)
    requires
        sealed_correctly::<V, E, A, S, St, Hs>(hs, node, leading),
        ranked::<V, E, A, S, St>(node, bound),
    ensures
        hashes_fit::<V, E, A, S, St, Hs>(hs, node, leading, walked),
{
    assert forall|key: Seq<A::Index>, j: int|
        #![trigger lookup::<V, E, A, S, St>(node, key), sealed_at::<V, E, A, S, St>(lookup::<V, E, A, S, St>(node, key)->0.children_view().edges(), j)]
        0 <= j < A::LEN && lookup::<V, E, A, S, St>(node, key) is Some && sealed_at::<
            V,
            E,
            A,
            S,
            St,
        >(lookup::<V, E, A, S, St>(node, key)->0.children_view().edges(), j) implies {
            let m = lookup::<V, E, A, S, St>(node, key)->0;
            let edges = m.children_view().edges();
            let lm = leading + key.take(key.len() - m.path_view().len());
            seal_fits::<V, E, A, S, St, Hs>(
                hs,
                edges[j]->0,
                lm,
                m.path_view(),
                index_of::<A>(j),
                present_count(edges),
            )
        } by {
        let m = lookup::<V, E, A, S, St>(node, key)->0;
        let edges = m.children_view().edges();
        let lm = leading + key.take(key.len() - m.path_view().len());
        let count = present_count(edges);
        lemma_lookup_ends::<V, E, A, S, St>(node, key);
        assert(lm + m.path_view() =~= leading + key);
        m.children_view().lemma_edges_len();
        A::lemma_len();
        lemma_present_count_pos(edges, j);
        assert(same_form::<V, A, Hs>(hs, lm, m.path_view(), count, count));
    }
}

/// The Merkle hash of the contents of the trie below `node`, descending into
/// every edge, sealed or not: what hashing a fresh copy of the trie, with
/// every edge inline, computes when the scheme stores values as written.
pub open spec fn content_hash<
    V,
    E,
    A: Arity,
    S: ChildStore<A, E>,
    St: EdgeStore<V, E, A, S>,
    Hs: TrieHasher<V, A, Hash = St::Hash>,
>(hs: Hs, node: Node<V, E, A, S>, leading: Seq<A::Index>, siblings: nat, bound: nat) -> Hs::Hash
    decreases bound, 1nat, 0nat,
{
    let edges = node.children_view().edges();
    hs.node_hash(
        leading,
        node.path_view(),
        node.value_view(),
        siblings,
        content_children::<V, E, A, S, St, Hs>(
            hs,
            edges,
            leading + node.path_view(),
            present_count(edges),
            bound,
        ),
    )
}

/// The indices and content hashes of the present edges in `edges`,
/// ascending.
pub open spec fn content_children<
    V,
    E,
    A: Arity,
    S: ChildStore<A, E>,
    St: EdgeStore<V, E, A, S>,
    Hs: TrieHasher<V, A, Hash = St::Hash>,
>(hs: Hs, edges: Seq<Option<E>>, prefix: Seq<A::Index>, count: nat, bound: nat) -> Seq<
    (A::Index, Hs::Hash),
>
    decreases bound, 0nat, edges.len(),
{
    if edges.len() == 0 {
        Seq::empty()
    } else {
        let i = index_of::<A>(edges.len() - 1);
        let rest = content_children::<V, E, A, S, St, Hs>(
            hs,
            edges.drop_last(),
            prefix,
            count,
            bound,
        );
        match edges.last() {
            Some(e) => rest.push(
                (
                    i,
                    if St::rank(&e) < bound {
                        content_hash::<V, E, A, S, St, Hs>(
                            hs,
                            St::target(&e),
                            prefix.push(i),
                            count,
                            St::rank(&e),
                        )
                    } else {
                        arbitrary()
                    },
                ),
            ),
            None => rest,
        }
    }
}

/// Every node below `node` has a well-formed children map, and every edge
/// ranks below the edge above it, `bound` above the edges of `node` itself:
/// the store's invariants hold throughout the trie.
pub open spec fn ranked<V, E, A: Arity, S: ChildStore<A, E>, St: EdgeStore<V, E, A, S>>(
    node: Node<V, E, A, S>,
    bound: nat,
) -> bool {
    &&& ranks_below::<V, E, A, S, St>(node.children_view().edges(), bound)
    &&& forall|key: Seq<A::Index>|
        #![trigger lookup::<V, E, A, S, St>(node, key)]
        lookup::<V, E, A, S, St>(node, key) is Some ==> lookup::<V, E, A, S, St>(
            node,
            key,
        )->0.children_view().wf()
    &&& forall|key: Seq<A::Index>, j: int|
        #![trigger lookup::<V, E, A, S, St>(node, key), lookup::<V, E, A, S, St>(node, key)->0.children_view().edges()[j]]
        0 <= j < A::LEN && lookup::<V, E, A, S, St>(node, key) is Some && lookup::<
            V,
            E,
            A,
            S,
            St,
        >(node, key)->0.children_view().edges()[j] is Some ==> ranks_below::<V, E, A, S, St>(
            St::target(
                &lookup::<V, E, A, S, St>(node, key)->0.children_view().edges()[j]->0,
            ).children_view().edges(),
            St::rank(&lookup::<V, E, A, S, St>(node, key)->0.children_view().edges()[j]->0),
        )
}

/// The subtree behind the child at `j` of a ranked node is ranked below
/// that child's rank.
proof fn lemma_ranked_child<V, E, A: Arity, S: ChildStore<A, E>, St: EdgeStore<V, E, A, S>>(
    node: Node<V, E, A, S>,
    bound: nat,
    j: int,
)
    requires
        ranked::<V, E, A, S, St>(node, bound),
        0 <= j < A::LEN,
        node.children_view().edges()[j] is Some,
    ensures
        ranked::<V, E, A, S, St>(
            St::target(&node.children_view().edges()[j]->0),
            St::rank(&node.children_view().edges()[j]->0),
        ),
        St::target(&node.children_view().edges()[j]->0).children_view().wf(),
        St::rank(&node.children_view().edges()[j]->0) < bound,
{
    A::lemma_len();
    let x = <A::Index as Niche>::lemma_surjective(j as nat);
    A::Index::lemma_injective(x, index_of::<A>(j));
    let i = index_of::<A>(j);
    let c = node.children_view().edges()[j]->0;
    let p = node.path_view();
    assert(p.take(p.len() as int) =~= p);
    assert(lookup::<V, E, A, S, St>(node, p) == Some(node));
    node.children_view().lemma_edges_len();
    assert(node.children_view().edges()[j] matches Some(cc) ==> St::rank(&cc) < bound);
    assert(lookup::<V, E, A, S, St>(node, p)->0.children_view().edges()[j] is Some);
    assert forall|ck: Seq<A::Index>, j2: int|
        #![trigger lookup::<V, E, A, S, St>(St::target(&c), ck), lookup::<V, E, A, S, St>(St::target(&c), ck)->0.children_view().edges()[j2]]
        0 <= j2 < A::LEN && lookup::<V, E, A, S, St>(St::target(&c), ck) is Some && lookup::<
            V,
            E,
            A,
            S,
            St,
        >(St::target(&c), ck)->0.children_view().edges()[j2] is Some implies ranks_below::<
        V,
        E,
        A,
        S,
        St,
    >(
        St::target(
            &lookup::<V, E, A, S, St>(St::target(&c), ck)->0.children_view().edges()[j2]->0,
        ).children_view().edges(),
        St::rank(&lookup::<V, E, A, S, St>(St::target(&c), ck)->0.children_view().edges()[j2]->0),
    ) by {
        let key = p.push(i) + ck;
        assert(key.take(p.len() as int) =~= p);
        assert(key[p.len() as int] == i);
        assert(key.skip(p.len() + 1int) =~= ck);
        assert(lookup::<V, E, A, S, St>(node, key) == lookup::<V, E, A, S, St>(St::target(&c), ck));
        assert(lookup::<V, E, A, S, St>(node, key)->0.children_view().edges()[j2] is Some);
    }
    assert forall|ck: Seq<A::Index>|
        #![trigger lookup::<V, E, A, S, St>(St::target(&c), ck)]
        lookup::<V, E, A, S, St>(St::target(&c), ck) is Some implies lookup::<V, E, A, S, St>(
        St::target(&c),
        ck,
    )->0.children_view().wf() by {
        let key = p.push(i) + ck;
        assert(key.take(p.len() as int) =~= p);
        assert(key[p.len() as int] == i);
        assert(key.skip(p.len() + 1int) =~= ck);
        assert(lookup::<V, E, A, S, St>(node, key) == lookup::<V, E, A, S, St>(St::target(&c), ck));
    }
    let t = St::target(&c);
    assert(t.path_view().take(t.path_view().len() as int) =~= t.path_view());
    assert(lookup::<V, E, A, S, St>(t, t.path_view()) == Some(t));
}

/// Below a ranked node whose edges are all sealed and whose sealed edges
/// fit their positions, the cached hashes of its children are their content
/// hashes.
proof fn lemma_sealed_children_content<
    V,
    E,
    A: Arity,
    S: ChildStore<A, E>,
    St: EdgeStore<V, E, A, S>,
    Hs: TrieHasher<V, A, Hash = St::Hash>,
>(hs: Hs, t: Node<V, E, A, S>, leading: Seq<A::Index>, bound: nat, n: int)
    requires
        0 <= n <= A::LEN,
        all_sealed::<V, E, A, S, St>(t.children_view().edges()),
        hashes_fit::<V, E, A, S, St, Hs>(hs, t, leading, false),
        ranked::<V, E, A, S, St>(t, bound),
    ensures
        sealed_children::<V, E, A, S, St>(t.children_view().edges().take(n))
            == content_children::<V, E, A, S, St, Hs>(
            hs,
            t.children_view().edges().take(n),
            leading + t.path_view(),
            present_count(t.children_view().edges()),
            bound,
        ),
    decreases bound, n,
{
    A::lemma_len();
    assert(t.path_view().take(t.path_view().len() as int) =~= t.path_view());
    assert(lookup::<V, E, A, S, St>(t, t.path_view()) == Some(t));
    t.children_view().lemma_edges_len();
    let edges = t.children_view().edges();
    if n > 0 {
        lemma_sealed_children_content::<V, E, A, S, St, Hs>(hs, t, leading, bound, n - 1);
        assert(edges.take(n).drop_last() =~= edges.take(n - 1));
        let j = n - 1;
        assert(edges.take(n).last() == edges[j]);
        if let Some(g) = edges[j] {
            lemma_fit_child::<V, E, A, S, St, Hs>(hs, t, leading, false, j);
            lemma_ranked_child::<V, E, A, S, St>(t, bound, j);
            assert(edges[j] matches Some(x) ==> St::sealed(&x) is Some);
            let i = index_of::<A>(j);
            let tg = St::target(&g);
            let lg = (leading + t.path_view()).push(i);
            let count = present_count(edges);
            let sc = sealed_children::<V, E, A, S, St>(tg.children_view().edges());
            let s = choose|s: nat|
                #![trigger same_form::<V, A, Hs>(hs, leading, t.path_view(), s, count)]
                same_form::<V, A, Hs>(hs, leading, t.path_view(), s, count) && St::sealed(&g)
                    == Some(hs.node_hash(lg, tg.path_view(), tg.value_view(), s, sc));
            hs.lemma_sibling_forms(leading, t.path_view(), i, tg.path_view(), tg.value_view(), sc, s, count);
            lemma_sealed_children_content::<V, E, A, S, St, Hs>(
                hs,
                tg,
                lg,
                St::rank(&g),
                A::LEN as int,
            );
            tg.children_view().lemma_edges_len();
            assert(tg.children_view().edges().take(A::LEN as int) =~= tg.children_view().edges());
            assert(St::sealed(&g)->0 == content_hash::<V, E, A, S, St, Hs>(
                hs,
                tg,
                lg,
                count,
                St::rank(&g),
            ));
        }
        assert(edges.take(n).len() == n);
    }
}

/// Under a scheme that stores values as written, the walk over a ranked
/// node whose sealed edges fit their positions gives its content hash.
proof fn lemma_walk_is_content<
    V,
    E,
    A: Arity,
    S: ChildStore<A, E>,
    St: EdgeStore<V, E, A, S>,
    Hs: TrieHasher<V, A, Hash = St::Hash>,
>(hs: Hs, node: Node<V, E, A, S>, leading: Seq<A::Index>, siblings: nat, bound: nat)
    requires
        forall|l: Seq<A::Index>, p: Seq<A::Index>, c: Seq<(A::Index, Hs::Hash)>, v: V|
            #[trigger] hs.rewrite(l, p, c, v) == v,
        hashes_fit::<V, E, A, S, St, Hs>(hs, node, leading, true),
        ranked::<V, E, A, S, St>(node, bound),
    ensures
        walk_hash::<V, E, A, S, St, Hs>(hs, node, leading, siblings, bound)
            == content_hash::<V, E, A, S, St, Hs>(hs, node, leading, siblings, bound),
    decreases bound, 1nat, 0int,
{
    A::lemma_len();
    assert(node.path_view().take(node.path_view().len() as int) =~= node.path_view());
    assert(lookup::<V, E, A, S, St>(node, node.path_view()) == Some(node));
    node.children_view().lemma_edges_len();
    let edges = node.children_view().edges();
    let lone = lone_sealed::<V, E, A, S, St, Hs>(hs, edges, leading, node.path_view());
    lemma_walk_children_content::<V, E, A, S, St, Hs>(
        hs,
        node,
        leading,
        lone,
        bound,
        A::LEN as int,
    );
    assert(edges.take(A::LEN as int) =~= edges);
    let children = walk_children::<V, E, A, S, St, Hs>(
        hs,
        edges,
        leading + node.path_view(),
        present_count(edges),
        lone,
        bound,
    );
    if let Some(v) = node.value_view() {
        assert(hs.rewrite(leading, node.path_view(), children, v) == v);
    }
}

/// The walk's children of a ranked node whose sealed edges fit their
/// positions are its content children, over the first `n` indices.
proof fn lemma_walk_children_content<
    V,
    E,
    A: Arity,
    S: ChildStore<A, E>,
    St: EdgeStore<V, E, A, S>,
    Hs: TrieHasher<V, A, Hash = St::Hash>,
>(hs: Hs, node: Node<V, E, A, S>, leading: Seq<A::Index>, lone: bool, bound: nat, n: int)
    requires
        0 <= n <= A::LEN,
        lone == lone_sealed::<V, E, A, S, St, Hs>(
            hs,
            node.children_view().edges(),
            leading,
            node.path_view(),
        ),
        forall|l: Seq<A::Index>, p: Seq<A::Index>, c: Seq<(A::Index, Hs::Hash)>, v: V|
            #[trigger] hs.rewrite(l, p, c, v) == v,
        hashes_fit::<V, E, A, S, St, Hs>(hs, node, leading, true),
        ranked::<V, E, A, S, St>(node, bound),
    ensures
        walk_children::<V, E, A, S, St, Hs>(
            hs,
            node.children_view().edges().take(n),
            leading + node.path_view(),
            present_count(node.children_view().edges()),
            lone,
            bound,
        ) == content_children::<V, E, A, S, St, Hs>(
            hs,
            node.children_view().edges().take(n),
            leading + node.path_view(),
            present_count(node.children_view().edges()),
            bound,
        ),
    decreases bound, 0nat, n,
{
    A::lemma_len();
    assert(node.path_view().take(node.path_view().len() as int) =~= node.path_view());
    assert(lookup::<V, E, A, S, St>(node, node.path_view()) == Some(node));
    node.children_view().lemma_edges_len();
    let edges = node.children_view().edges();
    let prefix = leading + node.path_view();
    let count = present_count(edges);
    if n > 0 {
        lemma_walk_children_content::<V, E, A, S, St, Hs>(hs, node, leading, lone, bound, n - 1);
        assert(edges.take(n).drop_last() =~= edges.take(n - 1));
        let j = n - 1;
        assert(edges.take(n).last() == edges[j]);
        assert(edges.take(n).len() == n);
        if let Some(e) = edges[j] {
            let i = index_of::<A>(j);
            lemma_fit_child::<V, E, A, S, St, Hs>(hs, node, leading, true, j);
            lemma_ranked_child::<V, E, A, S, St>(node, bound, j);
            let t = St::target(&e);
            let lg = prefix.push(i);
            if St::sealed(&e) is Some {
                let sc = sealed_children::<V, E, A, S, St>(t.children_view().edges());
                lemma_sealed_children_content::<V, E, A, S, St, Hs>(
                    hs,
                    t,
                    lg,
                    St::rank(&e),
                    A::LEN as int,
                );
                t.children_view().lemma_edges_len();
                assert(t.children_view().edges().take(A::LEN as int) =~= t.children_view().edges());
                if lone {
                    assert(edge_hash::<V, E, A, S, St, Hs>(hs, e, lg, count, lone, bound)
                        == hs.node_hash(lg, t.path_view(), t.value_view(), count, sc));
                } else {
                    let s = choose|s: nat|
                        #![trigger same_form::<V, A, Hs>(hs, leading, node.path_view(), s, count)]
                        same_form::<V, A, Hs>(hs, leading, node.path_view(), s, count)
                            && St::sealed(&e) == Some(
                            hs.node_hash(lg, t.path_view(), t.value_view(), s, sc),
                        );
                    hs.lemma_sibling_forms(
                        leading,
                        node.path_view(),
                        i,
                        t.path_view(),
                        t.value_view(),
                        sc,
                        s,
                        count,
                    );
                    assert(edge_hash::<V, E, A, S, St, Hs>(hs, e, lg, count, lone, bound)
                        == St::sealed(&e)->0);
                }
                assert(edge_hash::<V, E, A, S, St, Hs>(hs, e, lg, count, lone, bound)
                    == content_hash::<V, E, A, S, St, Hs>(hs, t, lg, count, St::rank(&e)));
            } else {
                lemma_walk_is_content::<V, E, A, S, St, Hs>(hs, t, lg, count, St::rank(&e));
                assert(edge_hash::<V, E, A, S, St, Hs>(hs, e, lg, count, lone, bound)
                    == walk_hash::<V, E, A, S, St, Hs>(hs, t, lg, count, St::rank(&e)));
            }
        }
    }
}

/// Hashing depends on the trie's contents, not on which edges were sealed
/// before: for a trie whose sealed edges fit their positions (see
/// [`hashes_fit`]: as after a hash, see [`lemma_correct_hashes_fit`], and
/// also once the only sealed child of a sibling-sensitive node has gained or
/// lost siblings, or other sealed children have gained or lost siblings
/// without changing between the only-child and sibling forms), under a
/// scheme that stores values as written,
/// sibling-sensitive or not, the hash equals the content hash, which
/// descends into every edge as a fresh build would.
pub proof fn lemma_hash_is_content_hash<
    V,
    E,
    A: Arity,
    S: ChildStore<A, E>,
    St: EdgeStore<V, E, A, S>,
    Hs: TrieHasher<V, A, Hash = St::Hash>,
>(hs: Hs, root: Node<V, E, A, S>)
    requires
        forall|l: Seq<A::Index>, p: Seq<A::Index>, c: Seq<(A::Index, Hs::Hash)>, v: V|
            #[trigger] hs.rewrite(l, p, c, v) == v,
        hashes_fit::<V, E, A, S, St, Hs>(hs, root, Seq::empty(), true),
        ranked::<V, E, A, S, St>(
            root,
            max_rank::<V, E, A, S, St>(root.children_view().edges()) + 1,
        ),
    ensures
        trie_hash::<V, E, A, S, St, Hs>(hs, root) == content_hash::<V, E, A, S, St, Hs>(
            hs,
            root,
            Seq::empty(),
            0,
            max_rank::<V, E, A, S, St>(root.children_view().edges()) + 1,
        ),
{
    lemma_walk_is_content::<V, E, A, S, St, Hs>(
        hs,
        root,
        Seq::empty(),
        0,
        max_rank::<V, E, A, S, St>(root.children_view().edges()) + 1,
    );
}

} // verus!
