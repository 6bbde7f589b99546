use std::cell::Cell;
use std::convert::Infallible;

use arity::arity::Arity16;
use arity::children::{ChildMap, Packed};
use arity::hash::{hash, hash_sealed_node, HashInput, TrieHasher};
use arity::niche::{Niche, U4};
use arity::node::Node;
use arity::ops::get;
use arity::packed::PackedArray;
use arity::path::Path;
use arity::store::{EdgeStore, InMemory, MemEdge};
use vstd::prelude::*;

type E = MemEdge<u32, Arity16, Packed, u64>;
type N = Node<u32, E, Arity16, Packed>;
type St = InMemory<u64>;

fn u4(v: u8) -> U4 {
    U4::new_masked(v)
}

fn p(bytes: &[u8]) -> Path<Arity16> {
    Path::try_from_bytes(bytes).expect("in range")
}

/// A 64-bit FNV-1a hasher over everything in the input. With
/// `sensitive_depth`, children of a node at that full-path length hash in a
/// distinct lone form when they have no siblings. With `rewrite_depth`, a
/// node at that full-path length has its value replaced by a digest of its
/// children's hashes before hashing.
struct Fnv {
    seed: u64,
    sensitive_depth: Option<usize>,
    rewrite_depth: Option<usize>,
}

impl Fnv {
    fn feed(h: &mut u64, bytes: &[u8]) {
        for b in bytes {
            *h ^= u64::from(*b);
            *h = h.wrapping_mul(0x0100_0000_01b3);
        }
    }

    fn digest(children: &[(U4, &u64)]) -> u64 {
        let mut h = 0x9e37_79b9_7f4a_7c15;
        for (i, child) in children {
            Self::feed(&mut h, &[i.as_u8()]);
            Self::feed(&mut h, &child.to_le_bytes());
        }
        h
    }
}

// The specification functions and the lemma are stubs: only the verifier
// reads them, and this test hasher is not verified.
impl TrieHasher<u32, Arity16> for Fnv {
    type Hash = u64;

    fn node_hash(
        &self,
        _leading_path: Seq<U4>,
        _partial_path: Seq<U4>,
        _value: Option<u32>,
        _siblings: nat,
        _children: Seq<(U4, u64)>,
    ) -> u64 {
        self.seed
    }

    fn sensitive(&self, _leading_path: Seq<U4>, _partial_path: Seq<U4>) -> bool {
        false
    }

    fn lemma_sibling_forms(
        &self,
        _leading_path: Seq<U4>,
        _partial_path: Seq<U4>,
        _index: U4,
        _child_path: Seq<U4>,
        _value: Option<u32>,
        _children: Seq<(U4, u64)>,
        _a: nat,
        _b: nat,
    ) {
    }

    fn rewrite(
        &self,
        _leading_path: Seq<U4>,
        _partial_path: Seq<U4>,
        _children: Seq<(U4, u64)>,
        value: u32,
    ) -> u32 {
        value
    }

    fn hash_node(&self, input: HashInput<'_, u32, Arity16, u64>) -> u64 {
        let mut h = self.seed;
        Self::feed(&mut h, &U4::as_u8_slice(input.leading_path));
        Self::feed(&mut h, &[0xff]);
        Self::feed(&mut h, &U4::as_u8_slice(input.partial_path));
        Self::feed(&mut h, &[0xff]);
        match input.value {
            Some(v) => Self::feed(&mut h, &v.to_le_bytes()),
            None => Self::feed(&mut h, &[0xfe]),
        }
        let lone = self.sensitive_depth == Some(input.leading_path.len().wrapping_sub(1))
            && input.siblings == 1;
        Self::feed(&mut h, &[u8::from(lone)]);
        Self::feed(&mut h, &Self::digest(&input.children).to_le_bytes());
        h
    }

    fn sibling_sensitive(&self, leading_path: &[U4], partial_path: &[U4]) -> bool {
        self.sensitive_depth == Some(leading_path.len() + partial_path.len())
    }

    fn update_value(
        &self,
        leading_path: &[U4],
        partial_path: &[U4],
        children: Vec<(U4, &u64)>,
        value: &mut u32,
    ) {
        if self.rewrite_depth == Some(leading_path.len() + partial_path.len()) {
            *value = u32::try_from(Self::digest(&children) & u64::from(u32::MAX)).expect("masked");
        }
    }
}

const PLAIN: Fnv = Fnv { seed: 0xcbf2_9ce4_8422_2325, sensitive_depth: None, rewrite_depth: None };
const SENSITIVE: Fnv = Fnv { sensitive_depth: Some(1), ..PLAIN };
const REWRITING: Fnv = Fnv { rewrite_depth: Some(1), ..PLAIN };

/// An in-memory store whose `fail_read_at`-th read and whose
/// `fail_materialize_at`-th materialize fail.
struct Failing {
    inner: St,
    reads: Cell<usize>,
    fail_read_at: usize,
    materializes: usize,
    fail_materialize_at: usize,
}

impl Failing {
    fn new(inner: St, fail_read_at: usize, fail_materialize_at: usize) -> Self {
        Failing { inner, reads: Cell::new(0), fail_read_at, materializes: 0, fail_materialize_at }
    }
}

// The specification functions delegate to the in-memory store's; only the
// verifier reads them, and this test store is not verified.
impl EdgeStore<u32, E, Arity16, Packed> for Failing {
    type Hash = u64;
    type Error = &'static str;

    fn target(edge: &E) -> N {
        <St as EdgeStore<u32, E, Arity16, Packed>>::target(edge)
    }

    fn sealed(edge: &E) -> Option<u64> {
        <St as EdgeStore<u32, E, Arity16, Packed>>::sealed(edge)
    }

    fn rank(edge: &E) -> nat {
        <St as EdgeStore<u32, E, Arity16, Packed>>::rank(edge)
    }

    fn cannot_fail() -> bool {
        false
    }

    fn read<'e>(&'e self, edge: &'e E) -> Result<&'e N, &'static str> {
        self.reads.set(self.reads.get() + 1);
        if self.reads.get() == self.fail_read_at {
            return Err("read");
        }
        self.inner.read(edge).map_err(|e: Infallible| match e {})
    }

    fn inline(&mut self, node: N) -> E {
        self.inner.inline(node)
    }

    fn into_inline(edge: E) -> Result<N, E> {
        <St as EdgeStore<u32, E, Arity16, Packed>>::into_inline(edge)
    }

    fn materialize(&mut self, edge: &mut E) -> Result<(), &'static str> {
        self.materializes += 1;
        if self.materializes == self.fail_materialize_at {
            return Err("materialize");
        }
        self.inner.materialize(edge).map_err(|e: Infallible| match e {})
    }

    fn seal(&mut self, edge: &mut E, hash: u64) {
        self.inner.seal(edge, hash);
    }

    fn hash(edge: &E) -> Option<&u64> {
        <St as EdgeStore<u32, E, Arity16, Packed>>::hash(edge)
    }
}

/// The trie of a root leaf.
fn leaf_trie(key: &[u8], value: u32) -> (N, St) {
    (N::leaf(p(key), value), St::default())
}

/// `[1, 2, 3] = 3, [1, 2, 4] = 4, [1, 2, 4, 5] = 5, [1, 7] = 7, [8] = 8`,
/// path-compressed.
fn keys_trie() -> (N, St) {
    let mut store = St::default();
    let mut four = N::new(Path::new(), Some(4), PackedArray::default());
    four.children_mut().insert(u4(5), store.inline(N::leaf(Path::new(), 5)));
    let mut two = N::new(Path::new(), None, PackedArray::default());
    two.children_mut().insert(u4(3), store.inline(N::leaf(Path::new(), 3)));
    two.children_mut().insert(u4(4), store.inline(four));
    let mut one = N::new(Path::new(), None, PackedArray::default());
    one.children_mut().insert(u4(2), store.inline(two));
    one.children_mut().insert(u4(7), store.inline(N::leaf(Path::new(), 7)));
    let mut root = N::new(Path::new(), None, PackedArray::default());
    root.children_mut().insert(u4(1), store.inline(one));
    root.children_mut().insert(u4(8), store.inline(N::leaf(Path::new(), 8)));
    (root, store)
}

/// `[5] = 1` with the children `(index, value)`, each a leaf.
fn five_trie(children: &[(u8, u32)]) -> (N, St) {
    let mut store = St::default();
    let mut root = N::new(p(&[5]), Some(1), PackedArray::default());
    for (i, v) in children {
        root.children_mut().insert(u4(*i), store.inline(N::leaf(Path::new(), *v)));
    }
    (root, store)
}

fn fresh_hash((mut root, mut store): (N, St), hasher: &Fnv) -> u64 {
    hash(&mut root, &mut store, hasher).expect("infallible")
}

fn sealed_edges(node: &N, store: &St) -> (usize, usize) {
    let mut stack = vec![node];
    let (mut sealed, mut inline) = (0, 0);
    while let Some(n) = stack.pop() {
        for (_, edge) in n.children().iter_present() {
            if <St as EdgeStore<u32, E, Arity16, Packed>>::hash(edge).is_some() {
                sealed += 1;
            } else {
                inline += 1;
            }
            stack.push(store.read(edge).expect("infallible"));
        }
    }
    (sealed, inline)
}

#[test]
fn hash_seals_every_edge_and_is_stable() {
    let (mut root, mut store) = keys_trie();
    let first = hash(&mut root, &mut store, &PLAIN).expect("infallible");
    assert_eq!(sealed_edges(&root, &store), (7, 0));
    assert_eq!(hash(&mut root, &mut store, &PLAIN).expect("infallible"), first);
}

#[test]
fn hash_of_a_root_leaf_covers_its_path_and_value() {
    let a = fresh_hash(leaf_trie(&[1, 2], 5), &PLAIN);
    let b = fresh_hash(leaf_trie(&[1, 3], 5), &PLAIN);
    let c = fresh_hash(leaf_trie(&[1, 2], 6), &PLAIN);
    assert_ne!(a, b);
    assert_ne!(a, c);
}

#[test]
fn different_seeds_give_different_hashes() {
    let other = Fnv { seed: 1, ..PLAIN };
    assert_ne!(fresh_hash(keys_trie(), &PLAIN), fresh_hash(keys_trie(), &other));
}

#[test]
fn lone_and_peer_forms_differ_under_a_sensitive_hasher() {
    let lone = fresh_hash(five_trie(&[(1, 2)]), &SENSITIVE);
    let plain = fresh_hash(five_trie(&[(1, 2)]), &PLAIN);
    assert_ne!(lone, plain);
    let peers = fresh_hash(five_trie(&[(1, 2), (2, 3)]), &SENSITIVE);
    let peers_plain = fresh_hash(five_trie(&[(1, 2), (2, 3)]), &PLAIN);
    assert_eq!(peers, peers_plain);
}

#[test]
fn a_sealed_lone_child_is_rehashed_when_it_gains_or_loses_a_sibling() {
    let (mut root, mut store) = five_trie(&[(1, 2)]);
    hash(&mut root, &mut store, &SENSITIVE).expect("infallible");
    root.children_mut().insert(u4(2), store.inline(N::leaf(Path::new(), 3)));
    assert_eq!(
        hash(&mut root, &mut store, &SENSITIVE).expect("infallible"),
        fresh_hash(five_trie(&[(1, 2), (2, 3)]), &SENSITIVE)
    );
    root.children_mut().remove(u4(2));
    assert_eq!(
        hash(&mut root, &mut store, &SENSITIVE).expect("infallible"),
        fresh_hash(five_trie(&[(1, 2)]), &SENSITIVE)
    );
    root.children_mut().insert(u4(3), store.inline(N::leaf(Path::new(), 4)));
    root.children_mut().insert(u4(4), store.inline(N::leaf(Path::new(), 5)));
    assert_eq!(
        hash(&mut root, &mut store, &SENSITIVE).expect("infallible"),
        fresh_hash(five_trie(&[(1, 2), (3, 4), (4, 5)]), &SENSITIVE)
    );
}

#[test]
fn hash_sealed_node_matches_the_walk_and_rejects_inline_children() {
    let (mut root, mut store) = keys_trie();
    assert!(hash_sealed_node::<_, _, _, _, St, _>(&root, &[], 0, &PLAIN).is_none());
    let walked = hash(&mut root, &mut store, &PLAIN).expect("infallible");
    assert_eq!(hash_sealed_node::<_, _, _, _, St, _>(&root, &[], 0, &PLAIN), Some(walked));
    let leaf = N::leaf(p(&[9]), 9);
    assert_eq!(
        hash_sealed_node::<_, _, _, _, St, _>(&leaf, &[u4(1)], 2, &PLAIN),
        Some(PLAIN.hash_node(HashInput {
            leading_path: &[u4(1)],
            partial_path: &[u4(9)],
            value: Some(&9),
            siblings: 2,
            children: Vec::new(),
        }))
    );
}

#[test]
fn hash_sealed_node_covers_sealed_children_ascending() {
    let mut store = St::default();
    let mut node = N::new(p(&[5]), None, PackedArray::default());
    let mut a = store.inline(N::leaf(Path::new(), 2));
    let mut b = store.inline(N::leaf(Path::new(), 3));
    store.seal(&mut a, 0xa);
    store.seal(&mut b, 0xb);
    node.children_mut().insert(u4(7), b);
    node.children_mut().insert(u4(2), a);
    let got = hash_sealed_node::<_, _, _, _, St, _>(&node, &[], 0, &PLAIN);
    let (ha, hb) = (0xau64, 0xbu64);
    let expected = PLAIN.hash_node(HashInput {
        leading_path: &[],
        partial_path: &[u4(5)],
        value: None,
        siblings: 0,
        children: vec![(u4(2), &ha), (u4(7), &hb)],
    });
    assert_eq!(got, Some(expected));
    let other = Fnv { seed: 1, ..PLAIN };
    assert_ne!(hash_sealed_node::<_, _, _, _, St, _>(&node, &[], 0, &other), got);
    assert!(!PLAIN.sibling_sensitive(&[], &[u4(5)]));
}

#[test]
fn update_value_rewrites_the_stored_value_at_hash_time() {
    let (mut root, mut store) = five_trie(&[(1, 2), (2, 3)]);
    assert_eq!(get(Some(&root), &store, p(&[5]).as_slice()).expect("infallible"), Some(1));
    let h = hash(&mut root, &mut store, &REWRITING).expect("infallible");
    let rewritten = get(Some(&root), &store, p(&[5]).as_slice()).expect("infallible");
    assert_ne!(rewritten, Some(1));
    assert_ne!(h, fresh_hash(five_trie(&[(1, 2), (2, 3)]), &PLAIN));

    // The rewrite is a function of the children: a trie with the rewritten
    // value stored up front hashes and reads the same.
    let (mut again, mut store2) = five_trie(&[(1, 2), (2, 3)]);
    again.set_value(rewritten);
    assert_eq!(hash(&mut again, &mut store2, &REWRITING).expect("infallible"), h);
    assert_eq!(get(Some(&again), &store2, p(&[5]).as_slice()).expect("infallible"), rewritten);

    // Changing the children changes the value on the next hash.
    root.children_mut().insert(u4(3), store.inline(N::leaf(Path::new(), 4)));
    hash(&mut root, &mut store, &REWRITING).expect("infallible");
    assert_ne!(get(Some(&root), &store, p(&[5]).as_slice()).expect("infallible"), rewritten);
}

#[test]
fn a_failed_read_during_a_rehash_is_recoverable() {
    let (mut root, mut store) = five_trie(&[(1, 2)]);
    hash(&mut root, &mut store, &SENSITIVE).expect("infallible");
    root.children_mut().insert(u4(2), store.inline(N::leaf(Path::new(), 3)));
    let mut failing = Failing::new(store, 1, 0);
    assert_eq!(hash(&mut root, &mut failing, &SENSITIVE), Err("read"));
    assert_eq!(
        hash(&mut root, &mut failing.inner, &SENSITIVE).expect("infallible"),
        fresh_hash(five_trie(&[(1, 2), (2, 3)]), &SENSITIVE)
    );
}

#[test]
fn a_sealed_child_with_inline_descendants_is_materialized_and_rehashed() {
    // Root [5] = 1 with one child 1 -> node [] = 2, sealed, whose own child
    // 7 -> leaf [] = 9 is inline.
    let mut store = St::default();
    let mut mid = N::new(Path::new(), Some(2), PackedArray::default());
    mid.children_mut().insert(u4(7), store.inline(N::leaf(Path::new(), 9)));
    let mut edge = store.inline(mid);
    store.seal(&mut edge, 0xdead);
    let mut root = N::new(p(&[5]), Some(1), PackedArray::default());
    root.children_mut().insert(u4(1), edge);

    let mut failing = Failing::new(store, 0, 1);
    assert_eq!(hash(&mut root, &mut failing, &SENSITIVE), Err("materialize"));

    let mut fresh_store = St::default();
    let mut fresh_mid = N::new(Path::new(), Some(2), PackedArray::default());
    fresh_mid.children_mut().insert(u4(7), fresh_store.inline(N::leaf(Path::new(), 9)));
    let mut fresh_root = N::new(p(&[5]), Some(1), PackedArray::default());
    fresh_root.children_mut().insert(u4(1), fresh_store.inline(fresh_mid));
    assert_eq!(
        hash(&mut root, &mut failing.inner, &SENSITIVE).expect("infallible"),
        fresh_hash((fresh_root, fresh_store), &SENSITIVE)
    );
}

#[test]
fn hash_of_a_valueless_root_covers_its_children_ascending() {
    let mut store = St::default();
    let mut root = N::new(Path::new(), None, PackedArray::default());
    root.children_mut().insert(u4(9), store.inline(N::leaf(Path::new(), 9)));
    root.children_mut().insert(u4(3), store.inline(N::leaf(p(&[1]), 3)));
    let h = hash(&mut root, &mut store, &PLAIN).expect("infallible");
    let h3 = PLAIN.hash_node(HashInput {
        leading_path: &[u4(3)],
        partial_path: &[u4(1)],
        value: Some(&3),
        siblings: 2,
        children: Vec::new(),
    });
    let h9 = PLAIN.hash_node(HashInput {
        leading_path: &[u4(9)],
        partial_path: &[],
        value: Some(&9),
        siblings: 2,
        children: Vec::new(),
    });
    let expected = PLAIN.hash_node(HashInput {
        leading_path: &[],
        partial_path: &[],
        value: None,
        siblings: 0,
        children: vec![(u4(3), &h3), (u4(9), &h9)],
    });
    assert_eq!(h, expected);
}

#[test]
fn hash_keeps_every_key_and_value_under_a_plain_hasher() {
    let (mut root, mut store) = keys_trie();
    let before: Vec<(Vec<u8>, u32)> = arity::iter::iter(Some(&root), &store, None)
        .0
        .into_iter()
        .map(|(k, v)| (k.as_bytes(), *v))
        .collect();
    hash(&mut root, &mut store, &PLAIN).expect("infallible");
    let after: Vec<(Vec<u8>, u32)> = arity::iter::iter(Some(&root), &store, None)
        .0
        .into_iter()
        .map(|(k, v)| (k.as_bytes(), *v))
        .collect();
    assert_eq!(before, after);
    assert_eq!(after.len(), 5);
}

#[test]
fn a_failed_hash_keeps_every_key() {
    let (mut root, mut store) = five_trie(&[(1, 2)]);
    hash(&mut root, &mut store, &SENSITIVE).expect("infallible");
    root.children_mut().insert(u4(2), store.inline(N::leaf(Path::new(), 3)));
    let mut failing = Failing::new(store, 1, 0);
    assert_eq!(hash(&mut root, &mut failing, &SENSITIVE), Err("read"));
    let keys: Vec<Vec<u8>> = arity::iter::iter(Some(&root), &failing.inner, None)
        .0
        .into_iter()
        .map(|(k, _)| k.as_bytes())
        .collect();
    assert_eq!(keys, vec![vec![5], vec![5, 1], vec![5, 2]]);
}

/// Takes the node behind the child at `i` of `parent` out of its edge,
/// turning a sealed edge inline first, as a mutation along a path does.
fn take_child(parent: &mut N, store: &mut St, i: u8) -> N {
    let mut edge = parent.children_mut().remove(u4(i)).expect("present");
    store.materialize(&mut edge).expect("infallible");
    <St as EdgeStore<u32, E, Arity16, Packed>>::into_inline(edge).ok().expect("inline")
}

#[test]
fn hash_after_interleaved_mutation_equals_a_fresh_build() {
    // [1, 2, 3] = 3 and [1, 2, 4] = 4, hashed.
    let mut store = St::default();
    let mut root = N::new(p(&[1, 2]), None, PackedArray::default());
    root.children_mut().insert(u4(3), store.inline(N::leaf(Path::new(), 3)));
    root.children_mut().insert(u4(4), store.inline(N::leaf(Path::new(), 4)));
    hash(&mut root, &mut store, &PLAIN).expect("infallible");

    // Then [1, 2, 4, 5] = 5, [1, 7] = 7 and [8] = 8.
    let mut four = take_child(&mut root, &mut store, 4);
    four.children_mut().insert(u4(5), store.inline(N::leaf(Path::new(), 5)));
    root.children_mut().insert(u4(4), store.inline(four));
    root.set_partial_path(Path::new());
    let mut one = N::new(Path::new(), None, PackedArray::default());
    one.children_mut().insert(u4(2), store.inline(root));
    one.children_mut().insert(u4(7), store.inline(N::leaf(Path::new(), 7)));
    let mut root = N::new(Path::new(), None, PackedArray::default());
    root.children_mut().insert(u4(1), store.inline(one));
    root.children_mut().insert(u4(8), store.inline(N::leaf(Path::new(), 8)));

    let (sealed, inline) = sealed_edges(&root, &store);
    assert!(sealed > 0 && inline > 0, "a mix of sealed and inline edges");
    assert_eq!(
        hash(&mut root, &mut store, &PLAIN).expect("infallible"),
        fresh_hash(keys_trie(), &PLAIN)
    );

    // Removing [1, 2, 4] merges the valueless [1, 2, 4] with its only child.
    let mut one = take_child(&mut root, &mut store, 1);
    let mut two = take_child(&mut one, &mut store, 2);
    take_child(&mut two, &mut store, 4);
    two.children_mut().insert(u4(4), store.inline(N::leaf(p(&[5]), 5)));
    one.children_mut().insert(u4(2), store.inline(two));
    root.children_mut().insert(u4(1), store.inline(one));

    let mut fresh_store = St::default();
    let mut two = N::new(Path::new(), None, PackedArray::default());
    two.children_mut().insert(u4(3), fresh_store.inline(N::leaf(Path::new(), 3)));
    two.children_mut().insert(u4(4), fresh_store.inline(N::leaf(p(&[5]), 5)));
    let mut one = N::new(Path::new(), None, PackedArray::default());
    one.children_mut().insert(u4(2), fresh_store.inline(two));
    one.children_mut().insert(u4(7), fresh_store.inline(N::leaf(Path::new(), 7)));
    let mut fresh = N::new(Path::new(), None, PackedArray::default());
    fresh.children_mut().insert(u4(1), fresh_store.inline(one));
    fresh.children_mut().insert(u4(8), fresh_store.inline(N::leaf(Path::new(), 8)));
    assert_eq!(
        hash(&mut root, &mut store, &PLAIN).expect("infallible"),
        fresh_hash((fresh, fresh_store), &PLAIN)
    );
}

#[test]
fn hash_rewrites_values_below_the_root_once() {
    let deep = Fnv { rewrite_depth: Some(3), ..PLAIN };
    let (mut root, mut store) = keys_trie();
    let at = |root: &N, store: &St, key: &[u8]| {
        get(Some(root), store, p(key).as_slice()).expect("infallible")
    };
    hash(&mut root, &mut store, &deep).expect("infallible");
    let leaf_digest = u32::try_from(Fnv::digest(&[]) & u64::from(u32::MAX)).expect("masked");
    let three = at(&root, &store, &[1, 2, 3]);
    let four = at(&root, &store, &[1, 2, 4]);
    assert_eq!(three, Some(leaf_digest));
    assert!(four.is_some());
    assert_ne!(four, Some(4));
    assert_eq!(at(&root, &store, &[1, 2, 4, 5]), Some(5));
    assert_eq!(at(&root, &store, &[1, 7]), Some(7));
    assert_eq!(at(&root, &store, &[8]), Some(8));

    // A second hash trusts the sealed edges and rewrites nothing below them.
    hash(&mut root, &mut store, &deep).expect("infallible");
    assert_eq!(at(&root, &store, &[1, 2, 3]), three);
    assert_eq!(at(&root, &store, &[1, 2, 4]), four);
}
