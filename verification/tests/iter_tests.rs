use std::cell::Cell;
use std::collections::BTreeMap;
use std::convert::Infallible;

use arity::arity::Arity16;
use arity::children::{ChildMap, Packed};
use arity::iter::iter;
use arity::niche::U4;
use arity::node::Node;
use arity::packed::PackedArray;
use arity::path::Path;
use arity::store::{EdgeStore, InMemory, MemEdge};
use vstd::prelude::*;

type E = MemEdge<u32, Arity16, Packed, u64>;
type N = Node<u32, E, Arity16, Packed>;
type St = InMemory<u64>;

fn p(bytes: &[u8]) -> Path<Arity16> {
    Path::try_from_bytes(bytes).expect("in range")
}

fn u4(v: u8) -> U4 {
    U4::new_masked(v)
}

const KEYS: &[(&[u8], u32)] = &[
    (&[1, 2, 3], 3),
    (&[1, 2, 4], 4),
    (&[1, 2, 4, 5], 5),
    (&[1, 7], 7),
    (&[8], 8),
    (&[8, 0, 0, 0], 800),
];

/// The path-compressed trie of `KEYS`, and its model.
fn build() -> (N, St, BTreeMap<Vec<u8>, u32>) {
    let mut store = St::default();
    let mut four = N::new(Path::new(), Some(4), PackedArray::default());
    four.children_mut().insert(u4(5), store.inline(N::leaf(Path::new(), 5)));
    let mut two = N::new(Path::new(), None, PackedArray::default());
    two.children_mut().insert(u4(3), store.inline(N::leaf(Path::new(), 3)));
    two.children_mut().insert(u4(4), store.inline(four));
    let mut one = N::new(Path::new(), None, PackedArray::default());
    one.children_mut().insert(u4(2), store.inline(two));
    one.children_mut().insert(u4(7), store.inline(N::leaf(Path::new(), 7)));
    let mut eight = N::new(Path::new(), Some(8), PackedArray::default());
    eight.children_mut().insert(u4(0), store.inline(N::leaf(p(&[0, 0]), 800)));
    let mut root = N::new(Path::new(), None, PackedArray::default());
    root.children_mut().insert(u4(1), store.inline(one));
    root.children_mut().insert(u4(8), store.inline(eight));
    let mut model = BTreeMap::new();
    for (key, value) in KEYS {
        model.insert(key.to_vec(), *value);
    }
    (root, store, model)
}

fn collect(root: Option<&N>, store: &St, start: Option<&[u8]>) -> Vec<(Vec<u8>, u32)> {
    let start = start.map(p);
    let (items, error) = iter(root, store, start.as_ref().map(|s| s.as_slice()));
    assert!(error.is_none());
    items.into_iter().map(|(path, value)| (path.as_bytes(), *value)).collect()
}

/// The items as path bytes and values, and the error.
fn bytes<E>((items, error): (Vec<(Path<Arity16>, &u32)>, Option<E>)) -> (Vec<(Vec<u8>, u32)>, Option<E>) {
    (items.into_iter().map(|(k, v)| (k.as_bytes(), *v)).collect(), error)
}

/// An in-memory store whose `fail_read_at`-th read fails.
struct Failing {
    inner: St,
    reads: Cell<usize>,
    fail_read_at: usize,
}

// The specification functions delegate to the in-memory store's; only the
// verifier reads them, and this test store is not verified.
impl EdgeStore<u32, E, Arity16, Packed> for Failing {
    type Hash = u64;
    type Error = &'static str;

    fn target(edge: &E) -> N {
        <St as EdgeStore<u32, E, Arity16, Packed>>::target(edge)
    }

    fn sealed(edge: &E) -> Option<u64> {
        <St as EdgeStore<u32, E, Arity16, Packed>>::sealed(edge)
    }

    fn rank(edge: &E) -> nat {
        <St as EdgeStore<u32, E, Arity16, Packed>>::rank(edge)
    }

    fn cannot_fail() -> bool {
        false
    }

    fn read<'e>(&'e self, edge: &'e E) -> Result<&'e N, &'static str> {
        self.reads.set(self.reads.get() + 1);
        if self.reads.get() == self.fail_read_at {
            return Err("read");
        }
        self.inner.read(edge).map_err(|e: Infallible| match e {})
    }

    fn inline(&mut self, node: N) -> E {
        self.inner.inline(node)
    }

    fn into_inline(edge: E) -> Result<N, E> {
        <St as EdgeStore<u32, E, Arity16, Packed>>::into_inline(edge)
    }

    fn materialize(&mut self, edge: &mut E) -> Result<(), &'static str> {
        self.inner.materialize(edge).map_err(|e: Infallible| match e {})
    }

    fn seal(&mut self, edge: &mut E, hash: u64) {
        self.inner.seal(edge, hash);
    }

    fn hash(edge: &E) -> Option<&u64> {
        <St as EdgeStore<u32, E, Arity16, Packed>>::hash(edge)
    }
}

#[test]
fn iter_yields_every_key_ascending() {
    let (root, store, model) = build();
    let expected: Vec<(Vec<u8>, u32)> = model.into_iter().collect();
    assert_eq!(collect(Some(&root), &store, None), expected);
}

#[test]
fn iter_over_the_empty_trie_yields_nothing() {
    let store = St::default();
    assert_eq!(collect(None, &store, None), []);
    assert_eq!(collect(None, &store, Some(&[1])), []);
}

#[test]
fn iter_from_a_start_matches_the_model_range() {
    let (root, store, model) = build();
    for start in [
        &[][..],
        &[0],
        &[1],
        &[1, 2],
        &[1, 2, 3],
        &[1, 2, 3, 0],
        &[1, 2, 4],
        &[1, 2, 4, 4],
        &[1, 2, 4, 5, 0],
        &[1, 3],
        &[1, 7, 7],
        &[7],
        &[8],
        &[8, 0],
        &[8, 0, 0, 0],
        &[8, 0, 0, 1],
        &[9],
        &[15, 15, 15],
    ] {
        let expected: Vec<(Vec<u8>, u32)> =
            model.range(start.to_vec()..).map(|(k, v)| (k.clone(), *v)).collect();
        assert_eq!(collect(Some(&root), &store, Some(start)), expected, "start {start:?}");
    }
}

#[test]
fn iter_yields_a_store_error_once_and_then_ends() {
    let (root, store, _) = build();
    // Reads 1 to 3 reach the first leaf; the fourth is the next node.
    let failing = Failing { inner: store, reads: Cell::new(0), fail_read_at: 4 };
    let (items, error) = bytes(iter(Some(&root), &failing, None));
    assert_eq!(items, vec![(vec![1, 2, 3], 3)]);
    assert_eq!(error, Some("read"));
}

#[test]
fn iter_from_a_start_reads_no_subtree_before_it() {
    // Without a start the third read is the leaf [1, 2, 3]; from [8] only
    // the node [8] and its leaf are read.
    let (root, store, _) = build();
    let failing = Failing { inner: store, reads: Cell::new(0), fail_read_at: 3 };
    let (items, error) = bytes(iter(Some(&root), &failing, None));
    assert!(items.is_empty());
    assert_eq!(error, Some("read"));
    let (root, store, _) = build();
    let failing = Failing { inner: store, reads: Cell::new(0), fail_read_at: 3 };
    let (found, error) = bytes(iter(Some(&root), &failing, Some(p(&[8]).as_slice())));
    assert!(error.is_none());
    assert_eq!(found, vec![(vec![8], 8), (vec![8, 0, 0, 0], 800)]);
    let (root, store, _) = build();
    let failing = Failing { inner: store, reads: Cell::new(0), fail_read_at: 2 };
    let (found, error) = bytes(iter(Some(&root), &failing, Some(p(&[8, 1]).as_slice())));
    assert!(error.is_none());
    assert!(found.is_empty());
}

#[test]
fn iter_yields_a_valued_root_first() {
    let mut store = St::default();
    let mut root = N::new(p(&[3]), Some(30), PackedArray::default());
    root.children_mut().insert(u4(9), store.inline(N::leaf(Path::new(), 39)));
    root.children_mut().insert(u4(1), store.inline(N::leaf(p(&[2]), 312)));
    assert_eq!(
        collect(Some(&root), &store, None),
        vec![(vec![3], 30), (vec![3, 1, 2], 312), (vec![3, 9], 39)]
    );
    assert_eq!(collect(Some(&root), &store, Some(&[3, 1, 2, 0])), vec![(vec![3, 9], 39)]);
    assert_eq!(collect(Some(&root), &store, Some(&[2, 15])), collect(Some(&root), &store, None));
    assert_eq!(collect(Some(&root), &store, Some(&[4])), []);
}
