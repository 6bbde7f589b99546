use std::cell::Cell;
use std::convert::Infallible;

use arity::arity::Arity16;
use arity::children::{ChildMap, Packed};
use arity::niche::U4;
use arity::node::Node;
use arity::packed::PackedArray;
use arity::path::Path;
use arity::store::{EdgeStore, InMemory, MemEdge};
use arity::validate::{node_violation, validate, ValidateError, Violation, ViolationKind};
use vstd::prelude::*;

type E = MemEdge<u32, Arity16, Packed, u64>;
type N = Node<u32, E, Arity16, Packed>;
type St = InMemory<u64>;

fn p(bytes: &[u8]) -> Path<Arity16> {
    Path::try_from_bytes(bytes).expect("in range")
}

fn u4(v: u8) -> U4 {
    U4::new_masked(v)
}

/// An in-memory store whose `fail_read_at`-th read fails.
struct Failing {
    inner: St,
    reads: Cell<usize>,
    fail_read_at: usize,
}

impl Failing {
    fn new(inner: St, fail_read_at: usize) -> Self {
        Failing { inner, reads: Cell::new(0), fail_read_at }
    }
}

// The specification functions delegate to the in-memory store's; only the
// verifier reads them, and this test store is not verified.
impl EdgeStore<u32, E, Arity16, Packed> for Failing {
    type Hash = u64;
    type Error = &'static str;

    fn target(edge: &E) -> N {
        <St as EdgeStore<u32, E, Arity16, Packed>>::target(edge)
    }

    fn sealed(edge: &E) -> Option<u64> {
        <St as EdgeStore<u32, E, Arity16, Packed>>::sealed(edge)
    }

    fn rank(edge: &E) -> nat {
        <St as EdgeStore<u32, E, Arity16, Packed>>::rank(edge)
    }

    fn cannot_fail() -> bool {
        false
    }

    fn read<'e>(&'e self, edge: &'e E) -> Result<&'e N, &'static str> {
        self.reads.set(self.reads.get() + 1);
        if self.reads.get() == self.fail_read_at {
            return Err("read");
        }
        self.inner.read(edge).map_err(|e: Infallible| match e {})
    }

    fn inline(&mut self, node: N) -> E {
        self.inner.inline(node)
    }

    fn into_inline(edge: E) -> Result<N, E> {
        <St as EdgeStore<u32, E, Arity16, Packed>>::into_inline(edge)
    }

    fn materialize(&mut self, edge: &mut E) -> Result<(), &'static str> {
        self.inner.materialize(edge).map_err(|e: Infallible| match e {})
    }

    fn seal(&mut self, edge: &mut E, hash: u64) {
        self.inner.seal(edge, hash);
    }

    fn hash(edge: &E) -> Option<&u64> {
        <St as EdgeStore<u32, E, Arity16, Packed>>::hash(edge)
    }
}

#[test]
fn a_valueless_single_child_node_is_reported_with_its_full_path() {
    let mut store = St::default();
    let mut mid = N::new(p(&[3]), None, PackedArray::default());
    mid.children_mut().insert(u4(4), store.inline(N::leaf(Path::new(), 1)));
    let mut root = N::new(p(&[1]), Some(0), PackedArray::default());
    root.children_mut().insert(u4(2), store.inline(mid));
    root.children_mut().insert(u4(9), store.inline(N::leaf(Path::new(), 9)));
    let err = validate(Some(&root), &store).expect_err("invalid");
    assert!(matches!(
        err,
        ValidateError::Invalid(Violation { ref path, kind: ViolationKind::ValuelessSingleChild })
            if path.as_bytes() == [1, 2, 3]
    ));
}

#[test]
fn a_valueless_leaf_is_reported() {
    let mut store = St::default();
    let mut root = N::new(Path::new(), None, PackedArray::default());
    root.children_mut().insert(u4(2), store.inline(N::leaf(Path::new(), 1)));
    root.children_mut().insert(u4(5), store.inline(N::new(p(&[6]), None, PackedArray::default())));
    let err = validate(Some(&root), &store).expect_err("invalid");
    assert!(matches!(
        err,
        ValidateError::Invalid(Violation { ref path, kind: ViolationKind::ValuelessLeaf })
            if path.as_bytes() == [5, 6]
    ));
    let lone = N::new(Path::new(), None, PackedArray::default());
    assert!(matches!(
        validate(Some(&lone), &store),
        Err(ValidateError::Invalid(Violation { kind: ViolationKind::ValuelessLeaf, .. }))
    ));
}

#[test]
fn a_store_error_is_passed_through() {
    let mut store = St::default();
    let mut root = N::new(Path::new(), Some(0), PackedArray::default());
    root.children_mut().insert(u4(2), store.inline(N::leaf(Path::new(), 1)));
    let failing = Failing::new(store, 1);
    assert!(matches!(validate(Some(&root), &failing), Err(ValidateError::Store("read"))));
}

#[test]
fn an_empty_trie_and_a_well_formed_trie_are_valid() {
    let mut store = St::default();
    assert!(validate(None::<&N>, &store).is_ok());
    let mut root = N::new(p(&[1]), None, PackedArray::default());
    root.children_mut().insert(u4(2), store.inline(N::leaf(p(&[3]), 3)));
    root.children_mut().insert(u4(7), store.inline(N::leaf(Path::new(), 7)));
    assert!(validate(Some(&root), &store).is_ok());
}

#[test]
fn the_first_violation_in_pre_order_is_reported() {
    let mut store = St::default();
    let mut root = N::new(Path::new(), None, PackedArray::default());
    root.children_mut().insert(u4(1), store.inline(N::new(p(&[1]), None, PackedArray::default())));
    root.children_mut().insert(u4(2), store.inline(N::new(p(&[2]), None, PackedArray::default())));
    let err = validate(Some(&root), &store).expect_err("invalid");
    assert!(matches!(
        err,
        ValidateError::Invalid(Violation { ref path, kind: ViolationKind::ValuelessLeaf })
            if path.as_bytes() == [1, 1]
    ));
}

#[test]
fn node_violation_applies_the_rule_to_one_node() {
    let mut store = St::default();
    assert_eq!(node_violation(&N::leaf(Path::new(), 1)), None);
    assert_eq!(node_violation(&N::new(Path::new(), None, PackedArray::default())), Some(ViolationKind::ValuelessLeaf));
    let mut one = N::new(Path::new(), None, PackedArray::default());
    one.children_mut().insert(u4(0), store.inline(N::leaf(Path::new(), 1)));
    assert_eq!(node_violation(&one), Some(ViolationKind::ValuelessSingleChild));
    one.children_mut().insert(u4(1), store.inline(N::leaf(Path::new(), 2)));
    assert_eq!(node_violation(&one), None);
}

/// The tries that inserting `[1, 2, 3]`, `[1, 2, 4]`, `[1, 7]` and `[8]`,
/// then removing `[1, 2, 3]`, `[8]`, `[1, 7]` and `[1, 2, 4]`, passes
/// through, after each step.
fn settled_states(store: &mut St) -> Vec<Option<N>> {
    let mut states = vec![None, Some(N::leaf(p(&[1, 2, 3]), 3))];
    let mut s2 = N::new(p(&[1, 2]), None, PackedArray::default());
    s2.children_mut().insert(u4(3), store.inline(N::leaf(Path::new(), 3)));
    s2.children_mut().insert(u4(4), store.inline(N::leaf(Path::new(), 4)));
    states.push(Some(s2));
    let two = |store: &mut St| {
        let mut two = N::new(Path::new(), None, PackedArray::default());
        two.children_mut().insert(u4(3), store.inline(N::leaf(Path::new(), 3)));
        two.children_mut().insert(u4(4), store.inline(N::leaf(Path::new(), 4)));
        two
    };
    let mut s3 = N::new(p(&[1]), None, PackedArray::default());
    let t = two(store);
    s3.children_mut().insert(u4(2), store.inline(t));
    s3.children_mut().insert(u4(7), store.inline(N::leaf(Path::new(), 7)));
    states.push(Some(s3));
    let mut one = N::new(Path::new(), None, PackedArray::default());
    let t = two(store);
    one.children_mut().insert(u4(2), store.inline(t));
    one.children_mut().insert(u4(7), store.inline(N::leaf(Path::new(), 7)));
    let mut s4 = N::new(Path::new(), None, PackedArray::default());
    s4.children_mut().insert(u4(1), store.inline(one));
    s4.children_mut().insert(u4(8), store.inline(N::leaf(Path::new(), 8)));
    states.push(Some(s4));
    let mut one = N::new(Path::new(), None, PackedArray::default());
    one.children_mut().insert(u4(2), store.inline(N::leaf(p(&[4]), 4)));
    one.children_mut().insert(u4(7), store.inline(N::leaf(Path::new(), 7)));
    let mut s5 = N::new(Path::new(), None, PackedArray::default());
    s5.children_mut().insert(u4(1), store.inline(one));
    s5.children_mut().insert(u4(8), store.inline(N::leaf(Path::new(), 8)));
    states.push(Some(s5));
    let mut s6 = N::new(p(&[1]), None, PackedArray::default());
    s6.children_mut().insert(u4(2), store.inline(N::leaf(p(&[4]), 4)));
    s6.children_mut().insert(u4(7), store.inline(N::leaf(Path::new(), 7)));
    states.push(Some(s6));
    states.push(Some(N::leaf(p(&[1, 2, 4]), 4)));
    states.push(None);
    states
}

#[test]
fn settled_tries_are_valid() {
    let mut store = St::default();
    let states = settled_states(&mut store);
    assert_eq!(states.len(), 9);
    for state in &states {
        assert!(validate(state.as_ref(), &store).is_ok());
    }
    assert!(states.last().expect("final state").is_none());
}
