use arity::arity::Arity16;
use arity::children::{ChildMap, Packed};
use arity::logical::{fixed_from_slots, gapped_from_pairs, packed_from_pairs, PairsError};
use arity::niche::U4;
use arity::node::Node;
use arity::ops::{get, get_node};
use arity::packed::PackedArray;
use arity::path::Path;
use arity::repr::{generate_niche_repr, BitsOutOfRange};
use arity::store::{EdgeStore, InMemory, MemEdge};
use arity::{Arity256, FixedArray};

type N = Node<u32, MemEdge<u32, Arity16, Packed, u64>, Arity16, Packed>;
type St = InMemory<u64>;

fn p(bytes: &[u8]) -> Path<Arity16> {
    Path::try_from_bytes(bytes).expect("in range")
}

/// root [1,2] (no value) -> 3: leaf [4] = 34, 5: node [] = 5 -> 6: leaf []
/// = 56
fn sample() -> (N, St) {
    let mut store = St::default();
    let mut mid = N::new(Path::new(), Some(5), PackedArray::default());
    mid.children_mut().insert(U4::new_masked(6), store.inline(N::leaf(Path::new(), 56)));
    let mut root = N::new(p(&[1, 2]), None, PackedArray::default());
    root.children_mut().insert(U4::new_masked(3), store.inline(N::leaf(p(&[4]), 34)));
    root.children_mut().insert(U4::new_masked(5), store.inline(mid));
    (root, store)
}

fn lookup(root: &N, store: &St, key: &[u8]) -> (bool, Option<u32>) {
    get_node(Some(root), store, p(key).as_slice())
        .expect("infallible")
        .map_or((false, None), |n| (true, n.value().copied()))
}

#[test]
fn get_node_finds_valued_and_valueless_nodes() {
    let (root, store) = sample();
    assert_eq!(lookup(&root, &store, &[1, 2]), (true, None));
    assert_eq!(lookup(&root, &store, &[1, 2, 3, 4]), (true, Some(34)));
    assert_eq!(lookup(&root, &store, &[1, 2, 5]), (true, Some(5)));
    assert_eq!(lookup(&root, &store, &[1, 2, 5, 6]), (true, Some(56)));
}

#[test]
fn get_node_misses_inside_a_partial_path_and_past_a_leaf() {
    let (root, store) = sample();
    assert_eq!(lookup(&root, &store, &[1]), (false, None));
    assert_eq!(lookup(&root, &store, &[1, 9]), (false, None));
    assert_eq!(lookup(&root, &store, &[1, 2, 3]), (false, None));
    assert_eq!(lookup(&root, &store, &[1, 2, 3, 4, 0]), (false, None));
    assert_eq!(lookup(&root, &store, &[1, 2, 7]), (false, None));
    assert_eq!(lookup(&root, &store, &[]), (false, None));
}

#[test]
fn get_on_an_empty_trie_is_none() {
    let store = St::default();
    assert_eq!(get(None::<&N>, &store, p(&[1]).as_slice()).expect("infallible"), None);
}

#[test]
fn get_clones_the_value() {
    let (root, store) = sample();
    assert_eq!(get(Some(&root), &store, p(&[1, 2, 5, 6]).as_slice()).expect("infallible"), Some(56));
    assert_eq!(get(Some(&root), &store, p(&[1, 2]).as_slice()).expect("infallible"), None);
}

#[test]
fn lookup_of_a_deep_chain_does_not_recurse() {
    let depth = 2000;
    let mut store = St::default();
    let mut node = N::leaf(Path::new(), 7);
    for _ in 0..depth {
        let mut parent = N::new(Path::new(), None, PackedArray::default());
        parent.children_mut().insert(U4::new_masked(0), store.inline(node));
        node = parent;
    }
    let key = vec![U4::new_masked(0); depth];
    assert_eq!(get(Some(&node), &store, &key).expect("infallible"), Some(7));
    let mut rest = node;
    // Take the chain apart level by level so that dropping it does not recurse.
    while let Some((_, edge)) = rest.children_mut().take_only_child() {
        let (child, _) = edge.into_parts();
        rest = child;
    }
}

#[test]
fn inline_edges_are_readable_and_unhashed() {
    let mut store = St::default();
    let edge = store.inline(N::leaf(Path::new(), 1));
    assert_eq!(St::hash(&edge), None);
    assert_eq!(store.read(&edge).expect("infallible").value(), Some(&1));
}

#[test]
fn seal_then_materialize_round_trips_the_state() {
    let mut store = St::default();
    let mut edge = store.inline(N::leaf(Path::new(), 1));
    store.seal(&mut edge, 42);
    assert_eq!(St::hash(&edge), Some(&42));
    assert_eq!(store.read(&edge).expect("infallible").value(), Some(&1));
    store.seal(&mut edge, 43);
    assert_eq!(St::hash(&edge), Some(&43));
    let (node, hash) = edge.into_parts();
    assert_eq!(node.value(), Some(&1));
    assert_eq!(hash, Some(43));
}

#[test]
fn generate_niche_repr_lists_every_value_in_binary() {
    let text = generate_niche_repr(4).expect("valid");
    assert_eq!(
        text,
        "#[derive(Clone, Copy, Debug, PartialEq, Eq, PartialOrd, Ord, Hash, Default)]\n\
         enum Repr {\n    #[default]\n    _Ob00,\n    _Ob01,\n    _Ob10,\n    _Ob11,\n}\n"
    );
    let big = generate_niche_repr(64).expect("valid");
    assert!(big.contains("    _Ob000000,\n"));
    assert!(big.contains("    _Ob111111,\n"));
    assert_eq!(big.lines().count(), 3 + 64 + 1);
}

#[test]
fn generate_niche_repr_rejects_bad_widths() {
    for bits in [0u32, 1, 3, 6, 128, 256, u32::MAX] {
        assert_eq!(generate_niche_repr(bits), Err(BitsOutOfRange { bits }));
    }
}

#[test]
fn fixed_round_trip() {
    let a = FixedArray::<u8, Arity16>::from_fn(U4::as_u8);
    let slots: Vec<u8> = a.iter().into_iter().map(|(_, v)| *v).collect();
    let back = fixed_from_slots::<u8, Arity16>(slots).expect("sixteen slots");
    assert_eq!(a, back);
    assert!(fixed_from_slots::<u8, Arity16>(vec![1, 2, 3]).is_none());
}

#[test]
fn packed_logical_round_trip_and_validation() {
    let mut pk = PackedArray::<u16, Arity16>::new();
    pk.insert(U4::new_masked(2), 20);
    pk.insert(U4::new_masked(9), 90);
    let pairs: Vec<(usize, u16)> =
        pk.iter_present().into_iter().map(|(i, v)| (usize::from(i.as_u8()), *v)).collect();
    assert_eq!(pairs, vec![(2, 20), (9, 90)]);
    let back = packed_from_pairs::<u16, Arity16>(pairs).expect("valid");
    assert_eq!(pk, back);
    assert_eq!(
        packed_from_pairs::<u16, Arity16>(vec![(9, 90), (2, 20)]),
        Err(PairsError::NotAscending { position: 1, index: 2 })
    );
    assert_eq!(
        packed_from_pairs::<u16, Arity16>(vec![(2, 20), (2, 21)]),
        Err(PairsError::NotAscending { position: 1, index: 2 })
    );
    assert_eq!(
        packed_from_pairs::<u16, Arity16>(vec![(16, 1)]),
        Err(PairsError::IndexOutOfRange { position: 0, index: 16 })
    );
}

#[test]
fn packed_arity256_round_trip() {
    let mut pk = PackedArray::<u32, Arity256>::new();
    pk.insert(0, 1);
    pk.insert(255, 2);
    let pairs: Vec<(usize, u32)> =
        pk.iter_present().into_iter().map(|(i, v)| (usize::from(i), *v)).collect();
    let back = packed_from_pairs::<u32, Arity256>(pairs).expect("valid");
    assert_eq!(pk, back);
}

#[test]
fn gapped_serde_logical_roundtrip() {
    let g = gapped_from_pairs::<u16, Arity16>(vec![(1, 1), (8, 8), (15, 15)]).expect("valid");
    let pairs: Vec<(usize, u16)> =
        g.iter_present().into_iter().map(|(i, v)| (usize::from(i.as_u8()), *v)).collect();
    assert_eq!(pairs, vec![(1, 1), (8, 8), (15, 15)]);
    assert!(gapped_from_pairs::<u16, Arity16>(vec![(5, 50), (3, 30)]).is_err());
    assert!(gapped_from_pairs::<u16, Arity16>(vec![(2, 20), (2, 21)]).is_err());
    assert!(gapped_from_pairs::<u16, Arity16>(vec![(16, 1)]).is_err());
}
