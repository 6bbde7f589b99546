use std::hash::{Hash, Hasher};
use arity::arity::{Arity16, Arity256};
use arity::bitmap::Bitmap;
use arity::children::{ChildMap, ChildStore, Fixed, Gapped, Packed};
use arity::key::{nibbles, unnibble};
use arity::niche::U4;
use arity::node::Node;
use arity::packed::PackedArray;
use arity::path::{common_prefix, join, Path};
use arity::validate::{node_violation, ViolationKind};

fn u4(v: u8) -> U4 {
    U4::new_masked(v)
}

fn present_indices<B: Bitmap>(b: B) -> Vec<B::Index> {
    let mut it = arity::bitmap::Bits::bits(b);
    let mut out = Vec::new();
    while let Some(i) = it.next() {
        out.push(i);
    }
    out
}

fn exercise<M: ChildMap<Arity16, u32>>() {
    let mut m = M::default();
    assert!(m.is_empty());
    assert_eq!(m.count(), 0);
    assert!(m.present().is_zero());
    assert_eq!(m.take_only_child(), None);

    assert_eq!(m.insert(u4(3), 30), None);
    assert_eq!(m.insert(u4(9), 90), None);
    assert_eq!(m.insert(u4(3), 31), Some(30));
    assert_eq!(m.count(), 2);
    assert!(!m.is_empty());
    assert_eq!(m.get(u4(3)), Some(&31));
    assert_eq!(m.get(u4(4)), None);
    *m.get_mut(u4(9)).expect("present") += 1;
    assert_eq!(m.get(u4(9)), Some(&91));

    let present: Vec<u8> = present_indices(m.present()).into_iter().map(U4::as_u8).collect();
    assert_eq!(present, [3, 9]);
    let pairs: Vec<(u8, u32)> = m.iter_present().into_iter().map(|(i, v)| (i.as_u8(), *v)).collect();
    assert_eq!(pairs, [(3, 31), (9, 91)]);
    let cloned = m.iter_present().clone().into_iter().next_back().map(|(i, _)| i.as_u8());
    assert_eq!(cloned, Some(9));

    assert_eq!(m.take_only_child(), None);
    assert_eq!(m.remove(u4(3)), Some(31));
    assert_eq!(m.remove(u4(3)), None);
    assert_eq!(m.take_only_child(), Some((u4(9), 91)));
    assert!(m.is_empty());

    m.insert(u4(0), 1);
    m.insert(u4(15), 2);
    let drained: Vec<(u8, u32)> = m.into_edges().into_iter().map(|(i, v)| (i.as_u8(), v)).collect();
    assert_eq!(drained, [(0, 1), (15, 2)]);
}

#[test]
fn packed_map_supports_the_operation_set() {
    exercise::<<Packed as ChildStore<Arity16, u32>>::Map>();
}

#[test]
fn gapped_map_supports_the_operation_set() {
    exercise::<<Gapped as ChildStore<Arity16, u32>>::Map>();
}

#[test]
fn fixed_map_supports_the_operation_set() {
    exercise::<<Fixed as ChildStore<Arity16, u32>>::Map>();
}

#[test]
fn present_matches_iteration_at_arity_256() {
    let mut m = <Fixed as ChildStore<Arity256, u8>>::Map::default();
    for i in [0u8, 7, 128, 255] {
        m.insert(i, i);
    }
    let from_bits: Vec<u8> = present_indices(m.present());
    let from_iter: Vec<u8> = m.iter_present().into_iter().map(|(i, _)| i).collect();
    assert_eq!(from_bits, from_iter);
    assert_eq!(m.present().count_ones(), 4);
}

fn path(bytes: &[u8]) -> Path<Arity16> {
    Path::try_from_bytes(bytes).expect("in range")
}

#[test]
fn new_is_empty_and_default() {
    let p = Path::<Arity16>::new();
    assert_eq!(p.len(), 0);
    assert_eq!(p, Path::default());
    assert_eq!(p.as_slice(), &[] as &[U4]);
}

#[test]
fn try_from_bytes_validates_every_byte() {
    let ok = Path::<Arity16>::try_from_bytes(&[0, 15, 3]).expect("in range");
    assert_eq!(ok.as_slice(), &[u4(0), u4(15), u4(3)]);
    assert!(Path::<Arity16>::try_from_bytes(&[0, 16]).is_none());
    assert!(Path::<Arity256>::try_from_bytes(&[0, 255]).is_some());
}

#[test]
fn as_bytes_round_trips() {
    let bytes = [1u8, 2, 3, 14];
    let p = Path::<Arity16>::try_from_bytes(&bytes).expect("in range");
    assert_eq!(p.as_bytes(), &bytes);
    let p = Path::<Arity256>::try_from_bytes(&[0, 200, 255]).expect("in range");
    assert_eq!(p.as_bytes(), &[0, 200, 255]);
}

#[test]
fn conversions_from_slice_vec_and_iterator_agree() {
    let idx = [u4(1), u4(2)];
    let a = Path::<Arity16>::from_slice(&idx[..]);
    let b = Path::<Arity16>::from_vec(vec![u4(1), u4(2)]);
    let c = Path::<Arity16>::from_vec(idx.iter().copied().collect());
    assert_eq!(a, b);
    assert_eq!(b, c);
    assert_eq!(a.as_slice(), &idx[..]);
}

#[test]
fn ordering_is_lexicographic() {
    let p = |b: &[u8]| Path::<Arity16>::try_from_bytes(b).expect("in range");
    assert!(p(&[1]) < p(&[1, 0]));
    assert!(p(&[1, 0]) < p(&[2]));
    assert!(p(&[]) < p(&[0]));
    let mut v = vec![p(&[2]), p(&[1, 0]), p(&[1]), p(&[])];
    v.sort();
    assert_eq!(v, vec![p(&[]), p(&[1]), p(&[1, 0]), p(&[2])]);
}

#[test]
fn join_concatenates_head_index_tail() {
    let head = [u4(1), u4(2)];
    let tail = [u4(4)];
    let joined = join::<Arity16>(&head, u4(3), &tail);
    assert_eq!(joined.as_slice(), &[u4(1), u4(2), u4(3), u4(4)]);
    let joined = join::<Arity16>(&[], u4(7), &[]);
    assert_eq!(joined.as_slice(), &[u4(7)]);
}

#[test]
fn common_prefix_splits_shared_and_unique_parts() {
    let a = [1u8, 2, 3, 4];
    let b = [1u8, 2, 9];
    let o = common_prefix(&a, &b);
    assert_eq!(o.shared, &[1, 2]);
    assert_eq!(o.unique_a, &[3, 4]);
    assert_eq!(o.unique_b, &[9]);

    let o = common_prefix(&a, &a);
    assert_eq!(o.shared, &a);
    assert_eq!((o.unique_a, o.unique_b), (&[][..], &[][..]));

    let o = common_prefix(&a[..2], &a);
    assert_eq!(o.shared, &[1, 2]);
    assert_eq!(o.unique_a, &[] as &[u8]);
    assert_eq!(o.unique_b, &[3, 4]);

    let empty: [u8; 0] = [];
    let o = common_prefix(&empty, &b);
    assert_eq!((o.shared, o.unique_a), (&[][..], &[][..]));
    assert_eq!(o.unique_b, &b);
}

#[test]
fn hash_agrees_with_equality() {
    fn h<T: Hash>(t: &T) -> u64 {
        struct Fnv(u64);
        impl Hasher for Fnv {
            fn finish(&self) -> u64 {
                self.0
            }
            fn write(&mut self, bytes: &[u8]) {
                for b in bytes {
                    self.0 ^= u64::from(*b);
                    self.0 = self.0.wrapping_mul(0x0100_0000_01b3);
                }
            }
        }
        let mut f = Fnv(0xcbf2_9ce4_8422_2325);
        t.hash(&mut f);
        f.finish()
    }
    let a = Path::<Arity256>::try_from_bytes(&[1, 2]).expect("in range");
    let b = Path::<Arity256>::from_vec(vec![1u8, 2]);
    assert_eq!(h(&a), h(&b));
    let both: Vec<Path<Arity256>> = vec![a, b];
    assert_eq!(both[0], both[1]);
}

#[test]
fn nibbles_splits_high_then_low() {
    let p = nibbles(&[0xAB, 0x01]);
    let expect: Vec<U4> = [0xA, 0xB, 0x0, 0x1].map(U4::new_masked).into();
    assert_eq!(p.as_slice(), &expect[..]);
    assert_eq!(nibbles(&[]).len(), 0);
}

#[test]
fn unnibble_inverts_nibbles() {
    let key = [0xDE, 0xAD, 0xBE, 0xEF];
    assert_eq!(unnibble(nibbles(&key).as_slice()), Some(vec![0xDE, 0xAD, 0xBE, 0xEF]));
    assert_eq!(unnibble(&[]), Some(vec![]));
}

#[test]
fn unnibble_rejects_odd_length() {
    assert_eq!(unnibble(&[U4::new_masked(1)]), None);
    assert_eq!(unnibble(&nibbles(&[0x12]).as_slice()[..1]), None);
}

#[test]
fn unnibble_inverts_nibbles_for_every_byte() {
    let all: Vec<u8> = (0..=255).collect();
    assert_eq!(unnibble(nibbles(&all).as_slice()), Some(all));
}

struct BoxEdge(#[allow(dead_code)] Box<Node<u32, BoxEdge, Arity16, Packed>>);

type N = Node<u32, BoxEdge, Arity16, Packed>;

#[test]
fn leaf_has_a_value_and_no_children() {
    let leaf = N::leaf(path(&[1, 2]), 7);
    assert_eq!(leaf.partial_path(), &[u4(1), u4(2)]);
    assert_eq!(leaf.value(), Some(&7));
    assert!(leaf.is_leaf());
    assert_eq!(leaf.children().count(), 0);
}

#[test]
fn accessors_replace_and_return_the_old_parts() {
    let mut node = N::new(path(&[1]), None, PackedArray::default());
    assert!(node.value().is_none());
    assert_eq!(node.set_value(Some(3)), None);
    assert_eq!(node.set_value(Some(4)), Some(3));
    *node.value_mut().expect("set") += 1;
    assert_eq!(node.value(), Some(&5));
    let old = node.set_partial_path(path(&[9, 9]));
    assert_eq!(old.as_slice(), &[u4(1)]);
    assert_eq!(node.partial_path(), &[u4(9), u4(9)]);
    node.children_mut().insert(u4(2), BoxEdge(Box::new(N::leaf(Path::new(), 1))));
    assert!(!node.is_leaf());
    let (p, v, children) = node.into_parts();
    assert_eq!(p.as_slice(), &[u4(9), u4(9)]);
    assert_eq!(v, Some(5));
    assert_eq!(children.count(), 1);
}

#[test]
fn default_is_the_empty_placeholder() {
    let node = Node::<u32, BoxEdge, Arity16, Fixed>::default();
    assert_eq!(node.partial_path().len(), 0);
    assert_eq!(node.value(), None);
    assert!(node.is_leaf());
}

#[test]
fn violations_follow_the_structural_rule() {
    let mut node = N::new(path(&[]), None, PackedArray::default());
    assert_eq!(node_violation(&node), Some(ViolationKind::ValuelessLeaf));
    node.children_mut().insert(u4(1), BoxEdge(Box::new(N::leaf(Path::new(), 1))));
    assert_eq!(node_violation(&node), Some(ViolationKind::ValuelessSingleChild));
    node.children_mut().insert(u4(2), BoxEdge(Box::new(N::leaf(Path::new(), 2))));
    assert_eq!(node_violation(&node), None);
    node.children_mut().remove(u4(1));
    node.set_value(Some(7));
    assert_eq!(node_violation(&node), None);
    let leaf = N::leaf(path(&[3]), 3);
    assert_eq!(node_violation(&leaf), None);
}
