use std::collections::hash_map::DefaultHasher;
use std::hash::{Hash, Hasher};
use std::collections::BTreeMap;
use std::sync::atomic::{AtomicUsize, Ordering};
use std::sync::Arc;

use arity::arity::{Arity, Arity16, Arity256, Arity8};
use arity::bitmap::Bitmap;
use arity::compact::{Compact, CompactError};
use arity::fixed::FixedArray;
use arity::gapped::{cap_exp_of, pow2_cap_for, spread_pos, GappedArray};
use arity::niche::{Niche, U3, U4};
use arity::packed::PackedArray;

fn u4(v: u8) -> U4 {
    U4::new_masked(v)
}

fn fixed16<T>(entries: Vec<(u8, T)>) -> FixedArray<Option<T>, Arity16> {
    let mut src = FixedArray::<Option<T>, Arity16>::new();
    for (s, v) in entries {
        src.replace(u4(s), Some(v));
    }
    src
}

#[test]
fn wiring_constants() {
    assert_eq!(Arity8::LEN, 8);
    assert_eq!(Arity16::LEN, 16);
    assert_eq!(Arity256::LEN, 256);
    assert_eq!(<<Arity16 as Arity>::Index as Niche>::COUNT, 16);
    assert_eq!(<<Arity16 as Arity>::Bitmap as Bitmap>::WIDTH, 16);
    assert_eq!(<<Arity256 as Arity>::Index as Niche>::COUNT, 256);
}

#[test]
fn from_fn_and_get() {
    let a = FixedArray::<u8, Arity16>::from_fn(U4::as_u8);
    assert_eq!(*a.get(u4(0)), 0);
    assert_eq!(*a.get(u4(15)), 15);
}

#[test]
fn get_mut_and_replace() {
    let mut a = FixedArray::<u8, Arity8>::from_fn(|_| 0);
    *a.get_mut(U3::new_masked(2)) = 42;
    assert_eq!(*a.get(U3::new_masked(2)), 42);
    let prev = a.replace(U3::new_masked(2), 7);
    assert_eq!(prev, 42);
    assert_eq!(*a.get(U3::new_masked(2)), 7);
}

#[test]
fn index_ops_and_deref() {
    let mut a = FixedArray::<u8, Arity16>::from_fn(U4::as_u8);
    assert_eq!(*a.get(u4(3)), 3);
    a.replace(u4(3), 99);
    assert_eq!(*a.get(u4(3)), 99);
    assert_eq!(a.len(), 16);
    assert_eq!(a.iter().into_iter().map(|(_, v)| *v).max(), Some(99));
}

#[test]
fn into_iter_pairs_with_index() {
    let a = FixedArray::<u8, Arity8>::from_fn(|i| i.as_u8() * 2);
    let pairs: Vec<(u8, u8)> = a.iter().into_iter().map(|(i, &v)| (i.as_u8(), v)).collect();
    assert_eq!(pairs, vec![(0, 0), (1, 2), (2, 4), (3, 6), (4, 8), (5, 10), (6, 12), (7, 14)]);
    let last = a.into_pairs().into_iter().next_back().map(|(i, v)| (i.as_u8(), v));
    assert_eq!(last, Some((7, 14)));
}

#[test]
fn map_threads_index() {
    let a = FixedArray::<u8, Arity8>::from_fn(|_| 1);
    let b = a.map(|i, v| i.as_u8() + v);
    let got: Vec<u8> = b.iter().into_iter().map(|(_, &v)| v).collect();
    assert_eq!(got, vec![1, 2, 3, 4, 5, 6, 7, 8]);
}

#[test]
fn option_new_count_take() {
    let mut a = FixedArray::<Option<u8>, Arity16>::new();
    assert_eq!(a.count(), 0);
    a.replace(u4(1), Some(10));
    a.replace(u4(9), Some(90));
    assert_eq!(a.count(), 2);
    assert_eq!(a.take(u4(1)), Some(10));
    assert_eq!(a.count(), 1);
    assert_eq!(a.take(u4(1)), None);
}

#[test]
fn option_iter_present_ascending() {
    let a = fixed16(vec![(3, 3u8), (11, 11)]);
    let got: Vec<(u8, u8)> = a.iter_present().into_iter().map(|(i, &v)| (i.as_u8(), v)).collect();
    assert_eq!(got, vec![(3, 3), (11, 11)]);
}

#[test]
fn option_take_only_child() {
    let mut a = FixedArray::<Option<u8>, Arity16>::new();
    assert_eq!(a.take_only_child(), None);
    a.replace(u4(5), Some(50));
    assert_eq!(a.take_only_child().map(|(i, v)| (i.as_u8(), v)), Some((5, 50)));
    assert_eq!(a.count(), 0);
    a.replace(u4(2), Some(20));
    a.replace(u4(6), Some(60));
    assert_eq!(a.take_only_child(), None);
    assert_eq!(a.count(), 2);
}

#[test]
fn clone_eq_and_ord() {
    let a = FixedArray::<u8, Arity8>::from_fn(U3::as_u8);
    let b = a.clone();
    assert_eq!(a, b);
    let mut c = a.clone();
    c.replace(U3::new_masked(0), 100);
    assert_ne!(a, c);
    assert!(c > a);
    assert!(a < c);
    assert_eq!(a.cmp(&b), core::cmp::Ordering::Equal);
}

#[test]
fn debug_renders_elements() {
    let a = FixedArray::<u8, Arity8>::from_fn(U3::as_u8);
    let s = format!("{a:?}");
    assert!(s.contains('0') && s.contains('7'));
}

#[test]
fn hash_matches_for_equal_arrays() {
    fn hash_of(a: &FixedArray<u8, Arity8>) -> u64 {
        let mut h = DefaultHasher::new();
        a.hash(&mut h);
        h.finish()
    }
    let a = FixedArray::<u8, Arity8>::from_fn(U3::as_u8);
    let b = a.clone();
    assert_eq!(hash_of(&a), hash_of(&b));
}

#[test]
fn pointer_sized_and_empty() {
    let p = PackedArray::<u8, Arity16>::new();
    assert_eq!(p.count(), 0);
    assert!(p.is_empty());
    assert_eq!(p.get(u4(0)), None);
}

#[test]
fn from_fixed_and_get() {
    let p = PackedArray::from_fixed(fixed16(vec![(0, 10u8), (7, 70), (15, 150)]));
    assert_eq!(p.count(), 3);
    assert_eq!(p.get(u4(0)), Some(&10));
    assert_eq!(p.get(u4(7)), Some(&70));
    assert_eq!(p.get(u4(15)), Some(&150));
    assert_eq!(p.get(u4(1)), None);
    assert_eq!(p.get(u4(8)), None);
}

#[test]
fn single_child_rank_zero_every_slot() {
    for slot in 0..16u8 {
        let p = PackedArray::from_fixed(fixed16(vec![(slot, slot)]));
        assert_eq!(p.count(), 1, "slot {slot}");
        assert_eq!(p.get(u4(slot)), Some(&slot), "slot {slot}");
    }
}

#[test]
fn arity256_boundary() {
    let mut src = FixedArray::<Option<u16>, Arity256>::new();
    src.replace(0, Some(1));
    src.replace(255, Some(2));
    let p = PackedArray::from_fixed(src);
    assert_eq!(p.count(), 2);
    assert_eq!(p.get(0), Some(&1));
    assert_eq!(p.get(255), Some(&2));
    assert_eq!(p.get(128), None);
}

#[test]
fn iter_present_ascending_and_double_ended() {
    let p = PackedArray::from_fixed(fixed16(vec![(1, 1u8), (4, 4), (14, 14)]));
    let fwd: Vec<(u8, u8)> = p.iter_present().into_iter().map(|(i, &v)| (i.as_u8(), v)).collect();
    assert_eq!(fwd, vec![(1, 1), (4, 4), (14, 14)]);
    let mut it = p.iter_present().into_iter();
    assert_eq!(it.len(), 3);
    assert_eq!(it.next().map(|(i, &v)| (i.as_u8(), v)), Some((1, 1)));
    assert_eq!(it.next_back().map(|(i, &v)| (i.as_u8(), v)), Some((14, 14)));
    assert_eq!(it.next().map(|(i, &v)| (i.as_u8(), v)), Some((4, 4)));
    assert_eq!(it.next(), None);
}

#[test]
fn iter_all_slots() {
    let p = PackedArray::from_fixed(fixed16(vec![(5, 5u8)]));
    let all: Vec<(u8, Option<u8>)> =
        p.iter().into_iter().map(|(i, opt)| (i.as_u8(), opt.copied())).collect();
    assert_eq!(all.len(), 16);
    assert_eq!(all[5], (5, Some(5)));
    assert_eq!(all[0], (0, None));
    assert_eq!(all[15], (15, None));
}

struct Counted(Arc<AtomicUsize>);

impl Drop for Counted {
    fn drop(&mut self) {
        self.0.fetch_add(1, Ordering::SeqCst);
    }
}

#[test]
fn packed_drop_runs_once_per_element() {
    let counter = Arc::new(AtomicUsize::new(0));
    let src = fixed16(vec![(2, Counted(counter.clone())), (7, Counted(counter.clone()))]);
    let p = PackedArray::from_fixed(src);
    assert_eq!(counter.load(Ordering::SeqCst), 0);
    drop(p);
    assert_eq!(counter.load(Ordering::SeqCst), 2);
}

#[test]
fn clone_is_independent() {
    struct Shared(Arc<AtomicUsize>);
    impl Clone for Shared {
        fn clone(&self) -> Self {
            Self(self.0.clone())
        }
    }
    impl Drop for Shared {
        fn drop(&mut self) {
            self.0.fetch_add(1, Ordering::SeqCst);
        }
    }
    let counter = Arc::new(AtomicUsize::new(0));
    let src = fixed16(vec![(1, Shared(counter.clone())), (9, Shared(counter.clone()))]);
    let packed = PackedArray::from_fixed(src);
    let cloned = packed.clone();
    assert_eq!(counter.load(Ordering::SeqCst), 0);
    drop(packed);
    assert_eq!(counter.load(Ordering::SeqCst), 2);
    drop(cloned);
    assert_eq!(counter.load(Ordering::SeqCst), 4);
}

#[test]
fn owned_roundtrip_lossless() {
    for slots in [&[][..], &[0, 7, 15][..], &(0..16).collect::<Vec<u8>>()[..]] {
        let src = fixed16(slots.iter().map(|&s| (s, s)).collect());
        let packed = PackedArray::from_fixed(src);
        let back = packed.into_fixed();
        for s in 0..16u8 {
            let expected = slots.contains(&s).then_some(s);
            assert_eq!(*back.get(u4(s)), expected, "slot {s}");
        }
    }
}

#[test]
fn by_ref_roundtrip_lossless() {
    let src = fixed16(vec![(4, 4u8), (9, 9)]);
    let packed = PackedArray::<u8, Arity16>::from_fixed_ref(&src);
    let back = packed.to_fixed();
    for s in 0..16u8 {
        let expected = matches!(s, 4 | 9).then_some(s);
        assert_eq!(*back.get(u4(s)), expected, "slot {s}");
    }
}

#[test]
fn eq_and_debug() {
    let a = PackedArray::from_fixed(fixed16(vec![(2, 2u8)]));
    let b = a.clone();
    assert_eq!(a, b);
    assert_ne!(a, PackedArray::from_fixed(fixed16(vec![(3, 3u8)])));
    let s = format!("{a:?}");
    assert!(s.contains('2'));
}

#[test]
fn iter_all_double_ended_interleaved() {
    let p = PackedArray::from_fixed(fixed16(vec![(1, 10u8), (4, 40), (9, 90), (14, 140)]));
    let mut it = p.iter().into_iter();
    let mut got: Vec<(u8, Option<u8>)> = Vec::new();
    let mut take_front = true;
    while let Some((i, opt)) = if take_front { it.next() } else { it.next_back() } {
        got.push((i.as_u8(), opt.copied()));
        take_front = !take_front;
    }
    assert_eq!(got.len(), 16);
    got.sort_by_key(|(i, _)| *i);
    for (i, opt) in got {
        let expected = matches!(i, 1 | 4 | 9 | 14).then_some(i * 10);
        assert_eq!(opt, expected, "slot {i}");
    }
}

#[test]
fn zst_roundtrip() {
    let p = PackedArray::from_fixed(fixed16(vec![(0, ()), (3, ()), (15, ())]));
    assert_eq!(p.count(), 3);
    assert_eq!(p.get(u4(0)), Some(&()));
    assert_eq!(p.get(u4(3)), Some(&()));
    assert_eq!(p.get(u4(15)), Some(&()));
    assert_eq!(p.get(u4(1)), None);
    let present: Vec<u8> = p.iter_present().into_iter().map(|(i, &())| i.as_u8()).collect();
    assert_eq!(present, vec![0, 3, 15]);
    let back = p.into_fixed();
    for s in 0..16u8 {
        let expected = matches!(s, 0 | 3 | 15).then_some(());
        assert_eq!(*back.get(u4(s)), expected, "slot {s}");
    }
}

#[test]
fn get_mut_mutates_present_only() {
    let mut p = PackedArray::from_fixed(fixed16(vec![(2, 20u8), (9, 90)]));
    if let Some(v) = p.get_mut(u4(9)) {
        *v = 99;
    }
    assert_eq!(p.get(u4(9)), Some(&99));
    assert_eq!(p.get(u4(2)), Some(&20));
    assert!(p.get_mut(u4(5)).is_none());
    let mut empty = PackedArray::<u8, Arity16>::new();
    assert!(empty.get_mut(u4(0)).is_none());
}

#[test]
fn empty_is_pointer_sized_and_inert() {
    let g = GappedArray::<u8, Arity16>::new();
    assert!(g.is_empty());
    assert_eq!(g.count(), 0);
    assert_eq!(g.capacity(), 0);
    assert_eq!(g.bitmap(), <u16 as Bitmap>::zero());
    drop(GappedArray::<u32, Arity256>::default());
}

#[test]
fn from_fixed_spreads_and_drops() {
    let g = GappedArray::from_fixed(fixed16(vec![(0, 10u16), (7, 70), (15, 150)]));
    assert_eq!(g.count(), 3);
    assert_eq!(g.capacity(), 4);
    assert_eq!(g.bitmap().count_ones(), 3);
    let empty = GappedArray::<u16, Arity16>::from_fixed(FixedArray::<Option<u16>, Arity16>::new());
    assert!(empty.is_empty());
    assert_eq!(empty.capacity(), 0);
}

#[test]
fn gapped_drop_runs_once_per_element() {
    let c = Arc::new(AtomicUsize::new(0));
    let src = fixed16(vec![(2, Counted(c.clone())), (9, Counted(c.clone()))]);
    let g = GappedArray::from_fixed(src);
    assert_eq!(c.load(Ordering::SeqCst), 0);
    drop(g);
    assert_eq!(c.load(Ordering::SeqCst), 2);
}

#[test]
fn capacity_helpers() {
    assert_eq!(pow2_cap_for::<Arity16>(0), 0);
    assert_eq!(pow2_cap_for::<Arity16>(1), 1);
    assert_eq!(pow2_cap_for::<Arity16>(3), 4);
    assert_eq!(pow2_cap_for::<Arity16>(16), 16);
    assert_eq!(pow2_cap_for::<Arity16>(99), 16);
    assert_eq!(pow2_cap_for::<Arity256>(200), 256);
    assert_eq!(cap_exp_of(1), 0);
    assert_eq!(cap_exp_of(16), 4);
    assert_eq!(cap_exp_of(256), 8);
    assert_eq!(spread_pos(0, 3, 8), 0);
    assert_eq!(spread_pos(1, 3, 8), 2);
    assert_eq!(spread_pos(2, 3, 8), 5);
    assert_eq!(spread_pos(2, 4, 4), 2);
}

#[test]
fn gapped_roundtrips() {
    let src = fixed16(vec![(0, 0u16), (7, 21), (15, 45)]);
    let g = GappedArray::from_packed(PackedArray::from_fixed_ref(&src));
    let back = g.into_fixed();
    for s in 0..16u8 {
        let expected = matches!(s, 0 | 7 | 15).then(|| u16::from(s) * 3);
        assert_eq!(*back.get(u4(s)), expected, "slot {s}");
    }
    let p = PackedArray::<u16, Arity16>::from_fixed_ref(&src);
    let g2 = GappedArray::from_packed(p.clone());
    assert_eq!(g2.count(), 3);
    let p2 = g2.into_packed();
    assert_eq!(p2.count(), 3);
    for s in 0..16u8 {
        assert_eq!(p2.get(u4(s)).copied(), p.get(u4(s)).copied());
    }
}

#[test]
fn mutation_drops_each_element_exactly_once() {
    let drops = Arc::new(AtomicUsize::new(0));
    let mut p = PackedArray::<Counted, Arity16>::new();
    let mut g = GappedArray::<Counted, Arity16>::new();
    for s in [3u8, 8, 12] {
        p.insert(u4(s), Counted(drops.clone()));
        g.insert(u4(s), Counted(drops.clone()));
    }
    drop(p.insert(u4(8), Counted(drops.clone())));
    drop(g.insert(u4(8), Counted(drops.clone())));
    assert_eq!(drops.load(Ordering::SeqCst), 2);
    drop(p.remove(u4(3)));
    drop(g.remove(u4(3)));
    assert_eq!(drops.load(Ordering::SeqCst), 4);
    drop(p);
    drop(g);
    assert_eq!(drops.load(Ordering::SeqCst), 8);
}

/// A deterministic op sequence checked against a `BTreeMap` model after
/// every step, on both mutable representations.
#[test]
fn mutation_matches_a_map_model() {
    let mut packed: PackedArray<u16, Arity16> = PackedArray::new();
    let mut gapped: GappedArray<u16, Arity16> = GappedArray::new();
    let mut oracle: BTreeMap<u8, u16> = BTreeMap::new();
    let mut seed: u32 = 12345;
    for step in 0..400u32 {
        seed = seed.wrapping_mul(1_103_515_245).wrapping_add(12345);
        let slot = ((seed >> 8) % 16) as u8;
        let val = (seed >> 16) as u16;
        let i = u4(slot);
        match (seed >> 4) % 3 {
            0 => {
                let po = oracle.insert(slot, val);
                assert_eq!(packed.insert(i, val), po, "step {step}");
                assert_eq!(gapped.insert(i, val), po, "step {step}");
            }
            1 => {
                let po = oracle.remove(&slot);
                assert_eq!(packed.remove(i), po, "step {step}");
                assert_eq!(gapped.remove(i), po, "step {step}");
            }
            _ => {
                if let Some(v) = packed.get_mut(i) {
                    *v = val;
                }
                if let Some(v) = gapped.get_mut(i) {
                    *v = val;
                }
                if let Some(v) = oracle.get_mut(&slot) {
                    *v = val;
                }
            }
        }
        assert_eq!(packed.count(), oracle.len());
        assert_eq!(gapped.count(), oracle.len());
        assert!(gapped.capacity() >= gapped.count());
        for s in 0..16u8 {
            assert_eq!(packed.get(u4(s)), oracle.get(&s));
            assert_eq!(gapped.get(u4(s)), oracle.get(&s));
        }
    }
}

#[test]
fn gapped_insert_uses_gaps_and_grows_by_powers_of_two() {
    let mut g = GappedArray::<u8, Arity16>::new();
    assert_eq!(g.capacity(), 0);
    g.insert(u4(5), 5);
    assert_eq!(g.capacity(), 1);
    g.insert(u4(9), 9);
    assert_eq!(g.capacity(), 2);
    g.insert(u4(1), 1);
    assert_eq!(g.capacity(), 4);
    // Removing keeps the capacity; re-inserting reuses the gap.
    assert_eq!(g.remove(u4(5)), Some(5));
    assert_eq!(g.capacity(), 4);
    g.insert(u4(6), 6);
    assert_eq!(g.capacity(), 4);
    let got: Vec<(u8, u8)> = g.iter_present().into_iter().map(|(i, &v)| (i.as_u8(), v)).collect();
    assert_eq!(got, vec![(1, 1), (6, 6), (9, 9)]);
    // Fill every index: capacity is capped at the arity.
    for s in 0..16u8 {
        g.insert(u4(s), s);
    }
    assert_eq!(g.capacity(), 16);
    assert_eq!(g.count(), 16);
    assert_eq!(g.take_only_child(), None);
}

#[test]
fn compact_round_trip() {
    let mut children = PackedArray::<u16, Arity16>::new();
    children.insert(u4(2), 20);
    children.insert(u4(9), 90);
    let (bitmap, values) = Compact::packed_parts(&children);
    let bytes = bitmap.to_bytes();
    // bits 2 and 9 set = 0x0204, little-endian bytes [4, 2]; values [20, 90].
    assert_eq!(bytes, [4, 2]);
    let values: Vec<u16> = values.into_iter().copied().collect();
    assert_eq!(values, vec![20, 90]);
    let back = Compact::decode_packed::<u16, Arity16>(&bytes, values).expect("valid");
    assert_eq!(children, back);
}

#[test]
fn compact_rejects_popcount_mismatch() {
    assert_eq!(
        Compact::decode_packed::<u16, Arity16>(&[4, 2], vec![20]),
        Err(CompactError::PopcountMismatch)
    );
    assert_eq!(
        Compact::decode_packed::<u16, Arity16>(&[4, 2, 0], vec![20, 90]),
        Err(CompactError::BitmapLength { len: 3 })
    );
}

#[test]
fn compact_arity256_round_trip_stable_bytes() {
    let mut children = PackedArray::<u32, Arity256>::new();
    children.insert(0, 1);
    children.insert(128, 2);
    children.insert(255, 3);
    let (bitmap, values) = Compact::packed_parts(&children);
    let bytes = bitmap.to_bytes();
    assert_eq!(bytes[0], 1);
    assert_eq!(bytes[16], 1);
    assert_eq!(bytes[31], 128);
    let values: Vec<u32> = values.into_iter().copied().collect();
    assert_eq!(values, vec![1, 2, 3]);
    let back = Compact::decode_packed::<u32, Arity256>(&bytes, values).expect("valid");
    assert_eq!(children, back);
}

#[test]
fn compact_gapped_round_trip() {
    let g = GappedArray::from_fixed(fixed16(vec![(1, 11u8), (3, 33), (12, 120)]));
    let (bitmap, values) = Compact::gapped_parts(&g);
    let values: Vec<u8> = values.into_iter().copied().collect();
    assert_eq!(values, vec![11, 33, 120]);
    let back = Compact::decode_gapped::<u8, Arity16>(&bitmap.to_bytes(), values).expect("valid");
    for s in 0..16u8 {
        assert_eq!(back.get(u4(s)), g.get(u4(s)));
    }
    assert_eq!(back.capacity(), 4);
    assert!(matches!(
        Compact::decode_gapped::<u8, Arity16>(&[0], vec![]),
        Err(CompactError::BitmapLength { len: 1 })
    ));
}

#[test]
fn select_inverts_rank_on_a_packed_bitmap() {
    let p = PackedArray::from_fixed(fixed16(vec![(0, 1u8), (5, 2), (15, 3)]));
    let b = p.bitmap();
    for s in [0u8, 5, 15] {
        assert_eq!(b.select(b.rank(u4(s))), Some(u4(s)));
    }
    assert_eq!(b.rank(b.select(1).expect("two set")), 1);
}

#[test]
fn count_after_store_and_clear() {
    let mut p = PackedArray::<u8, Arity16>::new();
    p.insert(u4(4), 1);
    assert_eq!(p.count(), 1);
    p.insert(u4(4), 2);
    assert_eq!(p.count(), 1);
    p.remove(u4(9));
    assert_eq!(p.count(), 1);
    p.remove(u4(4));
    assert_eq!(p.count(), 0);
}
