use std::hash::{Hash, Hasher};
use arity::bitmap::{BitIter, Bitmap, Bits};
use arity::niche::{Niche, U3, U4, U7};
use arity::u256::U256;

fn u4(v: u8) -> U4 {
    U4::new_masked(v)
}

fn forward<B: Bitmap>(mut it: BitIter<B>) -> Vec<B::Index> {
    let mut out = Vec::new();
    while let Some(i) = it.next() {
        out.push(i);
    }
    out
}

fn backward<B: Bitmap>(mut it: BitIter<B>) -> Vec<B::Index> {
    let mut out = Vec::new();
    while let Some(i) = it.next_back() {
        out.push(i);
    }
    out
}

#[test]
fn width_and_zero() {
    assert_eq!(<u16 as Bitmap>::WIDTH, 16);
    assert_eq!(<u8 as Bitmap>::WIDTH, 8);
    assert_eq!(<u128 as Bitmap>::WIDTH, 128);
    assert_eq!(<u16 as Bitmap>::zero(), 0u16);
    assert!(<u16 as Bitmap>::zero().is_zero());
    assert_eq!(<u16 as Bitmap>::zero().count_ones(), 0);
}

#[test]
fn test_with_bit_and_count() {
    let bm = u16::zero().with_bit(u4(0)).with_bit(u4(7)).with_bit(u4(15));
    assert!(bm.test(u4(0)));
    assert!(bm.test(u4(7)));
    assert!(bm.test(u4(15)));
    assert!(!bm.test(u4(1)));
    assert!(!bm.test(u4(8)));
    assert_eq!(bm.count_ones(), 3);
    assert!(!bm.is_zero());
    assert_eq!(bm, 0b1000_0000_1000_0001u16);
}

#[test]
fn rank_is_dense_index() {
    let bm = u16::zero().with_bit(u4(0)).with_bit(u4(7)).with_bit(u4(15));
    assert_eq!(bm.rank(u4(0)), 0);
    assert_eq!(bm.rank(u4(7)), 1);
    assert_eq!(bm.rank(u4(15)), 2);
    assert_eq!(bm.rank(u4(8)), 2);
    assert_eq!(bm.rank(u4(1)), 1);
}

#[test]
fn bits_forward_and_back() {
    let bm = u16::zero().with_bit(u4(1)).with_bit(u4(4)).with_bit(u4(14));
    let fwd: Vec<u8> = forward(bm.bits()).into_iter().map(U4::as_u8).collect();
    assert_eq!(fwd, vec![1, 4, 14]);
    let back: Vec<u8> = backward(bm.bits()).into_iter().map(U4::as_u8).collect();
    assert_eq!(back, vec![14, 4, 1]);
    assert_eq!(bm.bits().len(), 3);
    let mut it = bm.bits();
    assert_eq!(it.next().map(U4::as_u8), Some(1));
    assert_eq!(it.next_back().map(U4::as_u8), Some(14));
    assert_eq!(it.next().map(U4::as_u8), Some(4));
    assert_eq!(it.next(), None);
    assert_eq!(it.next_back(), None);
}

#[test]
fn edge_widths_u8_and_u128() {
    let b8 = u8::zero().with_bit(U3::MIN).with_bit(U3::MAX);
    assert_eq!(b8.count_ones(), 2);
    assert_eq!(b8.rank(U3::MAX), 1);
    assert_eq!(b8, 0b1000_0001u8);

    let b128 = u128::zero().with_bit(U7::MAX);
    assert_eq!(b128.count_ones(), 1);
    assert_eq!(b128.rank(U7::MAX), 0);
    assert_eq!(b128, 1u128 << 127);
    let only: Vec<u8> = forward(b128.bits()).into_iter().map(U7::as_u8).collect();
    assert_eq!(only, vec![127]);
}

#[test]
fn without_bit_clears_one_bit() {
    let bm = u16::zero().with_bit(u4(1)).with_bit(u4(4)).with_bit(u4(9));
    let cleared = bm.without_bit(u4(4));
    assert!(!cleared.test(u4(4)));
    assert!(cleared.test(u4(1)));
    assert!(cleared.test(u4(9)));
    assert_eq!(cleared.count_ones(), 2);
    assert_eq!(bm.without_bit(u4(2)), bm);
}

#[test]
fn select_in_word_all_widths() {
    let bm = u8::zero()
        .with_bit(U3::new_masked(0))
        .with_bit(U3::new_masked(3))
        .with_bit(U3::new_masked(7));
    assert_eq!(bm.select(0).map(U3::as_u8), Some(0));
    assert_eq!(bm.select(1).map(U3::as_u8), Some(3));
    assert_eq!(bm.select(2).map(U3::as_u8), Some(7));
    assert_eq!(bm.select(3), None);

    let b = u128::zero()
        .with_bit(U7::new_masked(0))
        .with_bit(U7::new_masked(64))
        .with_bit(U7::new_masked(127));
    assert_eq!(b.select(0).map(U7::as_u8), Some(0));
    assert_eq!(b.select(1).map(U7::as_u8), Some(64));
    assert_eq!(b.select(2).map(U7::as_u8), Some(127));
    assert_eq!(b.select(3), None);
    for i in forward(b.bits()) {
        assert_eq!(b.select(b.rank(i)), Some(i));
    }
}

#[test]
fn select_is_inverse_of_rank() {
    let bm = u16::zero().with_bit(u4(1)).with_bit(u4(4)).with_bit(u4(9));
    assert_eq!(bm.select(0).map(U4::as_u8), Some(1));
    assert_eq!(bm.select(1).map(U4::as_u8), Some(4));
    assert_eq!(bm.select(2).map(U4::as_u8), Some(9));
    assert_eq!(bm.select(3), None);
    for i in forward(bm.bits()) {
        assert_eq!(bm.select(bm.rank(i)), Some(i));
    }
}

#[test]
fn nearest_clear_queries_native() {
    let bm = u16::zero().with_bit(u4(1)).with_bit(u4(2)).with_bit(u4(3));

    assert_eq!(bm.nearest_clear_at_or_below(3).map(U4::as_usize), Some(0));
    assert_eq!(bm.nearest_clear_at_or_below(2).map(U4::as_usize), Some(0));
    assert_eq!(bm.nearest_clear_at_or_below(0).map(U4::as_usize), Some(0));

    assert_eq!(bm.nearest_clear_in(1, 6).map(U4::as_usize), Some(4));
    assert_eq!(bm.nearest_clear_in(4, 6).map(U4::as_usize), Some(4));
    assert_eq!(bm.nearest_clear_in(1, 4), None);
    assert_eq!(bm.nearest_clear_in(3, 3), None);

    assert_eq!((!0u16).nearest_clear_at_or_below(15), None);
    assert_eq!((!0u16).nearest_clear_in(0, 16), None);

    let top_clear = !(1u16 << 15);
    assert_eq!(top_clear.nearest_clear_at_or_below(15).map(U4::as_usize), Some(15));
    assert_eq!(top_clear.nearest_clear_in(0, 16).map(U4::as_usize), Some(15));

    let b = !(1u8 << 7);
    assert_eq!(b.nearest_clear_at_or_below(7).map(U3::as_usize), Some(7));
}

#[test]
fn le_bytes_round_trip_native() {
    assert_eq!(<u16 as Bitmap>::BYTES, 2);
    assert_eq!(<u8 as Bitmap>::BYTES, 1);
    assert_eq!(<u128 as Bitmap>::BYTES, 16);

    let bm = u16::zero().with_bit(u4(1)).with_bit(u4(9));
    let bytes = <u16 as Bitmap>::to_bytes(bm);
    assert_eq!(bytes, 0b0000_0010_0000_0010u16.to_le_bytes());
    assert_eq!(<u16 as Bitmap>::from_bytes(bytes), bm);
}

#[test]
fn try_from_bytes_checks_length_native() {
    let bm = u16::zero().with_bit(u4(1)).with_bit(u4(9));
    assert_eq!(<u16 as Bitmap>::try_from_bytes(&bm.to_bytes()), Some(bm));
    assert_eq!(<u16 as Bitmap>::try_from_bytes(&[0u8; 1]), None);
    assert_eq!(<u16 as Bitmap>::try_from_bytes(&[0u8; 3]), None);
}

#[test]
fn bit_iter_is_clone_and_debug() {
    let it = u16::zero().with_bit(u4(1)).with_bit(u4(4)).bits();
    let cloned = it.clone();
    assert!(format!("{it:?}").contains("BitIter"));
    assert_eq!(forward(it).len(), forward(cloned).len());
}

#[test]
fn width_zero_and_basic_bits() {
    assert_eq!(<U256 as Bitmap>::WIDTH, 256);
    assert!(U256::zero().is_zero());
    assert_eq!(U256::zero().count_ones(), 0);
    let bm = U256::zero().with_bit(0).with_bit(127).with_bit(128).with_bit(255);
    assert_eq!(bm.count_ones(), 4);
    assert!(bm.test(0));
    assert!(bm.test(127));
    assert!(bm.test(128));
    assert!(bm.test(255));
    assert!(!bm.test(1));
    assert!(!bm.test(129));
}

#[test]
fn rank_across_the_limb_boundary() {
    let bm = U256::zero().with_bit(0).with_bit(127).with_bit(128).with_bit(255);
    assert_eq!(bm.rank(0), 0);
    assert_eq!(bm.rank(127), 1);
    assert_eq!(bm.rank(128), 2);
    assert_eq!(bm.rank(255), 3);
    assert_eq!(bm.rank(200), 3);
}

#[test]
fn bits_forward_and_back_span_limbs() {
    let bm = U256::zero().with_bit(3).with_bit(127).with_bit(128).with_bit(254);
    assert_eq!(forward(bm.bits()), vec![3u8, 127, 128, 254]);
    assert_eq!(backward(bm.bits()), vec![254u8, 128, 127, 3]);
    let mut it = bm.bits();
    assert_eq!(it.next(), Some(3));
    assert_eq!(it.next_back(), Some(254));
    assert_eq!(it.next(), Some(127));
    assert_eq!(it.next_back(), Some(128));
    assert_eq!(it.next(), None);
    assert_eq!(it.next_back(), None);
}

#[test]
fn without_bit_across_limbs() {
    let bm = U256::zero().with_bit(3).with_bit(127).with_bit(128).with_bit(254);
    let cleared = bm.without_bit(128);
    assert!(!cleared.test(128));
    assert!(cleared.test(127));
    assert!(cleared.test(254));
    assert_eq!(cleared.count_ones(), 3);
    assert_eq!(bm.without_bit(200), bm);
}

#[test]
fn select_spans_limbs() {
    let bm = U256::zero().with_bit(3).with_bit(127).with_bit(128).with_bit(254);
    assert_eq!(bm.select(0), Some(3));
    assert_eq!(bm.select(1), Some(127));
    assert_eq!(bm.select(2), Some(128));
    assert_eq!(bm.select(3), Some(254));
    assert_eq!(bm.select(4), None);
}

#[test]
fn le_bytes_round_trip_u256() {
    assert_eq!(<U256 as Bitmap>::BYTES, 32);
    let bm = U256::zero().with_bit(3).with_bit(127).with_bit(128).with_bit(254);
    let buf = <U256 as Bitmap>::to_bytes(bm);
    assert_eq!(buf[16], 0b0000_0001);
    assert_eq!(<U256 as Bitmap>::from_bytes(buf), bm);
}

#[test]
fn select_spans_limbs_inverse_of_rank() {
    let bm = U256::zero().with_bit(0).with_bit(127).with_bit(128).with_bit(255);
    assert_eq!(bm.select(0), Some(0));
    assert_eq!(bm.select(1), Some(127));
    assert_eq!(bm.select(2), Some(128));
    assert_eq!(bm.select(3), Some(255));
    assert_eq!(bm.select(4), None);
    for i in forward(bm.bits()) {
        assert_eq!(bm.select(bm.rank(i)), Some(i));
    }
}

#[test]
fn nearest_clear_queries_u256() {
    let bm = U256::zero().with_bit(126).with_bit(127).with_bit(128).with_bit(129);
    assert_eq!(bm.nearest_clear_at_or_below(129).map(Niche::as_usize), Some(125));
    assert_eq!(bm.nearest_clear_at_or_below(128).map(Niche::as_usize), Some(125));
    assert_eq!(bm.nearest_clear_in(126, 200).map(Niche::as_usize), Some(130));
    assert_eq!(bm.nearest_clear_in(126, 130), None);

    let mut top_clear = U256::zero();
    for i in 0u8..=254 {
        top_clear = top_clear.with_bit(i);
    }
    assert_eq!(top_clear.nearest_clear_at_or_below(255).map(Niche::as_usize), Some(255));
    assert_eq!(top_clear.nearest_clear_in(0, 256).map(Niche::as_usize), Some(255));

    let mut all = U256::zero();
    for i in 0u8..=255 {
        all = all.with_bit(i);
    }
    assert_eq!(all.nearest_clear_at_or_below(255), None);
    assert_eq!(all.nearest_clear_in(0, 256), None);
}

#[test]
fn u256_is_hash() {
    #[derive(Default)]
    struct XorHasher(u64);
    impl Hasher for XorHasher {
        fn finish(&self) -> u64 {
            self.0
        }
        fn write(&mut self, bytes: &[u8]) {
            for &b in bytes {
                self.0 = self.0.rotate_left(8) ^ u64::from(b);
            }
        }
    }
    fn h(x: &U256) -> u64 {
        let mut s = XorHasher::default();
        x.hash(&mut s);
        s.finish()
    }
    let a = U256::zero().with_bit(3).with_bit(200);
    let b = U256::zero().with_bit(3).with_bit(200);
    let c = U256::zero().with_bit(4);
    assert_eq!(h(&a), h(&b));
    assert_ne!(h(&a), h(&c));
}

#[test]
fn bits_callable_through_generic_bitmap_bound() {
    fn collect_indices<B: Bitmap>(bm: B) -> Vec<usize> {
        forward(bm.bits()).into_iter().map(|i| i.as_usize()).collect()
    }
    fn last<B: Bitmap>(bm: B) -> Option<<B as Bitmap>::Index> {
        bm.bits().next_back()
    }
    let a = u16::zero().with_bit(U4::new_masked(1)).with_bit(U4::new_masked(9));
    assert_eq!(collect_indices(a), vec![1, 9]);
    assert_eq!(last(a).map(|i| i.as_usize()), Some(9));

    let b = U256::zero().with_bit(0).with_bit(200);
    assert_eq!(collect_indices(b), vec![0, 200]);
    assert_eq!(last(b).map(|i| i.as_usize()), Some(200));
}

#[test]
fn try_from_bytes_checks_length_u256() {
    let bm = U256::zero().with_bit(7).with_bit(250);
    assert_eq!(<U256 as Bitmap>::try_from_bytes(&bm.to_bytes()), Some(bm));
    assert_eq!(<U256 as Bitmap>::try_from_bytes(&[0u8; 8]), None);
    assert_eq!(<U256 as Bitmap>::try_from_bytes(&[0u8; 31]), None);
}
