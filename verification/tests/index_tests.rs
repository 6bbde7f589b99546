use arity::niche::{Niche, TryFromIntError, U3, U4, U5, U6, U7};
use arity::range::{NicheRange, NicheRangeInclusive};

fn u4(v: u8) -> U4 {
    U4::new_masked(v)
}

fn drain_range<N: Niche>(mut r: NicheRange<N>) -> Vec<N> {
    let mut out = Vec::new();
    while let Some(x) = r.next() {
        out.push(x);
    }
    out
}

fn drain_inclusive<N: Niche>(mut r: NicheRangeInclusive<N>) -> Vec<N> {
    let mut out = Vec::new();
    while let Some(x) = r.next() {
        out.push(x);
    }
    out
}

#[test]
fn construction_and_accessors() {
    assert_eq!(U4::COUNT, 16);
    assert_eq!(U4::BITS, 4);
    assert_eq!(U4::MIN.as_u8(), 0);
    assert_eq!(U4::MAX.as_u8(), 15);
    assert_eq!(U4::MAX.as_usize(), 15);

    assert_eq!(U4::try_new(0), Some(U4::MIN));
    assert_eq!(U4::try_new(15), Some(U4::MAX));
    assert_eq!(U4::try_new(16), None);
    assert_eq!(U4::try_new(255), None);

    // new_masked keeps the low BITS bits.
    assert_eq!(U4::new_masked(0xF3).as_u8(), 0x3);
    assert_eq!(U3::new_masked(0xFF).as_u8(), 0x7);
}

#[test]
fn domain_bounds_per_type() {
    assert_eq!(U3::COUNT, 8);
    assert_eq!(U5::COUNT, 32);
    assert_eq!(U6::COUNT, 64);
    assert_eq!(U7::COUNT, 128);
    assert_eq!(U7::MAX.as_usize(), 127);
    assert_eq!(U7::try_new(128), None);
    assert_eq!(U7::try_new(127), Some(U7::MAX));
}

#[test]
fn option_is_one_byte() {
    assert_eq!(core::mem::size_of::<Option<U3>>(), 1);
    assert_eq!(core::mem::size_of::<Option<U4>>(), 1);
    assert_eq!(core::mem::size_of::<Option<U5>>(), 1);
    assert_eq!(core::mem::size_of::<Option<U6>>(), 1);
    assert_eq!(core::mem::size_of::<Option<U7>>(), 1);
}

#[test]
fn default_is_min() {
    assert_eq!(U4::default(), U4::MIN);
    assert_eq!(U7::default().as_u8(), 0);
}

#[test]
fn niche_trait_round_trip() {
    fn round_trip<N: Niche + core::fmt::Debug + PartialEq>(count: usize) {
        assert_eq!(N::COUNT, count);
        assert!(N::try_from_usize(count).is_none());
        let last = N::try_from_usize(count - 1);
        assert!(last.is_some());
        if let Some(v) = last {
            assert_eq!(v.as_usize(), count - 1);
        }
    }
    round_trip::<U3>(8);
    round_trip::<U4>(16);
    round_trip::<U7>(128);
}

#[test]
fn formatting_and_tryfrom() {
    assert_eq!(U4::MAX.to_decimal_string(), "15");
    assert_eq!(U4::new_masked(10).to_lower_hex_string(), "a");
    assert_eq!(U4::new_masked(10).to_upper_hex_string(), "A");
    assert_eq!(U4::new_masked(5).to_binary_string(), "101");

    assert_eq!(U4::try_from(7u8), Ok(U4::new_masked(7)));
    assert_eq!(U4::try_from(16u8), Err(TryFromIntError));
}

#[test]
fn u8_is_arity_256_index() {
    assert_eq!(<u8 as Niche>::COUNT, 256);
    assert_eq!(Niche::as_usize(255u8), 255);
    assert_eq!(<u8 as Niche>::try_from_usize(0), Some(0u8));
    assert_eq!(<u8 as Niche>::try_from_usize(255), Some(255u8));
    assert_eq!(<u8 as Niche>::try_from_usize(256), None);
}

#[test]
fn all_covers_domain_double_ended() {
    fn check<N: Niche>(all: impl Fn() -> NicheRangeInclusive<N>, count: usize) {
        let fwd = all();
        assert_eq!(fwd.len(), count);
        assert_eq!(drain_inclusive(all()).len(), count);

        let mut it = all();
        assert_eq!(it.next().map(|v| v.as_usize()), Some(0));
        assert_eq!(it.next_back().map(|v| v.as_usize()), Some(count - 1));

        let mut prev: Option<usize> = None;
        let mut seen = 0usize;
        for v in drain_inclusive(all()) {
            let cur = v.as_usize();
            if let Some(p) = prev {
                assert!(cur == p + 1, "not ascending by 1");
            }
            prev = Some(cur);
            seen += 1;
        }
        assert_eq!(seen, count);
    }
    check::<U3>(U3::all, 8);
    check::<U4>(U4::all, 16);
    check::<U5>(U5::all, 32);
    check::<U6>(U6::all, 64);
    check::<U7>(U7::all, 128);
    check::<u8>(NicheRangeInclusive::<u8>::full, 256);
}

#[test]
fn into_u8_and_usize() {
    fn take(i: impl Into<usize>) -> usize {
        i.into()
    }
    assert_eq!(u8::from(U4::MAX), 15u8);
    assert_eq!(usize::from(U4::MAX), 15usize);
    assert_eq!(u8::from(U7::MAX), 127u8);
    assert_eq!(usize::from(U3::MIN), 0usize);
    assert_eq!(take(U5::new_masked(5)), 5usize);
}

#[test]
fn try_from_slice_accepts_in_range_and_rejects_out_of_range() {
    let ok = U4::try_from_slice(&[0, 7, 15]).expect("all bytes < 16");
    assert_eq!(ok.len(), 3);
    assert_eq!(ok[0], U4::MIN);
    assert_eq!(ok[2], U4::MAX);
    assert!(U4::try_from_slice(&[16]).is_none());
    assert!(U4::try_from_slice(&[0, 1, 255]).is_none());

    assert!(U4::try_from_slice(&[0, 1, 2, 16, 4]).is_none());

    assert_eq!(U4::try_from_slice(&[]).expect("empty is valid").len(), 0);

    assert!(U3::try_from_slice(&[7]).is_some());
    assert!(U3::try_from_slice(&[8]).is_none());
    assert!(U7::try_from_slice(&[127]).is_some());
    assert!(U7::try_from_slice(&[128]).is_none());
}

#[test]
fn slice_round_trips_and_borrows_in_place() {
    let bytes: &[u8] = &[0, 5, 9, 15];
    let idx = U4::try_from_slice(bytes).expect("in range");
    assert_eq!(U4::as_u8_slice(&idx), bytes);
    assert_eq!(idx.len(), bytes.len());
    for (v, &b) in idx.iter().zip(bytes) {
        assert_eq!(v.as_u8(), b);
    }

    let full: Vec<u8> = (0..=255).collect();
    assert!(U7::try_from_slice(&full).is_none());
    let in_range: Vec<u8> = (0..128).collect();
    let idx7 = U7::try_from_slice(&in_range).expect("0..128 are all valid U7");
    for (v, &b) in idx7.iter().zip(&in_range) {
        assert_eq!(v.as_u8(), b);
    }
}

#[test]
fn from_slice_unchecked_matches_checked() {
    let bytes: &[u8] = &[0, 5, 9, 15];
    let unchecked = U4::from_slice_unchecked(bytes);
    let checked = U4::try_from_slice(bytes).expect("in range");
    assert_eq!(unchecked, checked);
}

#[test]
fn slice_conversions_work_generically() {
    fn round_trip<N: Niche + core::fmt::Debug>(bytes: &[u8], expect_ok: bool) {
        match N::try_from_slice(bytes) {
            Some(idx) => {
                assert!(expect_ok, "expected rejection, got {idx:?}");
                assert_eq!(N::as_u8_slice(&idx), bytes);
                let unchecked = N::from_slice_unchecked(bytes);
                assert_eq!(N::as_u8_slice(&unchecked), bytes);
                for (v, &b) in idx.iter().zip(bytes) {
                    assert_eq!(v.as_usize(), usize::from(b));
                }
            }
            None => assert!(!expect_ok, "expected acceptance, got None"),
        }
    }

    round_trip::<U3>(&[0, 7], true);
    round_trip::<U3>(&[8], false);
    round_trip::<U4>(&[0, 15], true);
    round_trip::<U4>(&[16], false);
    round_trip::<U5>(&[31], true);
    round_trip::<U5>(&[32], false);
    round_trip::<U6>(&[63], true);
    round_trip::<U6>(&[64], false);
    round_trip::<U7>(&[127], true);
    round_trip::<U7>(&[128], false);
    round_trip::<u8>(&[0, 128, 255], true);
}

#[test]
fn try_from_slice_is_const() {
    const BYTES: &[u8] = &[0, 1, 2];
    let idx = U4::try_from_slice(BYTES);
    assert!(idx.is_some());
}

#[test]
fn niche_types_have_u8_layout() {
    assert_eq!(core::mem::size_of::<U3>(), 1);
    assert_eq!(core::mem::size_of::<U7>(), 1);
    assert_eq!(core::mem::align_of::<U3>(), 1);
    assert_eq!(core::mem::align_of::<U7>(), 1);
}

#[test]
fn half_open_forward_and_len() {
    let r = NicheRange::new(u4(2), u4(6));
    assert_eq!(r.len(), 4);
    let got: Vec<u8> = drain_range(r).into_iter().map(U4::as_u8).collect();
    assert_eq!(got, vec![2, 3, 4, 5]);
}

#[test]
fn half_open_empty() {
    let r = NicheRange::new(u4(6), u4(2));
    assert_eq!(r.len(), 0);
    assert_eq!(drain_range(r).len(), 0);
}

#[test]
fn half_open_double_ended_meets_in_middle() {
    let mut r = NicheRange::new(u4(0), u4(4));
    assert_eq!(r.next().map(U4::as_u8), Some(0));
    assert_eq!(r.next_back().map(U4::as_u8), Some(3));
    assert_eq!(r.next().map(U4::as_u8), Some(1));
    assert_eq!(r.next_back().map(U4::as_u8), Some(2));
    assert_eq!(r.next(), None);
    assert_eq!(r.next_back(), None);
}

#[test]
fn inclusive_forward_and_len() {
    let r = NicheRangeInclusive::new(u4(2), u4(5));
    assert_eq!(r.len(), 4);
    let got: Vec<u8> = drain_inclusive(r).into_iter().map(U4::as_u8).collect();
    assert_eq!(got, vec![2, 3, 4, 5]);
}

#[test]
fn inclusive_single_element() {
    let mut r = NicheRangeInclusive::new(u4(7), u4(7));
    assert_eq!(r.len(), 1);
    assert_eq!(r.next().map(U4::as_u8), Some(7));
    assert_eq!(r.next(), None);
}

#[test]
fn inclusive_double_ended_meets_in_middle() {
    let mut r = NicheRangeInclusive::new(u4(0), u4(3));
    assert_eq!(r.len(), 4);
    assert_eq!(r.next().map(U4::as_u8), Some(0));
    assert_eq!(r.next_back().map(U4::as_u8), Some(3));
    assert_eq!(r.next().map(U4::as_u8), Some(1));
    assert_eq!(r.next_back().map(U4::as_u8), Some(2));
    assert_eq!(r.next(), None);
    assert_eq!(r.next_back(), None);
}

#[test]
fn inclusive_full_covers_domain() {
    let r = NicheRangeInclusive::<U3>::full();
    assert_eq!(r.len(), 8);
    let got: Vec<u8> = drain_inclusive(r).into_iter().map(U3::as_u8).collect();
    assert_eq!(got, vec![0, 1, 2, 3, 4, 5, 6, 7]);
}

#[test]
fn masked_construction_covers_every_byte() {
    for b in 0..=255u8 {
        assert_eq!(U4::new_masked(b).as_u8(), b % 16);
        assert_eq!(U7::new_masked(b).as_u8(), b % 128);
    }
}
