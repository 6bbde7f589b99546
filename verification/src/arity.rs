//! The [`Arity`] trait and its marker types, wiring an index type and a
//! bitmap backing together for each supported width.

use vstd::prelude::*;

use crate::bitmap::Bitmap;
use crate::niche::{Niche, U3, U4, U5, U6, U7};
use crate::u256::U256;

verus! {

/// `c` is a power of two no greater than 256 (every arity and every
/// capacity of an arity's storage is one).
pub open spec fn is_power_of_two(c: nat) -> bool {
    c == 1 || c == 2 || c == 4 || c == 8 || c == 16 || c == 32 || c == 64 || c == 128 || c == 256
}

/// A power-of-two arity (8, 16, 32, 64, 128, or 256) that ties together a
/// niche index type and a bitmap backing.
pub trait Arity {
    /// Number of slots.
    const LEN: usize;
    /// The niche index type (`U3`…`U7` or `u8`).
    type Index: Niche;
    /// The bitmap backing, whose `Index` matches `Self::Index`.
    type Bitmap: Bitmap<Index = Self::Index>;

    /// Index domain, slot count and bitmap width agree.
    proof fn lemma_len()
        ensures
            Self::LEN == <Self::Index as Niche>::COUNT,
            Self::LEN == <Self::Bitmap as Bitmap>::WIDTH,
            8 <= Self::LEN <= 256,
            is_power_of_two(Self::LEN as nat),
    ;
}

/// Arity 8.
#[derive(Clone, Copy, PartialEq, Eq, PartialOrd, Ord, Hash, Debug)]
pub struct Arity8;

/// Arity 16.
#[derive(Clone, Copy, PartialEq, Eq, PartialOrd, Ord, Hash, Debug)]
pub struct Arity16;

/// Arity 32.
#[derive(Clone, Copy, PartialEq, Eq, PartialOrd, Ord, Hash, Debug)]
pub struct Arity32;

/// Arity 64.
#[derive(Clone, Copy, PartialEq, Eq, PartialOrd, Ord, Hash, Debug)]
pub struct Arity64;

/// Arity 128.
#[derive(Clone, Copy, PartialEq, Eq, PartialOrd, Ord, Hash, Debug)]
pub struct Arity128;

/// Arity 256.
#[derive(Clone, Copy, PartialEq, Eq, PartialOrd, Ord, Hash, Debug)]
pub struct Arity256;

impl Arity for Arity8 {
    const LEN: usize = 8;

    type Index = U3;

    type Bitmap = u8;

    proof fn lemma_len() {
        assert(<Arity8 as Arity>::LEN == 8);
        crate::native::lemma_native_consts();
        U3::lemma_count_value();
    }
}

impl Arity for Arity16 {
    const LEN: usize = 16;

    type Index = U4;

    type Bitmap = u16;

    proof fn lemma_len() {
        assert(<Arity16 as Arity>::LEN == 16);
        crate::native::lemma_native_consts();
        U4::lemma_count_value();
    }
}

impl Arity for Arity32 {
    const LEN: usize = 32;

    type Index = U5;

    type Bitmap = u32;

    proof fn lemma_len() {
        assert(<Arity32 as Arity>::LEN == 32);
        crate::native::lemma_native_consts();
        U5::lemma_count_value();
    }
}

impl Arity for Arity64 {
    const LEN: usize = 64;

    type Index = U6;

    type Bitmap = u64;

    proof fn lemma_len() {
        assert(<Arity64 as Arity>::LEN == 64);
        crate::native::lemma_native_consts();
        U6::lemma_count_value();
    }
}

impl Arity for Arity128 {
    const LEN: usize = 128;

    type Index = U7;

    type Bitmap = u128;

    proof fn lemma_len() {
        assert(<Arity128 as Arity>::LEN == 128);
        crate::native::lemma_native_consts();
        U7::lemma_count_value();
    }
}

impl Arity for Arity256 {
    const LEN: usize = 256;

    type Index = u8;

    type Bitmap = U256;

    proof fn lemma_len() {
        assert(<Arity256 as Arity>::LEN == 256);
        crate::u256::lemma_u256_width();
        crate::niche::lemma_u8_count();
    }
}

} // verus!
