//! [`Compact`]: the compact wire form of a [`PackedArray`] or
//! [`GappedArray`], a fixed-width little-endian bitmap followed by the
//! present values in ascending index order.

use vstd::prelude::*;

use crate::arity::Arity;
use crate::bitmap::Bitmap;
use crate::count::count_true;
use crate::gapped::{somes, GappedArray};
use crate::packed::{packed_view, PackedArray};

verus! {

/// The compact wire form of [`PackedArray`] and [`GappedArray`]: the
/// bitmap's little-endian bytes, then the present values, ascending.
pub struct Compact;

/// Why a compact form does not decode.
#[derive(Debug, Clone, Copy, PartialEq, Eq, Structural)]
pub enum CompactError {
    /// The bitmap has `len` bytes where the arity needs `WIDTH / 8`.
    BitmapLength { len: usize },
    /// The bitmap's popcount does not match the number of values.
    PopcountMismatch,
}

impl Compact {
    /// The bitmap and the present values of `array`, ascending.
    pub fn packed_parts<T, A: Arity>(array: &PackedArray<T, A>) -> (r: (A::Bitmap, Vec<&T>))
        ensures
            r.0.bit_seq().len() == array@.len(),
            forall|k: int| 0 <= k < array@.len() ==> #[trigger] r.0.bit_seq()[k] == array@[k] is Some,
            r.1@.map_values(|x: &T| *x) == somes(array@),
    {
        (array.bitmap(), array.value_refs())
    }

    /// Decodes a packed array from its bitmap bytes and its values.
    ///
    /// Fails with [`CompactError::BitmapLength`] unless `bitmap` has exactly
    /// `A::Bitmap::BYTES` bytes, and with [`CompactError::PopcountMismatch`]
    /// unless the bitmap has as many set bits as there are values.
    pub fn decode_packed<T, A: Arity>(bitmap: &[u8], values: Vec<T>) -> (r: Result<
        PackedArray<T, A>,
        CompactError,
    >)
        ensures
            bitmap@.len() != <A::Bitmap as Bitmap>::BYTES ==> r == Err::<PackedArray<T, A>, CompactError>(
                CompactError::BitmapLength { len: bitmap@.len() as usize },
            ),
            bitmap@.len() == <A::Bitmap as Bitmap>::BYTES ==> match r {
                Ok(p) => exists|b: A::Bitmap|
                    b.le_bytes() == bitmap@ && count_true(b.bit_seq()) == values@.len() && p@
                        == packed_view(b.bit_seq(), values@),
                Err(e) => e == CompactError::PopcountMismatch && exists|b: A::Bitmap|
                    b.le_bytes() == bitmap@ && count_true(b.bit_seq()) != values@.len(),
            },
    {
        match A::Bitmap::try_from_bytes(bitmap) {
            None => Err(CompactError::BitmapLength { len: bitmap.len() }),
            Some(b) => {
                if b.count_ones() as usize != values.len() {
                    Err(CompactError::PopcountMismatch)
                } else {
                    Ok(PackedArray::from_parts(b, values))
                }
            },
        }
    }

    /// The bitmap and the present values of `array`, ascending.
    pub fn gapped_parts<T, A: Arity>(array: &GappedArray<T, A>) -> (r: (A::Bitmap, Vec<&T>))
        requires
            array.wf(),
        ensures
            r.0.bit_seq().len() == array@.len(),
            forall|k: int| 0 <= k < array@.len() ==> #[trigger] r.0.bit_seq()[k] == array@[k] is Some,
            r.1@.map_values(|x: &T| *x) == somes(array@),
    {
        (array.bitmap(), array.value_refs())
    }

    /// Decodes a gapped array from its bitmap bytes and its values, with the
    /// same failures as [`decode_packed`](Compact::decode_packed); the values
    /// are spread over the smallest power-of-two capacity that holds them.
    pub fn decode_gapped<T, A: Arity>(bitmap: &[u8], values: Vec<T>) -> (r: Result<
        GappedArray<T, A>,
        CompactError,
    >)
        ensures
            bitmap@.len() != <A::Bitmap as Bitmap>::BYTES ==> r == Err::<GappedArray<T, A>, CompactError>(
                CompactError::BitmapLength { len: bitmap@.len() as usize },
            ),
            bitmap@.len() == <A::Bitmap as Bitmap>::BYTES ==> match r {
                Ok(g) => g.wf() && exists|b: A::Bitmap|
                    b.le_bytes() == bitmap@ && count_true(b.bit_seq()) == values@.len() && g@
                        == packed_view(b.bit_seq(), values@),
                Err(e) => e == CompactError::PopcountMismatch && exists|b: A::Bitmap|
                    b.le_bytes() == bitmap@ && count_true(b.bit_seq()) != values@.len(),
            },
    {
        match Self::decode_packed::<T, A>(bitmap, values) {
            Ok(p) => Ok(GappedArray::from_packed(p)),
            Err(e) => Err(e),
        }
    }
}

} // verus!
