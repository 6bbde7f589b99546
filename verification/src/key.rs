//! Byte-key helpers for arity 16, whose indices are nibbles: [`nibbles`]
//! splits a byte key into its high and low nibbles and [`unnibble`] joins
//! them back. At arity 256 an index is a byte, so
//! [`Path::try_from_bytes`] never fails and [`Path::as_bytes`] is its inverse.

use vstd::prelude::*;

use crate::arity::Arity16;
use crate::niche::{Niche, U4};
use crate::path::Path;

verus! {

/// Each byte of `key` as its high nibble followed by its low nibble.
pub open spec fn nibble_split(key: Seq<u8>) -> Seq<nat> {
    Seq::new(
        2 * key.len(),
        |j: int|
            if j % 2 == 0 {
                (key[j / 2] / 16) as nat
            } else {
                (key[j / 2] % 16) as nat
            },
    )
}

/// Consecutive pairs of nibbles, high first, joined into bytes.
pub open spec fn nibble_join(nibs: Seq<nat>) -> Seq<u8> {
    Seq::new(nibs.len() / 2, |k: int| (nibs[2 * k] * 16 + nibs[2 * k + 1]) as u8)
}

/// The integer values of a run of indices.
pub open spec fn values_of(path: Seq<U4>) -> Seq<nat> {
    path.map_values(|i: U4| i.value())
}

/// Splits each byte into its high nibble then its low nibble, so `[0xAB]`
/// becomes `[0xA, 0xB]`.
pub fn nibbles(key: &[u8]) -> (r: Path<Arity16>)
    ensures
        values_of(r@) == nibble_split(key@),
{
    let mut out: Vec<U4> = Vec::new();
    let mut k: usize = 0;
    while k < key.len()
        invariant
            k <= key@.len(),
            values_of(out@) == nibble_split(key@.take(k as int)),
        decreases key@.len() - k,
    {
        let b = key[k];
        assert(b >> 4u8 == b / 16) by (bit_vector);
        assert(b & 0xFu8 == b % 16) by (bit_vector);
        let hi = U4::new_masked(b >> 4);
        let lo = U4::new_masked(b & 0xF);
        let ghost before = out@;
        out.push(hi);
        out.push(lo);
        proof {
            let prev = key@.take(k as int);
            let next = key@.take(k + 1);
            hi.lemma_val();
            lo.lemma_val();
            assert(values_of(before).len() == before.len());
            assert(before.len() == 2 * k);
            assert forall|j: int| 0 <= j < 2 * next.len() implies #[trigger] values_of(out@)[j]
                == nibble_split(next)[j] by {
                assert(out@ == before.push(hi).push(lo));
                if j < 2 * k {
                    assert(j / 2 < k);
                    assert(out@[j] == before[j]);
                    assert(values_of(before)[j] == nibble_split(prev)[j]);
                    assert(prev[j / 2] == next[j / 2]);
                } else if j == 2 * k {
                    assert(j / 2 == k);
                } else {
                    assert(j / 2 == k);
                }
            }
            assert(values_of(out@) =~= nibble_split(next));
        }
        k = k + 1;
    }
    proof {
        assert(key@.take(k as int) =~= key@);
    }
    Path::from_vec(out)
}

/// The inverse of [`nibbles`]: `None` if `path` has an odd length.
pub fn unnibble(path: &[U4]) -> (r: Option<Vec<u8>>)
    ensures
        r is None <==> path@.len() % 2 == 1,
        r matches Some(bytes) ==> bytes@ == nibble_join(values_of(path@)),
{
    if path.len() % 2 != 0 {
        return None;
    }
    let half = path.len() / 2;
    let mut out: Vec<u8> = Vec::new();
    let mut k: usize = 0;
    while k < half
        invariant
            k <= half,
            2 * half == path@.len(),
            path@.len() <= usize::MAX,
            out@ == nibble_join(values_of(path@)).take(k as int),
        decreases half - k,
    {
        let hi = path[2 * k];
        let lo = path[2 * k + 1];
        proof {
            hi.lemma_val();
            lo.lemma_val();
        }
        let h = hi.as_u8();
        let l = lo.as_u8();
        assert((h << 4u8) | l == h * 16 + l) by (bit_vector)
            requires
                h < 16,
                l < 16,
        ;
        out.push((h << 4) | l);
        k = k + 1;
        proof {
            assert(out@ =~= nibble_join(values_of(path@)).take(k as int));
        }
    }
    proof {
        assert(nibble_join(values_of(path@)).take(k as int) =~= nibble_join(values_of(path@)));
    }
    Some(out)
}

/// Joining the nibbles of a key gives the key back: [`unnibble`] inverts
/// [`nibbles`].
pub proof fn lemma_unnibble_inverts_nibbles(key: Seq<u8>)
    ensures
        nibble_join(nibble_split(key)) == key,
        nibble_split(key).len() % 2 == 0,
{
    assert forall|k: int| 0 <= k < key.len() implies #[trigger] nibble_join(nibble_split(key))[k]
        == key[k] by {
        let b = key[k];
        assert((2 * k) / 2 == k);
        assert((2 * k + 1) / 2 == k);
        assert((2 * k) % 2 == 0);
        assert((2 * k + 1) % 2 == 1);
        assert((b / 16) * 16 + b % 16 == b);
    }
    assert(nibble_join(nibble_split(key)) =~= key);
}

/// Each byte of a key becomes two nibbles below 16, high first: the byte is
/// sixteen times its first nibble plus its second.
pub proof fn lemma_nibbles_high_first(key: Seq<u8>)
    ensures
        nibble_split(key).len() == 2 * key.len(),
        forall|k: int|
            0 <= k < key.len() ==> #[trigger] nibble_split(key)[2 * k] < 16 && nibble_split(key)[2
                * k + 1] < 16 && nibble_split(key)[2 * k] * 16 + nibble_split(key)[2 * k + 1]
                == key[k],
{
    assert forall|k: int| 0 <= k < key.len() implies #[trigger] nibble_split(key)[2 * k] < 16
        && nibble_split(key)[2 * k + 1] < 16 && nibble_split(key)[2 * k] * 16 + nibble_split(
        key,
    )[2 * k + 1] == key[k] by {
        let b = key[k];
        assert((2 * k) / 2 == k);
        assert((2 * k + 1) / 2 == k);
        assert((2 * k) % 2 == 0);
        assert((2 * k + 1) % 2 == 1);
        assert((b / 16) * 16 + b % 16 == b);
    }
}

} // verus!
