//! The logical wire form of the arrays: a [`FixedArray`] as its `LEN`
//! slots in order, a [`PackedArray`] or [`GappedArray`] as its present
//! `(index, value)` pairs in ascending index order.

use vstd::prelude::*;

use crate::arity::Arity;
use crate::fixed::{present_count, FixedArray};
use crate::gapped::GappedArray;
use crate::niche::Niche;
use crate::packed::PackedArray;

verus! {

/// Why a list of `(index, value)` pairs is not the logical form of an
/// array.
#[derive(Debug, Clone, Copy, PartialEq, Eq, Structural)]
pub enum PairsError {
    /// The pair at `position` names an index at or beyond the arity.
    IndexOutOfRange { position: usize, index: usize },
    /// The pair at `position` does not come strictly after the one before
    /// it (out of order or a duplicate).
    NotAscending { position: usize, index: usize },
}

/// The pair at `m` is acceptable after the pairs before it: its index is
/// below `len` and above the previous pair's.
pub open spec fn pair_ok<T>(pairs: Seq<(usize, T)>, m: int, len: nat) -> bool {
    &&& pairs[m].0 < len
    &&& (m == 0 || pairs[m - 1].0 < pairs[m].0)
}

/// The error for the first unacceptable pair, at `m`.
pub open spec fn pair_error<T>(pairs: Seq<(usize, T)>, m: int, len: nat) -> PairsError {
    if pairs[m].0 >= len {
        PairsError::IndexOutOfRange { position: m as usize, index: pairs[m].0 }
    } else {
        PairsError::NotAscending { position: m as usize, index: pairs[m].0 }
    }
}

/// `s` holds exactly the pairs: each pair's value at its index, and nothing
/// else.
pub open spec fn holds_exactly<T>(s: Seq<Option<T>>, pairs: Seq<(usize, T)>) -> bool {
    &&& present_count(s) == pairs.len()
    &&& forall|m: int| 0 <= m < pairs.len() ==> #[trigger] s[pairs[m].0 as int] == Some(pairs[m].1)
}

/// Decodes a packed array from its present `(index, value)` pairs, which
/// must name indices below `A::LEN` in strictly ascending order; the first
/// pair that does not is reported.
pub fn packed_from_pairs<T, A: Arity>(pairs: Vec<(usize, T)>) -> (r: Result<
    PackedArray<T, A>,
    PairsError,
>)
    ensures
        r is Ok <==> forall|m: int| 0 <= m < pairs@.len() ==> pair_ok(pairs@, m, A::LEN as nat),
        r matches Ok(p) ==> holds_exactly(p@, pairs@),
        r matches Err(e) ==> exists|m: int|
            0 <= m < pairs@.len() && !pair_ok(pairs@, m, A::LEN as nat) && (forall|j: int|
                0 <= j < m ==> pair_ok(pairs@, j, A::LEN as nat)) && e == pair_error(
                pairs@,
                m,
                A::LEN as nat,
            ),
{
    proof {
        A::lemma_len();
    }
    let ghost all = pairs@;
    let n = pairs.len();
    let mut rev = crate::packed::reversed(pairs);
    let mut out: PackedArray<T, A> = PackedArray::new();
    let mut prev: usize = 0;
    let mut k: usize = 0;
    proof {
        crate::gapped::lemma_somes_none(out@);
        crate::gapped::lemma_somes_len(out@);
    }
    while k < n
        invariant
            all == pairs@,
            n == all.len(),
            k <= n,
            A::LEN == <A::Index as Niche>::COUNT,
            out@.len() == A::LEN,
            rev@.len() == n - k,
            forall|m: int| 0 <= m < rev@.len() ==> #[trigger] rev@[m] == all[n - 1 - m],
            forall|j: int| 0 <= j < k ==> pair_ok(all, j, A::LEN as nat),
            k > 0 ==> prev == all[k - 1].0,
            holds_exactly(out@, all.take(k as int)),
            forall|q: int| 0 <= q < out@.len() && out@[q] is Some ==> k > 0 && q <= prev,
        decreases n - k,
    {
        let (index, value) = rev.pop().unwrap();
        proof {
            assert(all[k as int].0 == index && all[k as int].1 == value);
        }
        let i = match A::Index::try_from_usize(index) {
            Some(i) => i,
            None => {
                proof {
                    assert(!pair_ok(all, k as int, A::LEN as nat));
                }
                return Err(PairsError::IndexOutOfRange { position: k, index });
            },
        };
        if k > 0 && index <= prev {
            proof {
                assert(!pair_ok(all, k as int, A::LEN as nat));
            }
            return Err(PairsError::NotAscending { position: k, index });
        }
        proof {
            assert forall|m: int| 0 <= m < k implies #[trigger] all[m].0 <= prev by {
                assert(pair_ok(all, m, A::LEN as nat));
                assert(all.take(k as int)[m] == all[m]);
                assert(out@[all.take(k as int)[m].0 as int] == Some(all.take(k as int)[m].1));
            }
            assert(out@[index as int] is None);
            crate::laws::lemma_count_after_store(out@, index as int, value);
        }
        out.insert(i, value);
        proof {
            assert(all.take(k + 1).drop_last() =~= all.take(k as int));
            assert forall|m: int| 0 <= m < k + 1 implies #[trigger] out@[all.take(k + 1)[m].0 as int]
                == Some(all.take(k + 1)[m].1) by {
                if m < k {
                    assert(all.take(k + 1)[m] == all.take(k as int)[m]);
                    assert(all[m].0 <= prev);
                    assert(all[m].0 != index);
                }
            }
        }
        prev = index;
        k = k + 1;
    }
    proof {
        assert(all.take(n as int) =~= all);
    }
    Ok(out)
}

/// Decodes a gapped array from its present `(index, value)` pairs, with
/// the same checks as [`packed_from_pairs`]; the values are spread over the
/// smallest power-of-two capacity that holds them.
pub fn gapped_from_pairs<T, A: Arity>(pairs: Vec<(usize, T)>) -> (r: Result<
    GappedArray<T, A>,
    PairsError,
>)
    ensures
        r is Ok <==> forall|m: int| 0 <= m < pairs@.len() ==> pair_ok(pairs@, m, A::LEN as nat),
        r matches Ok(g) ==> g.wf() && holds_exactly(g@, pairs@),
        r matches Err(e) ==> exists|m: int|
            0 <= m < pairs@.len() && !pair_ok(pairs@, m, A::LEN as nat) && (forall|j: int|
                0 <= j < m ==> pair_ok(pairs@, j, A::LEN as nat)) && e == pair_error(
                pairs@,
                m,
                A::LEN as nat,
            ),
{
    match packed_from_pairs::<T, A>(pairs) {
        Ok(p) => Ok(GappedArray::from_packed(p)),
        Err(e) => Err(e),
    }
}

/// Decodes a full-width array from its slots in order; `None` unless there
/// are exactly `A::LEN` of them.
pub fn fixed_from_slots<T, A: Arity>(slots: Vec<T>) -> (r: Option<FixedArray<T, A>>)
    ensures
        r is Some <==> slots@.len() == A::LEN,
        r matches Some(a) ==> a@ == slots@,
{
    if slots.len() == A::LEN {
        Some(FixedArray::from_vec(slots))
    } else {
        None
    }
}

} // verus!
