//! [`GappedArray`]: heap-backed storage with spare capacity and gaps, so
//! removals never move an element and insertions rarely do.

use vstd::prelude::*;
use vstd::arithmetic::power2::{lemma_pow2_unfold, pow2};

use crate::arity::{is_power_of_two, Arity};
use crate::bitmap::Bitmap;
use crate::count::{
    count_true, is_select, lemma_count_le_len, lemma_count_strict, lemma_count_take_step,
    lemma_count_update, lemma_count_zero,
};
use crate::fixed::{present_count, present_entries, present_pairs, FixedArray};
use crate::niche::Niche;
use crate::packed::{
    lemma_packed_view_count, lemma_packed_view_insert, lemma_packed_view_remove,
    lemma_packed_view_replace, lemma_rank_lt_count, packed_view, reversed, PackedArray,
};

verus! {

/// The values of the `Some` entries of `s`, in order.
pub open spec fn somes<T>(s: Seq<Option<T>>) -> Seq<T>
    decreases s.len(),
{
    if s.len() == 0 {
        Seq::empty()
    } else if s.last() is Some {
        somes(s.drop_last()).push(s.last()->0)
    } else {
        somes(s.drop_last())
    }
}

/// The occupancy of the first `width` physical slots of `s`: position `p` is
/// set exactly when `s[p]` is `Some`.
pub open spec fn presence<T>(s: Seq<Option<T>>, width: nat) -> Seq<bool> {
    Seq::new(width, |p: int| p < s.len() && s[p] is Some)
}

/// There are as many `Some` values as `Some` entries.
pub proof fn lemma_somes_len<T>(s: Seq<Option<T>>)
    ensures
        somes(s).len() == present_count(s),
    decreases s.len(),
{
    if s.len() > 0 {
        lemma_somes_len(s.drop_last());
    }
}

/// Collecting the values distributes over concatenation.
pub proof fn lemma_somes_concat<T>(a: Seq<Option<T>>, b: Seq<Option<T>>)
    ensures
        somes(a + b) == somes(a) + somes(b),
    decreases b.len(),
{
    if b.len() == 0 {
        assert(a + b =~= a);
        assert(somes(a) + somes(b) =~= somes(a));
    } else {
        lemma_somes_concat(a, b.drop_last());
        assert((a + b).drop_last() =~= a + b.drop_last());
        if b.last() is Some {
            assert(somes(a) + somes(b.drop_last()).push(b.last()->0) =~= (somes(a) + somes(
                b.drop_last(),
            )).push(b.last()->0));
        }
    }
}

/// Only `None` entries: no values.
pub proof fn lemma_somes_none<T>(s: Seq<Option<T>>)
    requires
        forall|p: int| 0 <= p < s.len() ==> #[trigger] s[p] is None,
    ensures
        somes(s) == Seq::<T>::empty(),
    decreases s.len(),
{
    if s.len() > 0 {
        lemma_somes_none(s.drop_last());
    }
}

/// The values of a single entry.
pub proof fn lemma_somes_single<T>(x: Option<T>)
    ensures
        somes(seq![x]) == (match x {
            Some(v) => seq![v],
            None => Seq::<T>::empty(),
        }),
{
    let s = seq![x];
    assert(s.drop_last() =~= Seq::<Option<T>>::empty());
    assert(somes(s.drop_last()) == Seq::<T>::empty());
    assert(s.last() == x);
    if x is Some {
        assert(Seq::<T>::empty().push(x->0) =~= seq![x->0]);
    }
}

/// Splitting around position `p`: the values before it, the value at it (if
/// any), and the values after it.
pub proof fn lemma_somes_around<T>(s: Seq<Option<T>>, p: int, x: Option<T>)
    requires
        0 <= p < s.len(),
    ensures
        somes(s.update(p, x)) == somes(s.take(p)) + somes(seq![x]) + somes(s.skip(p + 1)),
        somes(s.take(p)).len() == present_count(s.take(p)),
{
    let t = s.update(p, x);
    assert(t =~= s.take(p) + seq![x] + s.skip(p + 1));
    lemma_somes_concat(s.take(p) + seq![x], s.skip(p + 1));
    lemma_somes_concat(s.take(p), seq![x]);
    lemma_somes_len(s.take(p));
}

/// Filling an empty slot inserts its value at the slot's rank among the
/// values.
pub proof fn lemma_somes_fill<T>(s: Seq<Option<T>>, p: int, v: T)
    requires
        0 <= p < s.len(),
        s[p] is None,
    ensures
        somes(s.update(p, Some(v))) == somes(s).insert(present_count(s.take(p)) as int, v),
{
    lemma_somes_around(s, p, Some(v));
    lemma_somes_around(s, p, None);
    assert(s.update(p, None) =~= s);
    lemma_somes_single(Some(v));
    lemma_somes_single(None::<T>);
    let l = somes(s.take(p));
    let r = somes(s.skip(p + 1));
    assert(l + seq![v] + r =~= (l + Seq::<T>::empty() + r).insert(l.len() as int, v));
}

/// Emptying a full slot removes its value at the slot's rank.
pub proof fn lemma_somes_clear<T>(s: Seq<Option<T>>, p: int)
    requires
        0 <= p < s.len(),
        s[p] is Some,
    ensures
        somes(s.update(p, None)) == somes(s).remove(present_count(s.take(p)) as int),
        present_count(s.take(p)) < somes(s).len(),
        somes(s)[present_count(s.take(p)) as int] == s[p]->0,
{
    lemma_somes_around(s, p, None);
    lemma_somes_around(s, p, s[p]);
    assert(s.update(p, s[p]) =~= s);
    lemma_somes_single(s[p]);
    lemma_somes_single(None::<T>);
    let l = somes(s.take(p));
    let r = somes(s.skip(p + 1));
    assert(l + Seq::<T>::empty() + r =~= (l + seq![s[p]->0] + r).remove(l.len() as int));
}

/// Overwriting a full slot updates its value at the slot's rank.
pub proof fn lemma_somes_overwrite<T>(s: Seq<Option<T>>, p: int, v: T)
    requires
        0 <= p < s.len(),
        s[p] is Some,
    ensures
        somes(s.update(p, Some(v))) == somes(s).update(present_count(s.take(p)) as int, v),
{
    lemma_somes_around(s, p, Some(v));
    lemma_somes_around(s, p, s[p]);
    assert(s.update(p, s[p]) =~= s);
    lemma_somes_single(s[p]);
    lemma_somes_single(Some(v));
    let l = somes(s.take(p));
    let r = somes(s.skip(p + 1));
    assert(l + seq![v] + r =~= (l + seq![s[p]->0] + r).update(l.len() as int, v));
}

/// Filling an empty slot after every full one appends its value.
pub proof fn lemma_somes_append<T>(s: Seq<Option<T>>, p: int, v: T)
    requires
        0 <= p < s.len(),
        forall|q: int| p <= q < s.len() ==> #[trigger] s[q] is None,
    ensures
        somes(s.update(p, Some(v))) == somes(s).push(v),
{
    lemma_somes_fill(s, p, v);
    assert(s =~= s.take(p) + s.skip(p));
    lemma_somes_concat(s.take(p), s.skip(p));
    lemma_somes_none(s.skip(p));
    lemma_somes_len(s.take(p));
    assert(somes(s) =~= somes(s.take(p)));
}

/// The rank of a position in the presence bitmap is the number of full slots
/// before it.
pub proof fn lemma_presence_rank<T>(s: Seq<Option<T>>, width: nat, p: int)
    requires
        s.len() <= width,
        0 <= p <= s.len(),
    ensures
        count_true(presence(s, width).take(p)) == present_count(s.take(p)),
    decreases p,
{
    if p > 0 {
        lemma_presence_rank(s, width, p - 1);
        lemma_count_take_step(presence(s, width), p - 1);
        assert(s.take(p).drop_last() =~= s.take(p - 1));
    }
}

/// The presence bitmap counts every full slot.
pub proof fn lemma_presence_count<T>(s: Seq<Option<T>>, width: nat)
    requires
        s.len() <= width,
    ensures
        count_true(presence(s, width)) == present_count(s),
{
    let b = presence(s, width);
    lemma_presence_rank(s, width, s.len() as int);
    crate::count::lemma_count_clear_tail(b, s.len() as int);
    assert(s.take(s.len() as int) =~= s);
}

/// Smallest power-of-two capacity that holds `n` elements, capped at
/// `A::LEN`; `0` for `n == 0` (the unallocated state).
pub fn pow2_cap_for<A: Arity>(n: usize) -> (r: usize)
    ensures
        n == 0 ==> r == 0,
        n > 0 ==> is_power_of_two(r as nat) && r <= A::LEN && (n <= r || r == A::LEN) && (r == 1
            || r / 2 < n),
{
    proof {
        A::lemma_len();
    }
    if n == 0 {
        return 0;
    }
    let mut c: usize = 1;
    while c < n && c < A::LEN
        invariant
            n > 0,
            is_power_of_two(c as nat),
            is_power_of_two(A::LEN as nat),
            c <= A::LEN,
            c == 1 || c / 2 < n,
        decreases A::LEN - c,
    {
        c = c * 2;
    }
    c
}

/// Exponent of a power-of-two capacity: `cap == 2^r`.
pub fn cap_exp_of(cap: usize) -> (r: u8)
    requires
        is_power_of_two(cap as nat),
    ensures
        pow2(r as nat) == cap,
        r <= 8,
{
    let mut c: usize = cap;
    let mut e: u8 = 0;
    proof {
        vstd::arithmetic::power2::lemma2_to64();
    }
    while c > 1
        invariant
            is_power_of_two(c as nat),
            c * pow2(e as nat) == cap,
            e <= 8,
            e + (if c == 1 { 0int } else if c == 2 { 1 } else if c == 4 { 2 } else if c == 8 {
                3
            } else if c == 16 { 4 } else if c == 32 { 5 } else if c == 64 { 6 } else if c == 128 {
                7
            } else { 8 }) <= 8,
        decreases c,
    {
        let ghost old_c = c;
        let ghost old_e = e;
        c = c / 2;
        e = e + 1;
        proof {
            lemma_pow2_unfold(e as nat);
            assert(c * 2 == old_c);
            assert(c * pow2(e as nat) == c * (2 * pow2(old_e as nat)));
            assert(c * (2 * pow2(old_e as nat)) == (c * 2) * pow2(old_e as nat)) by (nonlinear_arith);
        }
    }
    e
}

/// Even-spread physical slot for the rank-`r` element among `count` live
/// elements across `cap` slots: `floor(r * cap / count)`.
pub fn spread_pos(r: usize, count: usize, cap: usize) -> (p: usize)
    requires
        0 < count <= cap,
        r < count,
        r * cap <= usize::MAX,
    ensures
        p == (r * cap) / (count as int),
        p < cap,
{
    proof {
        lemma_spread_below(r as int, count as int, cap as int);
    }
    r * cap / count
}

/// The spread position of a rank is below the capacity.
pub proof fn lemma_spread_below(r: int, count: int, cap: int)
    requires
        0 < count <= cap,
        0 <= r < count,
    ensures
        0 <= r * cap / count < cap,
{
    assert(r * cap < count * cap) by (nonlinear_arith)
        requires
            0 <= r < count,
            0 < cap,
    ;
    assert(0 <= r * cap) by (nonlinear_arith)
        requires
            0 <= r,
            0 < cap,
    ;
    assert(count * cap == cap * count) by (nonlinear_arith);
    vstd::arithmetic::div_mod::lemma_div_by_multiple_is_strongly_ordered(r * cap, count * cap, cap, count);
    vstd::arithmetic::div_mod::lemma_div_by_multiple(cap, count);
    vstd::arithmetic::div_mod::lemma_div_pos_is_pos(r * cap, count);
}

/// Spread positions of consecutive ranks are strictly increasing when the
/// capacity holds every element.
pub proof fn lemma_spread_step(r: int, count: int, cap: int)
    requires
        0 < count <= cap,
        0 <= r,
    ensures
        r * cap / count < (r + 1) * cap / count,
{
    assert((r + 1) * cap == r * cap + cap) by (nonlinear_arith);
    assert(0 <= r * cap) by (nonlinear_arith)
        requires
            0 <= r,
            0 < cap,
    ;
    vstd::arithmetic::div_mod::lemma_div_is_ordered(r * cap + count, r * cap + cap, count);
    vstd::arithmetic::div_mod::lemma_div_plus_one(r * cap, count);
}

/// `cap` is the capacity a gapped array allocates for `n` elements at arity
/// length `len`: zero for none, otherwise the smallest power of two that
/// holds `n`, capped at `len`.
pub open spec fn is_tight_cap(cap: nat, n: nat, len: nat) -> bool {
    if n == 0 {
        cap == 0
    } else {
        is_power_of_two(cap) && cap <= len && (n <= cap || cap == len) && (cap == 1 || cap / 2 < n)
    }
}

/// Lays `values` out evenly over `cap` fresh slots (the rank-`r` value at
/// [`spread_pos`]`(r, values.len(), cap)`), returning the occupancy of the
/// physical slots and the slots.
fn spread_values<T, A: Arity>(values: Vec<T>, cap: usize) -> (r: (A::Bitmap, Vec<Option<T>>))
    requires
        values@.len() <= cap <= A::LEN,
    ensures
        r.1@.len() == cap,
        somes(r.1@) == values@,
        r.0.bit_seq() == presence(r.1@, A::LEN as nat),
{
    proof {
        A::lemma_len();
    }
    let n = values.len();
    let ghost vals = values@;
    let mut slots: Vec<Option<T>> = Vec::new();
    let mut j: usize = 0;
    while j < cap
        invariant
            j <= cap,
            slots@.len() == j,
            forall|q: int| 0 <= q < j ==> #[trigger] slots@[q] is None,
        decreases cap - j,
    {
        slots.push(None);
        j = j + 1;
    }
    let mut live = A::Bitmap::zero();
    proof {
        live.lemma_shape();
        lemma_somes_none(slots@);
        assert(live.bit_seq() =~= presence(slots@, A::LEN as nat));
    }
    let mut rev = reversed(values);
    let mut k: usize = 0;
    while k < n
        invariant
            n == vals.len(),
            n <= cap <= A::LEN,
            A::LEN <= 256,
            A::LEN == <A::Index as Niche>::COUNT,
            A::LEN == <A::Bitmap as Bitmap>::WIDTH,
            k <= n,
            slots@.len() == cap,
            live.bit_seq() == presence(slots@, A::LEN as nat),
            somes(slots@) == vals.take(k as int),
            rev@.len() == n - k,
            forall|m: int| 0 <= m < rev@.len() ==> #[trigger] rev@[m] == vals[n - 1 - m],
            k < n ==> forall|q: int|
                (k * cap) / (n as int) <= q < cap ==> #[trigger] slots@[q] is None,
        decreases n - k,
    {
        let v = rev.pop().unwrap();
        assert(k * cap <= 256 * 256) by (nonlinear_arith)
            requires
                k <= 256,
                cap <= 256,
        ;
        let p = spread_pos(k, n, cap);
        let ghost before = slots@;
        let ghost lb = live;
        proof {
            lemma_somes_append(before, p as int, v);
            if k + 1 < n {
                lemma_spread_step(k as int, n as int, cap as int);
            }
        }
        slots.set(p, Some(v));
        match A::Index::try_from_usize(p) {
            Some(i) => {
                live = live.with_bit(i);
            },
            None => {},
        }
        proof {
            lb.lemma_shape();
            assert(live.bit_seq() =~= presence(slots@, A::LEN as nat));
            assert(vals.take(k + 1) =~= vals.take(k as int).push(v));
        }
        k = k + 1;
    }
    proof {
        assert(vals.take(n as int) =~= vals);
    }
    (live, slots)
}

/// The values of the full slots, in slot order.
fn collect_values<T>(slots: Vec<Option<T>>) -> (r: Vec<T>)
    ensures
        r@ == somes(slots@),
{
    let ghost s = slots@;
    let n = slots.len();
    let mut rev = reversed(slots);
    let mut out: Vec<T> = Vec::new();
    let mut k: usize = 0;
    while k < n
        invariant
            n == s.len(),
            k <= s.len(),
            rev@.len() == s.len() - k,
            forall|m: int| 0 <= m < rev@.len() ==> #[trigger] rev@[m] == s[s.len() - 1 - m],
            out@ == somes(s.take(k as int)),
        decreases s.len() - k,
    {
        let x = rev.pop().unwrap();
        proof {
            assert(s.take(k + 1).drop_last() =~= s.take(k as int));
            assert(s.take(k + 1).last() == x);
        }
        match x {
            Some(v) => out.push(v),
            None => {},
        }
        k = k + 1;
    }
    proof {
        assert(s.take(k as int) =~= s);
    }
    out
}

/// Heap-backed storage over arity `A` with spare capacity and gaps.
///
/// Present elements sit in ascending logical order among `capacity`
/// physical slots, with gaps, so removals never move an element and an
/// insertion moves elements only when no gap lies where the new one belongs.
/// The capacity grows by powers of two up to `A::LEN` and never shrinks.
///
/// Invariant: `occupancy` marks the present logical indices, `live` marks
/// the full physical slots, both have the same number of set bits, and the
/// `r`-th full slot holds the element of the `r`-th present index.
pub struct GappedArray<T, A: Arity> {
    occupancy: A::Bitmap,
    live: A::Bitmap,
    slots: Vec<Option<T>>,
}

impl<T, A: Arity> View for GappedArray<T, A> {
    type V = Seq<Option<T>>;

    /// Slot `i` is `Some(v)` when index `i` is present with value `v`.
    closed spec fn view(&self) -> Seq<Option<T>> {
        packed_view(self.occupancy.bit_seq(), somes(self.slots@))
    }
}

impl<T, A: Arity> GappedArray<T, A> {
    /// Well-formedness: the representation invariant described on the type.
    pub closed spec fn wf(&self) -> bool {
        &&& self.occupancy.bit_seq().len() == A::LEN
        &&& self.slots@.len() == 0 || (is_power_of_two(self.slots@.len()) && self.slots@.len()
            <= A::LEN)
        &&& self.live.bit_seq() == presence(self.slots@, A::LEN as nat)
        &&& count_true(self.occupancy.bit_seq()) == present_count(self.slots@)
    }

    /// The number of physical slots (`0` when unallocated).
    pub closed spec fn cap(&self) -> nat {
        self.slots@.len()
    }

    /// Creates an empty `GappedArray` (no allocation).
    pub fn new() -> (r: Self)
        ensures
            r.wf(),
            r@ == Seq::new(A::LEN as nat, |k: int| None::<T>),
            r.cap() == 0,
    {
        let occupancy = A::Bitmap::zero();
        let live = A::Bitmap::zero();
        let slots: Vec<Option<T>> = Vec::new();
        proof {
            A::lemma_len();
            occupancy.lemma_shape();
            lemma_count_zero(occupancy.bit_seq());
            assert(live.bit_seq() =~= presence(slots@, A::LEN as nat));
        }
        let r = GappedArray { occupancy, live, slots };
        assert(r@ =~= Seq::new(A::LEN as nat, |k: int| None::<T>));
        r
    }

    /// Returns the number of present elements.
    pub fn count(&self) -> (r: usize)
        requires
            self.wf(),
        ensures
            r == present_count(self@),
    {
        proof {
            A::lemma_len();
            lemma_packed_view_count(self.occupancy.bit_seq(), somes(self.slots@));
            lemma_count_le_len(self.occupancy.bit_seq());
        }
        self.occupancy.count_ones() as usize
    }

    /// Returns `true` if there are no present elements. The allocation may
    /// still be retained: capacity is not released on removal.
    pub fn is_empty(&self) -> (r: bool)
        requires
            self.wf(),
        ensures
            r == (present_count(self@) == 0),
    {
        self.count() == 0
    }

    /// Returns the allocated slot count (`0` when unallocated).
    pub fn capacity(&self) -> (r: usize)
        requires
            self.wf(),
        ensures
            r == self.cap(),
            r == 0 || is_power_of_two(r as nat),
            r <= A::LEN,
            present_count(self@) <= r,
    {
        proof {
            lemma_packed_view_count(self.occupancy.bit_seq(), somes(self.slots@));
            crate::fixed::lemma_present_count_le(self.slots@);
        }
        self.slots.len()
    }

    /// The present values, ascending by index.
    pub(crate) fn value_refs(&self) -> (r: Vec<&T>)
        requires
            self.wf(),
        ensures
            r@.map_values(|x: &T| *x) == somes(self@),
    {
        proof {
            lemma_somes_len(self.slots@);
            crate::packed::lemma_somes_packed_view(self.occupancy.bit_seq(), somes(self.slots@));
            assert(somes(self.slots@).take(somes(self.slots@).len() as int) =~= somes(self.slots@));
        }
        let ghost s = self.slots@;
        let mut out: Vec<&T> = Vec::new();
        let mut k: usize = 0;
        while k < self.slots.len()
            invariant
                k <= s.len(),
                s == self.slots@,
                out@.map_values(|x: &T| *x) == somes(s.take(k as int)),
            decreases s.len() - k,
        {
            proof {
                assert(s.take(k + 1).drop_last() =~= s.take(k as int));
                assert(s.take(k + 1).last() == s[k as int]);
            }
            match &self.slots[k] {
                Some(v) => {
                    out.push(v);
                },
                None => {},
            }
            k = k + 1;
            proof {
                assert(out@.map_values(|x: &T| *x) =~= somes(s.take(k as int)));
            }
        }
        proof {
            assert(s.take(k as int) =~= s);
        }
        out
    }

    /// Returns the logical-membership bitmap (zero when empty).
    pub fn bitmap(&self) -> (r: A::Bitmap)
        requires
            self.wf(),
        ensures
            r.bit_seq().len() == self@.len(),
            forall|k: int| 0 <= k < self@.len() ==> #[trigger] r.bit_seq()[k] == self@[k] is Some,
    {
        self.occupancy
    }

    /// The physical slot holding the element of rank `rank`.
    fn physical(&self, rank: u32) -> (p: usize)
        requires
            self.wf(),
            rank < count_true(self.occupancy.bit_seq()),
        ensures
            p < self.slots@.len(),
            self.slots@[p as int] is Some,
            present_count(self.slots@.take(p as int)) == rank,
            is_select(self.live.bit_seq(), rank as int, p as int),
    {
        proof {
            A::lemma_len();
            lemma_presence_count(self.slots@, A::LEN as nat);
        }
        match self.live.raw_select(rank) {
            Some(p) => {
                proof {
                    lemma_presence_rank(self.slots@, A::LEN as nat, p as int);
                }
                p
            },
            None => {
                proof {
                    assert(false);
                }
                0
            },
        }
    }

    /// Returns a reference to the element at `index`, or `None` if absent.
    pub fn get(&self, index: A::Index) -> (r: Option<&T>)
        requires
            self.wf(),
        ensures
            match r {
                Some(x) => self@[index.value() as int] == Some(*x),
                None => self@[index.value() as int] is None,
            },
    {
        proof {
            A::lemma_len();
            index.lemma_value();
        }
        if !self.occupancy.test(index) {
            return None;
        }
        let rank = self.occupancy.rank(index);
        proof {
            lemma_rank_lt_count(self.occupancy.bit_seq(), index.value() as int);
        }
        let p = self.physical(rank);
        proof {
            lemma_somes_clear(self.slots@, p as int);
        }
        match &self.slots[p] {
            Some(x) => Some(x),
            None => None,
        }
    }

    /// Returns a mutable reference to the element at `index`, or `None` if
    /// absent. Does not change which indices are present.
    pub fn get_mut(&mut self, index: A::Index) -> (r: Option<&mut T>)
        requires
            old(self).wf(),
        ensures
            final(self).wf(),
            old(self)@[index.value() as int] is None ==> r is None && final(self)@ == old(self)@,
            old(self)@[index.value() as int] is Some ==> r is Some && Some(*r->0) == old(
                self,
            )@[index.value() as int] && final(self)@ == old(self)@.update(
                index.value() as int,
                Some(*final(r->0)),
            ),
            final(self).cap() == old(self).cap(),
    {
        proof {
            A::lemma_len();
            index.lemma_value();
        }
        if !self.occupancy.test(index) {
            return None;
        }
        let rank = self.occupancy.rank(index);
        proof {
            lemma_rank_lt_count(self.occupancy.bit_seq(), index.value() as int);
        }
        let p = self.physical(rank);
        let ghost s0 = self.slots@;
        let ghost occ = self.occupancy.bit_seq();
        proof {
            lemma_somes_clear(s0, p as int);
        }
        let cell = &mut self.slots[p];
        let r = cell.as_mut();
        proof {
            lemma_somes_overwrite(s0, p as int, *final(r->0));
            lemma_somes_len(s0);
            lemma_packed_view_replace(occ, somes(s0), index.value() as int, *final(r->0));
            assert(presence(s0.update(p as int, Some(*final(r->0))), A::LEN as nat) =~= presence(
                s0,
                A::LEN as nat,
            ));
            lemma_somes_len(s0.update(p as int, Some(*final(r->0))));
        }
        r
    }

    /// Stores `value` at `index`, returning the value it displaced.
    ///
    /// A new element goes into a gap between its neighbours when there is
    /// one; otherwise the elements are laid out again evenly, in a larger
    /// block if the current one is full.
    pub fn insert(&mut self, index: A::Index, value: T) -> (r: Option<T>)
        requires
            old(self).wf(),
        ensures
            final(self).wf(),
            r == old(self)@[index.value() as int],
            final(self)@ == old(self)@.update(index.value() as int, Some(value)),
            old(self).cap() <= final(self).cap() <= A::LEN,
            final(self).cap() == old(self).cap() || is_tight_cap(
                final(self).cap(),
                present_count(final(self)@),
                A::LEN as nat,
            ),
    {
        proof {
            A::lemma_len();
            index.lemma_value();
        }
        if self.occupancy.test(index) {
            self.overwrite(index, value)
        } else {
            self.fill(index, value);
            None
        }
    }

    /// Replaces the element at a present `index`.
    fn overwrite(&mut self, index: A::Index, value: T) -> (r: Option<T>)
        requires
            old(self).wf(),
            old(self).occupancy.bit_seq()[index.value() as int],
        ensures
            final(self).wf(),
            r == old(self)@[index.value() as int],
            final(self)@ == old(self)@.update(index.value() as int, Some(value)),
            final(self).cap() == old(self).cap(),
    {
        proof {
            A::lemma_len();
            index.lemma_value();
        }
        let rank = self.occupancy.rank(index);
        proof {
            lemma_rank_lt_count(self.occupancy.bit_seq(), index.value() as int);
        }
        let p = self.physical(rank);
        let ghost s0 = self.slots@;
        let ghost occ = self.occupancy.bit_seq();
        proof {
            lemma_somes_len(s0);
            lemma_somes_clear(s0, p as int);
            lemma_somes_overwrite(s0, p as int, value);
            lemma_packed_view_replace(occ, somes(s0), index.value() as int, value);
            assert(presence(s0.update(p as int, Some(value)), A::LEN as nat) =~= presence(
                s0,
                A::LEN as nat,
            ));
            lemma_somes_len(s0.update(p as int, Some(value)));
        }
        let mut cell = Some(value);
        core::mem::swap(&mut self.slots[p], &mut cell);
        cell
    }

    /// The physical range `[lo, hi)` where an element of rank `rank` can go:
    /// after the slot of rank `rank - 1` and before the slot of rank `rank`.
    /// Every slot in the range is empty.
    fn gap(&self, rank: u32) -> (r: (usize, usize))
        requires
            self.wf(),
            rank <= count_true(self.occupancy.bit_seq()),
        ensures
            r.0 <= self.slots@.len(),
            r.1 <= self.slots@.len(),
            present_count(self.slots@.take(r.0 as int)) == rank,
            forall|q: int| r.0 <= q < r.1 ==> #[trigger] self.slots@[q] is None,
    {
        proof {
            A::lemma_len();
            lemma_presence_count(self.slots@, A::LEN as nat);
        }
        let count = self.occupancy.count_ones();
        let cap = self.slots.len();
        let lo: usize = if rank == 0 {
            0
        } else {
            let q = self.physical(rank - 1);
            proof {
                lemma_count_take_step(self.live.bit_seq(), q as int);
                lemma_presence_rank(self.slots@, A::LEN as nat, q as int);
                lemma_presence_rank(self.slots@, A::LEN as nat, q + 1);
            }
            q + 1
        };
        let hi: usize = if rank < count {
            self.physical(rank)
        } else {
            cap
        };
        proof {
            let b = self.live.bit_seq();
            lemma_presence_rank(self.slots@, A::LEN as nat, lo as int);
            assert forall|q: int| lo <= q < hi implies #[trigger] self.slots@[q] is None by {
                if self.slots@[q] is Some {
                    assert(b[q]);
                    crate::count::lemma_count_mono(b, lo as int, q);
                    if rank < count {
                        lemma_count_strict(b, q, hi as int);
                    } else {
                        lemma_rank_lt_count(b, q);
                    }
                }
            }
        }
        (lo, hi)
    }

    /// Stores `value` at an absent `index`.
    fn fill(&mut self, index: A::Index, value: T)
        requires
            old(self).wf(),
            !old(self).occupancy.bit_seq()[index.value() as int],
        ensures
            final(self).wf(),
            final(self)@ == old(self)@.update(index.value() as int, Some(value)),
            old(self).cap() <= final(self).cap() <= A::LEN,
            final(self).cap() == old(self).cap() || is_tight_cap(
                final(self).cap(),
                present_count(final(self)@),
                A::LEN as nat,
            ),
    {
        proof {
            A::lemma_len();
            index.lemma_value();
        }
        let ghost occ = self.occupancy.bit_seq();
        let ghost s0 = self.slots@;
        let ghost vals = somes(s0);
        let ghost i = index.value() as int;
        let rank = self.occupancy.rank(index);
        proof {
            lemma_somes_len(s0);
            crate::count::lemma_count_mono(occ, i, occ.len() as int);
            assert(occ.take(occ.len() as int) =~= occ);
            lemma_packed_view_insert(occ, vals, i, value);
            lemma_count_update(occ, i, true);
            lemma_count_le_len(occ.update(i, true));
        }
        let (lo, hi) = self.gap(rank);
        if lo < hi {
            let p = lo;
            proof {
                lemma_somes_fill(s0, p as int, value);
                lemma_somes_len(s0.update(p as int, Some(value)));
            }
            self.slots.set(p, Some(value));
            match A::Index::try_from_usize(p) {
                Some(q) => {
                    self.live = self.live.with_bit(q);
                },
                None => {},
            }
            self.occupancy = self.occupancy.with_bit(index);
            proof {
                assert(self.live.bit_seq() =~= presence(self.slots@, A::LEN as nat));
            }
        } else {
            let cap = self.slots.len();
            let mut slots: Vec<Option<T>> = Vec::new();
            core::mem::swap(&mut self.slots, &mut slots);
            let mut values = collect_values(slots);
            values.insert(rank as usize, value);
            let need = pow2_cap_for::<A>(values.len());
            let ncap = if need > cap {
                need
            } else {
                cap
            };
            let (nlive, nslots) = spread_values::<T, A>(values, ncap);
            self.live = nlive;
            self.slots = nslots;
            self.occupancy = self.occupancy.with_bit(index);
            proof {
                lemma_somes_len(self.slots@);
                lemma_packed_view_count(self.occupancy.bit_seq(), somes(self.slots@));
            }
        }
    }

    /// Removes and returns the element at `index`. The capacity is kept.
    pub fn remove(&mut self, index: A::Index) -> (r: Option<T>)
        requires
            old(self).wf(),
        ensures
            final(self).wf(),
            r == old(self)@[index.value() as int],
            final(self)@ == old(self)@.update(index.value() as int, None),
            final(self).cap() == old(self).cap(),
    {
        proof {
            A::lemma_len();
            index.lemma_value();
        }
        if !self.occupancy.test(index) {
            proof {
                assert(self@ =~= old(self)@.update(index.value() as int, None));
            }
            return None;
        }
        let rank = self.occupancy.rank(index);
        proof {
            lemma_rank_lt_count(self.occupancy.bit_seq(), index.value() as int);
        }
        let p = self.physical(rank);
        let mut whole = GappedArray::new();
        core::mem::swap(self, &mut whole);
        let GappedArray { occupancy, live, mut slots } = whole;
        let ghost occ = occupancy.bit_seq();
        let ghost s0 = slots@;
        let ghost i = index.value() as int;
        proof {
            live.lemma_shape();
            lemma_somes_len(s0);
            lemma_somes_clear(s0, p as int);
            lemma_packed_view_remove(occ, somes(s0), i);
            lemma_count_update(occ, i, false);
            lemma_somes_len(s0.update(p as int, None));
        }
        let mut cell: Option<T> = None;
        core::mem::swap(&mut slots[p], &mut cell);
        let nlive = match A::Index::try_from_usize(p) {
            Some(q) => live.without_bit(q),
            None => live,
        };
        let nocc = occupancy.without_bit(index);
        proof {
            assert(slots@ == s0.update(p as int, None));
            assert(nlive.bit_seq() =~= presence(slots@, A::LEN as nat));
        }
        *self = GappedArray { occupancy: nocc, live: nlive, slots };
        cell
    }

    /// If exactly one element is present, removes and returns it with its
    /// index; otherwise returns `None` and leaves the array unchanged.
    pub fn take_only_child(&mut self) -> (r: Option<(A::Index, T)>)
        requires
            old(self).wf(),
        ensures
            final(self).wf(),
            present_count(old(self)@) == 1 ==> (r matches Some((i, v)) && old(self)@[i.value() as int]
                == Some(v) && final(self)@ == old(self)@.update(i.value() as int, None)),
            present_count(old(self)@) != 1 ==> r is None && final(self)@ == old(self)@,
            final(self).cap() == old(self).cap(),
    {
        proof {
            A::lemma_len();
            lemma_packed_view_count(self.occupancy.bit_seq(), somes(self.slots@));
        }
        if self.count() != 1 {
            return None;
        }
        match self.occupancy.select(0) {
            Some(i) => {
                proof {
                    i.lemma_value();
                }
                match self.remove(i) {
                    Some(v) => Some((i, v)),
                    None => None,
                }
            },
            None => None,
        }
    }

    /// The present elements as `(A::Index, &T)`, ascending by index.
    pub fn iter_present(&self) -> (r: Vec<(A::Index, &T)>)
        requires
            self.wf(),
        ensures
            present_pairs(r@, self@),
    {
        proof {
            A::lemma_len();
        }
        let mut out: Vec<(A::Index, &T)> = Vec::new();
        let mut k: usize = 0;
        while k < A::LEN
            invariant
                self.wf(),
                k <= A::LEN,
                self@.len() == A::LEN,
                A::LEN == <A::Index as Niche>::COUNT,
                present_pairs(out@, self@.take(k as int)),
            decreases A::LEN - k,
        {
            proof {
                assert(self@.take(k + 1).drop_last() =~= self@.take(k as int));
                assert(self@.take(k + 1).last() == self@[k as int]);
            }
            match A::Index::try_from_usize(k) {
                Some(i) => {
                    match self.get(i) {
                        Some(x) => {
                            proof {
                                crate::fixed::lemma_present_pairs_push(
                                    out@,
                                    self@.take(k as int),
                                    i,
                                    x,
                                );
                                assert(self@.take(k as int).push(Some(*x)) =~= self@.take(k + 1));
                            }
                            out.push((i, x));
                        },
                        None => {
                            proof {
                                crate::fixed::lemma_present_pairs_skip(out@, self@.take(k as int));
                                assert(self@.take(k as int).push(None) =~= self@.take(k + 1));
                            }
                        },
                    }
                },
                None => {},
            }
            k = k + 1;
        }
        proof {
            assert(self@.take(k as int) =~= self@);
        }
        out
    }

    /// Repacks the present elements densely, dropping the gaps.
    pub fn into_packed(self) -> (r: PackedArray<T, A>)
        requires
            self.wf(),
        ensures
            r@ == self@,
    {
        let GappedArray { occupancy, live, slots } = self;
        let ghost s = slots@;
        let values = collect_values(slots);
        proof {
            lemma_somes_len(s);
        }
        PackedArray::from_parts(occupancy, values)
    }

    /// Consumes the array, yielding the present elements with their indices,
    /// ascending.
    pub fn into_pairs(self) -> (r: Vec<(A::Index, T)>)
        requires
            self.wf(),
        ensures
            present_entries(r@, self@),
    {
        self.into_packed().into_pairs()
    }

    /// Moves each element back into a full-width array of `Option<T>`.
    pub fn into_fixed(self) -> (r: FixedArray<Option<T>, A>)
        requires
            self.wf(),
        ensures
            r@ == self@,
    {
        self.into_packed().into_fixed()
    }

    /// Moves each `Some` element of a full-width array into an evenly spread
    /// block of the smallest power-of-two capacity that holds them; `None`
    /// slots are dropped. An all-`None` source gives the unallocated array.
    pub fn from_fixed(src: FixedArray<Option<T>, A>) -> (r: Self)
        ensures
            r.wf(),
            r@ == src@,
            is_tight_cap(r.cap(), present_count(src@), A::LEN as nat),
    {
        Self::from_packed(PackedArray::from_fixed(src))
    }

    /// Spreads the elements of a packed array evenly over a block of the
    /// smallest power-of-two capacity that holds them.
    pub fn from_packed(src: PackedArray<T, A>) -> (r: Self)
        ensures
            r.wf(),
            r@ == src@,
            is_tight_cap(r.cap(), present_count(src@), A::LEN as nat),
    {
        proof {
            A::lemma_len();
        }
        let (occupancy, values) = src.into_parts();
        let count = values.len();
        let cap = pow2_cap_for::<A>(count);
        proof {
            lemma_count_le_len(occupancy.bit_seq());
            lemma_packed_view_count(occupancy.bit_seq(), values@);
        }
        let (live, slots) = spread_values::<T, A>(values, cap);
        proof {
            lemma_somes_len(slots@);
            lemma_packed_view_count(occupancy.bit_seq(), somes(slots@));
        }
        GappedArray { occupancy, live, slots }
    }
}

impl<T, A: Arity> Default for GappedArray<T, A> {
    fn default() -> (r: Self)
        ensures
            r.wf(),
            r@ == Seq::new(A::LEN as nat, |k: int| None::<T>),
    {
        Self::new()
    }
}

} // verus!
