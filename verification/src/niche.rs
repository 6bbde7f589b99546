//! Niche integer index types `U3`–`U7`, the [`Niche`] trait, and the `u8`
//! arity-256 index.

use vstd::prelude::*;

use vstd::std_specs::cmp::PartialEqSpec;
use vstd::string::{StrSliceExecFns, StringExecFns};

use crate::range::NicheRangeInclusive;

verus! {

/// The error returned by `TryFrom<u8>` for a niche integer when the value is
/// out of range.
#[derive(Debug, Clone, Copy, PartialEq, Eq, Hash, Structural)]
pub struct TryFromIntError;

/// The character of digit `d` (below 36), in upper or lower case.
pub open spec fn digit_char(d: nat, upper: bool) -> char {
    if d < 10 {
        ('0' as nat + d) as char
    } else if upper {
        ('A' as nat + d - 10) as char
    } else {
        ('a' as nat + d - 10) as char
    }
}

/// The digits of `v` in base `base`, most significant first, without
/// leading zeros (`0` is the single digit `0`).
pub open spec fn digits(v: nat, base: nat, upper: bool) -> Seq<char>
    decreases v,
{
    if base < 2 || v < base {
        seq![digit_char(v, upper)]
    } else {
        proof {
            vstd::arithmetic::div_mod::lemma_div_decreases(v as int, base as int);
        }
        digits(v / base, base, upper).push(digit_char(v % base, upper))
    }
}

/// The number a digit character stands for: `0`–`9`, then `a`–`z` or
/// `A`–`Z` from 10; any other character stands for no digit (36).
pub open spec fn char_digit(c: char) -> nat {
    let x = c as nat;
    if 48 <= x <= 57 {
        (x - 48) as nat
    } else if 97 <= x <= 122 {
        (x - 87) as nat
    } else if 65 <= x <= 90 {
        (x - 55) as nat
    } else {
        36
    }
}

/// The number the digit characters `s` stand for in base `base`, most
/// significant first.
pub open spec fn digits_value(s: Seq<char>, base: nat) -> nat
    decreases s.len(),
{
    if s.len() == 0 {
        0
    } else {
        digits_value(s.drop_last(), base) * base + char_digit(s.last())
    }
}

/// A digit's character stands for the digit, in the requested case, and is
/// `0` only for zero.
proof fn lemma_digit_char(d: nat, upper: bool)
    requires
        d < 36,
    ensures
        char_digit(digit_char(d, upper)) == d,
        d >= 10 ==> (upper <==> digit_char(d, upper) as nat <= 90),
        digit_char(d, upper) == '0' <==> d == 0,
{
    if d < 10 {
        assert((('0' as nat + d) as char) as nat == 48 + d);
    } else if upper {
        assert((('A' as nat + d - 10) as char) as nat == 55 + d);
    } else {
        assert((('a' as nat + d - 10) as char) as nat == 87 + d);
    }
}

/// The digits of `v` in base `base` read back as `v`: each character is a
/// digit below `base`, letters are in the requested case, there is at least
/// one digit, and the first is `0` only when `v` is.
pub proof fn lemma_digits_read_back(v: nat, base: nat, upper: bool)
    requires
        2 <= base <= 36,
    ensures
        digits_value(digits(v, base, upper), base) == v,
        digits(v, base, upper).len() >= 1,
        forall|k: int|
            0 <= k < digits(v, base, upper).len() ==> #[trigger] char_digit(
                digits(v, base, upper)[k],
            ) < base,
        forall|k: int|
            0 <= k < digits(v, base, upper).len() && char_digit(digits(v, base, upper)[k]) >= 10
                ==> (upper <==> #[trigger] digits(v, base, upper)[k] as nat <= 90),
        digits(v, base, upper)[0] == '0' ==> v == 0,
    decreases v,
{
    let s = digits(v, base, upper);
    if v < base {
        lemma_digit_char(v, upper);
        assert(s.drop_last() =~= Seq::<char>::empty());
        assert(digits_value(s.drop_last(), base) == 0);
        assert(0 * base == 0);
    } else {
        vstd::arithmetic::div_mod::lemma_div_decreases(v as int, base as int);
        vstd::arithmetic::div_mod::lemma_fundamental_div_mod(v as int, base as int);
        let q = v / base;
        let r = v % base;
        lemma_digits_read_back(q, base, upper);
        lemma_digit_char(r, upper);
        let t = digits(q, base, upper);
        assert(s == t.push(digit_char(r, upper)));
        assert(s.drop_last() =~= t);
        assert(q >= 1) by (nonlinear_arith)
            requires
                v >= base,
                q == v / base,
                base >= 2,
        ;
        assert(s[0] == t[0]);
        assert(digits_value(s, base) == digits_value(t, base) * base + char_digit(s.last()));
        assert(q * base == base * q) by (nonlinear_arith);
        assert forall|k: int| 0 <= k < s.len() implies #[trigger] char_digit(s[k]) < base by {
            if k < t.len() {
                assert(s[k] == t[k]);
            }
        }
        assert forall|k: int| 0 <= k < s.len() && char_digit(s[k]) >= 10 implies (upper <==> #[trigger] s[k] as nat
            <= 90) by {
            if k < t.len() {
                assert(s[k] == t[k]);
            }
        }
    }
}

/// Appends digit `d` (below 16), in upper or lower case.
fn push_digit(out: &mut String, d: u32, upper: bool)
    requires
        d < 16,
    ensures
        final(out)@ == old(out)@.push(digit_char(d as nat, upper)),
{
    let table = if upper {
        "0123456789ABCDEF"
    } else {
        "0123456789abcdef"
    };
    proof {
        reveal_strlit("0123456789ABCDEF");
        reveal_strlit("0123456789abcdef");
        assert(table@[d as int] == digit_char(d as nat, upper)) by {
            if d < 10 {
            } else if upper {
            } else {
            }
        }
    }
    let one = table.substring_char(d as usize, (d + 1) as usize);
    out.append(one);
    proof {
        assert(one@ =~= seq![digit_char(d as nat, upper)]);
        assert(final(out)@ =~= old(out)@.push(digit_char(d as nat, upper)));
    }
}

/// Appends the digits of `v` in base `base`, most significant first.
fn push_digits(out: &mut String, v: u32, base: u32, upper: bool)
    requires
        2 <= base <= 16,
    ensures
        final(out)@ == old(out)@ + digits(v as nat, base as nat, upper),
    decreases v,
{
    if v < base {
        push_digit(out, v, upper);
        proof {
            assert(final(out)@ =~= old(out)@ + digits(v as nat, base as nat, upper));
        }
    } else {
        proof {
            assert(v / base < v) by (nonlinear_arith)
                requires
                    v >= base,
                    base >= 2,
            ;
        }
        push_digits(out, v / base, base, upper);
        push_digit(out, v % base, upper);
        proof {
            assert(final(out)@ =~= old(out)@ + digits(v as nat, base as nat, upper));
        }
    }
}

/// `v` in decimal: the decimal digits of `v`.
fn format_decimal(v: u8) -> (r: String)
    ensures
        r@ == digits(v as nat, 10, false),
{
    let mut out = String::new();
    push_digits(&mut out, v as u32, 10, false);
    proof {
        assert(out@ =~= digits(v as nat, 10, false));
    }
    out
}

/// `v` in lower-case hexadecimal, as `{:x}` writes it.
fn format_lower_hex(v: u8) -> (r: String)
    ensures
        r@ == digits(v as nat, 16, false),
{
    let mut out = String::new();
    push_digits(&mut out, v as u32, 16, false);
    proof {
        assert(out@ =~= digits(v as nat, 16, false));
    }
    out
}

/// `v` in upper-case hexadecimal, as `{:X}` writes it.
fn format_upper_hex(v: u8) -> (r: String)
    ensures
        r@ == digits(v as nat, 16, true),
{
    let mut out = String::new();
    push_digits(&mut out, v as u32, 16, true);
    proof {
        assert(out@ =~= digits(v as nat, 16, true));
    }
    out
}

/// `v` in binary, as `{:b}` writes it.
fn format_binary(v: u8) -> (r: String)
    ensures
        r@ == digits(v as nat, 2, false),
{
    let mut out = String::new();
    push_digits(&mut out, v as u32, 2, false);
    proof {
        assert(out@ =~= digits(v as nat, 2, false));
    }
    out
}

/// A fixed-domain integer index whose value is always `< COUNT`.
///
/// Implemented by `U3`–`U7` and by `u8` (the arity-256 index).
pub trait Niche: Copy + Ord + core::hash::Hash + core::fmt::Debug + Sized {
    /// Number of valid values (`2^BITS`): 8, 16, 32, 64, 128, or 256.
    const COUNT: usize;

    /// The index as an integer.
    spec fn value(self) -> nat;

    /// Every index is below `COUNT`, and `COUNT` is at most 256.
    proof fn lemma_value(self)
        ensures
            self.value() < Self::COUNT,
            Self::COUNT <= 256,
    ;

    /// `COUNT` is between 1 and 256.
    proof fn lemma_count()
        ensures
            1 <= Self::COUNT <= 256,
    ;

    /// An index is determined by its value.
    proof fn lemma_injective(a: Self, b: Self)
        requires
            a.value() == b.value(),
        ensures
            a == b,
    ;

    /// `==` on indices follows its specification and is equality of
    /// indices.
    proof fn lemma_eq_spec()
        ensures
            crate::path::eq_is_equality::<Self>(),
    ;

    /// Every value below `COUNT` is the value of some index.
    proof fn lemma_surjective(v: nat) -> (x: Self)
        requires
            v < Self::COUNT,
        ensures
            x.value() == v,
    ;

    /// Returns the value as a `usize`, always `< COUNT`.
    fn as_usize(self) -> (r: usize)
        ensures
            r == self.value(),
    ;

    /// Constructs from a `usize`, or `None` if `i >= COUNT`.
    fn try_from_usize(i: usize) -> (r: Option<Self>)
        ensures
            r is Some <==> i < Self::COUNT,
            r matches Some(x) ==> x.value() == i,
    ;

    /// Converts a byte slice into indices, one per byte, or returns `None` if
    /// any byte is out of range (`>= COUNT`).
    fn try_from_slice(slice: &[u8]) -> (r: Option<Vec<Self>>)
        ensures
            r is Some <==> forall|k: int| 0 <= k < slice@.len() ==> #[trigger] slice@[k] < Self::COUNT,
            r matches Some(v) ==> v@.len() == slice@.len() && forall|k: int|
                0 <= k < slice@.len() ==> #[trigger] v@[k].value() == slice@[k],
    {
        let mut out: Vec<Self> = Vec::new();
        let mut k: usize = 0;
        while k < slice.len()
            invariant
                k <= slice@.len(),
                out@.len() == k,
                forall|j: int| 0 <= j < k ==> #[trigger] slice@[j] < Self::COUNT,
                forall|j: int| 0 <= j < k ==> #[trigger] out@[j].value() == slice@[j],
            decreases slice@.len() - k,
        {
            match Self::try_from_usize(slice[k] as usize) {
                Some(x) => out.push(x),
                None => {
                    return None;
                },
            }
            k = k + 1;
        }
        Some(out)
    }

    /// Converts a byte slice whose every byte is below `COUNT` into indices,
    /// one per byte, without a separate range scan.
    fn from_slice_unchecked(slice: &[u8]) -> (r: Vec<Self>)
        requires
            forall|k: int| 0 <= k < slice@.len() ==> #[trigger] slice@[k] < Self::COUNT,
        ensures
            r@.len() == slice@.len(),
            forall|k: int| 0 <= k < slice@.len() ==> #[trigger] r@[k].value() == slice@[k],
    {
        let mut out: Vec<Self> = Vec::new();
        let mut k: usize = 0;
        while k < slice.len()
            invariant
                k <= slice@.len(),
                out@.len() == k,
                forall|j: int| 0 <= j < slice@.len() ==> #[trigger] slice@[j] < Self::COUNT,
                forall|j: int| 0 <= j < k ==> #[trigger] out@[j].value() == slice@[j],
            decreases slice@.len() - k,
        {
            let b = slice[k];
            assert(slice@[k as int] < Self::COUNT);
            match Self::try_from_usize(b as usize) {
                Some(x) => out.push(x),
                None => {},
            }
            k = k + 1;
        }
        out
    }

    /// The indices as bytes, one per index.
    fn as_u8_slice(slice: &[Self]) -> (r: Vec<u8>)
        ensures
            r@.len() == slice@.len(),
            forall|k: int| 0 <= k < slice@.len() ==> #[trigger] r@[k] == slice@[k].value(),
    {
        let mut out: Vec<u8> = Vec::new();
        let mut k: usize = 0;
        while k < slice.len()
            invariant
                k <= slice@.len(),
                out@.len() == k,
                forall|j: int| 0 <= j < k ==> #[trigger] out@[j] == slice@[j].value(),
            decreases slice@.len() - k,
        {
            let x = slice[k];
            proof {
                x.lemma_value();
            }
            out.push(x.as_usize() as u8);
            k = k + 1;
        }
        out
    }
}

/// The arity-256 domain size, for use outside this module.
pub proof fn lemma_u8_count()
    ensures
        <u8 as Niche>::COUNT == 256,
{
    assert(<u8 as Niche>::COUNT == 256);
}

impl Niche for u8 {
    const COUNT: usize = 256;

    open spec fn value(self) -> nat {
        self as nat
    }

    proof fn lemma_value(self) {
    }

    proof fn lemma_count() {
    }

    proof fn lemma_injective(a: Self, b: Self) {
    }

    proof fn lemma_eq_spec() {
    }

    proof fn lemma_surjective(v: nat) -> (x: Self) {
        v as u8
    }

    fn as_usize(self) -> usize {
        self as usize
    }

    fn try_from_usize(i: usize) -> Option<Self> {
        if i < 256 {
            Some(i as u8)
        } else {
            None
        }
    }
}

/// A 3-bit unsigned integer index (`0..8`).
///
/// A fieldless enum, so `Option<Self>` is one byte and every value is
/// statically `< 8`; variant `Vk` is the index `k`.
#[derive(Clone, Copy, Eq, PartialOrd, Ord, Hash, Debug)]
pub enum U3 {
    V0,
    V1,
    V2,
    V3,
    V4,
    V5,
    V6,
    V7,
}

impl U3 {
    /// Variant `Vk` is the index `k`: the variants are declared in the
    /// order of their values, so the derived ordering of indices, which
    /// follows the declaration, is the order of their values.
    #[verifier::rlimit(40)]
    pub proof fn lemma_variant_values()
        ensures
            U3::V0.val() == 0,
            U3::V1.val() == 1,
            U3::V2.val() == 2,
            U3::V3.val() == 3,
            U3::V4.val() == 4,
            U3::V5.val() == 5,
            U3::V6.val() == 6,
            U3::V7.val() == 7,
    {
    }

    /// Number of bits in the value's domain.
    pub const BITS: u32 = 3;
    /// Number of valid values (`2^BITS`).
    pub const COUNT: usize = 8;
    /// The smallest value (`0`).
    pub const MIN: U3 = U3::V0;
    /// The largest value (`COUNT - 1`).
    pub const MAX: U3 = U3::V7;

    /// The index as an integer.
    pub closed spec fn val(self) -> nat {
        match self {
            U3::V0 => 0,
            U3::V1 => 1,
            U3::V2 => 2,
            U3::V3 => 3,
            U3::V4 => 4,
            U3::V5 => 5,
            U3::V6 => 6,
            U3::V7 => 7,
        }
    }

    /// The index whose value is `v` (`v < COUNT`).
    pub closed spec fn of(v: nat) -> Self {
        match v as u8 {
            0 => U3::V0,
            1 => U3::V1,
            2 => U3::V2,
            3 => U3::V3,
            4 => U3::V4,
            5 => U3::V5,
            6 => U3::V6,
            7 => U3::V7,
            _ => U3::V0,
        }
    }

    /// Every index is below `COUNT` and is the index of its own value.
    pub proof fn lemma_val(self)
        ensures
            self.val() < 8,
            Self::of(self.val()) == self,
    {
        match self {
            U3::V0 => {},
            U3::V1 => {},
            U3::V2 => {},
            U3::V3 => {},
            U3::V4 => {},
            U3::V5 => {},
            U3::V6 => {},
            U3::V7 => {},
        }
    }

    /// The domain sizes, for use outside this module.
    pub proof fn lemma_count_value()
        ensures
            <U3 as Niche>::COUNT == 8,
            U3::COUNT == 8,
    {
        assert(<U3 as Niche>::COUNT == 8);
    }

    /// The index of a value below `COUNT` has that value.
    pub proof fn lemma_of(v: nat)
        requires
            v < 8,
        ensures
            Self::of(v).val() == v,
    {
    }

    /// Constructs from a `u8`, or `None` if `v >= COUNT`.
    pub fn try_new(v: u8) -> (r: Option<Self>)
        ensures
            r is Some <==> v < 8,
            r matches Some(x) ==> x.val() == v,
    {
        match v {
            0 => Some(U3::V0),
            1 => Some(U3::V1),
            2 => Some(U3::V2),
            3 => Some(U3::V3),
            4 => Some(U3::V4),
            5 => Some(U3::V5),
            6 => Some(U3::V6),
            7 => Some(U3::V7),
            _ => None,
        }
    }

    /// Constructs from a `u8` known to be below `COUNT`.
    pub fn new_unchecked(v: u8) -> (r: Self)
        requires
            v < 8,
        ensures
            r.val() == v,
    {
        match Self::try_new(v) {
            Some(x) => x,
            None => Self::MIN,
        }
    }

    /// Constructs from the low `BITS` bits of `v` (ignores the rest).
    pub fn new_masked(v: u8) -> (r: Self)
        ensures
            r.val() == v % 8,
    {
        assert(v & 7u8 == v % 8) by (bit_vector);
        Self::new_unchecked(v & 7u8)
    }

    /// Returns the value as a `u8`.
    pub fn as_u8(self) -> (r: u8)
        ensures
            r == self.val(),
    {
        match self {
            U3::V0 => 0,
            U3::V1 => 1,
            U3::V2 => 2,
            U3::V3 => 3,
            U3::V4 => 4,
            U3::V5 => 5,
            U3::V6 => 6,
            U3::V7 => 7,
        }
    }

    /// Iterates over all values ascending (`MIN..=MAX`); `len() == COUNT`.
    pub fn all() -> (r: NicheRangeInclusive<Self>)
        ensures
            r.remaining() == Seq::new(8, |k: int| k),
    {
        NicheRangeInclusive::full()
    }

    /// The value in decimal.
    pub fn to_decimal_string(self) -> (r: String)
        ensures
            r@ == digits(self.val(), 10, false),
    {
        format_decimal(self.as_u8())
    }

    /// The value in lower-case hexadecimal.
    pub fn to_lower_hex_string(self) -> (r: String)
        ensures
            r@ == digits(self.val(), 16, false),
    {
        format_lower_hex(self.as_u8())
    }

    /// The value in upper-case hexadecimal.
    pub fn to_upper_hex_string(self) -> (r: String)
        ensures
            r@ == digits(self.val(), 16, true),
    {
        format_upper_hex(self.as_u8())
    }

    /// The value in binary.
    pub fn to_binary_string(self) -> (r: String)
        ensures
            r@ == digits(self.val(), 2, false),
    {
        format_binary(self.as_u8())
    }

    /// Returns the value as a `usize`.
    pub fn as_usize(self) -> (r: usize)
        ensures
            r == self.val(),
    {
        self.as_u8() as usize
    }
}

impl Default for U3 {
    fn default() -> (r: Self)
        ensures
            r == U3::MIN,
    {
        U3::MIN
    }
}

impl Niche for U3 {
    const COUNT: usize = 8;

    open spec fn value(self) -> nat {
        self.val()
    }

    proof fn lemma_value(self) {
        self.lemma_val();
    }

    proof fn lemma_count() {
    }

    proof fn lemma_injective(a: Self, b: Self) {
        a.lemma_val();
        b.lemma_val();
    }

    proof fn lemma_eq_spec() {
        assert forall|x: Self, y: Self| #[trigger] x.eq_spec(&y) <==> x == y by {
            x.lemma_val();
            y.lemma_val();
        }
    }

    proof fn lemma_surjective(v: nat) -> (x: Self) {
        Self::lemma_of(v);
        Self::of(v)
    }

    fn as_usize(self) -> usize {
        self.as_u8() as usize
    }

    fn try_from_usize(i: usize) -> Option<Self> {
        if i < 8 {
            Some(Self::new_unchecked(i as u8))
        } else {
            None
        }
    }
}

impl vstd::std_specs::cmp::PartialEqSpecImpl for U3 {
    open spec fn obeys_eq_spec() -> bool {
        true
    }

    open spec fn eq_spec(&self, other: &Self) -> bool {
        *self == *other
    }
}

impl PartialEq for U3 {
    fn eq(&self, other: &Self) -> (r: bool) {
        let a = self.as_u8();
        let b = other.as_u8();
        proof {
            self.lemma_val();
            other.lemma_val();
        }
        let r = a == b;
        assert(r == (*self == *other));
        r
    }
}

impl TryFrom<u8> for U3 {
    type Error = TryFromIntError;

    fn try_from(v: u8) -> (r: Result<U3, TryFromIntError>) {
        match U3::try_new(v) {
            Some(x) => Ok(x),
            None => Err(TryFromIntError),
        }
    }
}

impl vstd::std_specs::convert::TryFromSpecImpl<u8> for U3 {
    open spec fn obeys_try_from_spec() -> bool {
        true
    }

    open spec fn try_from_spec(v: u8) -> Result<U3, TryFromIntError> {
        if v < 8 {
            Ok(U3::of(v as nat))
        } else {
            Err(TryFromIntError)
        }
    }
}

impl From<U3> for u8 {
    fn from(v: U3) -> (r: u8) {
        v.as_u8()
    }
}

impl vstd::std_specs::convert::FromSpecImpl<U3> for u8 {
    open spec fn obeys_from_spec() -> bool {
        true
    }

    open spec fn from_spec(v: U3) -> u8 {
        v.val() as u8
    }
}

impl From<U3> for usize {
    fn from(v: U3) -> (r: usize) {
        v.as_usize()
    }
}

impl vstd::std_specs::convert::FromSpecImpl<U3> for usize {
    open spec fn obeys_from_spec() -> bool {
        true
    }

    open spec fn from_spec(v: U3) -> usize {
        v.val() as usize
    }
}

/// A 4-bit unsigned integer index (`0..16`).
///
/// A fieldless enum, so `Option<Self>` is one byte and every value is
/// statically `< 16`; variant `Vk` is the index `k`.
#[derive(Clone, Copy, Eq, PartialOrd, Ord, Hash, Debug)]
pub enum U4 {
    V0,
    V1,
    V2,
    V3,
    V4,
    V5,
    V6,
    V7,
    V8,
    V9,
    V10,
    V11,
    V12,
    V13,
    V14,
    V15,
}

impl U4 {
    /// Variant `Vk` is the index `k`: the variants are declared in the
    /// order of their values, so the derived ordering of indices, which
    /// follows the declaration, is the order of their values.
    #[verifier::rlimit(40)]
    pub proof fn lemma_variant_values()
        ensures
            U4::V0.val() == 0,
            U4::V1.val() == 1,
            U4::V2.val() == 2,
            U4::V3.val() == 3,
            U4::V4.val() == 4,
            U4::V5.val() == 5,
            U4::V6.val() == 6,
            U4::V7.val() == 7,
            U4::V8.val() == 8,
            U4::V9.val() == 9,
            U4::V10.val() == 10,
            U4::V11.val() == 11,
            U4::V12.val() == 12,
            U4::V13.val() == 13,
            U4::V14.val() == 14,
            U4::V15.val() == 15,
    {
    }

    /// Number of bits in the value's domain.
    pub const BITS: u32 = 4;
    /// Number of valid values (`2^BITS`).
    pub const COUNT: usize = 16;
    /// The smallest value (`0`).
    pub const MIN: U4 = U4::V0;
    /// The largest value (`COUNT - 1`).
    pub const MAX: U4 = U4::V15;

    /// The index as an integer.
    pub closed spec fn val(self) -> nat {
        match self {
            U4::V0 => 0,
            U4::V1 => 1,
            U4::V2 => 2,
            U4::V3 => 3,
            U4::V4 => 4,
            U4::V5 => 5,
            U4::V6 => 6,
            U4::V7 => 7,
            U4::V8 => 8,
            U4::V9 => 9,
            U4::V10 => 10,
            U4::V11 => 11,
            U4::V12 => 12,
            U4::V13 => 13,
            U4::V14 => 14,
            U4::V15 => 15,
        }
    }

    /// The index whose value is `v` (`v < COUNT`).
    pub closed spec fn of(v: nat) -> Self {
        match v as u8 {
            0 => U4::V0,
            1 => U4::V1,
            2 => U4::V2,
            3 => U4::V3,
            4 => U4::V4,
            5 => U4::V5,
            6 => U4::V6,
            7 => U4::V7,
            8 => U4::V8,
            9 => U4::V9,
            10 => U4::V10,
            11 => U4::V11,
            12 => U4::V12,
            13 => U4::V13,
            14 => U4::V14,
            15 => U4::V15,
            _ => U4::V0,
        }
    }

    /// Every index is below `COUNT` and is the index of its own value.
    pub proof fn lemma_val(self)
        ensures
            self.val() < 16,
            Self::of(self.val()) == self,
    {
        match self {
            U4::V0 => {},
            U4::V1 => {},
            U4::V2 => {},
            U4::V3 => {},
            U4::V4 => {},
            U4::V5 => {},
            U4::V6 => {},
            U4::V7 => {},
            U4::V8 => {},
            U4::V9 => {},
            U4::V10 => {},
            U4::V11 => {},
            U4::V12 => {},
            U4::V13 => {},
            U4::V14 => {},
            U4::V15 => {},
        }
    }

    /// The domain sizes, for use outside this module.
    pub proof fn lemma_count_value()
        ensures
            <U4 as Niche>::COUNT == 16,
            U4::COUNT == 16,
    {
        assert(<U4 as Niche>::COUNT == 16);
    }

    /// The index of a value below `COUNT` has that value.
    pub proof fn lemma_of(v: nat)
        requires
            v < 16,
        ensures
            Self::of(v).val() == v,
    {
    }

    /// Constructs from a `u8`, or `None` if `v >= COUNT`.
    pub fn try_new(v: u8) -> (r: Option<Self>)
        ensures
            r is Some <==> v < 16,
            r matches Some(x) ==> x.val() == v,
    {
        match v {
            0 => Some(U4::V0),
            1 => Some(U4::V1),
            2 => Some(U4::V2),
            3 => Some(U4::V3),
            4 => Some(U4::V4),
            5 => Some(U4::V5),
            6 => Some(U4::V6),
            7 => Some(U4::V7),
            8 => Some(U4::V8),
            9 => Some(U4::V9),
            10 => Some(U4::V10),
            11 => Some(U4::V11),
            12 => Some(U4::V12),
            13 => Some(U4::V13),
            14 => Some(U4::V14),
            15 => Some(U4::V15),
            _ => None,
        }
    }

    /// Constructs from a `u8` known to be below `COUNT`.
    pub fn new_unchecked(v: u8) -> (r: Self)
        requires
            v < 16,
        ensures
            r.val() == v,
    {
        match Self::try_new(v) {
            Some(x) => x,
            None => Self::MIN,
        }
    }

    /// Constructs from the low `BITS` bits of `v` (ignores the rest).
    pub fn new_masked(v: u8) -> (r: Self)
        ensures
            r.val() == v % 16,
    {
        assert(v & 15u8 == v % 16) by (bit_vector);
        Self::new_unchecked(v & 15u8)
    }

    /// Returns the value as a `u8`.
    pub fn as_u8(self) -> (r: u8)
        ensures
            r == self.val(),
    {
        match self {
            U4::V0 => 0,
            U4::V1 => 1,
            U4::V2 => 2,
            U4::V3 => 3,
            U4::V4 => 4,
            U4::V5 => 5,
            U4::V6 => 6,
            U4::V7 => 7,
            U4::V8 => 8,
            U4::V9 => 9,
            U4::V10 => 10,
            U4::V11 => 11,
            U4::V12 => 12,
            U4::V13 => 13,
            U4::V14 => 14,
            U4::V15 => 15,
        }
    }

    /// Iterates over all values ascending (`MIN..=MAX`); `len() == COUNT`.
    pub fn all() -> (r: NicheRangeInclusive<Self>)
        ensures
            r.remaining() == Seq::new(16, |k: int| k),
    {
        NicheRangeInclusive::full()
    }

    /// The value in decimal.
    pub fn to_decimal_string(self) -> (r: String)
        ensures
            r@ == digits(self.val(), 10, false),
    {
        format_decimal(self.as_u8())
    }

    /// The value in lower-case hexadecimal.
    pub fn to_lower_hex_string(self) -> (r: String)
        ensures
            r@ == digits(self.val(), 16, false),
    {
        format_lower_hex(self.as_u8())
    }

    /// The value in upper-case hexadecimal.
    pub fn to_upper_hex_string(self) -> (r: String)
        ensures
            r@ == digits(self.val(), 16, true),
    {
        format_upper_hex(self.as_u8())
    }

    /// The value in binary.
    pub fn to_binary_string(self) -> (r: String)
        ensures
            r@ == digits(self.val(), 2, false),
    {
        format_binary(self.as_u8())
    }

    /// Returns the value as a `usize`.
    pub fn as_usize(self) -> (r: usize)
        ensures
            r == self.val(),
    {
        self.as_u8() as usize
    }
}

impl Default for U4 {
    fn default() -> (r: Self)
        ensures
            r == U4::MIN,
    {
        U4::MIN
    }
}

impl Niche for U4 {
    const COUNT: usize = 16;

    open spec fn value(self) -> nat {
        self.val()
    }

    proof fn lemma_value(self) {
        self.lemma_val();
    }

    proof fn lemma_count() {
    }

    proof fn lemma_injective(a: Self, b: Self) {
        a.lemma_val();
        b.lemma_val();
    }

    proof fn lemma_eq_spec() {
        assert forall|x: Self, y: Self| #[trigger] x.eq_spec(&y) <==> x == y by {
            x.lemma_val();
            y.lemma_val();
        }
    }

    proof fn lemma_surjective(v: nat) -> (x: Self) {
        Self::lemma_of(v);
        Self::of(v)
    }

    fn as_usize(self) -> usize {
        self.as_u8() as usize
    }

    fn try_from_usize(i: usize) -> Option<Self> {
        if i < 16 {
            Some(Self::new_unchecked(i as u8))
        } else {
            None
        }
    }
}

impl vstd::std_specs::cmp::PartialEqSpecImpl for U4 {
    open spec fn obeys_eq_spec() -> bool {
        true
    }

    open spec fn eq_spec(&self, other: &Self) -> bool {
        *self == *other
    }
}

impl PartialEq for U4 {
    fn eq(&self, other: &Self) -> (r: bool) {
        let a = self.as_u8();
        let b = other.as_u8();
        proof {
            self.lemma_val();
            other.lemma_val();
        }
        let r = a == b;
        assert(r == (*self == *other));
        r
    }
}

impl TryFrom<u8> for U4 {
    type Error = TryFromIntError;

    fn try_from(v: u8) -> (r: Result<U4, TryFromIntError>) {
        match U4::try_new(v) {
            Some(x) => Ok(x),
            None => Err(TryFromIntError),
        }
    }
}

impl vstd::std_specs::convert::TryFromSpecImpl<u8> for U4 {
    open spec fn obeys_try_from_spec() -> bool {
        true
    }

    open spec fn try_from_spec(v: u8) -> Result<U4, TryFromIntError> {
        if v < 16 {
            Ok(U4::of(v as nat))
        } else {
            Err(TryFromIntError)
        }
    }
}

impl From<U4> for u8 {
    fn from(v: U4) -> (r: u8) {
        v.as_u8()
    }
}

impl vstd::std_specs::convert::FromSpecImpl<U4> for u8 {
    open spec fn obeys_from_spec() -> bool {
        true
    }

    open spec fn from_spec(v: U4) -> u8 {
        v.val() as u8
    }
}

impl From<U4> for usize {
    fn from(v: U4) -> (r: usize) {
        v.as_usize()
    }
}

impl vstd::std_specs::convert::FromSpecImpl<U4> for usize {
    open spec fn obeys_from_spec() -> bool {
        true
    }

    open spec fn from_spec(v: U4) -> usize {
        v.val() as usize
    }
}

/// A 5-bit unsigned integer index (`0..32`).
///
/// A fieldless enum, so `Option<Self>` is one byte and every value is
/// statically `< 32`; variant `Vk` is the index `k`.
#[derive(Clone, Copy, Eq, PartialOrd, Ord, Hash, Debug)]
pub enum U5 {
    V0,
    V1,
    V2,
    V3,
    V4,
    V5,
    V6,
    V7,
    V8,
    V9,
    V10,
    V11,
    V12,
    V13,
    V14,
    V15,
    V16,
    V17,
    V18,
    V19,
    V20,
    V21,
    V22,
    V23,
    V24,
    V25,
    V26,
    V27,
    V28,
    V29,
    V30,
    V31,
}

impl U5 {
    /// Variant `Vk` is the index `k`: the variants are declared in the
    /// order of their values, so the derived ordering of indices, which
    /// follows the declaration, is the order of their values.
    #[verifier::rlimit(40)]
    pub proof fn lemma_variant_values()
        ensures
            U5::V0.val() == 0,
            U5::V1.val() == 1,
            U5::V2.val() == 2,
            U5::V3.val() == 3,
            U5::V4.val() == 4,
            U5::V5.val() == 5,
            U5::V6.val() == 6,
            U5::V7.val() == 7,
            U5::V8.val() == 8,
            U5::V9.val() == 9,
            U5::V10.val() == 10,
            U5::V11.val() == 11,
            U5::V12.val() == 12,
            U5::V13.val() == 13,
            U5::V14.val() == 14,
            U5::V15.val() == 15,
            U5::V16.val() == 16,
            U5::V17.val() == 17,
            U5::V18.val() == 18,
            U5::V19.val() == 19,
            U5::V20.val() == 20,
            U5::V21.val() == 21,
            U5::V22.val() == 22,
            U5::V23.val() == 23,
            U5::V24.val() == 24,
            U5::V25.val() == 25,
            U5::V26.val() == 26,
            U5::V27.val() == 27,
            U5::V28.val() == 28,
            U5::V29.val() == 29,
            U5::V30.val() == 30,
            U5::V31.val() == 31,
    {
    }

    /// Number of bits in the value's domain.
    pub const BITS: u32 = 5;
    /// Number of valid values (`2^BITS`).
    pub const COUNT: usize = 32;
    /// The smallest value (`0`).
    pub const MIN: U5 = U5::V0;
    /// The largest value (`COUNT - 1`).
    pub const MAX: U5 = U5::V31;

    /// The index as an integer.
    pub closed spec fn val(self) -> nat {
        match self {
            U5::V0 => 0,
            U5::V1 => 1,
            U5::V2 => 2,
            U5::V3 => 3,
            U5::V4 => 4,
            U5::V5 => 5,
            U5::V6 => 6,
            U5::V7 => 7,
            U5::V8 => 8,
            U5::V9 => 9,
            U5::V10 => 10,
            U5::V11 => 11,
            U5::V12 => 12,
            U5::V13 => 13,
            U5::V14 => 14,
            U5::V15 => 15,
            U5::V16 => 16,
            U5::V17 => 17,
            U5::V18 => 18,
            U5::V19 => 19,
            U5::V20 => 20,
            U5::V21 => 21,
            U5::V22 => 22,
            U5::V23 => 23,
            U5::V24 => 24,
            U5::V25 => 25,
            U5::V26 => 26,
            U5::V27 => 27,
            U5::V28 => 28,
            U5::V29 => 29,
            U5::V30 => 30,
            U5::V31 => 31,
        }
    }

    /// The index whose value is `v` (`v < COUNT`).
    pub closed spec fn of(v: nat) -> Self {
        match v as u8 {
            0 => U5::V0,
            1 => U5::V1,
            2 => U5::V2,
            3 => U5::V3,
            4 => U5::V4,
            5 => U5::V5,
            6 => U5::V6,
            7 => U5::V7,
            8 => U5::V8,
            9 => U5::V9,
            10 => U5::V10,
            11 => U5::V11,
            12 => U5::V12,
            13 => U5::V13,
            14 => U5::V14,
            15 => U5::V15,
            16 => U5::V16,
            17 => U5::V17,
            18 => U5::V18,
            19 => U5::V19,
            20 => U5::V20,
            21 => U5::V21,
            22 => U5::V22,
            23 => U5::V23,
            24 => U5::V24,
            25 => U5::V25,
            26 => U5::V26,
            27 => U5::V27,
            28 => U5::V28,
            29 => U5::V29,
            30 => U5::V30,
            31 => U5::V31,
            _ => U5::V0,
        }
    }

    /// Every index is below `COUNT` and is the index of its own value.
    pub proof fn lemma_val(self)
        ensures
            self.val() < 32,
            Self::of(self.val()) == self,
    {
        match self {
            U5::V0 => {},
            U5::V1 => {},
            U5::V2 => {},
            U5::V3 => {},
            U5::V4 => {},
            U5::V5 => {},
            U5::V6 => {},
            U5::V7 => {},
            U5::V8 => {},
            U5::V9 => {},
            U5::V10 => {},
            U5::V11 => {},
            U5::V12 => {},
            U5::V13 => {},
            U5::V14 => {},
            U5::V15 => {},
            U5::V16 => {},
            U5::V17 => {},
            U5::V18 => {},
            U5::V19 => {},
            U5::V20 => {},
            U5::V21 => {},
            U5::V22 => {},
            U5::V23 => {},
            U5::V24 => {},
            U5::V25 => {},
            U5::V26 => {},
            U5::V27 => {},
            U5::V28 => {},
            U5::V29 => {},
            U5::V30 => {},
            U5::V31 => {},
        }
    }

    /// The domain sizes, for use outside this module.
    pub proof fn lemma_count_value()
        ensures
            <U5 as Niche>::COUNT == 32,
            U5::COUNT == 32,
    {
        assert(<U5 as Niche>::COUNT == 32);
    }

    /// The index of a value below `COUNT` has that value.
    pub proof fn lemma_of(v: nat)
        requires
            v < 32,
        ensures
            Self::of(v).val() == v,
    {
    }

    /// Constructs from a `u8`, or `None` if `v >= COUNT`.
    pub fn try_new(v: u8) -> (r: Option<Self>)
        ensures
            r is Some <==> v < 32,
            r matches Some(x) ==> x.val() == v,
    {
        match v {
            0 => Some(U5::V0),
            1 => Some(U5::V1),
            2 => Some(U5::V2),
            3 => Some(U5::V3),
            4 => Some(U5::V4),
            5 => Some(U5::V5),
            6 => Some(U5::V6),
            7 => Some(U5::V7),
            8 => Some(U5::V8),
            9 => Some(U5::V9),
            10 => Some(U5::V10),
            11 => Some(U5::V11),
            12 => Some(U5::V12),
            13 => Some(U5::V13),
            14 => Some(U5::V14),
            15 => Some(U5::V15),
            16 => Some(U5::V16),
            17 => Some(U5::V17),
            18 => Some(U5::V18),
            19 => Some(U5::V19),
            20 => Some(U5::V20),
            21 => Some(U5::V21),
            22 => Some(U5::V22),
            23 => Some(U5::V23),
            24 => Some(U5::V24),
            25 => Some(U5::V25),
            26 => Some(U5::V26),
            27 => Some(U5::V27),
            28 => Some(U5::V28),
            29 => Some(U5::V29),
            30 => Some(U5::V30),
            31 => Some(U5::V31),
            _ => None,
        }
    }

    /// Constructs from a `u8` known to be below `COUNT`.
    pub fn new_unchecked(v: u8) -> (r: Self)
        requires
            v < 32,
        ensures
            r.val() == v,
    {
        match Self::try_new(v) {
            Some(x) => x,
            None => Self::MIN,
        }
    }

    /// Constructs from the low `BITS` bits of `v` (ignores the rest).
    pub fn new_masked(v: u8) -> (r: Self)
        ensures
            r.val() == v % 32,
    {
        assert(v & 31u8 == v % 32) by (bit_vector);
        Self::new_unchecked(v & 31u8)
    }

    /// Returns the value as a `u8`.
    pub fn as_u8(self) -> (r: u8)
        ensures
            r == self.val(),
    {
        match self {
            U5::V0 => 0,
            U5::V1 => 1,
            U5::V2 => 2,
            U5::V3 => 3,
            U5::V4 => 4,
            U5::V5 => 5,
            U5::V6 => 6,
            U5::V7 => 7,
            U5::V8 => 8,
            U5::V9 => 9,
            U5::V10 => 10,
            U5::V11 => 11,
            U5::V12 => 12,
            U5::V13 => 13,
            U5::V14 => 14,
            U5::V15 => 15,
            U5::V16 => 16,
            U5::V17 => 17,
            U5::V18 => 18,
            U5::V19 => 19,
            U5::V20 => 20,
            U5::V21 => 21,
            U5::V22 => 22,
            U5::V23 => 23,
            U5::V24 => 24,
            U5::V25 => 25,
            U5::V26 => 26,
            U5::V27 => 27,
            U5::V28 => 28,
            U5::V29 => 29,
            U5::V30 => 30,
            U5::V31 => 31,
        }
    }

    /// Iterates over all values ascending (`MIN..=MAX`); `len() == COUNT`.
    pub fn all() -> (r: NicheRangeInclusive<Self>)
        ensures
            r.remaining() == Seq::new(32, |k: int| k),
    {
        NicheRangeInclusive::full()
    }

    /// The value in decimal.
    pub fn to_decimal_string(self) -> (r: String)
        ensures
            r@ == digits(self.val(), 10, false),
    {
        format_decimal(self.as_u8())
    }

    /// The value in lower-case hexadecimal.
    pub fn to_lower_hex_string(self) -> (r: String)
        ensures
            r@ == digits(self.val(), 16, false),
    {
        format_lower_hex(self.as_u8())
    }

    /// The value in upper-case hexadecimal.
    pub fn to_upper_hex_string(self) -> (r: String)
        ensures
            r@ == digits(self.val(), 16, true),
    {
        format_upper_hex(self.as_u8())
    }

    /// The value in binary.
    pub fn to_binary_string(self) -> (r: String)
        ensures
            r@ == digits(self.val(), 2, false),
    {
        format_binary(self.as_u8())
    }

    /// Returns the value as a `usize`.
    pub fn as_usize(self) -> (r: usize)
        ensures
            r == self.val(),
    {
        self.as_u8() as usize
    }
}

impl Default for U5 {
    fn default() -> (r: Self)
        ensures
            r == U5::MIN,
    {
        U5::MIN
    }
}

impl Niche for U5 {
    const COUNT: usize = 32;

    open spec fn value(self) -> nat {
        self.val()
    }

    proof fn lemma_value(self) {
        self.lemma_val();
    }

    proof fn lemma_count() {
    }

    proof fn lemma_injective(a: Self, b: Self) {
        a.lemma_val();
        b.lemma_val();
    }

    proof fn lemma_eq_spec() {
        assert forall|x: Self, y: Self| #[trigger] x.eq_spec(&y) <==> x == y by {
            x.lemma_val();
            y.lemma_val();
        }
    }

    proof fn lemma_surjective(v: nat) -> (x: Self) {
        Self::lemma_of(v);
        Self::of(v)
    }

    fn as_usize(self) -> usize {
        self.as_u8() as usize
    }

    fn try_from_usize(i: usize) -> Option<Self> {
        if i < 32 {
            Some(Self::new_unchecked(i as u8))
        } else {
            None
        }
    }
}

impl vstd::std_specs::cmp::PartialEqSpecImpl for U5 {
    open spec fn obeys_eq_spec() -> bool {
        true
    }

    open spec fn eq_spec(&self, other: &Self) -> bool {
        *self == *other
    }
}

impl PartialEq for U5 {
    fn eq(&self, other: &Self) -> (r: bool) {
        let a = self.as_u8();
        let b = other.as_u8();
        proof {
            self.lemma_val();
            other.lemma_val();
        }
        let r = a == b;
        assert(r == (*self == *other));
        r
    }
}

impl TryFrom<u8> for U5 {
    type Error = TryFromIntError;

    fn try_from(v: u8) -> (r: Result<U5, TryFromIntError>) {
        match U5::try_new(v) {
            Some(x) => Ok(x),
            None => Err(TryFromIntError),
        }
    }
}

impl vstd::std_specs::convert::TryFromSpecImpl<u8> for U5 {
    open spec fn obeys_try_from_spec() -> bool {
        true
    }

    open spec fn try_from_spec(v: u8) -> Result<U5, TryFromIntError> {
        if v < 32 {
            Ok(U5::of(v as nat))
        } else {
            Err(TryFromIntError)
        }
    }
}

impl From<U5> for u8 {
    fn from(v: U5) -> (r: u8) {
        v.as_u8()
    }
}

impl vstd::std_specs::convert::FromSpecImpl<U5> for u8 {
    open spec fn obeys_from_spec() -> bool {
        true
    }

    open spec fn from_spec(v: U5) -> u8 {
        v.val() as u8
    }
}

impl From<U5> for usize {
    fn from(v: U5) -> (r: usize) {
        v.as_usize()
    }
}

impl vstd::std_specs::convert::FromSpecImpl<U5> for usize {
    open spec fn obeys_from_spec() -> bool {
        true
    }

    open spec fn from_spec(v: U5) -> usize {
        v.val() as usize
    }
}

/// A 6-bit unsigned integer index (`0..64`).
///
/// A fieldless enum, so `Option<Self>` is one byte and every value is
/// statically `< 64`; variant `Vk` is the index `k`.
#[derive(Clone, Copy, Eq, PartialOrd, Ord, Hash, Debug)]
pub enum U6 {
    V0,
    V1,
    V2,
    V3,
    V4,
    V5,
    V6,
    V7,
    V8,
    V9,
    V10,
    V11,
    V12,
    V13,
    V14,
    V15,
    V16,
    V17,
    V18,
    V19,
    V20,
    V21,
    V22,
    V23,
    V24,
    V25,
    V26,
    V27,
    V28,
    V29,
    V30,
    V31,
    V32,
    V33,
    V34,
    V35,
    V36,
    V37,
    V38,
    V39,
    V40,
    V41,
    V42,
    V43,
    V44,
    V45,
    V46,
    V47,
    V48,
    V49,
    V50,
    V51,
    V52,
    V53,
    V54,
    V55,
    V56,
    V57,
    V58,
    V59,
    V60,
    V61,
    V62,
    V63,
}

impl U6 {
    /// Variant `Vk` is the index `k`: the variants are declared in the
    /// order of their values, so the derived ordering of indices, which
    /// follows the declaration, is the order of their values.
    #[verifier::rlimit(40)]
    pub proof fn lemma_variant_values()
        ensures
            U6::V0.val() == 0,
            U6::V1.val() == 1,
            U6::V2.val() == 2,
            U6::V3.val() == 3,
            U6::V4.val() == 4,
            U6::V5.val() == 5,
            U6::V6.val() == 6,
            U6::V7.val() == 7,
            U6::V8.val() == 8,
            U6::V9.val() == 9,
            U6::V10.val() == 10,
            U6::V11.val() == 11,
            U6::V12.val() == 12,
            U6::V13.val() == 13,
            U6::V14.val() == 14,
            U6::V15.val() == 15,
            U6::V16.val() == 16,
            U6::V17.val() == 17,
            U6::V18.val() == 18,
            U6::V19.val() == 19,
            U6::V20.val() == 20,
            U6::V21.val() == 21,
            U6::V22.val() == 22,
            U6::V23.val() == 23,
            U6::V24.val() == 24,
            U6::V25.val() == 25,
            U6::V26.val() == 26,
            U6::V27.val() == 27,
            U6::V28.val() == 28,
            U6::V29.val() == 29,
            U6::V30.val() == 30,
            U6::V31.val() == 31,
            U6::V32.val() == 32,
            U6::V33.val() == 33,
            U6::V34.val() == 34,
            U6::V35.val() == 35,
            U6::V36.val() == 36,
            U6::V37.val() == 37,
            U6::V38.val() == 38,
            U6::V39.val() == 39,
            U6::V40.val() == 40,
            U6::V41.val() == 41,
            U6::V42.val() == 42,
            U6::V43.val() == 43,
            U6::V44.val() == 44,
            U6::V45.val() == 45,
            U6::V46.val() == 46,
            U6::V47.val() == 47,
            U6::V48.val() == 48,
            U6::V49.val() == 49,
            U6::V50.val() == 50,
            U6::V51.val() == 51,
            U6::V52.val() == 52,
            U6::V53.val() == 53,
            U6::V54.val() == 54,
            U6::V55.val() == 55,
            U6::V56.val() == 56,
            U6::V57.val() == 57,
            U6::V58.val() == 58,
            U6::V59.val() == 59,
            U6::V60.val() == 60,
            U6::V61.val() == 61,
            U6::V62.val() == 62,
            U6::V63.val() == 63,
    {
    }

    /// Number of bits in the value's domain.
    pub const BITS: u32 = 6;
    /// Number of valid values (`2^BITS`).
    pub const COUNT: usize = 64;
    /// The smallest value (`0`).
    pub const MIN: U6 = U6::V0;
    /// The largest value (`COUNT - 1`).
    pub const MAX: U6 = U6::V63;

    /// The index as an integer.
    pub closed spec fn val(self) -> nat {
        match self {
            U6::V0 => 0,
            U6::V1 => 1,
            U6::V2 => 2,
            U6::V3 => 3,
            U6::V4 => 4,
            U6::V5 => 5,
            U6::V6 => 6,
            U6::V7 => 7,
            U6::V8 => 8,
            U6::V9 => 9,
            U6::V10 => 10,
            U6::V11 => 11,
            U6::V12 => 12,
            U6::V13 => 13,
            U6::V14 => 14,
            U6::V15 => 15,
            U6::V16 => 16,
            U6::V17 => 17,
            U6::V18 => 18,
            U6::V19 => 19,
            U6::V20 => 20,
            U6::V21 => 21,
            U6::V22 => 22,
            U6::V23 => 23,
            U6::V24 => 24,
            U6::V25 => 25,
            U6::V26 => 26,
            U6::V27 => 27,
            U6::V28 => 28,
            U6::V29 => 29,
            U6::V30 => 30,
            U6::V31 => 31,
            U6::V32 => 32,
            U6::V33 => 33,
            U6::V34 => 34,
            U6::V35 => 35,
            U6::V36 => 36,
            U6::V37 => 37,
            U6::V38 => 38,
            U6::V39 => 39,
            U6::V40 => 40,
            U6::V41 => 41,
            U6::V42 => 42,
            U6::V43 => 43,
            U6::V44 => 44,
            U6::V45 => 45,
            U6::V46 => 46,
            U6::V47 => 47,
            U6::V48 => 48,
            U6::V49 => 49,
            U6::V50 => 50,
            U6::V51 => 51,
            U6::V52 => 52,
            U6::V53 => 53,
            U6::V54 => 54,
            U6::V55 => 55,
            U6::V56 => 56,
            U6::V57 => 57,
            U6::V58 => 58,
            U6::V59 => 59,
            U6::V60 => 60,
            U6::V61 => 61,
            U6::V62 => 62,
            U6::V63 => 63,
        }
    }

    /// The index whose value is `v` (`v < COUNT`).
    pub closed spec fn of(v: nat) -> Self {
        match v as u8 {
            0 => U6::V0,
            1 => U6::V1,
            2 => U6::V2,
            3 => U6::V3,
            4 => U6::V4,
            5 => U6::V5,
            6 => U6::V6,
            7 => U6::V7,
            8 => U6::V8,
            9 => U6::V9,
            10 => U6::V10,
            11 => U6::V11,
            12 => U6::V12,
            13 => U6::V13,
            14 => U6::V14,
            15 => U6::V15,
            16 => U6::V16,
            17 => U6::V17,
            18 => U6::V18,
            19 => U6::V19,
            20 => U6::V20,
            21 => U6::V21,
            22 => U6::V22,
            23 => U6::V23,
            24 => U6::V24,
            25 => U6::V25,
            26 => U6::V26,
            27 => U6::V27,
            28 => U6::V28,
            29 => U6::V29,
            30 => U6::V30,
            31 => U6::V31,
            32 => U6::V32,
            33 => U6::V33,
            34 => U6::V34,
            35 => U6::V35,
            36 => U6::V36,
            37 => U6::V37,
            38 => U6::V38,
            39 => U6::V39,
            40 => U6::V40,
            41 => U6::V41,
            42 => U6::V42,
            43 => U6::V43,
            44 => U6::V44,
            45 => U6::V45,
            46 => U6::V46,
            47 => U6::V47,
            48 => U6::V48,
            49 => U6::V49,
            50 => U6::V50,
            51 => U6::V51,
            52 => U6::V52,
            53 => U6::V53,
            54 => U6::V54,
            55 => U6::V55,
            56 => U6::V56,
            57 => U6::V57,
            58 => U6::V58,
            59 => U6::V59,
            60 => U6::V60,
            61 => U6::V61,
            62 => U6::V62,
            63 => U6::V63,
            _ => U6::V0,
        }
    }

    /// Every index is below `COUNT` and is the index of its own value.
    pub proof fn lemma_val(self)
        ensures
            self.val() < 64,
            Self::of(self.val()) == self,
    {
        match self {
            U6::V0 => {},
            U6::V1 => {},
            U6::V2 => {},
            U6::V3 => {},
            U6::V4 => {},
            U6::V5 => {},
            U6::V6 => {},
            U6::V7 => {},
            U6::V8 => {},
            U6::V9 => {},
            U6::V10 => {},
            U6::V11 => {},
            U6::V12 => {},
            U6::V13 => {},
            U6::V14 => {},
            U6::V15 => {},
            U6::V16 => {},
            U6::V17 => {},
            U6::V18 => {},
            U6::V19 => {},
            U6::V20 => {},
            U6::V21 => {},
            U6::V22 => {},
            U6::V23 => {},
            U6::V24 => {},
            U6::V25 => {},
            U6::V26 => {},
            U6::V27 => {},
            U6::V28 => {},
            U6::V29 => {},
            U6::V30 => {},
            U6::V31 => {},
            U6::V32 => {},
            U6::V33 => {},
            U6::V34 => {},
            U6::V35 => {},
            U6::V36 => {},
            U6::V37 => {},
            U6::V38 => {},
            U6::V39 => {},
            U6::V40 => {},
            U6::V41 => {},
            U6::V42 => {},
            U6::V43 => {},
            U6::V44 => {},
            U6::V45 => {},
            U6::V46 => {},
            U6::V47 => {},
            U6::V48 => {},
            U6::V49 => {},
            U6::V50 => {},
            U6::V51 => {},
            U6::V52 => {},
            U6::V53 => {},
            U6::V54 => {},
            U6::V55 => {},
            U6::V56 => {},
            U6::V57 => {},
            U6::V58 => {},
            U6::V59 => {},
            U6::V60 => {},
            U6::V61 => {},
            U6::V62 => {},
            U6::V63 => {},
        }
    }

    /// The domain sizes, for use outside this module.
    pub proof fn lemma_count_value()
        ensures
            <U6 as Niche>::COUNT == 64,
            U6::COUNT == 64,
    {
        assert(<U6 as Niche>::COUNT == 64);
    }

    /// The index of a value below `COUNT` has that value.
    pub proof fn lemma_of(v: nat)
        requires
            v < 64,
        ensures
            Self::of(v).val() == v,
    {
    }

    /// Constructs from a `u8`, or `None` if `v >= COUNT`.
    pub fn try_new(v: u8) -> (r: Option<Self>)
        ensures
            r is Some <==> v < 64,
            r matches Some(x) ==> x.val() == v,
    {
        match v {
            0 => Some(U6::V0),
            1 => Some(U6::V1),
            2 => Some(U6::V2),
            3 => Some(U6::V3),
            4 => Some(U6::V4),
            5 => Some(U6::V5),
            6 => Some(U6::V6),
            7 => Some(U6::V7),
            8 => Some(U6::V8),
            9 => Some(U6::V9),
            10 => Some(U6::V10),
            11 => Some(U6::V11),
            12 => Some(U6::V12),
            13 => Some(U6::V13),
            14 => Some(U6::V14),
            15 => Some(U6::V15),
            16 => Some(U6::V16),
            17 => Some(U6::V17),
            18 => Some(U6::V18),
            19 => Some(U6::V19),
            20 => Some(U6::V20),
            21 => Some(U6::V21),
            22 => Some(U6::V22),
            23 => Some(U6::V23),
            24 => Some(U6::V24),
            25 => Some(U6::V25),
            26 => Some(U6::V26),
            27 => Some(U6::V27),
            28 => Some(U6::V28),
            29 => Some(U6::V29),
            30 => Some(U6::V30),
            31 => Some(U6::V31),
            32 => Some(U6::V32),
            33 => Some(U6::V33),
            34 => Some(U6::V34),
            35 => Some(U6::V35),
            36 => Some(U6::V36),
            37 => Some(U6::V37),
            38 => Some(U6::V38),
            39 => Some(U6::V39),
            40 => Some(U6::V40),
            41 => Some(U6::V41),
            42 => Some(U6::V42),
            43 => Some(U6::V43),
            44 => Some(U6::V44),
            45 => Some(U6::V45),
            46 => Some(U6::V46),
            47 => Some(U6::V47),
            48 => Some(U6::V48),
            49 => Some(U6::V49),
            50 => Some(U6::V50),
            51 => Some(U6::V51),
            52 => Some(U6::V52),
            53 => Some(U6::V53),
            54 => Some(U6::V54),
            55 => Some(U6::V55),
            56 => Some(U6::V56),
            57 => Some(U6::V57),
            58 => Some(U6::V58),
            59 => Some(U6::V59),
            60 => Some(U6::V60),
            61 => Some(U6::V61),
            62 => Some(U6::V62),
            63 => Some(U6::V63),
            _ => None,
        }
    }

    /// Constructs from a `u8` known to be below `COUNT`.
    pub fn new_unchecked(v: u8) -> (r: Self)
        requires
            v < 64,
        ensures
            r.val() == v,
    {
        match Self::try_new(v) {
            Some(x) => x,
            None => Self::MIN,
        }
    }

    /// Constructs from the low `BITS` bits of `v` (ignores the rest).
    pub fn new_masked(v: u8) -> (r: Self)
        ensures
            r.val() == v % 64,
    {
        assert(v & 63u8 == v % 64) by (bit_vector);
        Self::new_unchecked(v & 63u8)
    }

    /// Returns the value as a `u8`.
    pub fn as_u8(self) -> (r: u8)
        ensures
            r == self.val(),
    {
        match self {
            U6::V0 => 0,
            U6::V1 => 1,
            U6::V2 => 2,
            U6::V3 => 3,
            U6::V4 => 4,
            U6::V5 => 5,
            U6::V6 => 6,
            U6::V7 => 7,
            U6::V8 => 8,
            U6::V9 => 9,
            U6::V10 => 10,
            U6::V11 => 11,
            U6::V12 => 12,
            U6::V13 => 13,
            U6::V14 => 14,
            U6::V15 => 15,
            U6::V16 => 16,
            U6::V17 => 17,
            U6::V18 => 18,
            U6::V19 => 19,
            U6::V20 => 20,
            U6::V21 => 21,
            U6::V22 => 22,
            U6::V23 => 23,
            U6::V24 => 24,
            U6::V25 => 25,
            U6::V26 => 26,
            U6::V27 => 27,
            U6::V28 => 28,
            U6::V29 => 29,
            U6::V30 => 30,
            U6::V31 => 31,
            U6::V32 => 32,
            U6::V33 => 33,
            U6::V34 => 34,
            U6::V35 => 35,
            U6::V36 => 36,
            U6::V37 => 37,
            U6::V38 => 38,
            U6::V39 => 39,
            U6::V40 => 40,
            U6::V41 => 41,
            U6::V42 => 42,
            U6::V43 => 43,
            U6::V44 => 44,
            U6::V45 => 45,
            U6::V46 => 46,
            U6::V47 => 47,
            U6::V48 => 48,
            U6::V49 => 49,
            U6::V50 => 50,
            U6::V51 => 51,
            U6::V52 => 52,
            U6::V53 => 53,
            U6::V54 => 54,
            U6::V55 => 55,
            U6::V56 => 56,
            U6::V57 => 57,
            U6::V58 => 58,
            U6::V59 => 59,
            U6::V60 => 60,
            U6::V61 => 61,
            U6::V62 => 62,
            U6::V63 => 63,
        }
    }

    /// Iterates over all values ascending (`MIN..=MAX`); `len() == COUNT`.
    pub fn all() -> (r: NicheRangeInclusive<Self>)
        ensures
            r.remaining() == Seq::new(64, |k: int| k),
    {
        NicheRangeInclusive::full()
    }

    /// The value in decimal.
    pub fn to_decimal_string(self) -> (r: String)
        ensures
            r@ == digits(self.val(), 10, false),
    {
        format_decimal(self.as_u8())
    }

    /// The value in lower-case hexadecimal.
    pub fn to_lower_hex_string(self) -> (r: String)
        ensures
            r@ == digits(self.val(), 16, false),
    {
        format_lower_hex(self.as_u8())
    }

    /// The value in upper-case hexadecimal.
    pub fn to_upper_hex_string(self) -> (r: String)
        ensures
            r@ == digits(self.val(), 16, true),
    {
        format_upper_hex(self.as_u8())
    }

    /// The value in binary.
    pub fn to_binary_string(self) -> (r: String)
        ensures
            r@ == digits(self.val(), 2, false),
    {
        format_binary(self.as_u8())
    }

    /// Returns the value as a `usize`.
    pub fn as_usize(self) -> (r: usize)
        ensures
            r == self.val(),
    {
        self.as_u8() as usize
    }
}

impl Default for U6 {
    fn default() -> (r: Self)
        ensures
            r == U6::MIN,
    {
        U6::MIN
    }
}

impl Niche for U6 {
    const COUNT: usize = 64;

    open spec fn value(self) -> nat {
        self.val()
    }

    proof fn lemma_value(self) {
        self.lemma_val();
    }

    proof fn lemma_count() {
    }

    proof fn lemma_injective(a: Self, b: Self) {
        a.lemma_val();
        b.lemma_val();
    }

    proof fn lemma_eq_spec() {
        assert forall|x: Self, y: Self| #[trigger] x.eq_spec(&y) <==> x == y by {
            x.lemma_val();
            y.lemma_val();
        }
    }

    proof fn lemma_surjective(v: nat) -> (x: Self) {
        Self::lemma_of(v);
        Self::of(v)
    }

    fn as_usize(self) -> usize {
        self.as_u8() as usize
    }

    fn try_from_usize(i: usize) -> Option<Self> {
        if i < 64 {
            Some(Self::new_unchecked(i as u8))
        } else {
            None
        }
    }
}

impl vstd::std_specs::cmp::PartialEqSpecImpl for U6 {
    open spec fn obeys_eq_spec() -> bool {
        true
    }

    open spec fn eq_spec(&self, other: &Self) -> bool {
        *self == *other
    }
}

impl PartialEq for U6 {
    fn eq(&self, other: &Self) -> (r: bool) {
        let a = self.as_u8();
        let b = other.as_u8();
        proof {
            self.lemma_val();
            other.lemma_val();
        }
        let r = a == b;
        assert(r == (*self == *other));
        r
    }
}

impl TryFrom<u8> for U6 {
    type Error = TryFromIntError;

    fn try_from(v: u8) -> (r: Result<U6, TryFromIntError>) {
        match U6::try_new(v) {
            Some(x) => Ok(x),
            None => Err(TryFromIntError),
        }
    }
}

impl vstd::std_specs::convert::TryFromSpecImpl<u8> for U6 {
    open spec fn obeys_try_from_spec() -> bool {
        true
    }

    open spec fn try_from_spec(v: u8) -> Result<U6, TryFromIntError> {
        if v < 64 {
            Ok(U6::of(v as nat))
        } else {
            Err(TryFromIntError)
        }
    }
}

impl From<U6> for u8 {
    fn from(v: U6) -> (r: u8) {
        v.as_u8()
    }
}

impl vstd::std_specs::convert::FromSpecImpl<U6> for u8 {
    open spec fn obeys_from_spec() -> bool {
        true
    }

    open spec fn from_spec(v: U6) -> u8 {
        v.val() as u8
    }
}

impl From<U6> for usize {
    fn from(v: U6) -> (r: usize) {
        v.as_usize()
    }
}

impl vstd::std_specs::convert::FromSpecImpl<U6> for usize {
    open spec fn obeys_from_spec() -> bool {
        true
    }

    open spec fn from_spec(v: U6) -> usize {
        v.val() as usize
    }
}

/// A 7-bit unsigned integer index (`0..128`).
///
/// A fieldless enum, so `Option<Self>` is one byte and every value is
/// statically `< 128`; variant `Vk` is the index `k`.
#[derive(Clone, Copy, Eq, PartialOrd, Ord, Hash, Debug)]
pub enum U7 {
    V0,
    V1,
    V2,
    V3,
    V4,
    V5,
    V6,
    V7,
    V8,
    V9,
    V10,
    V11,
    V12,
    V13,
    V14,
    V15,
    V16,
    V17,
    V18,
    V19,
    V20,
    V21,
    V22,
    V23,
    V24,
    V25,
    V26,
    V27,
    V28,
    V29,
    V30,
    V31,
    V32,
    V33,
    V34,
    V35,
    V36,
    V37,
    V38,
    V39,
    V40,
    V41,
    V42,
    V43,
    V44,
    V45,
    V46,
    V47,
    V48,
    V49,
    V50,
    V51,
    V52,
    V53,
    V54,
    V55,
    V56,
    V57,
    V58,
    V59,
    V60,
    V61,
    V62,
    V63,
    V64,
    V65,
    V66,
    V67,
    V68,
    V69,
    V70,
    V71,
    V72,
    V73,
    V74,
    V75,
    V76,
    V77,
    V78,
    V79,
    V80,
    V81,
    V82,
    V83,
    V84,
    V85,
    V86,
    V87,
    V88,
    V89,
    V90,
    V91,
    V92,
    V93,
    V94,
    V95,
    V96,
    V97,
    V98,
    V99,
    V100,
    V101,
    V102,
    V103,
    V104,
    V105,
    V106,
    V107,
    V108,
    V109,
    V110,
    V111,
    V112,
    V113,
    V114,
    V115,
    V116,
    V117,
    V118,
    V119,
    V120,
    V121,
    V122,
    V123,
    V124,
    V125,
    V126,
    V127,
}

impl U7 {
    /// Variant `Vk` is the index `k`: the variants are declared in the
    /// order of their values, so the derived ordering of indices, which
    /// follows the declaration, is the order of their values.
    #[verifier::rlimit(40)]
    pub proof fn lemma_variant_values()
        ensures
            U7::V0.val() == 0,
            U7::V1.val() == 1,
            U7::V2.val() == 2,
            U7::V3.val() == 3,
            U7::V4.val() == 4,
            U7::V5.val() == 5,
            U7::V6.val() == 6,
            U7::V7.val() == 7,
            U7::V8.val() == 8,
            U7::V9.val() == 9,
            U7::V10.val() == 10,
            U7::V11.val() == 11,
            U7::V12.val() == 12,
            U7::V13.val() == 13,
            U7::V14.val() == 14,
            U7::V15.val() == 15,
            U7::V16.val() == 16,
            U7::V17.val() == 17,
            U7::V18.val() == 18,
            U7::V19.val() == 19,
            U7::V20.val() == 20,
            U7::V21.val() == 21,
            U7::V22.val() == 22,
            U7::V23.val() == 23,
            U7::V24.val() == 24,
            U7::V25.val() == 25,
            U7::V26.val() == 26,
            U7::V27.val() == 27,
            U7::V28.val() == 28,
            U7::V29.val() == 29,
            U7::V30.val() == 30,
            U7::V31.val() == 31,
            U7::V32.val() == 32,
            U7::V33.val() == 33,
            U7::V34.val() == 34,
            U7::V35.val() == 35,
            U7::V36.val() == 36,
            U7::V37.val() == 37,
            U7::V38.val() == 38,
            U7::V39.val() == 39,
            U7::V40.val() == 40,
            U7::V41.val() == 41,
            U7::V42.val() == 42,
            U7::V43.val() == 43,
            U7::V44.val() == 44,
            U7::V45.val() == 45,
            U7::V46.val() == 46,
            U7::V47.val() == 47,
            U7::V48.val() == 48,
            U7::V49.val() == 49,
            U7::V50.val() == 50,
            U7::V51.val() == 51,
            U7::V52.val() == 52,
            U7::V53.val() == 53,
            U7::V54.val() == 54,
            U7::V55.val() == 55,
            U7::V56.val() == 56,
            U7::V57.val() == 57,
            U7::V58.val() == 58,
            U7::V59.val() == 59,
            U7::V60.val() == 60,
            U7::V61.val() == 61,
            U7::V62.val() == 62,
            U7::V63.val() == 63,
            U7::V64.val() == 64,
            U7::V65.val() == 65,
            U7::V66.val() == 66,
            U7::V67.val() == 67,
            U7::V68.val() == 68,
            U7::V69.val() == 69,
            U7::V70.val() == 70,
            U7::V71.val() == 71,
            U7::V72.val() == 72,
            U7::V73.val() == 73,
            U7::V74.val() == 74,
            U7::V75.val() == 75,
            U7::V76.val() == 76,
            U7::V77.val() == 77,
            U7::V78.val() == 78,
            U7::V79.val() == 79,
            U7::V80.val() == 80,
            U7::V81.val() == 81,
            U7::V82.val() == 82,
            U7::V83.val() == 83,
            U7::V84.val() == 84,
            U7::V85.val() == 85,
            U7::V86.val() == 86,
            U7::V87.val() == 87,
            U7::V88.val() == 88,
            U7::V89.val() == 89,
            U7::V90.val() == 90,
            U7::V91.val() == 91,
            U7::V92.val() == 92,
            U7::V93.val() == 93,
            U7::V94.val() == 94,
            U7::V95.val() == 95,
            U7::V96.val() == 96,
            U7::V97.val() == 97,
            U7::V98.val() == 98,
            U7::V99.val() == 99,
            U7::V100.val() == 100,
            U7::V101.val() == 101,
            U7::V102.val() == 102,
            U7::V103.val() == 103,
            U7::V104.val() == 104,
            U7::V105.val() == 105,
            U7::V106.val() == 106,
            U7::V107.val() == 107,
            U7::V108.val() == 108,
            U7::V109.val() == 109,
            U7::V110.val() == 110,
            U7::V111.val() == 111,
            U7::V112.val() == 112,
            U7::V113.val() == 113,
            U7::V114.val() == 114,
            U7::V115.val() == 115,
            U7::V116.val() == 116,
            U7::V117.val() == 117,
            U7::V118.val() == 118,
            U7::V119.val() == 119,
            U7::V120.val() == 120,
            U7::V121.val() == 121,
            U7::V122.val() == 122,
            U7::V123.val() == 123,
            U7::V124.val() == 124,
            U7::V125.val() == 125,
            U7::V126.val() == 126,
            U7::V127.val() == 127,
    {
    }

    /// Number of bits in the value's domain.
    pub const BITS: u32 = 7;
    /// Number of valid values (`2^BITS`).
    pub const COUNT: usize = 128;
    /// The smallest value (`0`).
    pub const MIN: U7 = U7::V0;
    /// The largest value (`COUNT - 1`).
    pub const MAX: U7 = U7::V127;

    /// The index as an integer.
    pub closed spec fn val(self) -> nat {
        match self {
            U7::V0 => 0,
            U7::V1 => 1,
            U7::V2 => 2,
            U7::V3 => 3,
            U7::V4 => 4,
            U7::V5 => 5,
            U7::V6 => 6,
            U7::V7 => 7,
            U7::V8 => 8,
            U7::V9 => 9,
            U7::V10 => 10,
            U7::V11 => 11,
            U7::V12 => 12,
            U7::V13 => 13,
            U7::V14 => 14,
            U7::V15 => 15,
            U7::V16 => 16,
            U7::V17 => 17,
            U7::V18 => 18,
            U7::V19 => 19,
            U7::V20 => 20,
            U7::V21 => 21,
            U7::V22 => 22,
            U7::V23 => 23,
            U7::V24 => 24,
            U7::V25 => 25,
            U7::V26 => 26,
            U7::V27 => 27,
            U7::V28 => 28,
            U7::V29 => 29,
            U7::V30 => 30,
            U7::V31 => 31,
            U7::V32 => 32,
            U7::V33 => 33,
            U7::V34 => 34,
            U7::V35 => 35,
            U7::V36 => 36,
            U7::V37 => 37,
            U7::V38 => 38,
            U7::V39 => 39,
            U7::V40 => 40,
            U7::V41 => 41,
            U7::V42 => 42,
            U7::V43 => 43,
            U7::V44 => 44,
            U7::V45 => 45,
            U7::V46 => 46,
            U7::V47 => 47,
            U7::V48 => 48,
            U7::V49 => 49,
            U7::V50 => 50,
            U7::V51 => 51,
            U7::V52 => 52,
            U7::V53 => 53,
            U7::V54 => 54,
            U7::V55 => 55,
            U7::V56 => 56,
            U7::V57 => 57,
            U7::V58 => 58,
            U7::V59 => 59,
            U7::V60 => 60,
            U7::V61 => 61,
            U7::V62 => 62,
            U7::V63 => 63,
            U7::V64 => 64,
            U7::V65 => 65,
            U7::V66 => 66,
            U7::V67 => 67,
            U7::V68 => 68,
            U7::V69 => 69,
            U7::V70 => 70,
            U7::V71 => 71,
            U7::V72 => 72,
            U7::V73 => 73,
            U7::V74 => 74,
            U7::V75 => 75,
            U7::V76 => 76,
            U7::V77 => 77,
            U7::V78 => 78,
            U7::V79 => 79,
            U7::V80 => 80,
            U7::V81 => 81,
            U7::V82 => 82,
            U7::V83 => 83,
            U7::V84 => 84,
            U7::V85 => 85,
            U7::V86 => 86,
            U7::V87 => 87,
            U7::V88 => 88,
            U7::V89 => 89,
            U7::V90 => 90,
            U7::V91 => 91,
            U7::V92 => 92,
            U7::V93 => 93,
            U7::V94 => 94,
            U7::V95 => 95,
            U7::V96 => 96,
            U7::V97 => 97,
            U7::V98 => 98,
            U7::V99 => 99,
            U7::V100 => 100,
            U7::V101 => 101,
            U7::V102 => 102,
            U7::V103 => 103,
            U7::V104 => 104,
            U7::V105 => 105,
            U7::V106 => 106,
            U7::V107 => 107,
            U7::V108 => 108,
            U7::V109 => 109,
            U7::V110 => 110,
            U7::V111 => 111,
            U7::V112 => 112,
            U7::V113 => 113,
            U7::V114 => 114,
            U7::V115 => 115,
            U7::V116 => 116,
            U7::V117 => 117,
            U7::V118 => 118,
            U7::V119 => 119,
            U7::V120 => 120,
            U7::V121 => 121,
            U7::V122 => 122,
            U7::V123 => 123,
            U7::V124 => 124,
            U7::V125 => 125,
            U7::V126 => 126,
            U7::V127 => 127,
        }
    }

    /// The index whose value is `v` (`v < COUNT`).
    pub closed spec fn of(v: nat) -> Self {
        match v as u8 {
            0 => U7::V0,
            1 => U7::V1,
            2 => U7::V2,
            3 => U7::V3,
            4 => U7::V4,
            5 => U7::V5,
            6 => U7::V6,
            7 => U7::V7,
            8 => U7::V8,
            9 => U7::V9,
            10 => U7::V10,
            11 => U7::V11,
            12 => U7::V12,
            13 => U7::V13,
            14 => U7::V14,
            15 => U7::V15,
            16 => U7::V16,
            17 => U7::V17,
            18 => U7::V18,
            19 => U7::V19,
            20 => U7::V20,
            21 => U7::V21,
            22 => U7::V22,
            23 => U7::V23,
            24 => U7::V24,
            25 => U7::V25,
            26 => U7::V26,
            27 => U7::V27,
            28 => U7::V28,
            29 => U7::V29,
            30 => U7::V30,
            31 => U7::V31,
            32 => U7::V32,
            33 => U7::V33,
            34 => U7::V34,
            35 => U7::V35,
            36 => U7::V36,
            37 => U7::V37,
            38 => U7::V38,
            39 => U7::V39,
            40 => U7::V40,
            41 => U7::V41,
            42 => U7::V42,
            43 => U7::V43,
            44 => U7::V44,
            45 => U7::V45,
            46 => U7::V46,
            47 => U7::V47,
            48 => U7::V48,
            49 => U7::V49,
            50 => U7::V50,
            51 => U7::V51,
            52 => U7::V52,
            53 => U7::V53,
            54 => U7::V54,
            55 => U7::V55,
            56 => U7::V56,
            57 => U7::V57,
            58 => U7::V58,
            59 => U7::V59,
            60 => U7::V60,
            61 => U7::V61,
            62 => U7::V62,
            63 => U7::V63,
            64 => U7::V64,
            65 => U7::V65,
            66 => U7::V66,
            67 => U7::V67,
            68 => U7::V68,
            69 => U7::V69,
            70 => U7::V70,
            71 => U7::V71,
            72 => U7::V72,
            73 => U7::V73,
            74 => U7::V74,
            75 => U7::V75,
            76 => U7::V76,
            77 => U7::V77,
            78 => U7::V78,
            79 => U7::V79,
            80 => U7::V80,
            81 => U7::V81,
            82 => U7::V82,
            83 => U7::V83,
            84 => U7::V84,
            85 => U7::V85,
            86 => U7::V86,
            87 => U7::V87,
            88 => U7::V88,
            89 => U7::V89,
            90 => U7::V90,
            91 => U7::V91,
            92 => U7::V92,
            93 => U7::V93,
            94 => U7::V94,
            95 => U7::V95,
            96 => U7::V96,
            97 => U7::V97,
            98 => U7::V98,
            99 => U7::V99,
            100 => U7::V100,
            101 => U7::V101,
            102 => U7::V102,
            103 => U7::V103,
            104 => U7::V104,
            105 => U7::V105,
            106 => U7::V106,
            107 => U7::V107,
            108 => U7::V108,
            109 => U7::V109,
            110 => U7::V110,
            111 => U7::V111,
            112 => U7::V112,
            113 => U7::V113,
            114 => U7::V114,
            115 => U7::V115,
            116 => U7::V116,
            117 => U7::V117,
            118 => U7::V118,
            119 => U7::V119,
            120 => U7::V120,
            121 => U7::V121,
            122 => U7::V122,
            123 => U7::V123,
            124 => U7::V124,
            125 => U7::V125,
            126 => U7::V126,
            127 => U7::V127,
            _ => U7::V0,
        }
    }

    /// Every index is below `COUNT` and is the index of its own value.
    pub proof fn lemma_val(self)
        ensures
            self.val() < 128,
            Self::of(self.val()) == self,
    {
        match self {
            U7::V0 => {},
            U7::V1 => {},
            U7::V2 => {},
            U7::V3 => {},
            U7::V4 => {},
            U7::V5 => {},
            U7::V6 => {},
            U7::V7 => {},
            U7::V8 => {},
            U7::V9 => {},
            U7::V10 => {},
            U7::V11 => {},
            U7::V12 => {},
            U7::V13 => {},
            U7::V14 => {},
            U7::V15 => {},
            U7::V16 => {},
            U7::V17 => {},
            U7::V18 => {},
            U7::V19 => {},
            U7::V20 => {},
            U7::V21 => {},
            U7::V22 => {},
            U7::V23 => {},
            U7::V24 => {},
            U7::V25 => {},
            U7::V26 => {},
            U7::V27 => {},
            U7::V28 => {},
            U7::V29 => {},
            U7::V30 => {},
            U7::V31 => {},
            U7::V32 => {},
            U7::V33 => {},
            U7::V34 => {},
            U7::V35 => {},
            U7::V36 => {},
            U7::V37 => {},
            U7::V38 => {},
            U7::V39 => {},
            U7::V40 => {},
            U7::V41 => {},
            U7::V42 => {},
            U7::V43 => {},
            U7::V44 => {},
            U7::V45 => {},
            U7::V46 => {},
            U7::V47 => {},
            U7::V48 => {},
            U7::V49 => {},
            U7::V50 => {},
            U7::V51 => {},
            U7::V52 => {},
            U7::V53 => {},
            U7::V54 => {},
            U7::V55 => {},
            U7::V56 => {},
            U7::V57 => {},
            U7::V58 => {},
            U7::V59 => {},
            U7::V60 => {},
            U7::V61 => {},
            U7::V62 => {},
            U7::V63 => {},
            U7::V64 => {},
            U7::V65 => {},
            U7::V66 => {},
            U7::V67 => {},
            U7::V68 => {},
            U7::V69 => {},
            U7::V70 => {},
            U7::V71 => {},
            U7::V72 => {},
            U7::V73 => {},
            U7::V74 => {},
            U7::V75 => {},
            U7::V76 => {},
            U7::V77 => {},
            U7::V78 => {},
            U7::V79 => {},
            U7::V80 => {},
            U7::V81 => {},
            U7::V82 => {},
            U7::V83 => {},
            U7::V84 => {},
            U7::V85 => {},
            U7::V86 => {},
            U7::V87 => {},
            U7::V88 => {},
            U7::V89 => {},
            U7::V90 => {},
            U7::V91 => {},
            U7::V92 => {},
            U7::V93 => {},
            U7::V94 => {},
            U7::V95 => {},
            U7::V96 => {},
            U7::V97 => {},
            U7::V98 => {},
            U7::V99 => {},
            U7::V100 => {},
            U7::V101 => {},
            U7::V102 => {},
            U7::V103 => {},
            U7::V104 => {},
            U7::V105 => {},
            U7::V106 => {},
            U7::V107 => {},
            U7::V108 => {},
            U7::V109 => {},
            U7::V110 => {},
            U7::V111 => {},
            U7::V112 => {},
            U7::V113 => {},
            U7::V114 => {},
            U7::V115 => {},
            U7::V116 => {},
            U7::V117 => {},
            U7::V118 => {},
            U7::V119 => {},
            U7::V120 => {},
            U7::V121 => {},
            U7::V122 => {},
            U7::V123 => {},
            U7::V124 => {},
            U7::V125 => {},
            U7::V126 => {},
            U7::V127 => {},
        }
    }

    /// The domain sizes, for use outside this module.
    pub proof fn lemma_count_value()
        ensures
            <U7 as Niche>::COUNT == 128,
            U7::COUNT == 128,
    {
        assert(<U7 as Niche>::COUNT == 128);
    }

    /// The index of a value below `COUNT` has that value.
    pub proof fn lemma_of(v: nat)
        requires
            v < 128,
        ensures
            Self::of(v).val() == v,
    {
    }

    /// Constructs from a `u8`, or `None` if `v >= COUNT`.
    pub fn try_new(v: u8) -> (r: Option<Self>)
        ensures
            r is Some <==> v < 128,
            r matches Some(x) ==> x.val() == v,
    {
        match v {
            0 => Some(U7::V0),
            1 => Some(U7::V1),
            2 => Some(U7::V2),
            3 => Some(U7::V3),
            4 => Some(U7::V4),
            5 => Some(U7::V5),
            6 => Some(U7::V6),
            7 => Some(U7::V7),
            8 => Some(U7::V8),
            9 => Some(U7::V9),
            10 => Some(U7::V10),
            11 => Some(U7::V11),
            12 => Some(U7::V12),
            13 => Some(U7::V13),
            14 => Some(U7::V14),
            15 => Some(U7::V15),
            16 => Some(U7::V16),
            17 => Some(U7::V17),
            18 => Some(U7::V18),
            19 => Some(U7::V19),
            20 => Some(U7::V20),
            21 => Some(U7::V21),
            22 => Some(U7::V22),
            23 => Some(U7::V23),
            24 => Some(U7::V24),
            25 => Some(U7::V25),
            26 => Some(U7::V26),
            27 => Some(U7::V27),
            28 => Some(U7::V28),
            29 => Some(U7::V29),
            30 => Some(U7::V30),
            31 => Some(U7::V31),
            32 => Some(U7::V32),
            33 => Some(U7::V33),
            34 => Some(U7::V34),
            35 => Some(U7::V35),
            36 => Some(U7::V36),
            37 => Some(U7::V37),
            38 => Some(U7::V38),
            39 => Some(U7::V39),
            40 => Some(U7::V40),
            41 => Some(U7::V41),
            42 => Some(U7::V42),
            43 => Some(U7::V43),
            44 => Some(U7::V44),
            45 => Some(U7::V45),
            46 => Some(U7::V46),
            47 => Some(U7::V47),
            48 => Some(U7::V48),
            49 => Some(U7::V49),
            50 => Some(U7::V50),
            51 => Some(U7::V51),
            52 => Some(U7::V52),
            53 => Some(U7::V53),
            54 => Some(U7::V54),
            55 => Some(U7::V55),
            56 => Some(U7::V56),
            57 => Some(U7::V57),
            58 => Some(U7::V58),
            59 => Some(U7::V59),
            60 => Some(U7::V60),
            61 => Some(U7::V61),
            62 => Some(U7::V62),
            63 => Some(U7::V63),
            64 => Some(U7::V64),
            65 => Some(U7::V65),
            66 => Some(U7::V66),
            67 => Some(U7::V67),
            68 => Some(U7::V68),
            69 => Some(U7::V69),
            70 => Some(U7::V70),
            71 => Some(U7::V71),
            72 => Some(U7::V72),
            73 => Some(U7::V73),
            74 => Some(U7::V74),
            75 => Some(U7::V75),
            76 => Some(U7::V76),
            77 => Some(U7::V77),
            78 => Some(U7::V78),
            79 => Some(U7::V79),
            80 => Some(U7::V80),
            81 => Some(U7::V81),
            82 => Some(U7::V82),
            83 => Some(U7::V83),
            84 => Some(U7::V84),
            85 => Some(U7::V85),
            86 => Some(U7::V86),
            87 => Some(U7::V87),
            88 => Some(U7::V88),
            89 => Some(U7::V89),
            90 => Some(U7::V90),
            91 => Some(U7::V91),
            92 => Some(U7::V92),
            93 => Some(U7::V93),
            94 => Some(U7::V94),
            95 => Some(U7::V95),
            96 => Some(U7::V96),
            97 => Some(U7::V97),
            98 => Some(U7::V98),
            99 => Some(U7::V99),
            100 => Some(U7::V100),
            101 => Some(U7::V101),
            102 => Some(U7::V102),
            103 => Some(U7::V103),
            104 => Some(U7::V104),
            105 => Some(U7::V105),
            106 => Some(U7::V106),
            107 => Some(U7::V107),
            108 => Some(U7::V108),
            109 => Some(U7::V109),
            110 => Some(U7::V110),
            111 => Some(U7::V111),
            112 => Some(U7::V112),
            113 => Some(U7::V113),
            114 => Some(U7::V114),
            115 => Some(U7::V115),
            116 => Some(U7::V116),
            117 => Some(U7::V117),
            118 => Some(U7::V118),
            119 => Some(U7::V119),
            120 => Some(U7::V120),
            121 => Some(U7::V121),
            122 => Some(U7::V122),
            123 => Some(U7::V123),
            124 => Some(U7::V124),
            125 => Some(U7::V125),
            126 => Some(U7::V126),
            127 => Some(U7::V127),
            _ => None,
        }
    }

    /// Constructs from a `u8` known to be below `COUNT`.
    pub fn new_unchecked(v: u8) -> (r: Self)
        requires
            v < 128,
        ensures
            r.val() == v,
    {
        match Self::try_new(v) {
            Some(x) => x,
            None => Self::MIN,
        }
    }

    /// Constructs from the low `BITS` bits of `v` (ignores the rest).
    pub fn new_masked(v: u8) -> (r: Self)
        ensures
            r.val() == v % 128,
    {
        assert(v & 127u8 == v % 128) by (bit_vector);
        Self::new_unchecked(v & 127u8)
    }

    /// Returns the value as a `u8`.
    pub fn as_u8(self) -> (r: u8)
        ensures
            r == self.val(),
    {
        match self {
            U7::V0 => 0,
            U7::V1 => 1,
            U7::V2 => 2,
            U7::V3 => 3,
            U7::V4 => 4,
            U7::V5 => 5,
            U7::V6 => 6,
            U7::V7 => 7,
            U7::V8 => 8,
            U7::V9 => 9,
            U7::V10 => 10,
            U7::V11 => 11,
            U7::V12 => 12,
            U7::V13 => 13,
            U7::V14 => 14,
            U7::V15 => 15,
            U7::V16 => 16,
            U7::V17 => 17,
            U7::V18 => 18,
            U7::V19 => 19,
            U7::V20 => 20,
            U7::V21 => 21,
            U7::V22 => 22,
            U7::V23 => 23,
            U7::V24 => 24,
            U7::V25 => 25,
            U7::V26 => 26,
            U7::V27 => 27,
            U7::V28 => 28,
            U7::V29 => 29,
            U7::V30 => 30,
            U7::V31 => 31,
            U7::V32 => 32,
            U7::V33 => 33,
            U7::V34 => 34,
            U7::V35 => 35,
            U7::V36 => 36,
            U7::V37 => 37,
            U7::V38 => 38,
            U7::V39 => 39,
            U7::V40 => 40,
            U7::V41 => 41,
            U7::V42 => 42,
            U7::V43 => 43,
            U7::V44 => 44,
            U7::V45 => 45,
            U7::V46 => 46,
            U7::V47 => 47,
            U7::V48 => 48,
            U7::V49 => 49,
            U7::V50 => 50,
            U7::V51 => 51,
            U7::V52 => 52,
            U7::V53 => 53,
            U7::V54 => 54,
            U7::V55 => 55,
            U7::V56 => 56,
            U7::V57 => 57,
            U7::V58 => 58,
            U7::V59 => 59,
            U7::V60 => 60,
            U7::V61 => 61,
            U7::V62 => 62,
            U7::V63 => 63,
            U7::V64 => 64,
            U7::V65 => 65,
            U7::V66 => 66,
            U7::V67 => 67,
            U7::V68 => 68,
            U7::V69 => 69,
            U7::V70 => 70,
            U7::V71 => 71,
            U7::V72 => 72,
            U7::V73 => 73,
            U7::V74 => 74,
            U7::V75 => 75,
            U7::V76 => 76,
            U7::V77 => 77,
            U7::V78 => 78,
            U7::V79 => 79,
            U7::V80 => 80,
            U7::V81 => 81,
            U7::V82 => 82,
            U7::V83 => 83,
            U7::V84 => 84,
            U7::V85 => 85,
            U7::V86 => 86,
            U7::V87 => 87,
            U7::V88 => 88,
            U7::V89 => 89,
            U7::V90 => 90,
            U7::V91 => 91,
            U7::V92 => 92,
            U7::V93 => 93,
            U7::V94 => 94,
            U7::V95 => 95,
            U7::V96 => 96,
            U7::V97 => 97,
            U7::V98 => 98,
            U7::V99 => 99,
            U7::V100 => 100,
            U7::V101 => 101,
            U7::V102 => 102,
            U7::V103 => 103,
            U7::V104 => 104,
            U7::V105 => 105,
            U7::V106 => 106,
            U7::V107 => 107,
            U7::V108 => 108,
            U7::V109 => 109,
            U7::V110 => 110,
            U7::V111 => 111,
            U7::V112 => 112,
            U7::V113 => 113,
            U7::V114 => 114,
            U7::V115 => 115,
            U7::V116 => 116,
            U7::V117 => 117,
            U7::V118 => 118,
            U7::V119 => 119,
            U7::V120 => 120,
            U7::V121 => 121,
            U7::V122 => 122,
            U7::V123 => 123,
            U7::V124 => 124,
            U7::V125 => 125,
            U7::V126 => 126,
            U7::V127 => 127,
        }
    }

    /// Iterates over all values ascending (`MIN..=MAX`); `len() == COUNT`.
    pub fn all() -> (r: NicheRangeInclusive<Self>)
        ensures
            r.remaining() == Seq::new(128, |k: int| k),
    {
        NicheRangeInclusive::full()
    }

    /// The value in decimal.
    pub fn to_decimal_string(self) -> (r: String)
        ensures
            r@ == digits(self.val(), 10, false),
    {
        format_decimal(self.as_u8())
    }

    /// The value in lower-case hexadecimal.
    pub fn to_lower_hex_string(self) -> (r: String)
        ensures
            r@ == digits(self.val(), 16, false),
    {
        format_lower_hex(self.as_u8())
    }

    /// The value in upper-case hexadecimal.
    pub fn to_upper_hex_string(self) -> (r: String)
        ensures
            r@ == digits(self.val(), 16, true),
    {
        format_upper_hex(self.as_u8())
    }

    /// The value in binary.
    pub fn to_binary_string(self) -> (r: String)
        ensures
            r@ == digits(self.val(), 2, false),
    {
        format_binary(self.as_u8())
    }

    /// Returns the value as a `usize`.
    pub fn as_usize(self) -> (r: usize)
        ensures
            r == self.val(),
    {
        self.as_u8() as usize
    }
}

impl Default for U7 {
    fn default() -> (r: Self)
        ensures
            r == U7::MIN,
    {
        U7::MIN
    }
}

impl Niche for U7 {
    const COUNT: usize = 128;

    open spec fn value(self) -> nat {
        self.val()
    }

    proof fn lemma_value(self) {
        self.lemma_val();
    }

    proof fn lemma_count() {
    }

    proof fn lemma_injective(a: Self, b: Self) {
        a.lemma_val();
        b.lemma_val();
    }

    proof fn lemma_eq_spec() {
        assert forall|x: Self, y: Self| #[trigger] x.eq_spec(&y) <==> x == y by {
            x.lemma_val();
            y.lemma_val();
        }
    }

    proof fn lemma_surjective(v: nat) -> (x: Self) {
        Self::lemma_of(v);
        Self::of(v)
    }

    fn as_usize(self) -> usize {
        self.as_u8() as usize
    }

    fn try_from_usize(i: usize) -> Option<Self> {
        if i < 128 {
            Some(Self::new_unchecked(i as u8))
        } else {
            None
        }
    }
}

impl vstd::std_specs::cmp::PartialEqSpecImpl for U7 {
    open spec fn obeys_eq_spec() -> bool {
        true
    }

    open spec fn eq_spec(&self, other: &Self) -> bool {
        *self == *other
    }
}

impl PartialEq for U7 {
    fn eq(&self, other: &Self) -> (r: bool) {
        let a = self.as_u8();
        let b = other.as_u8();
        proof {
            self.lemma_val();
            other.lemma_val();
        }
        let r = a == b;
        assert(r == (*self == *other));
        r
    }
}

impl TryFrom<u8> for U7 {
    type Error = TryFromIntError;

    fn try_from(v: u8) -> (r: Result<U7, TryFromIntError>) {
        match U7::try_new(v) {
            Some(x) => Ok(x),
            None => Err(TryFromIntError),
        }
    }
}

impl vstd::std_specs::convert::TryFromSpecImpl<u8> for U7 {
    open spec fn obeys_try_from_spec() -> bool {
        true
    }

    open spec fn try_from_spec(v: u8) -> Result<U7, TryFromIntError> {
        if v < 128 {
            Ok(U7::of(v as nat))
        } else {
            Err(TryFromIntError)
        }
    }
}

impl From<U7> for u8 {
    fn from(v: U7) -> (r: u8) {
        v.as_u8()
    }
}

impl vstd::std_specs::convert::FromSpecImpl<U7> for u8 {
    open spec fn obeys_from_spec() -> bool {
        true
    }

    open spec fn from_spec(v: U7) -> u8 {
        v.val() as u8
    }
}

impl From<U7> for usize {
    fn from(v: U7) -> (r: usize) {
        v.as_usize()
    }
}

impl vstd::std_specs::convert::FromSpecImpl<U7> for usize {
    open spec fn obeys_from_spec() -> bool {
        true
    }

    open spec fn from_spec(v: U7) -> usize {
        v.val() as usize
    }
}

} // verus!
