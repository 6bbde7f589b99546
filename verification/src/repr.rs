//! The source text of the private `Repr` enum behind a niche index type:
//! one unit variant per value, named by the value in binary.

use vstd::prelude::*;
use vstd::string::StringExecFns;

verus! {

/// Why [`generate_niche_repr`] refused a width.
#[derive(Debug, Clone, Copy, PartialEq, Eq, Structural)]
pub struct BitsOutOfRange {
    /// The rejected number of values.
    pub bits: u32,
}

/// `bits` is a power of two between 2 and 64.
pub open spec fn valid_repr_bits(bits: nat) -> bool {
    bits == 2 || bits == 4 || bits == 8 || bits == 16 || bits == 32 || bits == 64
}

/// The base-2 logarithm of a valid number of values: the digits in each
/// variant name.
pub open spec fn repr_width(bits: nat) -> nat {
    if bits == 2 {
        1
    } else if bits == 4 {
        2
    } else if bits == 8 {
        3
    } else if bits == 16 {
        4
    } else if bits == 32 {
        5
    } else {
        6
    }
}

/// The `width` low binary digits of `v`, most significant first.
pub open spec fn binary_digits(v: nat, width: nat) -> Seq<char>
    decreases width,
{
    if width == 0 {
        Seq::empty()
    } else {
        binary_digits(v / 2, (width - 1) as nat).push(if v % 2 == 1 { '1' } else { '0' })
    }
}

/// The variant line for value `i`.
pub open spec fn repr_line(i: nat, width: nat) -> Seq<char> {
    "    _Ob"@ + binary_digits(i, width) + ",\n"@
}

/// The variant lines for the values `0..n`.
pub open spec fn repr_lines(n: nat, width: nat) -> Seq<char>
    decreases n,
{
    if n == 0 {
        Seq::empty()
    } else {
        repr_lines((n - 1) as nat, width) + repr_line((n - 1) as nat, width)
    }
}

/// The whole enum for `bits` values.
pub open spec fn repr_source(bits: nat) -> Seq<char> {
    "#[derive(Clone, Copy, Debug, PartialEq, Eq, PartialOrd, Ord, Hash, Default)]\nenum Repr {\n    #[default]\n"@
        + repr_lines(bits, repr_width(bits)) + "}\n"@
}

/// The number the characters `s` stand for in binary, most significant
/// first, reading `'1'` as one and any other character as zero.
pub open spec fn binary_value(s: Seq<char>) -> nat
    decreases s.len(),
{
    if s.len() == 0 {
        0
    } else {
        binary_value(s.drop_last()) * 2 + if s.last() == '1' {
            1nat
        } else {
            0nat
        }
    }
}

/// Each variant name carries as many binary digits as the logarithm of the
/// number of values: `2` to that many digits is the number of values.
pub proof fn lemma_repr_width_is_log2(bits: nat)
    requires
        valid_repr_bits(bits),
    ensures
        vstd::arithmetic::power2::pow2(repr_width(bits)) == bits,
{
    vstd::arithmetic::power2::lemma2_to64();
}

/// The `width` binary digits of `v` are `0`s and `1`s that read back as `v`
/// modulo `2^width`.
pub proof fn lemma_binary_digits_read_back(v: nat, width: nat)
    ensures
        binary_digits(v, width).len() == width,
        forall|k: int|
            0 <= k < width ==> #[trigger] binary_digits(v, width)[k] == '0' || binary_digits(
                v,
                width,
            )[k] == '1',
        binary_value(binary_digits(v, width)) == v % vstd::arithmetic::power2::pow2(width),
    decreases width,
{
    vstd::arithmetic::power2::lemma_pow2_pos(width);
    if width == 0 {
        assert(vstd::arithmetic::power2::pow2(0) == 1) by {
            vstd::arithmetic::power2::lemma2_to64();
        }
    } else {
        let w1 = (width - 1) as nat;
        lemma_binary_digits_read_back(v / 2, w1);
        let s = binary_digits(v, width);
        let t = binary_digits(v / 2, w1);
        assert(s.drop_last() =~= t);
        assert forall|k: int| 0 <= k < width implies #[trigger] s[k] == '0' || s[k] == '1' by {
            if k < w1 {
                assert(s[k] == t[k]);
            }
        }
        vstd::arithmetic::power2::lemma_pow2_unfold(width);
        let p = vstd::arithmetic::power2::pow2(w1);
        vstd::arithmetic::power2::lemma_pow2_pos(w1);
        assert(binary_value(s) == (v / 2) % p * 2 + v % 2);
        vstd::arithmetic::div_mod::lemma_breakdown(v as int, 2, p as int);
        assert((v / 2) % p * 2 == 2 * ((v / 2) % p)) by (nonlinear_arith);
        assert((v / 2) % p * 2 + v % 2 == v % (2 * p));
    }
}

/// Appends the `width` low binary digits of `v`, most significant first.
fn push_binary(out: &mut String, v: u32, width: u32)
    requires
        width <= 6,
    ensures
        final(out)@ == old(out)@ + binary_digits(v as nat, width as nat),
    decreases width,
{
    if width == 0 {
        proof {
            assert(old(out)@ + binary_digits(v as nat, 0) =~= old(out)@);
        }
        return;
    }
    push_binary(out, v / 2, width - 1);
    proof {
        reveal_strlit("1");
        reveal_strlit("0");
    }
    if v % 2 == 1 {
        out.append("1");
    } else {
        out.append("0");
    }
    proof {
        assert(final(out)@ =~= old(out)@ + binary_digits(v as nat, width as nat));
    }
}

/// The source of the `Repr` enum for a niche type of `bits` values: a
/// derive line, the enum header with its `#[default]` first variant, one
/// variant `_Ob<i in binary, padded to log2(bits) digits>` per value, and
/// the closing brace. Fails unless `bits` is a power of two between 2 and
/// 64.
pub fn generate_niche_repr(bits: u32) -> (r: Result<String, BitsOutOfRange>)
    ensures
        r is Ok <==> valid_repr_bits(bits as nat),
        r matches Ok(s) ==> s@ == repr_source(bits as nat),
        r matches Err(e) ==> e.bits == bits,
{
    let width: u32 = if bits == 2 {
        1
    } else if bits == 4 {
        2
    } else if bits == 8 {
        3
    } else if bits == 16 {
        4
    } else if bits == 32 {
        5
    } else if bits == 64 {
        6
    } else {
        return Err(BitsOutOfRange { bits });
    };
    let mut out = String::from_str(
        "#[derive(Clone, Copy, Debug, PartialEq, Eq, PartialOrd, Ord, Hash, Default)]\nenum Repr {\n    #[default]\n",
    );
    let ghost header = out@;
    let mut i: u32 = 0;
    while i < bits
        invariant
            i <= bits,
            valid_repr_bits(bits as nat),
            width == repr_width(bits as nat),
            width <= 6,
            out@ == header + repr_lines(i as nat, width as nat),
        decreases bits - i,
    {
        let ghost before = out@;
        out.append("    _Ob");
        push_binary(&mut out, i, width);
        out.append(",\n");
        proof {
            assert(out@ =~= before + repr_line(i as nat, width as nat));
            assert(repr_lines((i + 1) as nat, width as nat) == repr_lines(i as nat, width as nat)
                + repr_line(i as nat, width as nat));
            assert(out@ =~= header + repr_lines((i + 1) as nat, width as nat));
        }
        i = i + 1;
    }
    out.append("}\n");
    Ok(out)
}

} // verus!
