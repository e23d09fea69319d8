//! Conversion of a parsed literal to the raw bit pattern of an IEEE-754
//! binary interchange format.
//!
//! A format is described by the width of its exponent and mantissa
//! fields; sign bit, bias and infinity pattern follow from those. The
//! converter packs the leading digits of the literal into a working
//! integer, locates the implicit leading mantissa bit, and assembles
//! sign, biased exponent and mantissa. Digits beyond the working
//! integer's capacity are dropped and reported as imprecision; an
//! exponent outside the normal range saturates to a signed zero or a
//! signed infinity, also reported as imprecision.
use vstd::prelude::*;

verus! {

use vstd::arithmetic::power2::{
    pow2,
    lemma_pow2_adds,
    lemma_pow2_strictly_increases,
    lemma_pow2_unfold,
    lemma_pow2_pos,
    lemma2_to64,
    lemma2_to64_rest,
};
use vstd::arithmetic::mul::{lemma_mul_inequality, lemma_mul_strict_inequality};
use vstd::arithmetic::div_mod::lemma_multiply_divide_lt;
use crate::arith::{bit_len, lemma_bit_len_bounds, lemma_bit_len_le, pow2_u64, bit_length_u64};
use crate::digits::{digits_val, lemma_digits_val_bound, lemma_digits_val_lower};
use crate::{ConversionResult, FloatLiteral, LiteralModel};

/// The field widths a format must have for the converter's working
/// integer to be a single 64-bit word.
pub open spec fn format_wf(e: nat, m: nat) -> bool {
    &&& 3 <= e
    &&& 1 <= m
    &&& 1 + e + m <= 64
}

/// The exponent bias of a format: `2^(e-1) - 1`.
pub open spec fn bias(e: nat) -> nat {
    (pow2((e - 1) as nat) - 1) as nat
}

/// How many leading digits of a literal are packed into the working
/// integer; later digits are dropped as a truncation.
pub open spec fn max_packed_digits(m: nat) -> nat {
    m / 4 + 1
}

/// The sign field of a bit pattern: 0 for positive, 1 for negative.
pub open spec fn sign_bit(is_positive: bool) -> nat {
    if is_positive {
        0
    } else {
        1
    }
}

/// Number of digits of the literal that the converter packs.
pub open spec fn packed_count(l: LiteralModel, m: nat) -> nat {
    if l.digits.len() <= max_packed_digits(m) {
        l.digits.len()
    } else {
        max_packed_digits(m)
    }
}

/// The integer value of the packed digits.
pub open spec fn packed_val(l: LiteralModel, m: nat) -> nat {
    digits_val(l.digits.take(packed_count(l, m) as int))
}

/// Position of the highest set bit of the packed value: the implicit
/// leading mantissa bit, which the stored mantissa omits.
pub open spec fn high_bit(l: LiteralModel, m: nat) -> nat {
    (bit_len(packed_val(l, m)) - 1) as nat
}

/// The mantissa field: the packed value with its leading bit removed,
/// aligned to `m` bits. When the value has more than `m` bits below its
/// leading bit, the surplus low bits are discarded (a hard truncation,
/// not a rounding).
pub open spec fn mantissa_field(l: LiteralModel, m: nat) -> nat {
    let p = packed_val(l, m);
    let b = high_bit(l, m);
    let rest = (p - pow2(b)) as nat;
    if b <= m {
        rest * pow2((m - b) as nat)
    } else {
        rest / pow2((b - m) as nat)
    }
}

/// The binary exponent of the value `1.mantissa * 2^final_exponent`
/// that the literal denotes: four bits for each hex digit before the
/// radix point, less the digits that were packed, plus the position of
/// the leading bit and the literal's explicit exponent.
pub open spec fn final_exponent(l: LiteralModel, m: nat) -> int {
    4 * (l.decimal_offset - packed_count(l, m)) + high_bit(l, m) + l.exponent
}

/// Bit pattern of a signed zero.
pub open spec fn zero_bits(is_positive: bool, e: nat, m: nat) -> nat {
    sign_bit(is_positive) * pow2(e + m)
}

/// Bit pattern of a signed infinity: exponent field all ones, mantissa
/// zero.
pub open spec fn infinity_bits(is_positive: bool, e: nat, m: nat) -> nat {
    (sign_bit(is_positive) * pow2(e + m) + (pow2(e) - 1) * pow2(m)) as nat
}

/// What converting a literal to a format with exponent width `e` and
/// mantissa width `m` yields: the bit pattern, and whether the
/// conversion was precise.
pub open spec fn spec_convert(l: LiteralModel, e: nat, m: nat) -> (nat, bool) {
    if l.digits.len() == 0 {
        (zero_bits(l.is_positive, e, m), true)
    } else if final_exponent(l, m) < 1 - bias(e) {
        (zero_bits(l.is_positive, e, m), false)
    } else if final_exponent(l, m) > bias(e) {
        (infinity_bits(l.is_positive, e, m), false)
    } else {
        (
            (sign_bit(l.is_positive) * pow2(e + m) + (final_exponent(l, m) + bias(e)) * pow2(m)
                + mantissa_field(l, m)) as nat,
            l.digits.len() <= max_packed_digits(m),
        )
    }
}

/// Bounds on the packed value of a convertible, non-zero literal.
pub proof fn lemma_packed_val_bounds(l: LiteralModel, m: nat)
    requires
        l.convertible(),
        l.digits.len() > 0,
        format_wf(3, m),
    ensures
        1 <= packed_count(l, m) <= max_packed_digits(m),
        4 * max_packed_digits(m) <= m + 4 <= 64,
        1 <= packed_val(l, m) < pow2(4 * packed_count(l, m)),
        pow2(high_bit(l, m)) <= packed_val(l, m) < pow2(high_bit(l, m) + 1),
        high_bit(l, m) + 1 <= 4 * packed_count(l, m),
{
    let k = packed_count(l, m) as int;
    let taken = l.digits.take(k);
    assert(taken[0] == l.digits[0]);
    lemma_digits_val_lower(taken);
    lemma_pow2_pos((4 * (k - 1)) as nat);
    lemma_digits_val_bound(taken);
    let p = packed_val(l, m);
    lemma_bit_len_bounds(p);
    lemma_bit_len_le(p, 4 * packed_count(l, m));
}

/// The mantissa field fits in `m` bits.
pub proof fn lemma_mantissa_field_bound(l: LiteralModel, m: nat)
    requires
        l.convertible(),
        l.digits.len() > 0,
        format_wf(3, m),
    ensures
        mantissa_field(l, m) < pow2(m),
{
    lemma_packed_val_bounds(l, m);
    let p = packed_val(l, m);
    let b = high_bit(l, m);
    let rest = (p - pow2(b)) as nat;
    assert(rest < pow2(b)) by {
        lemma_pow2_unfold(b + 1);
    }
    if b <= m {
        lemma_pow2_adds(b, (m - b) as nat);
        lemma_pow2_pos((m - b) as nat);
        lemma_mul_strict_inequality(rest as int, pow2(b) as int, pow2((m - b) as nat) as int);
    } else {
        lemma_pow2_adds((b - m) as nat, m);
        lemma_pow2_pos((b - m) as nat);
        lemma_multiply_divide_lt(rest as int, pow2((b - m) as nat) as int, pow2(m) as int);
    }
}

/// Every converted bit pattern fits in the format's `1 + e + m` bits.
pub proof fn lemma_spec_convert_bound(l: LiteralModel, e: nat, m: nat)
    requires
        l.convertible(),
        format_wf(e, m),
    ensures
        spec_convert(l, e, m).0 < pow2(1 + e + m),
{
    lemma_pow2_adds(1, e + m);
    lemma_pow2_pos(e + m);
    lemma_pow2_pos(m);
    lemma_pow2_pos(e);
    assert(pow2(1) == 2) by {
        lemma2_to64();
    }
    let s = sign_bit(l.is_positive);
    assert(s * pow2(e + m) <= pow2(e + m));
    if l.digits.len() == 0 || final_exponent(l, m) < 1 - bias(e) || final_exponent(l, m) > bias(
        e,
    ) {
        assert((pow2(e) - 1) * pow2(m) + pow2(m) == pow2(e) * pow2(m)) by (nonlinear_arith);
        lemma_pow2_adds(e, m);
    } else {
        lemma_mantissa_field_bound(l, m);
        let c = (final_exponent(l, m) + bias(e)) as nat;
        assert(bias(e) >= 1) by {
            lemma_pow2_strictly_increases(1, (e - 1) as nat);
            lemma2_to64();
        }
        assert(c <= 2 * bias(e));
        assert(2 * bias(e) <= pow2(e) - 2) by {
            assert(pow2(e) == 2 * pow2((e - 1) as nat)) by {
                lemma_pow2_adds(1, (e - 1) as nat);
                lemma2_to64();
            }
        }
        lemma_mul_inequality(c as int, pow2(e) as int - 2, pow2(m) as int);
        assert((pow2(e) - 2) * pow2(m) + 2 * pow2(m) == pow2(e) * pow2(m)) by (nonlinear_arith);
        lemma_pow2_adds(e, m);
    }
}

/// Facts about the bias of a well-formed format that the converter's
/// range checks rely on.
pub proof fn lemma_bias_facts(e: nat)
    requires
        3 <= e <= 62,
    ensures
        1 <= bias(e) < pow2(62),
        2 * bias(e) == pow2(e) - 2,
        pow2(e) == 2 * pow2((e - 1) as nat),
{
    lemma_pow2_strictly_increases(1, (e - 1) as nat);
    if e < 63 {
        lemma_pow2_strictly_increases((e - 1) as nat, 62);
    }
    lemma_pow2_adds(1, (e - 1) as nat);
    lemma2_to64();
    lemma2_to64_rest();
}

/// The field values of a normal number assemble into a pattern below
/// `pow2(e + m)`, which itself fits in a 64-bit word.
pub proof fn lemma_assemble_bound(c: nat, man: nat, e: nat, m: nat)
    requires
        format_wf(e, m),
        c <= pow2(e) - 2,
        man < pow2(m),
    ensures
        c * pow2(m) + man < pow2(e + m) <= pow2(63),
{
    lemma_mul_inequality(c as int, pow2(e) as int - 2, pow2(m) as int);
    lemma_pow2_adds(e, m);
    lemma_pow2_pos(m);
    assert((pow2(e) - 2) * pow2(m) + 2 * pow2(m) == pow2(e) * pow2(m)) by (nonlinear_arith);
    if e + m < 63 {
        lemma_pow2_strictly_increases(e + m, 63);
    }
}

/// The infinity pattern of a well-formed format, written as a sum.
proof fn lemma_infinity_sum(e: nat, m: nat)
    requires
        format_wf(e, m),
    ensures
        (pow2(e) - 1) * pow2(m) == pow2(e + m) - pow2(m),
        pow2(m) >= 1,
        pow2(e + m) <= pow2(63),
{
    lemma_pow2_adds(e, m);
    lemma_pow2_pos(m);
    lemma_pow2_pos(e);
    assert((pow2(e) - 1) * pow2(m) == pow2(e + m) - pow2(m))
        by (nonlinear_arith)
        requires
            pow2(e) * pow2(m) == pow2(e + m),
    ;
    if e + m < 63 {
        lemma_pow2_strictly_increases(e + m, 63);
    }
}

/// Pack the first `k` digits into a 64-bit working integer, most
/// significant digit first.
fn pack_digits(digits: &Vec<u8>, k: usize) -> (p: u64)
    requires
        k <= 16,
        k <= digits.len(),
        forall|j: int| 0 <= j < digits@.len() ==> digits@[j] < 16,
    ensures
        p == digits_val(digits@.take(k as int)),
{
    let mut p: u64 = 0;
    let mut i: usize = 0;
    proof {
        assert(digits@.take(0) =~= Seq::<u8>::empty());
        lemma2_to64();
    }
    while i < k
        invariant
            i <= k <= 16,
            k <= digits@.len(),
            forall|j: int| 0 <= j < digits@.len() ==> digits@[j] < 16,
            p == digits_val(digits@.take(i as int)),
            p < pow2(4 * i as nat),
        decreases k - i,
    {
        let d = digits[i];
        proof {
            let taken = digits@.take(i + 1);
            assert(taken.drop_last() =~= digits@.take(i as int));
            assert(taken.last() == digits@[i as int]);
            lemma_pow2_adds(4 * i as nat, 4);
            lemma2_to64();
            assert(p * 16 + d < pow2(4 * i as nat) * 16);
            if 4 * (i + 1) < 64 {
                lemma_pow2_strictly_increases(4 * (i + 1) as nat, 64);
            }
            lemma2_to64_rest();
        }
        p = p * 16 + (d as u64);
        i = i + 1;
    }
    p
}

/// Convert a literal to the bit pattern of the format with the given
/// field widths, together with a flag that is true when the conversion
/// kept every digit.
#[verifier::rlimit(60)]
pub fn convert_literal_bits(literal: &FloatLiteral, exponent_bits: u32, mantissa_bits: u32) -> (r:
    (u64, bool))
    requires
        literal@.convertible(),
        format_wf(exponent_bits as nat, mantissa_bits as nat),
    ensures
        r.0 == spec_convert(literal@, exponent_bits as nat, mantissa_bits as nat).0,
        r.1 == spec_convert(literal@, exponent_bits as nat, mantissa_bits as nat).1,
{
    let ghost em_g = exponent_bits as nat;
    let ghost m_g = mantissa_bits as nat;
    let width: u32 = exponent_bits + mantissa_bits;
    let sign_field: u64 = if literal.is_positive {
        0
    } else {
        pow2_u64(width)
    };
    assert(sign_field == zero_bits(literal@.is_positive, em_g, m_g));

    if literal.digits.len() == 0 {
        return (sign_field, true);
    }
    proof {
        lemma_packed_val_bounds(literal@, m_g);
    }

    // Pack the leading digits of the literal into a 64-bit working
    // integer; later digits are dropped as a truncation.
    let max_digits: usize = (mantissa_bits / 4 + 1) as usize;
    let n = literal.digits.len();
    let k: usize = if n <= max_digits {
        n
    } else {
        max_digits
    };
    let truncated = n > max_digits;
    assert(k == packed_count(literal@, m_g));
    let p = pack_digits(&literal.digits, k);
    assert(p == packed_val(literal@, m_g));

    // Locate the implicit leading mantissa bit and align the rest of
    // the packed value to the mantissa field.
    let bl = bit_length_u64(p);
    let b: u32 = bl - 1;
    assert(b == high_bit(literal@, m_g));
    let high = pow2_u64(b);
    proof {
        lemma_bit_len_bounds(p as nat);
        lemma_pow2_unfold((b + 1) as nat);
    }
    let rest: u64 = p - high;
    assert(rest < pow2(b as nat));
    let man: u64 = if b <= mantissa_bits {
        proof {
            lemma_pow2_adds(b as nat, (mantissa_bits - b) as nat);
            lemma_pow2_pos((mantissa_bits - b) as nat);
            lemma_mul_strict_inequality(
                rest as int,
                pow2(b as nat) as int,
                pow2((mantissa_bits - b) as nat) as int,
            );
            lemma_pow2_strictly_increases(m_g, 64);
            lemma2_to64_rest();
        }
        rest * pow2_u64(mantissa_bits - b)
    } else {
        proof {
            lemma_pow2_pos((b - mantissa_bits) as nat);
        }
        rest / pow2_u64(b - mantissa_bits)
    };
    assert(man == mantissa_field(literal@, m_g));
    proof {
        lemma_mantissa_field_bound(literal@, m_g);
    }

    let fe: i64 = 4 * (literal.decimal_offset as i64) - 4 * (k as i64) + (b as i64) + (
    literal.exponent as i64);
    assert(fe == final_exponent(literal@, m_g));

    proof {
        lemma_bias_facts(em_g);
        lemma2_to64_rest();
    }
    let bias_word: u64 = pow2_u64(exponent_bits - 1) - 1;
    assert(bias_word == bias(em_g));
    let bias_i: i64 = bias_word as i64;

    // Below the normal range the value collapses to a signed zero:
    // subnormals are deliberately unsupported.
    if fe < 1 - bias_i {
        return (sign_field, false);
    }
    // Above the normal range the value saturates to a signed infinity.
    if fe > bias_i {
        proof {
            lemma_infinity_sum(em_g, m_g);
            lemma2_to64_rest();
        }
        let inf: u64 = sign_field + (pow2_u64(exponent_bits) - 1) * pow2_u64(mantissa_bits);
        assert(inf == infinity_bits(literal@.is_positive, em_g, m_g));
        return (inf, false);
    }

    // Assemble sign, biased exponent and mantissa.
    let biased: u64 = (fe + bias_i) as u64;
    proof {
        lemma_assemble_bound(biased as nat, man as nat, em_g, m_g);
        lemma2_to64_rest();
    }
    let bits: u64 = sign_field + biased * pow2_u64(mantissa_bits) + man;
    (bits, !truncated)
}

/// Trait to describe conversion to floating point formats, given by the
/// widths of their exponent and mantissa fields. A value of an
/// implementing type stands for its raw IEEE-754 bit pattern, which
/// [`Self::spec_bits`] exposes to specifications.
pub trait FPFormat: Sized {
    /// Width in bits of the format's exponent field.
    spec fn exponent_bits() -> nat;

    /// Width in bits of the format's mantissa field.
    spec fn mantissa_bits() -> nat;

    /// The value as a raw bit pattern.
    spec fn spec_bits(self) -> nat;

    /// Convert a literal to this format.
    fn from_literal(literal: FloatLiteral) -> (r: ConversionResult<Self>)
        requires
            literal@.convertible(),
        ensures
            r.spec_inner().spec_bits() == spec_convert(
                literal@,
                Self::exponent_bits(),
                Self::mantissa_bits(),
            ).0,
            (r is Precise) == spec_convert(
                literal@,
                Self::exponent_bits(),
                Self::mantissa_bits(),
            ).1,
    ;
}

/// The 32-bit format, as its raw bit pattern: 8 exponent bits, 23
/// mantissa bits.
impl FPFormat for u32 {
    open spec fn exponent_bits() -> nat {
        8
    }

    open spec fn mantissa_bits() -> nat {
        23
    }

    open spec fn spec_bits(self) -> nat {
        self as nat
    }

    fn from_literal(literal: FloatLiteral) -> (r: ConversionResult<u32>) {
        proof {
            lemma_spec_convert_bound(literal@, 8, 23);
            lemma2_to64();
        }
        let (bits, precise) = convert_literal_bits(&literal, 8, 23);
        let word = bits as u32;
        if precise {
            ConversionResult::Precise(word)
        } else {
            ConversionResult::Imprecise(word)
        }
    }
}

/// The 64-bit format, as its raw bit pattern: 11 exponent bits, 52
/// mantissa bits.
impl FPFormat for u64 {
    open spec fn exponent_bits() -> nat {
        11
    }

    open spec fn mantissa_bits() -> nat {
        52
    }

    open spec fn spec_bits(self) -> nat {
        self as nat
    }

    fn from_literal(literal: FloatLiteral) -> (r: ConversionResult<u64>) {
        let (bits, precise) = convert_literal_bits(&literal, 11, 52);
        if precise {
            ConversionResult::Precise(bits)
        } else {
            ConversionResult::Imprecise(bits)
        }
    }
}

impl FloatLiteral {
    /// Convert the literal to a format's bit pattern and report the
    /// precision of the conversion.
    pub fn convert<F: FPFormat>(self) -> (r: ConversionResult<F>)
        requires
            self@.convertible(),
        ensures
            r.spec_inner().spec_bits() == spec_convert(
                self@,
                F::exponent_bits(),
                F::mantissa_bits(),
            ).0,
            (r is Precise) == spec_convert(self@, F::exponent_bits(), F::mantissa_bits()).1,
    {
        F::from_literal(self)
    }
}

} // verus!
