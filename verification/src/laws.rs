//! The laws of the library: what parsing and conversion guarantee
//! beyond the contracts of the individual functions. Each proof
//! function here states one such law; its doc comment says it in words.
use vstd::prelude::*;

verus! {

use vstd::arithmetic::power2::{pow2, lemma_pow2_adds, lemma_pow2_pos};
use vstd::arithmetic::mul::lemma_mul_is_distributive_add_other_way;
use vstd::arithmetic::div_mod::lemma_fundamental_div_mod_converse;
use crate::arith::bit_len;
use crate::digits::{
    digits_val,
    first_nonzero,
    last_nonzero,
    lemma_first_nonzero,
    lemma_last_nonzero,
    lemma_normalize_wf,
    normalize,
};
use crate::fpformat::{
    bias,
    final_exponent,
    format_wf,
    high_bit,
    infinity_bits,
    lemma_assemble_bound,
    lemma_bias_facts,
    lemma_mantissa_field_bound,
    lemma_packed_val_bounds,
    mantissa_field,
    max_packed_digits,
    sign_bit,
    spec_convert,
    zero_bits,
};
use crate::parse::{has_fpart, fpart_start, ipart_start, raw_digits, spec_parse};
use crate::scanner::lemma_hex_run_end;
use crate::LiteralModel;

/// `n1 * 2^e1 == n2 * 2^e2`, stated without leaving the integers: the
/// side with the smaller exponent absorbs the difference.
pub open spec fn same_scaled_value(n1: nat, e1: int, n2: nat, e2: int) -> bool {
    if e1 <= e2 {
        n1 == n2 * pow2((e2 - e1) as nat)
    } else {
        n1 * pow2((e1 - e2) as nat) == n2
    }
}

/// The mantissa field of a bit pattern: its low `m` bits.
pub open spec fn mantissa_of_bits(bits: nat, m: nat) -> nat {
    bits % pow2(m)
}

/// The biased exponent field of a bit pattern: the `e` bits above the
/// mantissa.
pub open spec fn exponent_of_bits(bits: nat, e: nat, m: nat) -> nat {
    (bits / pow2(m)) % pow2(e)
}

/// The sign field of a bit pattern: the bit above the exponent field.
pub open spec fn sign_of_bits(bits: nat, e: nat, m: nat) -> nat {
    bits / pow2(e + m)
}

/// Whatever the grammar accepts is a well-formed literal: every digit
/// is a nibble value and the digit sequence is fully trimmed. Together
/// with the converter's being total on well-formed literals, parsing
/// then converting always yields a tagged result.
pub proof fn lemma_parse_yields_wf(s: Seq<char>, sep: char)
    ensures
        (match spec_parse(s, sep) {
            Ok(p) => p.0.wf(),
            Err(_) => true,
        }),
{
    match spec_parse(s, sep) {
        Ok(p) => {
            assert(forall|i: int|
                0 <= i < raw_digits(s, sep).len() ==> #[trigger] raw_digits(s, sep)[i] < 16) by {
                lemma_hex_run_end(s, ipart_start(s));
                if has_fpart(s, sep) {
                    lemma_hex_run_end(s, fpart_start(s));
                }
            }
            lemma_normalize_wf(raw_digits(s, sep), crate::parse::ipart_len(s));
        },
        Err(_) => {},
    }
}

/// A value `l` such that everything after it is zero and `l` itself is
/// non-zero (or `-1` when everything is zero) is what `last_nonzero`
/// finds.
proof fn lemma_last_nonzero_unique(ds: Seq<u8>, l: int)
    requires
        -1 <= l < ds.len(),
        forall|i: int| l < i < ds.len() ==> ds[i] == 0,
        l >= 0 ==> ds[l] != 0,
    ensures
        last_nonzero(ds) == l,
{
    lemma_last_nonzero(ds);
    if last_nonzero(ds) < l {
        assert(ds[l] == 0);
    }
    if l < last_nonzero(ds) {
        assert(ds[last_nonzero(ds)] == 0);
    }
}

/// A value `f` such that everything before it is zero and `f` itself is
/// non-zero (or the length when everything is zero) is what
/// `first_nonzero` finds.
proof fn lemma_first_nonzero_unique(ds: Seq<u8>, f: int)
    requires
        0 <= f <= ds.len(),
        forall|i: int| 0 <= i < f ==> ds[i] == 0,
        f < ds.len() ==> ds[f] != 0,
    ensures
        first_nonzero(ds) == f,
{
    lemma_first_nonzero(ds);
    if first_nonzero(ds) < f {
        assert(ds[first_nonzero(ds)] == 0);
    }
    if f < first_nonzero(ds) {
        assert(ds[f] == 0);
    }
}

/// Normalization is insensitive to a leading zero digit on the integer
/// part: prepending `0` to the digits while counting one more integer
/// digit changes nothing. With `lemma_normalize_trailing_zero` this is
/// why literals differing only in leading and trailing zero digits
/// parse to the same literal.
pub proof fn lemma_normalize_leading_zero(ds: Seq<u8>, ipart_len: int)
    ensures
        normalize(seq![0u8] + ds, ipart_len + 1) == normalize(ds, ipart_len),
{
    let padded = seq![0u8] + ds;
    assert(padded.skip(1) =~= ds);
    assert(padded[0] == 0);
    assert(first_nonzero(padded) == 1 + first_nonzero(ds));
    lemma_first_nonzero(ds);
    lemma_last_nonzero(ds);
    if first_nonzero(ds) == ds.len() {
    } else {
        lemma_last_nonzero_unique(padded, last_nonzero(ds) + 1);
        assert(padded.subrange(first_nonzero(ds) + 1, last_nonzero(ds) + 2) =~= ds.subrange(
            first_nonzero(ds),
            last_nonzero(ds) + 1,
        ));
    }
}

/// Normalization is insensitive to a trailing zero digit on the
/// fractional part: appending `0` to the digits changes nothing.
pub proof fn lemma_normalize_trailing_zero(ds: Seq<u8>, ipart_len: int)
    ensures
        normalize(ds.push(0u8), ipart_len) == normalize(ds, ipart_len),
{
    let padded = ds.push(0u8);
    assert(padded.drop_last() =~= ds);
    assert(last_nonzero(padded) == last_nonzero(ds));
    lemma_first_nonzero(ds);
    lemma_last_nonzero(ds);
    if first_nonzero(ds) == ds.len() {
        lemma_first_nonzero_unique(padded, padded.len() as int);
    } else {
        lemma_first_nonzero_unique(padded, first_nonzero(ds));
        assert(padded.subrange(first_nonzero(ds), last_nonzero(ds) + 1) =~= ds.subrange(
            first_nonzero(ds),
            last_nonzero(ds) + 1,
        ));
    }
}

/// The three fields of a bit pattern assembled for a normal number
/// decode back to the sign, the biased exponent and the mantissa that
/// the converter computed.
pub proof fn lemma_convert_normal_fields(l: LiteralModel, e: nat, m: nat)
    requires
        l.convertible(),
        format_wf(e, m),
        l.digits.len() > 0,
        1 - bias(e) <= final_exponent(l, m) <= bias(e),
    ensures
        sign_of_bits(spec_convert(l, e, m).0, e, m) == sign_bit(l.is_positive),
        exponent_of_bits(spec_convert(l, e, m).0, e, m) == final_exponent(l, m) + bias(e),
        mantissa_of_bits(spec_convert(l, e, m).0, m) == mantissa_field(l, m),
        spec_convert(l, e, m).1 == (l.digits.len() <= max_packed_digits(m)),
{
    let s = sign_bit(l.is_positive);
    let c = (final_exponent(l, m) + bias(e)) as nat;
    let man = mantissa_field(l, m);
    let bits = spec_convert(l, e, m).0;
    lemma_mantissa_field_bound(l, m);
    lemma_bias_facts(e);
    assert(c <= pow2(e) - 2);
    lemma_pow2_adds(e, m);
    lemma_pow2_pos(m);
    lemma_pow2_pos(e);
    lemma_pow2_pos(e + m);
    assert(bits == s * pow2(e + m) + c * pow2(m) + man);
    assert(bits == (s * pow2(e) + c) * pow2(m) + man)
        by (nonlinear_arith)
        requires
            pow2(e + m) == pow2(e) * pow2(m),
            bits == s * pow2(e + m) + c * pow2(m) + man,
    ;
    lemma_fundamental_div_mod_converse(
        bits as int,
        pow2(m) as int,
        (s * pow2(e) + c) as int,
        man as int,
    );
    assert(s * pow2(e) + c == s * pow2(e) + c * 1);
    lemma_fundamental_div_mod_converse(
        (s * pow2(e) + c) as int,
        pow2(e) as int,
        s as int,
        c as int,
    );
    lemma_assemble_bound(c, man, e, m);
    lemma_fundamental_div_mod_converse(
        bits as int,
        pow2(e + m) as int,
        s as int,
        (c * pow2(m) + man) as int,
    );
}

/// Round trip: when every digit of the literal fits in the target
/// mantissa (the digit magnitude has at most `m` bits below its
/// leading bit) and the exponent lies in the normal range, the
/// conversion is tagged precise and the resulting bit pattern denotes
/// exactly the literal's magnitude: the recovered significand times
/// two to the recovered exponent equals the digit value times two to
/// the literal's scale.
pub proof fn lemma_precise_conversion_exact(l: LiteralModel, e: nat, m: nat)
    requires
        l.convertible(),
        format_wf(e, m),
        l.digits.len() > 0,
        l.digits.len() <= max_packed_digits(m),
        bit_len(digits_val(l.digits)) <= m + 1,
        1 - bias(e) <= final_exponent(l, m) <= bias(e),
    ensures
        spec_convert(l, e, m).1 == true,
        sign_of_bits(spec_convert(l, e, m).0, e, m) == sign_bit(l.is_positive),
        same_scaled_value(
            pow2(m) + mantissa_of_bits(spec_convert(l, e, m).0, m),
            exponent_of_bits(spec_convert(l, e, m).0, e, m) - bias(e) - m,
            digits_val(l.digits),
            4 * (l.decimal_offset - l.digits.len()) + l.exponent,
        ),
{
    lemma_convert_normal_fields(l, e, m);
    lemma_packed_val_bounds(l, m);
    assert(l.digits.take(l.digits.len() as int) =~= l.digits);
    let d = digits_val(l.digits);
    let b = high_bit(l, m);
    assert(b <= m);
    let rest = (d - pow2(b)) as nat;
    assert(mantissa_field(l, m) == rest * pow2((m - b) as nat));
    assert(pow2(m) + rest * pow2((m - b) as nat) == d * pow2((m - b) as nat)) by {
        lemma_pow2_adds(b, (m - b) as nat);
        lemma_mul_is_distributive_add_other_way(
            pow2((m - b) as nat) as int,
            pow2(b) as int,
            rest as int,
        );
    }
    assert(final_exponent(l, m) == 4 * (l.decimal_offset - l.digits.len()) + b + l.exponent);
}

/// Boundary behaviour above the normal range: an exponent beyond the
/// format's maximum converts to the signed infinity pattern, tagged
/// imprecise.
pub proof fn lemma_overflow_saturates(l: LiteralModel, e: nat, m: nat)
    requires
        format_wf(e, m),
        l.digits.len() > 0,
        final_exponent(l, m) > bias(e),
    ensures
        spec_convert(l, e, m) == (infinity_bits(l.is_positive, e, m), false),
{
    lemma_bias_facts(e);
}

/// Boundary behaviour below the normal range: an exponent beneath the
/// format's minimum converts to the signed zero pattern, tagged
/// imprecise, since subnormal values are deliberately unsupported.
pub proof fn lemma_underflow_saturates(l: LiteralModel, e: nat, m: nat)
    requires
        format_wf(e, m),
        l.digits.len() > 0,
        final_exponent(l, m) < 1 - bias(e),
    ensures
        spec_convert(l, e, m) == (zero_bits(l.is_positive, e, m), false),
{
}

/// The sign of zero is preserved: a literal without digits converts
/// precisely to the signed zero pattern, and the negative zero pattern
/// differs from the positive one in exactly the sign bit.
pub proof fn lemma_signed_zero(l: LiteralModel, e: nat, m: nat)
    requires
        format_wf(e, m),
        l.digits.len() == 0,
    ensures
        spec_convert(l, e, m) == (zero_bits(l.is_positive, e, m), true),
        zero_bits(true, e, m) == 0,
        zero_bits(false, e, m) == pow2(e + m),
        zero_bits(false, e, m) != zero_bits(true, e, m),
{
    lemma_pow2_pos(e + m);
}

} // verus!
