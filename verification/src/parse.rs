//! The literal parser: a single forward pass over the input that checks
//! the grammar (sign, `0x` prefix, integer hex digits, optional
//! fractional hex digits, optional signed decimal exponent), normalizes
//! the digit sequence and produces a [`FloatLiteral`].
//!
//! The grammar is specified by [`spec_parse`], which names the error
//! (with its source index) on inputs the grammar rejects, and the
//! parsed literal together with the number of characters consumed on
//! inputs it accepts.
use vstd::prelude::*;

verus! {

use crate::digits::{normalize, lemma_first_nonzero, lemma_last_nonzero, lemma_normalize_wf};
use crate::scanner::{CharsIterator, hex_values, hex_run_end, lemma_hex_run_end};
use crate::{FloatLiteral, LiteralModel, ParseError, ParseErrorKind};

/// Whether a character is a decimal digit.
pub open spec fn is_dec_digit(c: char) -> bool {
    48 <= c as u32 <= 57
}

/// The value (0-9) of a decimal digit character.
pub open spec fn dec_value(c: char) -> u8 {
    (c as u32 - 48) as u8
}

/// Decode a decimal digit character to its value.
fn dec_digit_value(c: char) -> (r: Option<u8>)
    ensures
        r == (if is_dec_digit(c) {
            Some(dec_value(c))
        } else {
            None::<u8>
        }),
{
    let u = c as u32;
    if 48 <= u && u <= 57 {
        Some((u - 48) as u8)
    } else {
        None
    }
}

/// The first index at or after `from` whose character is not a decimal
/// digit, or the length of the sequence when the run reaches its end.
pub open spec fn dec_run_end(s: Seq<char>, from: int) -> int
    decreases s.len() - from,
    when 0 <= from <= s.len()
{
    if from < s.len() && is_dec_digit(s[from]) {
        dec_run_end(s, from + 1)
    } else {
        from
    }
}

/// What `dec_run_end` delimits: a maximal run of decimal digits.
pub proof fn lemma_dec_run_end(s: Seq<char>, from: int)
    requires
        0 <= from <= s.len(),
    ensures
        from <= dec_run_end(s, from) <= s.len(),
        forall|i: int| from <= i < dec_run_end(s, from) ==> is_dec_digit(s[i]),
        dec_run_end(s, from) < s.len() ==> !is_dec_digit(s[dec_run_end(s, from)]),
    decreases s.len() - from,
{
    if from < s.len() && is_dec_digit(s[from]) {
        lemma_dec_run_end(s, from + 1);
    }
}

/// The number denoted by the decimal digits of `s` between `from` and
/// `to`.
pub open spec fn dec_val(s: Seq<char>, from: int, to: int) -> nat
    decreases to - from,
    when from <= to
{
    if to <= from {
        0
    } else {
        (dec_val(s, from, to - 1) * 10 + dec_value(s[to - 1])) as nat
    }
}

/// Number of characters an optional leading sign occupies.
pub open spec fn sign_len(s: Seq<char>) -> int {
    if s.len() > 0 && (s[0] == '+' || s[0] == '-') {
        1
    } else {
        0
    }
}

/// The sign of the literal: positive unless a `-` leads.
pub open spec fn sign_positive(s: Seq<char>) -> bool {
    !(s.len() > 0 && s[0] == '-')
}

/// Whether a `0x` or `0X` prefix follows the optional sign.
pub open spec fn has_prefix(s: Seq<char>) -> bool {
    let sl = sign_len(s);
    s.len() >= sl + 2 && s[sl] == '0' && (s[sl + 1] == 'x' || s[sl + 1] == 'X')
}

/// Index where the integer part's digits begin.
pub open spec fn ipart_start(s: Seq<char>) -> int {
    sign_len(s) + 2
}

/// Index just past the integer part's digits.
pub open spec fn ipart_end(s: Seq<char>) -> int {
    hex_run_end(s, ipart_start(s))
}

/// Number of digits of the integer part.
pub open spec fn ipart_len(s: Seq<char>) -> int {
    ipart_end(s) - ipart_start(s)
}

/// Whether the configured decimal separator follows the integer part.
pub open spec fn has_fpart(s: Seq<char>, sep: char) -> bool {
    ipart_end(s) < s.len() && s[ipart_end(s)] == sep
}

/// Index where the fractional part's digits begin.
pub open spec fn fpart_start(s: Seq<char>) -> int {
    ipart_end(s) + 1
}

/// Index just past all of the literal's digits, fractional part
/// included.
pub open spec fn digits_end(s: Seq<char>, sep: char) -> int {
    if has_fpart(s, sep) {
        hex_run_end(s, fpart_start(s))
    } else {
        ipart_end(s)
    }
}

/// The decoded digit values of the integer and fractional parts,
/// concatenated.
pub open spec fn raw_digits(s: Seq<char>, sep: char) -> Seq<u8> {
    hex_values(s, ipart_start(s), ipart_end(s)) + if has_fpart(s, sep) {
        hex_values(s, fpart_start(s), digits_end(s, sep))
    } else {
        Seq::empty()
    }
}

/// Whether a `p` or `P` exponent marker follows the digits.
pub open spec fn has_epart(s: Seq<char>, sep: char) -> bool {
    digits_end(s, sep) < s.len() && (s[digits_end(s, sep)] == 'p' || s[digits_end(s, sep)] == 'P')
}

/// Index just past the exponent marker: where the exponent's optional
/// sign and digits begin.
pub open spec fn epart_start(s: Seq<char>, sep: char) -> int {
    digits_end(s, sep) + 1
}

/// Number of characters the exponent's optional sign occupies.
pub open spec fn exp_sign_len(s: Seq<char>, start: int) -> int {
    if start < s.len() && (s[start] == '+' || s[start] == '-') {
        1
    } else {
        0
    }
}

/// Whether the exponent is negated.
pub open spec fn exp_negative(s: Seq<char>, start: int) -> bool {
    start < s.len() && s[start] == '-'
}

/// Index where the exponent's digits begin.
pub open spec fn exp_digits_start(s: Seq<char>, start: int) -> int {
    start + exp_sign_len(s, start)
}

/// Index just past the exponent's digits.
pub open spec fn exp_digits_end(s: Seq<char>, start: int) -> int {
    dec_run_end(s, exp_digits_start(s, start))
}

/// The magnitude of the exponent's digit run.
pub open spec fn exp_magnitude(s: Seq<char>, start: int) -> nat {
    dec_val(s, exp_digits_start(s, start), exp_digits_end(s, start))
}

/// Whether the signed exponent falls outside a 32-bit signed integer.
pub open spec fn exp_overflows(s: Seq<char>, start: int) -> bool {
    if exp_negative(s, start) {
        exp_magnitude(s, start) > 0x8000_0000
    } else {
        exp_magnitude(s, start) > 0x7fff_ffff
    }
}

/// The outcome of scanning an exponent whose sign or digits begin at
/// `start`: the signed exponent value and the index just past its
/// digits, or the error the run yields. Both errors carry the index
/// where the exponent's digit run begins: just past the `p`/`P` and
/// its optional sign, which for a missing run is the position of
/// whatever stands in its place (the input's length, when nothing
/// does).
pub open spec fn exp_outcome(s: Seq<char>, start: int) -> Result<(int, int), ParseError> {
    if exp_digits_end(s, start) == exp_digits_start(s, start) {
        Err(
            ParseError {
                kind: ParseErrorKind::MissingExponent,
                index: exp_digits_start(s, start) as usize,
            },
        )
    } else if exp_overflows(s, start) {
        Err(
            ParseError {
                kind: ParseErrorKind::ExponentOverflow,
                index: exp_digits_start(s, start) as usize,
            },
        )
    } else {
        Ok(
            (
                if exp_negative(s, start) {
                    -(exp_magnitude(s, start) as int)
                } else {
                    exp_magnitude(s, start) as int
                },
                exp_digits_end(s, start),
            ),
        )
    }
}

/// The literal a grammatical input denotes, given its already-scanned
/// exponent: sign, normalized digits and radix-point offset.
pub open spec fn parsed_literal(s: Seq<char>, sep: char, exponent: int) -> LiteralModel {
    let t = normalize(raw_digits(s, sep), ipart_len(s));
    LiteralModel {
        is_positive: sign_positive(s),
        digits: t.0,
        decimal_offset: t.1,
        exponent,
    }
}

/// What parsing a character sequence yields: the literal and the number
/// of characters consumed, or the grammar error and its source index.
/// Trailing input past a complete literal is not an error here; the
/// whole-slice entry point [`parse`] reports it as
/// [`ParseErrorKind::ExtraData`].
pub open spec fn spec_parse(s: Seq<char>, sep: char) -> Result<(LiteralModel, int), ParseError> {
    if !has_prefix(s) {
        Err(ParseError { kind: ParseErrorKind::MissingPrefix, index: sign_len(s) as usize })
    } else if raw_digits(s, sep).len() == 0 {
        Err(ParseError { kind: ParseErrorKind::MissingDigits, index: digits_end(s, sep) as usize })
    } else if has_epart(s, sep) {
        match exp_outcome(s, epart_start(s, sep)) {
            Err(e) => Err(e),
            Ok(p) => Ok((parsed_literal(s, sep, p.0), p.1)),
        }
    } else {
        Ok((parsed_literal(s, sep, 0), digits_end(s, sep)))
    }
}

/// Scan an optionally signed decimal exponent beginning at the cursor,
/// per [`exp_outcome`]. The magnitude accumulates with saturation above
/// the 32-bit range, so arbitrarily long digit runs are detected as
/// overflows without being valued.
fn scan_exponent(data: &mut CharsIterator) -> (r: Result<i32, ParseError>)
    requires
        old(data).wf(),
    ensures
        final(data).wf(),
        final(data).chars@ == old(data).chars@,
        match r {
            Ok(v) => exp_outcome(old(data).chars@, old(data).consumed as int) matches Ok(p) && p.0
                == v as int && p.1 == final(data).consumed as int,
            Err(e) => exp_outcome(old(data).chars@, old(data).consumed as int) matches Err(e2)
                && e == e2,
        },
{
    let ghost s = data.chars@;
    let ghost start = data.consumed as int;
    let mut negative = false;
    let c = data.current();
    if c == '+' {
        data.next();
    } else if c == '-' {
        negative = true;
        data.next();
    }
    assert(negative == exp_negative(s, start));
    assert(data.consumed == exp_digits_start(s, start));
    let run_start = data.consumed;
    proof {
        lemma_dec_run_end(s, run_start as int);
    }
    let mut mag: u64 = 0;
    loop
        invariant_except_break
            data.wf(),
            data.chars@ == s,
            0 <= run_start <= data.consumed <= s.len(),
            dec_run_end(s, run_start as int) == dec_run_end(s, data.consumed as int),
            ({
                let v = dec_val(s, run_start as int, data.consumed as int);
                (v <= 0x8000_0000 && mag == v) || (v > 0x8000_0000 && mag > 0x8000_0000)
            }),
            mag <= 0x5_0000_0009,
        ensures
            data.wf(),
            data.chars@ == s,
            run_start <= data.consumed,
            data.consumed == dec_run_end(s, run_start as int),
            ({
                let v = dec_val(s, run_start as int, data.consumed as int);
                (v <= 0x8000_0000 && mag == v) || (v > 0x8000_0000 && mag > 0x8000_0000)
            }),
        decreases s.len() - data.consumed,
    {
        if data.consumed >= data.chars.len() {
            break ;
        }
        let ch = data.chars[data.consumed];
        match dec_digit_value(ch) {
            Some(d) => {
                proof {
                    assert(dec_val(s, run_start as int, data.consumed + 1) == (dec_val(
                        s,
                        run_start as int,
                        data.consumed as int,
                    ) * 10 + dec_value(s[data.consumed as int])) as nat);
                }
                if mag <= 0x8000_0000u64 {
                    mag = mag * 10 + (d as u64);
                }
                data.next();
            },
            None => {
                break ;
            },
        }
    }
    if data.consumed == run_start {
        return Err(ParseErrorKind::MissingExponent.at(run_start));
    }
    if negative {
        if mag > 0x8000_0000u64 {
            return Err(ParseErrorKind::ExponentOverflow.at(run_start));
        }
        Ok((-(mag as i64)) as i32)
    } else {
        if mag > 0x7fff_ffffu64 {
            return Err(ParseErrorKind::ExponentOverflow.at(run_start));
        }
        Ok(mag as i32)
    }
}

/// Strip leading and trailing zero digits from the raw digit sequence
/// and compute the adjusted radix-point offset, per
/// [`crate::digits::normalize`].
fn trim_digits(raw: &Vec<u8>, ipart_digits: usize) -> (r: (Vec<u8>, i32))
    requires
        raw@.len() < 0x8000_0000,
        ipart_digits < 0x8000_0000,
    ensures
        r.0@ == normalize(raw@, ipart_digits as int).0,
        r.1 as int == normalize(raw@, ipart_digits as int).1,
{
    proof {
        lemma_first_nonzero(raw@);
        lemma_last_nonzero(raw@);
    }
    let n = raw.len();
    let mut f: usize = 0;
    while f < n && raw[f] == 0
        invariant
            f <= n == raw@.len(),
            forall|i: int| 0 <= i < f ==> raw@[i] == 0,
        decreases n - f,
    {
        f = f + 1;
    }
    proof {
        let fnz = crate::digits::first_nonzero(raw@);
        if f < fnz {
            assert(raw@[f as int] == 0);
        }
        if fnz < f {
            assert(raw@[fnz] == 0);
        }
        assert(f == fnz);
    }
    if f == n {
        return (Vec::new(), 0);
    }
    let mut l: usize = n - 1;
    while raw[l] == 0
        invariant
            f <= l < n == raw@.len(),
            raw@[f as int] != 0,
            forall|i: int| l < i < n ==> raw@[i] == 0,
        decreases l,
    {
        l = l - 1;
    }
    proof {
        let lnz = crate::digits::last_nonzero(raw@);
        if l < lnz {
            assert(raw@[lnz] == 0);
        }
        if lnz < l {
            assert(raw@[l as int] == 0);
        }
        assert(l == lnz);
    }
    let mut trimmed: Vec<u8> = Vec::new();
    let mut i: usize = f;
    proof {
        assert(raw@.subrange(f as int, f as int) =~= Seq::<u8>::empty());
    }
    while i <= l
        invariant
            f <= i <= l + 1,
            l < raw@.len() < 0x8000_0000,
            trimmed@ == raw@.subrange(f as int, i as int),
        decreases l + 1 - i,
    {
        proof {
            assert(raw@.subrange(f as int, i + 1) =~= raw@.subrange(f as int, i as int).push(
                raw@[i as int],
            ));
        }
        trimmed.push(raw[i]);
        i = i + 1;
    }
    let offset: i32 = (ipart_digits as i64 - f as i64) as i32;
    (trimmed, offset)
}

impl FloatLiteral {
    /// Parse a sequence of chars into a `FloatLiteral`, following the
    /// hexadecimal floating constants of the C11 grammar, with a
    /// configurable decimal separator and without requiring an
    /// exponent.
    ///
    /// Trailing characters past the literal are left unconsumed: on
    /// success `out_consumed` receives the index of the first character
    /// that does not belong to the literal, so the parser can be
    /// embedded in a larger tokenizer. On an error `out_consumed` keeps
    /// its value.
    pub fn from_chars(input: Vec<char>, decimal_sep: char, out_consumed: &mut usize) -> (r: Result<
        FloatLiteral,
        ParseError,
    >)
        requires
            input@.len() < 0x8000_0000,
        ensures
            match r {
                Ok(lit) => {
                    &&& spec_parse(input@, decimal_sep) matches Ok(p)
                    &&& lit@ == p.0
                    &&& lit.wf()
                    &&& *final(out_consumed) == p.1
                    &&& p.1 <= input@.len()
                },
                Err(e) => {
                    &&& spec_parse(input@, decimal_sep) matches Err(e2) && e == e2
                    &&& *final(out_consumed) == *old(out_consumed)
                },
            },
    {
        let ghost s = input@;
        let mut data = CharsIterator { chars: input, consumed: 0 };

        let first = data.current();
        let is_positive = if first == '+' {
            data.next();
            true
        } else if first == '-' {
            data.next();
            false
        } else {
            true
        };
        assert(data.consumed == sign_len(s));
        assert(is_positive == sign_positive(s));

        // Parse 0x or 0X prefix.
        let prefix_start = data.consumed;
        if data.current() != '0' {
            assert(!has_prefix(s));
            return Err(ParseErrorKind::MissingPrefix.at(prefix_start));
        }
        data.next();
        let xc = data.current();
        if xc != 'x' && xc != 'X' {
            assert(!has_prefix(s));
            return Err(ParseErrorKind::MissingPrefix.at(prefix_start));
        }
        data.next();
        assert(has_prefix(s));
        assert(data.consumed == ipart_start(s));
        proof {
            lemma_hex_run_end(s, ipart_start(s));
        }

        let ipart = data.consume_hex_digits();
        let ipart_digits = ipart.len();
        assert(data.consumed == ipart_end(s));
        assert(ipart_digits == ipart_len(s));

        let fpart: Vec<u8> = if data.current() == decimal_sep {
            data.next();
            proof {
                lemma_hex_run_end(s, data.consumed as int);
            }
            data.consume_hex_digits()
        } else {
            Vec::new()
        };
        assert(data.consumed == digits_end(s, decimal_sep));
        assert(ipart@ + fpart@ == raw_digits(s, decimal_sep));

        // Must have digits before or after the decimal point.
        if fpart.len() == 0 && ipart.len() == 0 {
            return Err(ParseErrorKind::MissingDigits.at(data.consumed));
        }

        let mut exponent: i32 = 0;
        let ec = data.current();
        if ec == 'p' || ec == 'P' {
            data.next();
            assert(data.consumed == epart_start(s, decimal_sep));
            match scan_exponent(&mut data) {
                Ok(v) => {
                    exponent = v;
                },
                Err(e) => {
                    return Err(e);
                },
            }
        }

        let mut raw = ipart;
        let mut fpart_moved = fpart;
        raw.append(&mut fpart_moved);
        assert(raw@ == raw_digits(s, decimal_sep));
        assert(raw@.len() < 0x8000_0000);

        let t = trim_digits(&raw, ipart_digits);
        let digits = t.0;
        let decimal_offset = t.1;
        proof {
            assert(forall|i: int|
                0 <= i < raw@.len() ==> #[trigger] raw@[i] < 16) by {
                lemma_hex_run_end(s, ipart_start(s));
                if has_fpart(s, decimal_sep) {
                    lemma_hex_run_end(s, fpart_start(s));
                }
            }
            lemma_normalize_wf(raw@, ipart_digits as int);
        }

        *out_consumed = data.consumed;
        Ok(FloatLiteral { is_positive, digits, decimal_offset, exponent })
    }
}

/// Parse a whole character slice as one literal. Unlike
/// [`FloatLiteral::from_chars`], trailing input is an error: when a
/// complete literal ends before the input does, the parse fails with
/// [`ParseErrorKind::ExtraData`] at the index of the first character
/// past the literal.
pub fn parse(input: &[char]) -> (r: Result<FloatLiteral, ParseError>)
    requires
        input@.len() < 0x8000_0000,
    ensures
        match spec_parse(input@, '.') {
            Ok(p) => if p.1 == input@.len() {
                r matches Ok(lit) && lit@ == p.0 && lit.wf()
            } else {
                r == Err::<FloatLiteral, ParseError>(
                    ParseError { kind: ParseErrorKind::ExtraData, index: p.1 as usize },
                )
            },
            Err(e) => r == Err::<FloatLiteral, ParseError>(e),
        },
{
    let mut consumed: usize = 0;
    let mut owned: Vec<char> = Vec::new();
    let mut i: usize = 0;
    while i < input.len()
        invariant
            i <= input@.len(),
            owned@ == input@.subrange(0, i as int),
        decreases input@.len() - i,
    {
        proof {
            assert(input@.subrange(0, i + 1) =~= input@.subrange(0, i as int).push(
                input@[i as int],
            ));
        }
        owned.push(input[i]);
        i = i + 1;
    }
    assert(owned@ =~= input@);
    match FloatLiteral::from_chars(owned, '.', &mut consumed) {
        Ok(lit) => {
            if consumed < input.len() {
                Err(ParseErrorKind::ExtraData.at(consumed))
            } else {
                Ok(lit)
            }
        },
        Err(e) => Err(e),
    }
}

} // verus!
