//! A parser for C11-style hexadecimal floating-point literals
//! (`0x1.8p3`, `-0x.4p-2`, ...) together with a converter that maps a
//! parsed literal onto an IEEE-754 binary interchange format of a chosen
//! width, given as its raw bit pattern, and reports whether the
//! conversion was exact.
//!
//! The pipeline has two stages:
//! - [`FloatLiteral::from_chars`] scans a character sequence, checks the
//!   grammar (sign, `0x` prefix, hex digits, optional fraction, optional
//!   `p` exponent) and produces a normalized [`FloatLiteral`];
//! - [`FloatLiteral::convert`] packs the literal into the sign, exponent
//!   and mantissa fields of a target format described by [`FPFormat`].
//!
//! Two deliberate scope limits: mantissa bits beyond the target field
//! are truncated (not rounded to nearest), and values below the normal
//! range collapse to a signed zero (no subnormals).
use vstd::prelude::*;

pub mod arith;
pub mod digits;
pub mod fpformat;
pub mod laws;
pub mod parse;
pub mod scanner;

pub use fpformat::FPFormat;

verus! {

/// Indicates the precision of a conversion.
#[derive(Debug, Clone, Copy, PartialEq, Eq)]
pub enum ConversionResult<T> {
    /// The conversion was precise and the result represents the original
    /// exactly.
    Precise(T),
    /// The conversion was imprecise and the result is as close to the
    /// original as possible.
    Imprecise(T),
}

impl<T> ConversionResult<T> {
    /// The contained value, whichever the tag.
    pub open spec fn spec_inner(self) -> T {
        match self {
            ConversionResult::Precise(f) => f,
            ConversionResult::Imprecise(f) => f,
        }
    }

    /// Convert the result to its contained type.
    pub fn inner(self) -> (r: T)
        ensures
            r == self.spec_inner(),
    {
        match self {
            ConversionResult::Precise(f) => f,
            ConversionResult::Imprecise(f) => f,
        }
    }

    /// Return whether this result is precise.
    pub fn is_precise(&self) -> (r: bool)
        ensures
            r == (self is Precise),
    {
        matches!(self, ConversionResult::Precise(_))
    }

    /// Return whether this result is imprecise.
    pub fn is_imprecise(&self) -> (r: bool)
        ensures
            r == (self is Imprecise),
    {
        matches!(self, ConversionResult::Imprecise(_))
    }
}

/// Kind of parsing error.
#[derive(Clone, Copy, PartialEq, Eq, Debug)]
pub enum ParseErrorKind {
    /// No prefix was found. Hexadecimal literals must start with a "0x"
    /// or "0X" prefix.
    MissingPrefix,
    /// No digits were found. Hexadecimal literals must have digits before
    /// or after the decimal point.
    MissingDigits,
    /// Hexadecimal literals with a "p" or "P" to indicate an exponent
    /// must contain one.
    MissingExponent,
    /// The exponent of a hexadecimal literal must fit into a signed
    /// 32-bit integer.
    ExponentOverflow,
    /// Input remained after a complete literal. Reported only by the
    /// whole-slice entry point [`crate::parse::parse`].
    ExtraData,
}

/// Error type for parsing hexadecimal literals.
#[derive(Clone, Copy, PartialEq, Eq, Debug)]
pub struct ParseError {
    /// Kind of error.
    pub kind: ParseErrorKind,
    /// Approximate index of the error in the source data. This is always
    /// an index into the source, except when something was expected and
    /// nothing was found; in that case `index` is the length of the
    /// input.
    pub index: usize,
}

impl ParseErrorKind {
    /// Attach a source index to this kind of error.
    pub fn at(self, index: usize) -> (r: ParseError)
        ensures
            r == (ParseError { kind: self, index }),
    {
        ParseError { kind: self, index }
    }
}

impl ParseError {
    /// A short human-readable phrase describing the error.
    pub fn message(&self) -> (r: &'static str)
        ensures
            r@ == Self::spec_message(self.kind),
    {
        match self.kind {
            ParseErrorKind::MissingPrefix => "literal must have hex prefix",
            ParseErrorKind::MissingDigits => "literal must have digits",
            ParseErrorKind::MissingExponent => "exponent not present",
            ParseErrorKind::ExponentOverflow => "exponent too large to fit in integer",
            ParseErrorKind::ExtraData => "extra data after the literal",
        }
    }

    /// The phrase that [`Self::message`] returns for each kind of error.
    pub open spec fn spec_message(kind: ParseErrorKind) -> Seq<char> {
        match kind {
            ParseErrorKind::MissingPrefix => "literal must have hex prefix"@,
            ParseErrorKind::MissingDigits => "literal must have digits"@,
            ParseErrorKind::MissingExponent => "exponent not present"@,
            ParseErrorKind::ExponentOverflow => "exponent too large to fit in integer"@,
            ParseErrorKind::ExtraData => "extra data after the literal"@,
        }
    }
}

/// The mathematical content of a parsed literal: a sign, a sequence of
/// hex digit values, the position of the radix point, and the explicit
/// binary exponent.
///
/// The literal denotes the real number
/// `digits-as-integer * 16^(decimal_offset - digits.len()) * 2^exponent`,
/// negated when `is_positive` is false.
pub ghost struct LiteralModel {
    /// Sign of the literal.
    pub is_positive: bool,
    /// Digit values (0-15), most significant first.
    pub digits: Seq<u8>,
    /// Number of digits before the radix point, after trimming.
    pub decimal_offset: int,
    /// Explicit base-2 exponent from a `p`/`P` suffix, 0 when absent.
    pub exponent: int,
}

impl LiteralModel {
    /// Every digit is a nibble value, and the digit sequence is either
    /// empty (the literal is a signed zero) or fully trimmed: both its
    /// first and last digits are non-zero.
    pub open spec fn wf(self) -> bool {
        &&& self.convertible()
        &&& self.digits.len() > 0 ==> self.digits[self.digits.len() - 1] != 0
    }

    /// What the converter needs of a literal: every digit is a nibble
    /// value and the leading digit, if any, is non-zero. Every
    /// well-formed literal qualifies; so does one built with trailing
    /// zero digits, which the converter counts as truncated where they
    /// fall outside its working integer.
    pub open spec fn convertible(self) -> bool {
        &&& forall|i: int| 0 <= i < self.digits.len() ==> self.digits[i] < 16
        &&& self.digits.len() > 0 ==> self.digits[0] != 0
    }
}

/// Represents a floating point literal.
///
/// This struct is a normalized representation of the text, and can be
/// converted to a bit pattern of any format that implements
/// [`FPFormat`].
#[derive(Debug, Clone)]
pub struct FloatLiteral {
    /// Sign of the literal.
    pub is_positive: bool,
    /// The values of the digits (0-15), not the digits in ascii form.
    pub digits: Vec<u8>,
    /// Number of digits before the radix point, after trimming.
    pub decimal_offset: i32,
    /// Explicit base-2 exponent, 0 when absent.
    pub exponent: i32,
}

impl View for FloatLiteral {
    type V = LiteralModel;

    open spec fn view(&self) -> LiteralModel {
        LiteralModel {
            is_positive: self.is_positive,
            digits: self.digits@,
            decimal_offset: self.decimal_offset as int,
            exponent: self.exponent as int,
        }
    }
}

impl FloatLiteral {
    /// The literal's digits are nibble values and fully trimmed.
    pub open spec fn wf(&self) -> bool {
        self@.wf()
    }

    /// Build a literal directly from its parts.
    pub fn create(is_positive: bool, digits: Vec<u8>, decimal_offset: i32, exponent: i32) -> (
        r: FloatLiteral)
        ensures
            r@ == (LiteralModel {
                is_positive,
                digits: digits@,
                decimal_offset: decimal_offset as int,
                exponent: exponent as int,
            }),
    {
        FloatLiteral { is_positive, digits, decimal_offset, exponent }
    }
}

} // verus!
