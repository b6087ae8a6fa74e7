//! IEEE 754 binary64 values, carried as `u64` bit patterns.
//!
//! The interpreter never holds a native float: a float literal is parsed to
//! its bit pattern once, arithmetic combines bit patterns, and rendering
//! turns a bit pattern back into text.  All of that is delegated to
//! `rustc_apfloat`'s software implementation of IEEE 754 binary64 behind the
//! trusted wrappers below; each result that is impractical to state exactly
//! is given an uninterpreted name, so that every caller's contract is exact
//! up to those names.

use vstd::prelude::*;

verus! {

/// The bit pattern denoted by a run of decimal digits with at most one '.',
/// rounded to the nearest binary64 value (ties to even).
pub uninterp spec fn float_of_decimal(s: Seq<char>) -> u64;

/// The bit pattern of the binary64 value nearest to the given integer.
pub uninterp spec fn float_of_int(i: i64) -> u64;

/// The bit pattern of the IEEE 754 sum of two binary64 values.
pub uninterp spec fn float_add_bits(a: u64, b: u64) -> u64;

/// The bit pattern of the IEEE 754 difference of two binary64 values.
pub uninterp spec fn float_sub_bits(a: u64, b: u64) -> u64;

/// The bit pattern of the IEEE 754 product of two binary64 values.
pub uninterp spec fn float_mul_bits(a: u64, b: u64) -> u64;

/// The bit pattern of the IEEE 754 quotient of two binary64 values.
pub uninterp spec fn float_div_bits(a: u64, b: u64) -> u64;

/// The IEEE 754 partial order on two binary64 values; `None` when either
/// operand is a NaN.
pub uninterp spec fn float_cmp_bits(a: u64, b: u64) -> Option<core::cmp::Ordering>;

/// The decimal rendering of a binary64 value.
pub uninterp spec fn float_text_bits(bits: u64) -> Seq<char>;

/// Whether a bit pattern is an exact IEEE 754 zero (positive or negative).
pub open spec fn is_float_zero(bits: u64) -> bool {
    bits == 0u64 || bits == 0x8000_0000_0000_0000u64
}

/// A decimal digit.
pub open spec fn is_digit_char(c: char) -> bool {
    48 <= (c as u32) && (c as u32) <= 57
}

/// The number of '.' characters in a sequence.
pub open spec fn dot_count(s: Seq<char>) -> nat
    decreases s.len(),
{
    if s.len() == 0 {
        0
    } else {
        dot_count(s.drop_last()) + if s.last() == '.' { 1nat } else { 0nat }
    }
}

/// A run of characters as the tokenizer accepts a number: it starts with a
/// digit, every character is a digit or a '.', and at most one '.' occurs.
pub open spec fn is_decimal_run(s: Seq<char>) -> bool {
    &&& s.len() > 0
    &&& is_digit_char(s[0])
    &&& forall|i: int| 0 <= i < s.len() ==> is_digit_char(s[i]) || s[i] == '.'
    &&& dot_count(s) <= 1
}

/// Relies on `rustc_apfloat::ieee::Double::from_str` (IEEE 754 binary64,
/// round to nearest, ties to even): on a run of digits with at most one '.'
/// it always succeeds, and its result depends on the characters alone.
#[verifier::external_body]
pub(crate) fn parse_float_bits(s: &str) -> (r: u64)
    requires
        is_decimal_run(s@),
    ensures
        r == float_of_decimal(s@),
{
    match <rustc_apfloat::ieee::Double as core::str::FromStr>::from_str(s) {
        Ok(d) => rustc_apfloat::Float::to_bits(d) as u64,
        Err(_) => 0,
    }
}

/// Relies on `rustc_apfloat::Float::from_i128` (round to nearest, ties to
/// even): the conversion of an integer to binary64 depends on the integer
/// alone.
#[verifier::external_body]
pub(crate) fn int_to_float_bits(i: i64) -> (r: u64)
    ensures
        r == float_of_int(i),
{
    let d: rustc_apfloat::ieee::Double = rustc_apfloat::Float::from_i128(i as i128).value;
    rustc_apfloat::Float::to_bits(d) as u64
}

/// Relies on `rustc_apfloat::ieee::Double`'s `Add` (IEEE 754 binary64
/// addition, round to nearest, ties to even): the sum depends on the two bit
/// patterns alone.
#[verifier::external_body]
pub(crate) fn add_bits(a: u64, b: u64) -> (r: u64)
    ensures
        r == float_add_bits(a, b),
{
    let x: rustc_apfloat::ieee::Double = rustc_apfloat::Float::from_bits(a as u128);
    let y: rustc_apfloat::ieee::Double = rustc_apfloat::Float::from_bits(b as u128);
    rustc_apfloat::Float::to_bits((x + y).value) as u64
}

/// Relies on `rustc_apfloat::ieee::Double`'s `Sub` (IEEE 754 binary64
/// subtraction, round to nearest, ties to even).
#[verifier::external_body]
pub(crate) fn sub_bits(a: u64, b: u64) -> (r: u64)
    ensures
        r == float_sub_bits(a, b),
{
    let x: rustc_apfloat::ieee::Double = rustc_apfloat::Float::from_bits(a as u128);
    let y: rustc_apfloat::ieee::Double = rustc_apfloat::Float::from_bits(b as u128);
    rustc_apfloat::Float::to_bits((x - y).value) as u64
}

/// Relies on `rustc_apfloat::ieee::Double`'s `Mul` (IEEE 754 binary64
/// multiplication, round to nearest, ties to even).
#[verifier::external_body]
pub(crate) fn mul_bits(a: u64, b: u64) -> (r: u64)
    ensures
        r == float_mul_bits(a, b),
{
    let x: rustc_apfloat::ieee::Double = rustc_apfloat::Float::from_bits(a as u128);
    let y: rustc_apfloat::ieee::Double = rustc_apfloat::Float::from_bits(b as u128);
    rustc_apfloat::Float::to_bits((x * y).value) as u64
}

/// Relies on `rustc_apfloat::ieee::Double`'s `Div` (IEEE 754 binary64
/// division, round to nearest, ties to even).
#[verifier::external_body]
pub(crate) fn div_bits(a: u64, b: u64) -> (r: u64)
    ensures
        r == float_div_bits(a, b),
{
    let x: rustc_apfloat::ieee::Double = rustc_apfloat::Float::from_bits(a as u128);
    let y: rustc_apfloat::ieee::Double = rustc_apfloat::Float::from_bits(b as u128);
    rustc_apfloat::Float::to_bits((x / y).value) as u64
}

/// Relies on `rustc_apfloat::ieee::Double`'s `PartialOrd` (the IEEE 754
/// partial order, with `None` exactly when an operand is a NaN).
#[verifier::external_body]
pub(crate) fn cmp_bits(a: u64, b: u64) -> (r: Option<core::cmp::Ordering>)
    ensures
        r == float_cmp_bits(a, b),
{
    let x: rustc_apfloat::ieee::Double = rustc_apfloat::Float::from_bits(a as u128);
    let y: rustc_apfloat::ieee::Double = rustc_apfloat::Float::from_bits(b as u128);
    PartialOrd::partial_cmp(&x, &y)
}

/// Relies on `rustc_apfloat::ieee::Double`'s `Display` (a deterministic
/// decimal rendering of the value).
#[verifier::external_body]
pub(crate) fn render_float_bits(bits: u64) -> (r: String)
    ensures
        r@ == float_text_bits(bits),
{
    let x: rustc_apfloat::ieee::Double = rustc_apfloat::Float::from_bits(bits as u128);
    format!("{}", x)
}

/// The exact-zero test on bit patterns, as the evaluator uses it before a
/// division.
pub(crate) fn float_is_zero(bits: u64) -> (r: bool)
    ensures
        r == is_float_zero(bits),
{
    bits == 0u64 || bits == 0x8000_0000_0000_0000u64
}

} // verus!
