//! Numbers are IEEE 754 binary64 values, held as their 64-bit patterns.
//!
//! What the format fixes in a line or two (the sign bit, which patterns are
//! zero or not a number, when two patterns compare equal) is defined and
//! verified here. Rounded arithmetic and the reading of decimal literals are
//! taken from `rustc_apfloat`, behind the four wrappers at the end.

use rustc_apfloat::ieee::Double;
use rustc_apfloat::Float;
use std::str::FromStr;
use vstd::prelude::*;

verus! {

/// The pattern of `+0.0`.
pub const ZERO: u64 = 0;

/// The pattern of `1.0`.
pub const ONE: u64 = 0x3FF0_0000_0000_0000;

/// The sign bit.
pub const SIGN_BIT: u64 = 0x8000_0000_0000_0000;

/// The pattern of positive infinity; every larger magnitude is not a number.
pub const INFINITY: u64 = 0x7FF0_0000_0000_0000;

/// The longest decimal literal, in characters, that is handed to the decimal
/// reader. The reader multiplies the number of digits by 196 in a `usize`,
/// which may be 32 bits wide; that holds 21 million digits and a few more,
/// and this limit stays below it.
pub const MAX_LITERAL_LEN: usize = 0x0100_0000;

/// The pattern without its sign bit.
pub open spec fn magnitude(a: u64) -> int {
    if a >= SIGN_BIT {
        a - SIGN_BIT
    } else {
        a as int
    }
}

/// `a` is not a number.
pub open spec fn is_nan(a: u64) -> bool {
    magnitude(a) > INFINITY
}

/// `a` is `+0.0` or `-0.0`.
pub open spec fn is_zero(a: u64) -> bool {
    magnitude(a) == 0
}

/// `a` with its sign flipped.
pub open spec fn float_neg(a: u64) -> u64 {
    if a >= SIGN_BIT {
        (a - SIGN_BIT) as u64
    } else {
        (a + SIGN_BIT) as u64
    }
}

/// Numeric equality: no NaN equals anything, the two zeros are equal, and
/// otherwise the patterns must agree.
pub open spec fn float_eq(a: u64, b: u64) -> bool {
    &&& !is_nan(a)
    &&& !is_nan(b)
    &&& (a == b || (is_zero(a) && is_zero(b)))
}

/// The sum of two numbers, as `rustc_apfloat` computes it: rounded to
/// nearest, ties to even.
pub uninterp spec fn float_sum(a: u64, b: u64) -> u64;

/// The product of two numbers, as `rustc_apfloat` computes it: rounded to
/// nearest, ties to even.
pub uninterp spec fn float_product(a: u64, b: u64) -> u64;

/// The quotient of two numbers, as `rustc_apfloat` computes it: rounded to
/// nearest, ties to even.
pub uninterp spec fn float_quotient(a: u64, b: u64) -> u64;

/// The number that `rustc_apfloat` reads a decimal literal as: the nearest
/// one, ties to even.
pub uninterp spec fn decimal_value(text: Seq<char>) -> u64;

/// The text holds no digit but `0`.
pub open spec fn reads_as_zero(text: Seq<char>) -> bool {
    forall|i: int| 0 <= i < text.len() ==> #[trigger] text[i] == '0' || text[i] == '.'
}

/// The number that a decimal literal stands for: `+0.0` where it holds no
/// digit but `0`, and otherwise what the decimal reader makes of it.
pub open spec fn literal_value(text: Seq<char>) -> u64 {
    if reads_as_zero(text) {
        ZERO
    } else {
        decimal_value(text)
    }
}

/// `c` is one of `0` to `9`.
pub open spec fn is_digit(c: char) -> bool {
    '0' <= c <= '9'
}

/// How many `.` a text holds.
pub open spec fn count_dots(text: Seq<char>) -> nat
    decreases text.len(),
{
    if text.len() == 0 {
        0
    } else {
        count_dots(text.drop_last()) + if text.last() == '.' {
            1nat
        } else {
            0nat
        }
    }
}

/// A decimal literal: digits with at most one `.`, the first character a digit.
pub open spec fn is_decimal_literal(text: Seq<char>) -> bool {
    &&& text.len() > 0
    &&& is_digit(text[0])
    &&& forall|i: int| 0 <= i < text.len() ==> is_digit(#[trigger] text[i]) || text[i] == '.'
    &&& count_dots(text) <= 1
}

/// The number with its sign flipped.
pub fn negate(a: u64) -> (r: u64)
    ensures
        r == float_neg(a),
{
    if a >= SIGN_BIT {
        a - SIGN_BIT
    } else {
        a + SIGN_BIT
    }
}

/// Whether the number is `+0.0` or `-0.0`.
pub fn is_zero_number(a: u64) -> (r: bool)
    ensures
        r == is_zero(a),
{
    a == ZERO || a == SIGN_BIT
}

/// Whether the pattern is not a number.
pub fn is_not_a_number(a: u64) -> (r: bool)
    ensures
        r == is_nan(a),
{
    if a >= SIGN_BIT {
        a - SIGN_BIT > INFINITY
    } else {
        a > INFINITY
    }
}

/// Whether two numbers are equal as numbers.
pub fn numbers_equal(a: u64, b: u64) -> (r: bool)
    ensures
        r == float_eq(a, b),
{
    if is_not_a_number(a) || is_not_a_number(b) {
        false
    } else {
        a == b || (is_zero_number(a) && is_zero_number(b))
    }
}

/// Adds two numbers.
///
/// Calls `rustc_apfloat`'s `Add` for `ieee::Double`, which rounds to nearest,
/// ties to even, and takes its value. The contract names the result and claims
/// nothing more of it.
#[verifier::external_body]
pub(crate) fn add_numbers(a: u64, b: u64) -> (r: u64)
    ensures
        r == float_sum(a, b),
{
    (Double::from_bits(a as u128) + Double::from_bits(b as u128)).value.to_bits() as u64
}

/// Multiplies two numbers.
///
/// Calls `rustc_apfloat`'s `Mul` for `ieee::Double` and takes its value. The
/// contract names the result and claims nothing more of it.
#[verifier::external_body]
pub(crate) fn multiply_numbers(a: u64, b: u64) -> (r: u64)
    ensures
        r == float_product(a, b),
{
    (Double::from_bits(a as u128) * Double::from_bits(b as u128)).value.to_bits() as u64
}

/// Divides `a` by `b`.
///
/// Calls `rustc_apfloat`'s `Div` for `ieee::Double` and takes its value; a zero
/// divisor gives an infinity or a NaN, never a panic. The contract names the
/// result and claims nothing more of it.
#[verifier::external_body]
pub(crate) fn divide_numbers(a: u64, b: u64) -> (r: u64)
    ensures
        r == float_quotient(a, b),
{
    (Double::from_bits(a as u128) / Double::from_bits(b as u128)).value.to_bits() as u64
}

/// Reads a decimal literal.
///
/// Calls `rustc_apfloat`'s `FromStr` for `ieee::Double`. On digits with at
/// most one `.` and a digit in front, its decimal reader finds a digit and no
/// second dot, and so returns a value, not an error. Where it finds no digit
/// but `0`, it returns positive zero before it converts anything. The
/// contract claims these two things, and names the value otherwise.
#[verifier::external_body]
pub(crate) fn read_decimal(text: &str) -> (r: Option<u64>)
    requires
        is_decimal_literal(text@),
        text@.len() <= MAX_LITERAL_LEN,
    ensures
        r == Some(
            if reads_as_zero(text@) {
                ZERO
            } else {
                decimal_value(text@)
            },
        ),
{
    match Double::from_str(text) {
        Ok(number) => Some(number.to_bits() as u64),
        Err(_) => None,
    }
}

} // verus!
