//! The trusted boundary to the `fixed` crate.
//!
//! Multiplication and division of 64.64 values need a 256-bit
//! intermediate; both are taken from `fixed::types::I64F64` and stated
//! here over the raw 128-bit representations. String conversions are
//! taken from the same crate.

use vstd::prelude::*;
use vstd::string::*;

use crate::model::{div_raw, in_range, is_decimal_literal, lit_raw, mul_down};

verus! {

/// Relies on fixed's `I64F64::from_str`: on a plain decimal literal it
/// reads the exact decimal fraction, scales it by `2^64` and rounds to
/// the nearest raw value with ties to even; the value is rejected
/// exactly when it leaves the 128-bit range.
#[verifier::external_body]
pub(crate) fn parse_decimal_raw(s: &str) -> (r: Option<i128>)
    requires
        is_decimal_literal(s.spec_bytes()),
    ensures
        match r {
            Some(v) => v == lit_raw(s.spec_bytes()) && in_range(lit_raw(s.spec_bytes())),
            None => !in_range(lit_raw(s.spec_bytes())),
        },
{
    match <fixed::types::I64F64 as core::str::FromStr>::from_str(s) {
        Ok(v) => Some(v.to_bits()),
        Err(_) => None,
    }
}

/// Relies on fixed's `I64F64::checked_mul`: the exact 256-bit product of
/// the raw operands, shifted right arithmetically by 64 bits (the product
/// rounded towards minus infinity to a unit of `2^-64`), and `None`
/// exactly when that value does not fit in 128 bits.
#[verifier::external_body]
pub(crate) fn checked_mul_raw(a: i128, b: i128) -> (r: Option<i128>)
    ensures
        match r {
            Some(v) => v == mul_down(a as int, b as int) && in_range(mul_down(a as int, b as int)),
            None => !in_range(mul_down(a as int, b as int)),
        },
{
    let fa = fixed::types::I64F64::from_bits(a);
    let fb = fixed::types::I64F64::from_bits(b);
    match fa.checked_mul(fb) {
        Some(v) => Some(v.to_bits()),
        None => None,
    }
}

/// Relies on fixed's `I64F64::checked_div`: the dividend widened to 256
/// bits and scaled up by 64 bits, divided by the divisor with the
/// quotient rounded towards zero; `None` exactly when the divisor is zero
/// or the quotient does not fit in 128 bits.
#[verifier::external_body]
pub(crate) fn checked_div_raw(a: i128, b: i128) -> (r: Option<i128>)
    ensures
        match r {
            Some(v) => b != 0 && v == div_raw(a as int, b as int) && in_range(
                div_raw(a as int, b as int),
            ),
            None => b == 0 || !in_range(div_raw(a as int, b as int)),
        },
{
    let fa = fixed::types::I64F64::from_bits(a);
    let fb = fixed::types::I64F64::from_bits(b);
    match fa.checked_div(fb) {
        Some(v) => Some(v.to_bits()),
        None => None,
    }
}

/// The decimal digit string that the `fixed` crate prints for a raw
/// value: enough digits to identify the value, rounded to nearest with
/// ties to even. A function of the raw bits alone.
pub uninterp spec fn decimal_of(raw: int) -> Seq<char>;

/// Relies on fixed's `Display` for `I64F64`: the printed decimal form
/// depends on the raw bits alone.
#[verifier::external_body]
pub(crate) fn decimal_string_raw(raw: i128) -> (r: String)
    ensures
        r@ == decimal_of(raw as int),
{
    let f = fixed::types::I64F64::from_bits(raw);
    format!("{}", f)
}

} // verus!
