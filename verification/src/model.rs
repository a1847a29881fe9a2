//! The mathematical model of the 64.64 fixed-point representation.
//!
//! A value is a signed 128-bit integer `raw` read as `raw / 2^64`. The
//! spec functions here describe the raw integers, the little-endian byte
//! encoding, and the rounding behaviour of the elementary operations.

use vstd::prelude::*;

verus! {

/// The scale factor of the representation: one unit is `2^-64`.
pub open spec fn two64() -> int {
    0x1_0000_0000_0000_0000
}

/// `2^128`, the size of the raw value space.
pub open spec fn two128() -> int {
    0x1_0000_0000_0000_0000_0000_0000_0000_0000int
}

/// `2^127`, the magnitude of the most negative raw value.
pub open spec fn two127() -> int {
    0x8000_0000_0000_0000_0000_0000_0000_0000int
}

/// Whether a mathematical integer fits the 128-bit raw range.
pub open spec fn in_range(x: int) -> bool {
    i128::MIN <= x <= i128::MAX
}

/// The raw value of a product: the exact product of the raw operands,
/// scaled down and rounded towards minus infinity.
pub open spec fn mul_down(a: int, b: int) -> int {
    (a * b) / two64()
}

/// Division of integers with the quotient rounded towards zero.
pub open spec fn div_trunc(a: int, b: int) -> int
    recommends
        b != 0,
{
    if (a >= 0) == (b >= 0) {
        abs_int(a) / abs_int(b)
    } else {
        -(abs_int(a) / abs_int(b))
    }
}

/// The raw value of a quotient: the dividend scaled up by `2^64`,
/// divided by the divisor, rounded towards zero.
pub open spec fn div_raw(a: int, b: int) -> int
    recommends
        b != 0,
{
    div_trunc(a * two64(), b)
}

/// Absolute value of a mathematical integer.
pub open spec fn abs_int(x: int) -> int {
    if x >= 0 {
        x
    } else {
        -x
    }
}

/// The unsigned integer read from a little-endian byte sequence.
pub open spec fn le_val(s: Seq<u8>) -> int
    decreases s.len(),
{
    if s.len() == 0 {
        0
    } else {
        s[0] + 256 * le_val(s.skip(1))
    }
}

/// The signed raw value encoded by a 16-byte little-endian buffer:
/// the unsigned value reinterpreted as two's complement.
pub open spec fn raw_of_le(s: Seq<u8>) -> int {
    if le_val(s) < two127() {
        le_val(s)
    } else {
        le_val(s) - two128()
    }
}

/// The little-endian bytes of an unsigned value, `n` bytes long.
pub open spec fn le_bytes(u: int, n: nat) -> Seq<u8>
    decreases n,
{
    if n == 0 {
        Seq::empty()
    } else {
        seq![(u % 256) as u8] + le_bytes(u / 256, (n - 1) as nat)
    }
}

/// The two's-complement unsigned image of a signed raw value.
pub open spec fn unsigned_of_raw(raw: int) -> int {
    if raw >= 0 {
        raw
    } else {
        raw + two128()
    }
}

/// The canonical 16-byte encoding of a raw value.
pub open spec fn le_bytes_of_raw(raw: int) -> Seq<u8> {
    le_bytes(unsigned_of_raw(raw), 16)
}

/// The raw value of the integer `n`: shifted into the integer field.
pub open spec fn raw_of_int(n: int) -> int {
    n * two64()
}

/// Whether a byte is an ASCII decimal digit.
pub open spec fn is_digit(b: u8) -> bool {
    48 <= b <= 57
}

/// The number written by a digit sequence, in base ten.
pub open spec fn digits_val(s: Seq<u8>) -> int
    decreases s.len(),
{
    if s.len() == 0 {
        0
    } else {
        digits_val(s.drop_last()) * 10 + (s.last() - 48)
    }
}

/// The length of the sign prefix of a literal: one for a leading
/// `+` or `-`, zero otherwise.
pub open spec fn sign_len(s: Seq<u8>) -> int {
    if s.len() > 0 && (s[0] == 43 || s[0] == 45) {
        1
    } else {
        0
    }
}

/// Whether the literal is negative: it starts with `-`.
pub open spec fn lit_neg(s: Seq<u8>) -> bool {
    s.len() > 0 && s[0] == 45
}

/// The digits before the first decimal point, or the whole body when
/// there is none.
pub open spec fn split_ip(b: Seq<u8>) -> Seq<u8>
    decreases b.len(),
{
    if b.len() == 0 {
        Seq::empty()
    } else if b[0] == 46 {
        Seq::empty()
    } else {
        seq![b[0]] + split_ip(b.skip(1))
    }
}

/// The bytes after the first decimal point, or empty when there is none.
pub open spec fn split_fp(b: Seq<u8>) -> Seq<u8>
    decreases b.len(),
{
    if b.len() == 0 {
        Seq::empty()
    } else if b[0] == 46 {
        b.skip(1)
    } else {
        split_fp(b.skip(1))
    }
}

/// Whether the body holds a decimal point.
pub open spec fn has_point(b: Seq<u8>) -> bool
    decreases b.len(),
{
    if b.len() == 0 {
        false
    } else if b[0] == 46 {
        true
    } else {
        has_point(b.skip(1))
    }
}

/// The scan over the whole part of a literal body: digits, then either
/// the end or a decimal point and the fractional scan. `seen` carries
/// whether a digit has appeared yet.
pub open spec fn scan_whole(b: Seq<u8>, seen: bool) -> bool
    decreases b.len(),
{
    if b.len() == 0 {
        seen
    } else if is_digit(b[0]) {
        scan_whole(b.skip(1), true)
    } else if b[0] == 46 {
        scan_frac(b.skip(1), seen)
    } else {
        false
    }
}

/// The scan over the fractional part: digits to the end, nothing else.
pub open spec fn scan_frac(b: Seq<u8>, seen: bool) -> bool
    decreases b.len(),
{
    if b.len() == 0 {
        seen
    } else if is_digit(b[0]) {
        scan_frac(b.skip(1), true)
    } else {
        false
    }
}

/// A decimal fixed-point literal: an optional sign, then digits, an
/// optional decimal point and more digits, with at least one digit in
/// all. Nothing else: no exponent, no blanks, no grouping marks.
pub open spec fn is_decimal_literal(s: Seq<u8>) -> bool {
    scan_whole(s.skip(sign_len(s)), false)
}

/// `10^k`.
pub open spec fn pow10(k: nat) -> int
    decreases k,
{
    if k == 0 {
        1
    } else {
        10 * pow10((k - 1) as nat)
    }
}

/// The value of a literal as an exact fraction: this numerator over
/// `pow10` of the fractional digit count.
pub open spec fn lit_num(s: Seq<u8>) -> int {
    let body = s.skip(sign_len(s));
    let mag = digits_val(split_ip(body)) * pow10(split_fp(body).len()) + digits_val(
        split_fp(body),
    );
    if lit_neg(s) {
        -mag
    } else {
        mag
    }
}

/// The denominator of the literal's exact fraction.
pub open spec fn lit_den(s: Seq<u8>) -> int {
    pow10(split_fp(s.skip(sign_len(s))).len())
}

/// The quotient `n / d` rounded to the nearest whole value, with ties
/// to the even neighbour.
pub open spec fn round_half_even(n: int, d: int) -> int
    recommends
        d > 0,
{
    let q = n / d;
    let r = n % d;
    if 2 * r < d {
        q
    } else if 2 * r > d {
        q + 1
    } else if q % 2 == 0 {
        q
    } else {
        q + 1
    }
}

/// The raw value written by a decimal literal: its exact fraction
/// scaled by `2^64` and rounded to nearest, ties to even.
pub open spec fn lit_raw(s: Seq<u8>) -> int {
    round_half_even(lit_num(s) * two64(), lit_den(s))
}

/// The raw value rounded towards minus infinity to a whole number
/// of units: the fractional bits are cleared.
pub open spec fn floor_raw(raw: int) -> int {
    raw - raw % two64()
}

/// The raw value rounded towards plus infinity to a whole number.
pub open spec fn ceil_raw(raw: int) -> int {
    if raw % two64() == 0 {
        raw
    } else {
        raw - raw % two64() + two64()
    }
}

/// The raw value rounded to the nearest whole number, ties away
/// from zero.
pub open spec fn round_raw(raw: int) -> int {
    if raw >= 0 {
        floor_raw(raw + two64() / 2)
    } else {
        ceil_raw(raw - two64() / 2)
    }
}

} // verus!
