//! Deterministic 64.64 fixed-point arithmetic for metered, float-free hosts.
//!
//! The value type [`I64F64`] is a signed 128-bit integer read as
//! `raw / 2^64`. Elementary arithmetic comes from the `fixed` crate behind
//! a small trusted boundary; the transcendental functions (ln, log2, exp,
//! sqrt, pow, powi, sin, cos, tan) are computed here with fixed,
//! input-independent iteration counts, so that identical inputs give
//! bit-identical outputs on every execution target.

pub mod model;
pub mod primitive;
pub mod transcendental;
pub mod laws;
pub mod differential;

use vstd::prelude::*;

use crate::model::{
    ceil_raw, div_raw, floor_raw, in_range, is_decimal_literal, le_bytes, le_bytes_of_raw, le_val,
    lit_raw, mul_down, raw_of_int, raw_of_le, round_raw, scan_frac, scan_whole, two127, two64,
    unsigned_of_raw,
};
use vstd::string::*;

verus! {

/// One whole unit: the raw representation of the integer 1.
pub const ONE_RAW: i128 = 0x1_0000_0000_0000_0000;

/// The failure kinds of every fallible operation.
///
/// `InvalidEncoding`: a byte buffer is not exactly 16 bytes.
/// `InvalidNumber`: a string is not a decimal fixed-point literal, or its
/// value does not fit the representable range.
/// `DomainError`: the argument lies outside the mathematical domain of the
/// function.
/// `Overflow`: the true result, or an intermediate of the fixed algorithm,
/// exceeds the representable range.
#[derive(Debug, Clone, Copy, PartialEq, Eq, Structural)]
pub enum FixedError {
    InvalidEncoding,
    InvalidNumber,
    DomainError,
    Overflow,
}

/// The fixed-point number type: 64 integer bits and 64 fractional bits,
/// signed, immutable. The held value is `raw / 2^64`.
#[derive(Debug, Clone, Copy, PartialEq, Eq, Structural)]
pub struct I64F64 {
    raw: i128,
}

impl I64F64 {
    /// The raw 128-bit representation, as a mathematical integer.
    pub closed spec fn raw(&self) -> int {
        self.raw as int
    }

    /// Build a value from its raw representation.
    pub(crate) fn from_raw(raw: i128) -> (r: I64F64)
        ensures
            r.raw() == raw,
    {
        I64F64 { raw }
    }

    /// The raw representation, for the internal algorithms.
    pub(crate) fn to_raw(&self) -> (r: i128)
        ensures
            r == self.raw(),
    {
        self.raw
    }

    /// Create a new `I64F64` from a string: a decimal fixed-point
    /// literal with an optional sign, digits, an optional point and
    /// fractional digits. Any other syntax, and any value outside the
    /// representable range, fails with `InvalidNumber`. The accepted
    /// value is the written fraction scaled by `2^64` and rounded to
    /// the nearest raw value, ties to even.
    pub fn from_str(s: &str) -> (r: Result<I64F64, FixedError>)
        ensures
            match r {
                Ok(v) => is_decimal_literal(s.spec_bytes()) && in_range(lit_raw(s.spec_bytes()))
                    && v.raw() == lit_raw(s.spec_bytes()),
                Err(e) => e == FixedError::InvalidNumber && (!is_decimal_literal(s.spec_bytes())
                    || !in_range(lit_raw(s.spec_bytes()))),
            },
    {
        let bytes = s.as_bytes();
        if !is_valid_decimal(bytes) {
            return Err(FixedError::InvalidNumber);
        }
        match primitive::parse_decimal_raw(s) {
            Some(v) => Ok(I64F64 { raw: v }),
            None => Err(FixedError::InvalidNumber),
        }
    }

    /// Convert the `I64F64` to a string: the decimal digits of the
    /// value, as the `fixed` crate prints them.
    pub fn to_string(&self) -> (r: String)
        ensures
            r@ == primitive::decimal_of(self.raw()),
    {
        primitive::decimal_string_raw(self.raw)
    }

    /// Convert the `I64F64` to a JSON string: the same decimal digits.
    pub fn to_json(&self) -> (r: String)
        ensures
            r@ == primitive::decimal_of(self.raw()),
    {
        primitive::decimal_string_raw(self.raw)
    }

    /// Create a new `I64F64` from an integer. Exact and total: every
    /// `i64` fits the 64 integer bits.
    pub fn from_num(n: i64) -> (r: Result<I64F64, FixedError>)
        ensures
            r matches Ok(v) && v.raw() == raw_of_int(n as int),
    {
        Ok(I64F64 { raw: (n as i128) * ONE_RAW })
    }

    /// Check if two `I64F64` numbers are equal.
    pub fn eq(&self, b: &I64F64) -> (r: bool)
        ensures
            r <==> self.raw() == b.raw(),
    {
        self.raw == b.raw
    }

    /// Check if `I64F64` number is less than another.
    pub fn lt(&self, b: &I64F64) -> (r: bool)
        ensures
            r <==> self.raw() < b.raw(),
    {
        self.raw < b.raw
    }

    /// Check if `I64F64` number is greater than another.
    pub fn gt(&self, b: &I64F64) -> (r: bool)
        ensures
            r <==> self.raw() > b.raw(),
    {
        self.raw > b.raw
    }

    /// Check if `I64F64` number is less than or equal to another.
    pub fn le(&self, b: &I64F64) -> (r: bool)
        ensures
            r <==> self.raw() <= b.raw(),
    {
        self.raw <= b.raw
    }

    /// Check if `I64F64` number is greater than or equal to another.
    pub fn ge(&self, b: &I64F64) -> (r: bool)
        ensures
            r <==> self.raw() >= b.raw(),
    {
        self.raw >= b.raw
    }

    /// Add two `I64F64` numbers. The exact sum must be representable.
    pub fn add(&self, b: &I64F64) -> (r: I64F64)
        requires
            in_range(self.raw() + b.raw()),
        ensures
            r.raw() == self.raw() + b.raw(),
    {
        I64F64 { raw: self.raw + b.raw }
    }

    /// Subtract two `I64F64` numbers. The exact difference must be
    /// representable.
    pub fn sub(&self, b: &I64F64) -> (r: I64F64)
        requires
            in_range(self.raw() - b.raw()),
        ensures
            r.raw() == self.raw() - b.raw(),
    {
        I64F64 { raw: self.raw - b.raw }
    }

    /// Rounds to the next integer towards minus infinity. Always
    /// representable.
    pub fn floor(&self) -> (r: I64F64)
        ensures
            r.raw() == floor_raw(self.raw()),
    {
        I64F64 { raw: floor_raw_exec(self.raw) }
    }

    /// Rounds to the next integer towards plus infinity. The rounded
    /// value must be representable.
    pub fn ceil(&self) -> (r: I64F64)
        requires
            in_range(ceil_raw(self.raw())),
        ensures
            r.raw() == ceil_raw(self.raw()),
    {
        let f = floor_raw_exec(self.raw);
        if f == self.raw {
            I64F64 { raw: f }
        } else {
            proof {
                vstd::arithmetic::div_mod::lemma_mod_bound(self.raw as int, two64());
            }
            I64F64 { raw: f + ONE_RAW }
        }
    }

    /// Rounds to the nearest integer, with ties rounded away from zero.
    /// The rounded value must be representable.
    pub fn round(&self) -> (r: I64F64)
        requires
            in_range(round_raw(self.raw())),
        ensures
            r.raw() == round_raw(self.raw()),
    {
        let half = ONE_RAW / 2;
        if self.raw >= 0 {
            proof {
                // floor never exceeds its argument by less than a unit,
                // so the shifted argument itself stays in range.
                vstd::arithmetic::div_mod::lemma_mod_bound(self.raw + half, two64());
            }
            I64F64 { raw: floor_raw_exec(self.raw + half) }
        } else if self.raw <= i128::MIN + half {
            // the value lies within half a unit of the lower end of the
            // range, so it rounds to that end exactly
            proof {
                lemma_round_low_end(self.raw as int, half as int);
            }
            I64F64 { raw: i128::MIN }
        } else {
            let shifted = self.raw - half;
            proof {
                vstd::arithmetic::div_mod::lemma_mod_bound(shifted as int, two64());
            }
            let f = floor_raw_exec(shifted);
            if f == shifted {
                I64F64 { raw: f }
            } else {
                I64F64 { raw: f + ONE_RAW }
            }
        }
    }

    /// Multiply two `I64F64` numbers: the exact product rounded towards
    /// minus infinity to a unit of `2^-64`, which must be representable.
    pub fn mul(&self, b: &I64F64) -> (r: I64F64)
        requires
            in_range(mul_down(self.raw(), b.raw())),
        ensures
            r.raw() == mul_down(self.raw(), b.raw()),
    {
        match primitive::checked_mul_raw(self.raw, b.raw) {
            Some(v) => I64F64 { raw: v },
            None => {
                proof {
                    assert(false);
                }
                I64F64 { raw: 0 }
            },
        }
    }

    /// Divide `I64F64` numbers: the exact quotient rounded towards zero
    /// to a unit of `2^-64`. The divisor must be nonzero and the quotient
    /// representable.
    pub fn div(&self, b: &I64F64) -> (r: I64F64)
        requires
            b.raw() != 0,
            in_range(div_raw(self.raw(), b.raw())),
        ensures
            r.raw() == div_raw(self.raw(), b.raw()),
    {
        match primitive::checked_div_raw(self.raw, b.raw) {
            Some(v) => I64F64 { raw: v },
            None => {
                proof {
                    assert(false);
                }
                I64F64 { raw: 0 }
            },
        }
    }

    /// Create a new `I64F64` from a byte slice: exactly 16 bytes,
    /// little-endian two's complement. Any other length fails with
    /// `InvalidEncoding`.
    pub fn new(inner: &[u8]) -> (r: Result<I64F64, FixedError>)
        ensures
            inner@.len() == 16 ==> (r matches Ok(v) && v.raw() == raw_of_le(inner@)),
            inner@.len() != 16 ==> (r matches Err(e) && e == FixedError::InvalidEncoding),
    {
        if inner.len() != 16 {
            return Err(FixedError::InvalidEncoding);
        }
        let mut u: u128 = 0;
        let mut i: usize = 16;
        while i > 0
            invariant
                i <= 16,
                inner@.len() == 16,
                0 <= u < pow256((16 - i) as nat),
                u == le_val(inner@.skip(i as int)),
            decreases i,
        {
            proof {
                lemma_pow256_bounds((16 - i) as nat);
                assert(inner@.skip(i - 1).skip(1) =~= inner@.skip(i as int));
            }
            i = i - 1;
            u = u * 256 + (inner[i] as u128);
        }
        assert(inner@.skip(0) =~= inner@);
        let raw: i128 = if u < HIGH_BIT {
            u as i128
        } else {
            ((u - HIGH_BIT) as i128) + i128::MIN
        };
        Ok(I64F64 { raw })
    }

    /// Convert the `I64F64` to its canonical encoding: 16 little-endian
    /// bytes of the two's-complement raw value.
    pub fn to_le_bytes(&self) -> (r: Vec<u8>)
        ensures
            r@ == le_bytes_of_raw(self.raw()),
            r@.len() == 16,
    {
        let u0: u128 = if self.raw >= 0 {
            self.raw as u128
        } else {
            ((self.raw - i128::MIN) as u128) + HIGH_BIT
        };
        assert(u0 == unsigned_of_raw(self.raw()));
        let mut v: Vec<u8> = Vec::new();
        let mut cur: u128 = u0;
        let mut i: usize = 0;
        while i < 16
            invariant
                i <= 16,
                v@.len() == i,
                le_bytes(u0 as int, 16) =~= v@ + le_bytes(cur as int, (16 - i) as nat),
            decreases 16 - i,
        {
            let b: u8 = (cur % 256) as u8;
            proof {
                assert(le_bytes(cur as int, (16 - i) as nat) =~= seq![b] + le_bytes(
                    cur as int / 256,
                    (16 - i - 1) as nat,
                ));
                assert(v@ + le_bytes(cur as int, (16 - i) as nat) =~= (v@ + seq![b]) + le_bytes(
                    cur as int / 256,
                    (16 - i - 1) as nat,
                ));
            }
            v.push(b);
            cur = cur / 256;
            i = i + 1;
        }
        proof {
            lemma_le_bytes_len(u0 as int, 16);
            assert(v@ + le_bytes(cur as int, 0) =~= v@);
        }
        v
    }
}

// bindings to the transcendental module
impl I64F64 {
    /// Calculate the exponential of `I64F64` number.
    pub fn exp(&self) -> (r: Result<Self, FixedError>)
        ensures
            transcendental::matches_raw(r, transcendental::spec_exp(self.raw())),
    {
        transcendental::exp(self)
    }

    /// Calculate the natural logarithm of `I64F64` number.
    pub fn ln(&self) -> (r: Result<Self, FixedError>)
        ensures
            transcendental::matches_raw(r, transcendental::spec_ln(self.raw())),
    {
        transcendental::ln(self)
    }

    /// Calculate the power of `I64F64` number.
    pub fn pow(&self, b: &I64F64) -> (r: Result<Self, FixedError>)
        ensures
            transcendental::matches_raw(r, transcendental::spec_pow(self.raw(), b.raw())),
    {
        transcendental::pow(self, b)
    }

    /// Calculate the square root of `I64F64` number.
    pub fn sqrt(&self) -> (r: Result<Self, FixedError>)
        ensures
            self.raw() < 0 ==> r == Err::<I64F64, FixedError>(FixedError::DomainError),
            self.raw() >= 0 ==> (r matches Ok(v) && transcendental::is_sqrt_of(
                self.raw(),
                v.raw(),
            )),
    {
        transcendental::sqrt(self)
    }

    /// Calculate the base-2 logarithm of `I64F64` number.
    pub fn log2(&self) -> (r: Result<Self, FixedError>)
        ensures
            transcendental::matches_raw(r, transcendental::spec_log2(self.raw())),
    {
        transcendental::log2(self)
    }

    /// Calculate the power of `I64F64` number with an integer exponent.
    pub fn powi(&self, n: i32) -> (r: Result<Self, FixedError>)
        ensures
            transcendental::matches_raw(r, transcendental::spec_powi(self.raw(), n as int)),
    {
        transcendental::powi(self, n)
    }

    /// Calculate the sine of `I64F64` number.
    pub fn sin(&self) -> (r: Result<Self, FixedError>)
        ensures
            transcendental::matches_raw(r, transcendental::spec_sin(self.raw())),
            r is Ok,
    {
        transcendental::sin(self)
    }

    /// Calculate the cosine of `I64F64` number.
    pub fn cos(&self) -> (r: Result<Self, FixedError>)
        ensures
            transcendental::matches_raw(r, transcendental::spec_cos(self.raw())),
            r is Ok,
    {
        transcendental::cos(self)
    }

    /// Calculate the tangent of `I64F64` number.
    pub fn tan(&self) -> (r: Result<Self, FixedError>)
        ensures
            transcendental::matches_raw(r, transcendental::spec_tan(self.raw())),
    {
        transcendental::tan(self)
    }
}

/// `2^127` as an unsigned 128-bit constant: the sign bit of the raw
/// representation.
pub const HIGH_BIT: u128 = 0x8000_0000_0000_0000_0000_0000_0000_0000;

/// Whether a byte slice is a decimal fixed-point literal: one scan over
/// the optional sign, the whole digits, the optional point and the
/// fractional digits.
#[verifier::loop_isolation(false)]
fn is_valid_decimal(b: &[u8]) -> (r: bool)
    ensures
        r == is_decimal_literal(b@),
{
    let n = b.len();
    let start: usize = if n > 0 && (b[0] == 43 || b[0] == 45) {
        1
    } else {
        0
    };
    let ghost body = b@.skip(start as int);
    let mut i = start;
    let mut seen = false;
    while i < n && 48 <= b[i] && b[i] <= 57
        invariant
            start <= i <= n,
            scan_whole(body, false) == scan_whole(b@.skip(i as int), seen),
            i > start ==> seen,
        decreases n - i,
    {
        proof {
            assert(b@.skip(i as int).skip(1) =~= b@.skip(i as int + 1));
        }
        i = i + 1;
        seen = true;
    }
    if i == n {
        return seen;
    }
    if b[i] != 46 {
        return false;
    }
    proof {
        assert(b@.skip(i as int).skip(1) =~= b@.skip(i as int + 1));
    }
    let mut j = i + 1;
    while j < n && 48 <= b[j] && b[j] <= 57
        invariant
            i + 1 <= j <= n,
            scan_whole(body, false) == scan_frac(b@.skip(j as int), seen),
            j > i + 1 ==> seen,
        decreases n - j,
    {
        proof {
            assert(b@.skip(j as int).skip(1) =~= b@.skip(j as int + 1));
        }
        j = j + 1;
        seen = true;
    }
    if j == n {
        return seen;
    }
    false
}

/// `256^k`, the number of values of `k` bytes.
pub open spec fn pow256(k: nat) -> int
    decreases k,
{
    if k == 0 {
        1
    } else {
        256 * pow256((k - 1) as nat)
    }
}

proof fn lemma_pow256_bounds(k: nat)
    requires
        k <= 15,
    ensures
        pow256(k) * 256 <= u128::MAX + 1,
        pow256(k) == pow256(k + 1) / 256,
{
    assert(pow256(15) == 0x1_0000_0000_0000_0000_0000_0000_0000_00int) by {
        reveal_with_fuel(pow256, 17);
    }
    assert(pow256(k) * 256 == pow256(k + 1));
    if k < 15 {
        lemma_pow256_increases(k, 15);
    }
}

proof fn lemma_pow256_increases(a: nat, b: nat)
    requires
        a <= b,
    ensures
        pow256(a) <= pow256(b),
    decreases b,
{
    if a < b {
        lemma_pow256_increases(a, (b - 1) as nat);
        lemma_pow256_pos((b - 1) as nat);
        assert(pow256((b - 1) as nat) <= 256 * pow256((b - 1) as nat)) by (nonlinear_arith)
            requires
                pow256((b - 1) as nat) >= 0,
        ;
    }
}

proof fn lemma_pow256_pos(k: nat)
    ensures
        pow256(k) >= 1,
    decreases k,
{
    if k > 0 {
        lemma_pow256_pos((k - 1) as nat);
    }
}

/// A raw value within half a unit of the lower end of the range rounds
/// to that end.
proof fn lemma_round_low_end(raw: int, half: int)
    requires
        raw < 0,
        half == two64() / 2,
        i128::MIN <= raw <= i128::MIN + half,
    ensures
        round_raw(raw) == i128::MIN,
{
    let x = raw - half;
    if x == i128::MIN {
        assert((i128::MIN as int) % two64() == 0) by {
            vstd::arithmetic::div_mod::lemma_fundamental_div_mod_converse(
                i128::MIN as int,
                two64(),
                -0x8000_0000_0000_0000int,
                0,
            );
        }
    } else {
        let t = i128::MIN - x;
        assert(0 < t < two64());
        assert(x % two64() == two64() - t) by {
            vstd::arithmetic::div_mod::lemma_fundamental_div_mod_converse(
                x,
                two64(),
                -0x8000_0000_0000_0001int,
                two64() - t,
            );
        }
        assert(ceil_raw(x) == x - (two64() - t) + two64());
    }
}

/// The byte sequence of an unsigned value has exactly the asked length.
proof fn lemma_le_bytes_len(u: int, n: nat)
    ensures
        le_bytes(u, n).len() == n,
    decreases n,
{
    if n > 0 {
        lemma_le_bytes_len(u / 256, (n - 1) as nat);
    }
}

/// The raw value rounded towards minus infinity to a whole number of
/// units; never overflows because the most negative raw value is itself
/// a whole number.
pub(crate) fn floor_raw_exec(raw: i128) -> (r: i128)
    ensures
        r == floor_raw(raw as int),
{
    if raw >= 0 {
        let u = raw as u128;
        let rem = u % (ONE_RAW as u128);
        proof {
            assert((raw as int) % two64() == rem as int) by {
                vstd::arithmetic::div_mod::lemma_mod_bound(raw as int, two64());
            }
        }
        (u - rem) as i128
    } else {
        // magnitude of the value, avoiding the overflow of -i128::MIN
        let m = ((-(raw + 1)) as u128) + 1;
        let rem = m % (ONE_RAW as u128);
        if rem == 0 {
            proof {
                assert((raw as int) % two64() == 0) by {
                    vstd::arithmetic::div_mod::lemma_mod_bound(raw as int, two64());
                    assert((m as int) % two64() == 0 ==> (-(raw as int)) % two64() == 0);
                }
            }
            raw
        } else {
            let whole = m - rem;
            // floor(-m / 2^64) scaled back: -(whole) - 2^64
            let r = -(whole as i128) - ONE_RAW;
            proof {
                lemma_neg_floor(raw as int, m as int, rem as int);
            }
            r
        }
    }
}

/// For a negative raw value with magnitude `m` and positive remainder
/// `rem = m % 2^64`, the floored raw value is `-(m - rem) - 2^64`.
proof fn lemma_neg_floor(raw: int, m: int, rem: int)
    requires
        raw < 0,
        in_range(raw),
        m == -raw,
        rem == m % two64(),
        rem != 0,
    ensures
        -(m - rem) - two64() == raw - raw % two64(),
        in_range(-(m - rem) - two64()),
        m - rem <= i128::MAX,
{
    vstd::arithmetic::div_mod::lemma_mod_bound(m, two64());
    vstd::arithmetic::div_mod::lemma_mod_bound(raw, two64());
    // raw % 2^64 is the Euclidean remainder: raw = -m, and m = q*2^64 + rem
    // with 0 < rem < 2^64, so raw = -(q+1)*2^64 + (2^64 - rem).
    let q = m / two64();
    vstd::arithmetic::div_mod::lemma_fundamental_div_mod(m, two64());
    assert(raw == (-(q + 1)) * two64() + (two64() - rem)) by {
        assert(m == q * two64() + rem);
        assert((-(q + 1)) * two64() == -(q * two64()) - two64()) by (nonlinear_arith);
    }
    assert(raw % two64() == two64() - rem) by {
        vstd::arithmetic::div_mod::lemma_fundamental_div_mod_converse(
            raw,
            two64(),
            -(q + 1),
            two64() - rem,
        );
    }
    assert(q * two64() == m - rem);
    assert(raw - (two64() - rem) == -(m - rem) - two64());
    // m - rem is a whole multiple of 2^64 strictly below m <= 2^127,
    // so it is at most 2^127 - 2^64.
    assert(q * two64() < two127());
    assert(q < 0x8000_0000_0000_0000int) by (nonlinear_arith)
        requires
            q * two64() < two127(),
            0 <= q,
    ;
    assert(q * two64() <= two127() - two64()) by (nonlinear_arith)
        requires
            q <= 0x8000_0000_0000_0000int - 1,
            0 <= q,
    ;
}

} // verus!
