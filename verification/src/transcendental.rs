//! The argument-reduction and approximation engine.
//!
//! Every function here reduces its input to a small range plus an integer
//! scale, runs a fixed, input-independent number of arithmetic steps on
//! the reduced range, and reassembles the result. Each algorithm is
//! mirrored by a spec function over the raw integers, so the contracts
//! pin the exact raw result for every input: identical inputs give
//! bit-identical outputs on every execution target.

use vstd::prelude::*;

use crate::model::{div_raw, in_range, mul_down, two64};
use crate::primitive;
use crate::{FixedError, I64F64, ONE_RAW};

verus! {

/// `ln 2` in 64.64: `floor(ln 2 * 2^64)`.
pub const LN2_RAW: i128 = 0xB172_17F7_D1CF_79AB;

/// `2^63`, half a unit below the squaring scale.
pub const P63: u128 = 0x8000_0000_0000_0000;

/// `2^64`, one unit of the 64.64 scale.
pub const P64: u128 = 0x1_0000_0000_0000_0000;

/// `2^65`, the upper end of the normalized mantissa range.
pub const P65: u128 = 0x2_0000_0000_0000_0000;


/// `2^63` as a mathematical integer.
pub open spec fn i63() -> int {
    0x8000_0000_0000_0000
}

/// `2^64` as a mathematical integer.
pub open spec fn i64x() -> int {
    0x1_0000_0000_0000_0000
}

/// `2^65` as a mathematical integer.
pub open spec fn i65() -> int {
    0x2_0000_0000_0000_0000
}

/// An executable outcome agrees with a modelled outcome when both fail
/// with the same error or both succeed with the same raw value.
pub open spec fn matches_raw(r: Result<I64F64, FixedError>, s: Result<int, FixedError>) -> bool {
    match (r, s) {
        (Ok(v), Ok(w)) => v.raw() == w,
        (Err(a), Err(b)) => a == b,
        _ => false,
    }
}

/// The normalized mantissa of `u`: `u` halved until it lies in
/// `[2^64, 2^65)`.
pub open spec fn msb_norm(u: int) -> int
    recommends
        u >= i64x(),
    decreases u,
{
    if u < i65() {
        u
    } else {
        msb_norm(u / 2)
    }
}

/// The integer part of the base-2 logarithm of `u / 2^64`: the number of
/// halvings that normalize `u`.
pub open spec fn msb_count(u: int) -> nat
    recommends
        u >= i64x(),
    decreases u,
{
    if u < i65() {
        0
    } else {
        1 + msb_count(u / 2)
    }
}

/// The fractional bits of the base-2 logarithm of `m / 2^63`, for a
/// mantissa `m` in `[2^63, 2^64)`: `i` rounds of squaring, each
/// extracting one bit into the accumulator `acc`.
pub open spec fn log2_frac_acc(m: int, i: nat, acc: int) -> int
    decreases i,
{
    if i == 0 {
        acc
    } else {
        let sq = (m * m) / i63();
        if sq >= i64x() {
            log2_frac_acc(sq / 2, (i - 1) as nat, 2 * acc + 1)
        } else {
            log2_frac_acc(sq, (i - 1) as nat, 2 * acc)
        }
    }
}

/// The raw base-2 logarithm of `u / 2^64` for `u >= 2^64`: the exact
/// integer exponent, with 64 fractional bits from the squaring rounds.
pub open spec fn log2_pos_raw(u: int) -> int {
    msb_count(u) * (i64x()) + log2_frac_acc(msb_norm(u) / 2, 64, 0)
}

/// The raw outcome of `log2` on a raw input.
///
/// Negative and zero inputs are outside the domain. Inputs below one are
/// inverted first; the two smallest positive raw values have no
/// representable inverse and overflow.
pub open spec fn spec_log2(raw: int) -> Result<int, FixedError> {
    if raw <= 0 {
        Err(FixedError::DomainError)
    } else if raw >= i64x() {
        Ok(log2_pos_raw(raw))
    } else {
        let inv = div_raw(i64x(), raw);
        if !in_range(inv) {
            Err(FixedError::Overflow)
        } else {
            Ok(-log2_pos_raw(inv))
        }
    }
}

/// The raw outcome of `ln`: the base-2 logarithm scaled by `ln 2`.
pub open spec fn spec_ln(raw: int) -> Result<int, FixedError> {
    match spec_log2(raw) {
        Ok(l) => Ok(mul_down(l, LN2_RAW as int)),
        Err(e) => Err(e),
    }
}

/// The base-2 logarithm of a positive value at least one, as a raw
/// 64.64 value; exact on whole powers of two.
fn log2_pos(u: u128) -> (r: i128)
    requires
        u >= P64,
    ensures
        r == log2_pos_raw(u as int),
        0 <= r < 0x41_0000_0000_0000_0000,
{
    let mut m: u128 = u;
    let mut k: u64 = 0;
    while m >= P65
        invariant
            P64 <= m,
            msb_norm(u as int) == msb_norm(m as int),
            msb_count(u as int) == k + msb_count(m as int),
            m as int <= (u as int) / pow2_int(k as nat),
            k <= 64,
        decreases m,
    {
        proof {
            lemma_pow2_int_pos(k as nat);
            lemma_half_of_div(u as int, k as nat);
            vstd::arithmetic::div_mod::lemma_div_is_ordered(
                m as int,
                (u as int) / pow2_int(k as nat),
                2,
            );
            if k >= 64 {
                lemma_pow2_int_64();
                vstd::arithmetic::div_mod::lemma_div_is_ordered(
                    u as int,
                    0x1_0000_0000_0000_0000_0000_0000_0000_0000int - 1,
                    pow2_int(k as nat),
                );
                assert((0x1_0000_0000_0000_0000_0000_0000_0000_0000int - 1) / i64x() == i64x()
                    - 1);
                assert(false);
            }
        }
        m = m / 2;
        k = k + 1;
    }
    let mut m63: u64 = (m / 2) as u64;
    let ghost m0 = m63 as int;
    let mut frac: u64 = 0;
    let mut i: u64 = 0;
    while i < 64
        invariant
            i <= 64,
            P63 <= (m63 as u128) < P64,
            pow2_int(i as nat) > frac,
            log2_frac_acc(m0, 64, 0) == log2_frac_acc(m63 as int, (64 - i) as nat, frac as int),
        decreases 64 - i,
    {
        proof {
            lemma_pow2_int_increases(i as nat, 63);
            lemma_pow2_int_63();
            lemma_square_range(m63 as int);
        }
        let sq: u128 = ((m63 as u128) * (m63 as u128)) / P63;
        if sq >= P64 {
            m63 = (sq / 2) as u64;
            frac = frac * 2 + 1;
        } else {
            m63 = sq as u64;
            frac = frac * 2;
        }
        i = i + 1;
        proof {
            lemma_pow2_int_unfold(i as nat);
        }
    }
    ((k as i128) * (ONE_RAW)) + (frac as i128)
}

/// Calculate the base-2 logarithm. Fails with `DomainError` on
/// non-positive inputs; fails with `Overflow` on the tiny positive
/// inputs whose inverse exceeds the representable range.
pub fn log2(x: &I64F64) -> (r: Result<I64F64, FixedError>)
    ensures
        matches_raw(r, spec_log2(x.raw())),
        r matches Ok(v) ==> -0x41_0000_0000_0000_0000 < v.raw() < 0x41_0000_0000_0000_0000,
{
    let raw = x.to_raw();
    if raw <= 0 {
        return Err(FixedError::DomainError);
    }
    if raw < ONE_RAW {
        match primitive::checked_div_raw(ONE_RAW, raw) {
            None => Err(FixedError::Overflow),
            Some(inv) => {
                proof {
                    lemma_inverse_large(raw as int, inv as int);
                }
                let lp = log2_pos(inv as u128);
                Ok(I64F64::from_raw(-lp))
            },
        }
    } else {
        let lp = log2_pos(raw as u128);
        Ok(I64F64::from_raw(lp))
    }
}

/// Calculate the natural logarithm: the base-2 logarithm scaled by
/// `ln 2`. Fails exactly as `log2` does.
pub fn ln(x: &I64F64) -> (r: Result<I64F64, FixedError>)
    ensures
        matches_raw(r, spec_ln(x.raw())),
{
    match log2(x) {
        Err(e) => Err(e),
        Ok(l) => {
            proof {
                lemma_mul_down_range(l.raw(), LN2_RAW as int, 0x41_0000_0000_0000_0000, LN2_RAW as int);
            }
            match primitive::checked_mul_raw(l.to_raw(), LN2_RAW) {
                Some(v) => Ok(I64F64::from_raw(v)),
                None => {
                    proof {
                        assert(false);
                    }
                    Err(FixedError::Overflow)
                },
            }
        },
    }
}

/// `e` in 64.64: `floor(e * 2^64)`.
pub const E_RAW: i128 = 0x2_B7E1_5162_8AED_2A6A;

/// The Taylor evaluation of `exp` on a reduced argument `r` in `[0, 1)`,
/// by Horner steps from divisor `k` inwards to the fixed last divisor 30:
/// `acc = 1 + (r * acc) / k`.
pub open spec fn exp_series(r: int, k: int) -> int
    decreases 31 - k,
{
    if k < 1 || k > 30 {
        i64x()
    } else {
        i64x() + mul_down(r, exp_series(r, k + 1)) / k
    }
}

/// The reconstruction of `exp` from the kernel value: `n` successive
/// multiplications by `e`, or `None` as soon as one leaves the range.
pub open spec fn exp_chain(p: int, n: nat) -> Option<int>
    decreases n,
{
    if n == 0 {
        Some(p)
    } else {
        let q = mul_down(p, E_RAW as int);
        if !in_range(q) {
            None
        } else {
            exp_chain(q, (n - 1) as nat)
        }
    }
}

/// The raw outcome of `exp` on a raw input.
///
/// The argument splits as `n + r` with `n` whole and `0 <= r < 1` over
/// its magnitude; magnitudes of 44 or more always overflow the 64
/// integer bits, and a negative argument takes the reciprocal of the
/// positive result.
pub open spec fn spec_exp(raw: int) -> Result<int, FixedError> {
    if raw == 0 {
        Ok(i64x())
    } else {
        let y = crate::model::abs_int(raw);
        let n = y / i64x();
        let r = y % i64x();
        if n >= 44 {
            Err(FixedError::Overflow)
        } else {
            match exp_chain(exp_series(r, 1), n as nat) {
                None => Err(FixedError::Overflow),
                Some(p) => if raw > 0 {
                    Ok(p)
                } else {
                    Ok(div_raw(i64x(), p))
                },
            }
        }
    }
}

/// The Taylor kernel of `exp` on a reduced raw argument in `[0, 1)`:
/// thirty Horner steps, each one trusted multiplication and one exact
/// division by the term index.
fn exp_kernel(r: i128) -> (res: i128)
    requires
        0 <= r < ONE_RAW,
    ensures
        res == exp_series(r as int, 1),
        ONE_RAW <= res <= 66 * ONE_RAW,
{
    let mut acc: i128 = ONE_RAW;
    let mut k: i128 = 30;
    while k >= 1
        invariant
            0 <= k <= 30,
            0 <= r < ONE_RAW,
            acc == exp_series(r as int, k as int + 1),
            ONE_RAW as int <= acc <= (66 - k) * (ONE_RAW as int),
        decreases k,
    {
        proof {
            lemma_mul_down_lt(r as int, acc as int);
            lemma_mul_down_range(r as int, acc as int, ONE_RAW as int, 66 * ONE_RAW as int);
        }
        let u = match primitive::checked_mul_raw(r, acc) {
            Some(u) => u,
            None => {
                proof {
                    assert(false);
                }
                0
            },
        };
        proof {
            vstd::arithmetic::div_mod::lemma_div_is_ordered(0, u as int, k as int);
            vstd::arithmetic::div_mod::lemma_div_is_ordered_by_denominator(u as int, 1, k as int);
            assert(u as int / 1 == u as int);
        }
        let step = u / k;
        acc = ONE_RAW + step;
        k = k - 1;
    }
    acc
}

/// Calculate the exponential. There is no domain restriction; the call
/// fails with `Overflow` when the result, or the positive-argument
/// intermediate it is computed through, leaves the representable range.
#[verifier::loop_isolation(false)]
pub fn exp(x: &I64F64) -> (r: Result<I64F64, FixedError>)
    ensures
        matches_raw(r, spec_exp(x.raw())),
{
    let raw = x.to_raw();
    if raw == 0 {
        return Ok(I64F64::from_raw(ONE_RAW));
    }
    let y: u128 = if raw >= 0 {
        raw as u128
    } else if raw == i128::MIN {
        0x8000_0000_0000_0000_0000_0000_0000_0000u128
    } else {
        (-raw) as u128
    };
    let n = y / P64;
    let rpart = (y % P64) as i128;
    if n >= 44 {
        return Err(FixedError::Overflow);
    }
    let kr = exp_kernel(rpart);
    let mut p: i128 = kr;
    let mut i: u64 = 0;
    let nn = n as u64;
    while i < nn
        invariant
            i <= nn,
            nn < 44,
            ONE_RAW as int <= p,
            exp_chain(kr as int, nn as nat) == exp_chain(p as int, (nn - i) as nat),
        decreases nn - i,
    {
        match primitive::checked_mul_raw(p, E_RAW) {
            None => {
                proof {
                    assert(exp_chain(p as int, (nn - i) as nat) is None);
                }
                return Err(FixedError::Overflow);
            },
            Some(q) => {
                proof {
                    lemma_mul_down_grows(p as int, E_RAW as int);
                }
                p = q;
            },
        }
        i = i + 1;
    }
    if raw > 0 {
        Ok(I64F64::from_raw(p))
    } else {
        proof {
            lemma_recip_in_range(p as int);
        }
        match primitive::checked_div_raw(ONE_RAW, p) {
            Some(v) => Ok(I64F64::from_raw(v)),
            None => {
                proof {
                    assert(false);
                }
                Err(FixedError::Overflow)
            },
        }
    }
}

/// Repeated squaring for a whole positive exponent: the running value,
/// or `None` as soon as an intermediate leaves the range.
pub open spec fn spec_powi_pos(raw: int, n: nat) -> Option<int>
    recommends
        n >= 1,
    decreases n,
{
    if n <= 1 {
        Some(raw)
    } else {
        let sq = mul_down(raw, raw);
        if !in_range(sq) {
            None
        } else {
            match spec_powi_pos(sq, n / 2) {
                None => None,
                Some(h) => if n % 2 == 1 {
                    if !in_range(mul_down(h, raw)) {
                        None
                    } else {
                        Some(mul_down(h, raw))
                    }
                } else {
                    Some(h)
                },
            }
        }
    }
}

/// The raw outcome of `powi` on a raw base and a whole exponent.
///
/// Exponent zero gives one for every base, zero included. A negative
/// exponent inverts the base first: a zero base is outside the domain,
/// and a base whose inverse leaves the range overflows.
pub open spec fn spec_powi(raw: int, n: int) -> Result<int, FixedError> {
    if n == 0 {
        Ok(i64x())
    } else if n > 0 {
        match spec_powi_pos(raw, n as nat) {
            Some(v) => Ok(v),
            None => Err(FixedError::Overflow),
        }
    } else if raw == 0 {
        Err(FixedError::DomainError)
    } else {
        let inv = div_raw(i64x(), raw);
        if !in_range(inv) {
            Err(FixedError::Overflow)
        } else {
            match spec_powi_pos(inv, (-n) as nat) {
                Some(v) => Ok(v),
                None => Err(FixedError::Overflow),
            }
        }
    }
}

/// Exponentiation by squaring over the trusted multiplication:
/// `O(log n)` steps, each bounded.
fn powi_pos(a: i128, n: u64) -> (r: Option<i128>)
    requires
        n >= 1,
    ensures
        match r {
            Some(v) => spec_powi_pos(a as int, n as nat) == Some(v as int),
            None => spec_powi_pos(a as int, n as nat) is None,
        },
    decreases n,
{
    if n == 1 {
        return Some(a);
    }
    let sq = match primitive::checked_mul_raw(a, a) {
        None => {
            return None;
        },
        Some(sq) => sq,
    };
    let h = match powi_pos(sq, n / 2) {
        None => {
            return None;
        },
        Some(h) => h,
    };
    if n % 2 == 1 {
        match primitive::checked_mul_raw(h, a) {
            None => None,
            Some(m) => Some(m),
        }
    } else {
        Some(h)
    }
}

/// Calculate the power with a whole exponent, by exponentiation by
/// squaring. Exponent zero gives one for every base; a negative exponent
/// takes the reciprocal of the base first, which fails with
/// `DomainError` on a zero base.
pub fn powi(x: &I64F64, n: i32) -> (r: Result<I64F64, FixedError>)
    ensures
        matches_raw(r, spec_powi(x.raw(), n as int)),
{
    let raw = x.to_raw();
    if n == 0 {
        return Ok(I64F64::from_raw(ONE_RAW));
    }
    if n > 0 {
        match powi_pos(raw, n as u64) {
            Some(v) => Ok(I64F64::from_raw(v)),
            None => Err(FixedError::Overflow),
        }
    } else {
        if raw == 0 {
            return Err(FixedError::DomainError);
        }
        let m: u64 = (-(n as i64)) as u64;
        match primitive::checked_div_raw(ONE_RAW, raw) {
            None => Err(FixedError::Overflow),
            Some(inv) => match powi_pos(inv, m) {
                Some(v) => Ok(I64F64::from_raw(v)),
                None => Err(FixedError::Overflow),
            },
        }
    }
}

/// The raw outcome of `pow`: `exp(b * ln(a))`. Bases at or below zero
/// are outside the domain; the scaled logarithm and the final
/// exponential both propagate `Overflow`.
pub open spec fn spec_pow(a: int, b: int) -> Result<int, FixedError> {
    if a <= 0 {
        Err(FixedError::DomainError)
    } else {
        match spec_ln(a) {
            Err(e) => Err(e),
            Ok(l) => {
                let m = mul_down(b, l);
                if !in_range(m) {
                    Err(FixedError::Overflow)
                } else {
                    spec_exp(m)
                }
            },
        }
    }
}

/// Calculate the power of one number to another: `exp(b * ln(a))`.
/// Fails with `DomainError` when the base is not positive, and with
/// `Overflow` when the logarithm, the scaled product or the exponential
/// leaves the representable range.
pub fn pow(a: &I64F64, b: &I64F64) -> (r: Result<I64F64, FixedError>)
    ensures
        matches_raw(r, spec_pow(a.raw(), b.raw())),
{
    let araw = a.to_raw();
    if araw <= 0 {
        return Err(FixedError::DomainError);
    }
    match ln(a) {
        Err(e) => Err(e),
        Ok(l) => match primitive::checked_mul_raw(b.to_raw(), l.to_raw()) {
            None => Err(FixedError::Overflow),
            Some(m) => exp(&I64F64::from_raw(m)),
        },
    }
}

/// Calculate the square root. Fails with `DomainError` on negative
/// inputs. The result is exact: the unique raw value whose square is
/// the largest one not above the input, scaled to 64.64.
///
/// The digits are found by a fixed 96-step binary search, never a
/// loop-until-converged iteration.
#[verifier::loop_isolation(false)]
pub fn sqrt(x: &I64F64) -> (r: Result<I64F64, FixedError>)
    ensures
        x.raw() < 0 ==> r == Err::<I64F64, FixedError>(FixedError::DomainError),
        x.raw() >= 0 ==> (r matches Ok(v) && is_sqrt_of(x.raw(), v.raw())),
{
    let raw = x.to_raw();
    if raw < 0 {
        return Err(FixedError::DomainError);
    }
    let u = raw as u128;
    // whole part of the root: 64 binary digits against the raw value
    let mut y: u128 = 0;
    let mut b: u128 = P63;
    let ghost mut j: nat = 63;
    proof {
        lemma_pow2_int_63();
        assert((0 + 2 * (P63 as int)) * (0 + 2 * (P63 as int)) > u as int) by (nonlinear_arith)
            requires
                (u as int) < 0x1_0000_0000_0000_0000_0000_0000_0000_0000int,
        ;
    }
    while b >= 1
        invariant
            y * y <= u as int,
            b == 0 ==> (y + 1) * (y + 1) > u as int,
            b >= 1 ==> (y + 2 * b) * (y + 2 * b) > u as int,
            b >= 1 ==> b == pow2_int(j),
            y <= 0xFFFF_FFFF_FFFF_FFFFu128,
            b <= P63,
        decreases b,
    {
        let t = y + b;
        if t <= 0xFFFF_FFFF_FFFF_FFFFu128 {
            proof {
                lemma_square_mono(t as int, 0xFFFF_FFFF_FFFF_FFFFint);
                assert(0xFFFF_FFFF_FFFF_FFFFint * 0xFFFF_FFFF_FFFF_FFFFint
                    < 0x1_0000_0000_0000_0000_0000_0000_0000_0000int) by (nonlinear_arith);
            }
            if t * t <= u {
                y = t;
            } else {
                proof {
                    lemma_bracket_keep(y as int, b as int, u as int);
                }
            }
        } else {
            proof {
                lemma_square_mono(0x1_0000_0000_0000_0000int, t as int);
                assert(0x1_0000_0000_0000_0000int * 0x1_0000_0000_0000_0000int > u as int)
                    by (nonlinear_arith)
                    requires
                        (u as int) < 0x1_0000_0000_0000_0000_0000_0000_0000_0000int,
                ;
                lemma_bracket_keep(y as int, b as int, u as int);
            }
        }
        proof {
            if j > 0 {
                lemma_pow2_int_unfold(j);
                lemma_pow2_int_pos((j - 1) as nat);
                assert(2 * (b as int / 2) == b as int);
                j = (j - 1) as nat;
            } else {
                assert(b == 1);
            }
        }
        b = b / 2;
    }
    // fractional part: 32 more binary digits against the scaled value
    proof {
        lemma_scale_squares(y as int, u as int);
    }
    let c0: u128 = y * P32;
    let mut c: u128 = c0;
    let mut b2: u128 = 0x8000_0000u128;
    let ghost mut j2: nat = 31;
    proof {
        lemma_pow2_int_31();
    }
    while b2 >= 1
        invariant
            u == raw as int,
            u < 0x8000_0000_0000_0000_0000_0000_0000_0000u128,
            c * c <= (u as int) * i64x(),
            b2 == 0 ==> (c + 1) * (c + 1) > (u as int) * i64x(),
            b2 >= 1 ==> (c + 2 * b2) * (c + 2 * b2) > (u as int) * i64x(),
            b2 >= 1 ==> b2 == pow2_int(j2),
            c + 2 * b2 <= 0x1_0000_0000_0000_0000_0000_0000u128,
            b2 <= 0x8000_0000u128,
        decreases b2,
    {
        let t = c + b2;
        if sq_le_scaled(t, u) {
            c = t;
        } else {
            proof {
                lemma_bracket_keep_scaled(c as int, b2 as int, (u as int) * i64x());
            }
        }
        proof {
            if j2 > 0 {
                lemma_pow2_int_unfold(j2);
                lemma_pow2_int_pos((j2 - 1) as nat);
                j2 = (j2 - 1) as nat;
            }
        }
        b2 = b2 / 2;
    }
    proof {
        assert(c * c < 0x8000_0000_0000_0000_0000_0000_0000_0000int * i64x()) by (nonlinear_arith)
            requires
                c * c <= (u as int) * i64x(),
                u < 0x8000_0000_0000_0000_0000_0000_0000_0000u128,
        ;
        assert(c < 0x8000_0000_0000_0000_0000_0000_0000_0000int) by (nonlinear_arith)
            requires
                c * c < 0x8000_0000_0000_0000_0000_0000_0000_0000int * i64x(),
                c >= 0,
    ;
    }
    Ok(I64F64::from_raw(c as i128))
}

/// A rejected probe keeps the upper bracket: if the probe at `y + b`
/// fails, the bracket at `y + 2b` follows from the one at `y + b`.
proof fn lemma_bracket_keep(y: int, b: int, u: int)
    requires
        y >= 0,
        b >= 1,
        (y + b) * (y + b) > u,
    ensures
        (y + 2 * b) * (y + 2 * b) > u,
{
    assert((y + b) * (y + b) <= (y + 2 * b) * (y + 2 * b)) by (nonlinear_arith)
        requires
            y >= 0,
            b >= 1,
    ;
}

/// The same bracket step against the scaled comparison value.
proof fn lemma_bracket_keep_scaled(c: int, b: int, target: int)
    requires
        c >= 0,
        b >= 1,
        (c + b) * (c + b) > target,
    ensures
        (c + 2 * b) * (c + 2 * b) > target,
{
    assert((c + b) * (c + b) <= (c + 2 * b) * (c + 2 * b)) by (nonlinear_arith)
        requires
            c >= 0,
            b >= 1,
    ;
}

/// `2^32`, the width of the fractional digits that the root search adds.
pub const P32: u128 = 0x1_0000_0000;

/// `r` is the square root of `raw`, scaled to 64.64 and rounded towards
/// minus infinity: the unique nonnegative value whose square is the
/// largest not above `raw * 2^64`.
pub open spec fn is_sqrt_of(raw: int, r: int) -> bool {
    &&& r >= 0
    &&& r * r <= raw * i64x()
    &&& (r + 1) * (r + 1) > raw * i64x()
}

/// Whether `t * t <= u * 2^64`, computed without a 256-bit value: the
/// square splits into 64-bit halves around the scale.
fn sq_le_scaled(t: u128, u: u128) -> (r: bool)
    requires
        t < 0x1_0000_0000_0000_0000_0000_0000u128,
        u < 0x8000_0000_0000_0000_0000_0000_0000_0000u128,
    ensures
        r <==> (t as int) * (t as int) <= (u as int) * i64x(),
{
    let th = t / P64;
    let tl = t % P64;
    proof {
        vstd::arithmetic::div_mod::lemma_mod_bound(t as int, i64x());
        assert((tl as int) * (tl as int) < 0x1_0000_0000_0000_0000_0000_0000_0000_0000int)
            by (nonlinear_arith)
            requires
                0 <= (tl as int) < 0x1_0000_0000_0000_0000int,
        ;
    }
    let tlsq = tl * tl;
    proof {
        lemma_sq_parts(t as int, th as int, tl as int);
    }
    let hi = th * th * P64 + 2 * th * tl + tlsq / P64;
    let lo = tlsq % P64;
    proof {
        lemma_sq_compare(t as int, hi as int, lo as int, u as int);
    }
    hi < u || (hi == u && lo == 0)
}

/// The split of a square around the 64-bit scale: for `t = th*2^64 + tl`
/// the square is `(th^2*2^64 + 2*th*tl + tl^2/2^64) * 2^64 + tl^2 % 2^64`,
/// and every part stays within 128 bits.
proof fn lemma_sq_parts(t: int, th: int, tl: int)
    requires
        0 <= t < 0x1_0000_0000_0000_0000_0000_0000int,
        th == t / i64x(),
        tl == t % i64x(),
    ensures
        t * t == (th * th * i64x() + 2 * th * tl + (tl * tl) / i64x()) * i64x() + (tl * tl)
            % i64x(),
        th * th * i64x() + 2 * th * tl + (tl * tl) / i64x() == (t * t) / i64x(),
        0 <= th * th * i64x() + 2 * th * tl + (tl * tl) / i64x()
            < 0x1_0000_0000_0000_0000_0000_0000_0000_0000int,
        th * th < 0x1_0000_0000_0000_0000int,
        2 * th * tl < 0x2_0000_0000_0000_0000_0000_0000int,
        tl * tl >= 0,
    decreases 0int,
{
    vstd::arithmetic::div_mod::lemma_fundamental_div_mod(t, i64x());
    vstd::arithmetic::div_mod::lemma_mod_bound(t, i64x());
    assert(0 <= th < 0x1_0000_0000int) by (nonlinear_arith)
        requires
            th == t / i64x(),
            t == th * i64x() + tl,
            0 <= t < 0x1_0000_0000_0000_0000_0000_0000int,
            0 <= tl < i64x(),
    ;
    vstd::arithmetic::div_mod::lemma_fundamental_div_mod(tl * tl, i64x());
    vstd::arithmetic::div_mod::lemma_mod_bound(tl * tl, i64x());
    assert(tl * tl >= 0) by (nonlinear_arith);
    let q = (tl * tl) / i64x();
    let m = (tl * tl) % i64x();
    assert(t * t == (th * th * i64x() + 2 * th * tl + q) * i64x() + m) by (nonlinear_arith)
        requires
            t == th * i64x() + tl,
            tl * tl == q * i64x() + m,
            i64x() == 0x1_0000_0000_0000_0000,
    ;
    assert(th * th < 0x1_0000_0000_0000_0000int) by (nonlinear_arith)
        requires
            0 <= th < 0x1_0000_0000int,
    ;
    assert(2 * th * tl < 0x2_0000_0000_0000_0000_0000_0000int) by (nonlinear_arith)
        requires
            0 <= th < 0x1_0000_0000int,
            0 <= tl < 0x1_0000_0000_0000_0000int,
    ;
    assert(q < i64x()) by {
        assert(tl * tl < i64x() * i64x()) by (nonlinear_arith)
            requires
                0 <= tl < i64x(),
        ;
        vstd::arithmetic::div_mod::lemma_div_is_ordered(tl * tl, i64x() * i64x() - 1, i64x());
        assert((i64x() * i64x() - 1) / i64x() == i64x() - 1);
    }
    assert(0 <= q) by {
        vstd::arithmetic::div_mod::lemma_div_is_ordered(0, tl * tl, i64x());
    }
    assert(t * t < 0x1_0000_0000_0000_0000_0000_0000_0000_0000int * i64x()) by (nonlinear_arith)
        requires
            0 <= t < 0x1_0000_0000_0000_0000_0000_0000int,
    ;
    let hi = th * th * i64x() + 2 * th * tl + q;
    assert(hi >= 0) by (nonlinear_arith)
        requires
            hi == th * th * i64x() + 2 * th * tl + q,
            th >= 0,
            tl >= 0,
            q >= 0,
    ;
    assert(hi == (t * t) / i64x()) by {
        assert(t * t >= 0) by (nonlinear_arith);
        vstd::arithmetic::div_mod::lemma_fundamental_div_mod_converse(t * t, i64x(), hi, m);
    }
    assert(hi < 0x1_0000_0000_0000_0000_0000_0000_0000_0000int) by {
        vstd::arithmetic::div_mod::lemma_div_is_ordered(
            t * t,
            0x1_0000_0000_0000_0000_0000_0000_0000_0000int * i64x() - 1,
            i64x(),
        );
        assert((0x1_0000_0000_0000_0000_0000_0000_0000_0000int * i64x() - 1) / i64x()
            == 0x1_0000_0000_0000_0000_0000_0000_0000_0000int - 1);
    }
}

/// Comparing a split square with a scaled value: the high part decides,
/// the low part breaks the tie.
proof fn lemma_sq_compare(t: int, hi: int, lo: int, u: int)
    requires
        t >= 0,
        t * t == hi * i64x() + lo,
        0 <= lo < i64x(),
        hi == (t * t) / i64x(),
        u >= 0,
    ensures
        (t * t <= u * i64x()) <==> (hi < u || (hi == u && lo == 0)),
{
    if hi < u {
        assert(hi * i64x() + lo < u * i64x()) by (nonlinear_arith)
            requires
                hi < u,
                0 <= lo < i64x(),
    ;
    } else if hi == u {
        assert(hi * i64x() + lo <= u * i64x() <==> lo == 0) by (nonlinear_arith)
            requires
                hi == u,
                0 <= lo,
    ;
    } else {
        assert(hi * i64x() + lo > u * i64x()) by (nonlinear_arith)
            requires
                hi > u,
                lo >= 0,
    ;
    }
}

/// Squares grow with their argument.
proof fn lemma_square_mono(a: int, b: int)
    requires
        0 <= a <= b,
    ensures
        a * a <= b * b,
{
    assert(a * a <= b * b) by (nonlinear_arith)
        requires
            0 <= a <= b,
    ;
}

/// Scaling the whole-part bracket by `2^32` brackets the scaled value.
proof fn lemma_scale_squares(y: int, u: int)
    requires
        0 <= y,
        0 <= u,
        y * y <= u,
        (y + 1) * (y + 1) > u,
        y <= 0x1_0000_0000_0000_0000int - 1,
    ensures
        (y * 0x1_0000_0000) * (y * 0x1_0000_0000) <= u * i64x(),
        (y * 0x1_0000_0000 + 2 * 0x8000_0000) * (y * 0x1_0000_0000 + 2 * 0x8000_0000) > u * i64x(),
        y * 0x1_0000_0000 + 2 * 0x8000_0000 <= 0x1_0000_0000_0000_0000_0000_0000int,
{
    assert((y * 0x1_0000_0000) * (y * 0x1_0000_0000) == (y * y) * i64x()) by (nonlinear_arith);
    assert((y * y) * i64x() <= u * i64x()) by (nonlinear_arith)
        requires
            y * y <= u,
    ;
    assert((y * 0x1_0000_0000 + 2 * 0x8000_0000) * (y * 0x1_0000_0000 + 2 * 0x8000_0000) == ((y + 1)
        * (y + 1)) * i64x()) by (nonlinear_arith);
    assert(((y + 1) * (y + 1)) * i64x() > u * i64x()) by (nonlinear_arith)
        requires
            (y + 1) * (y + 1) > u,
    ;
}

/// `2 * pi` at 96 fractional bits: `floor(2 * pi * 2^96)`. The whole
/// trigonometric reduction works at this extended precision so that
/// large arguments keep meaningful reduced angles.
pub const TP96: u128 = 0x6_487E_D511_0B46_11A6_2633_145C;

/// `pi / 2` at 96 fractional bits: exactly a quarter of `TP96`, so the
/// quadrant split is exact.
pub const HP96: u128 = 0x1_921F_B544_42D1_8469_898C_C517;

/// `2^16`, one step of the staged scaling inside the reduction.
pub const P16: u128 = 0x1_0000;

/// `2 * pi` at 96 fractional bits, as a mathematical integer.
pub open spec fn tp96() -> int {
    0x6_487E_D511_0B46_11A6_2633_145C
}

/// `pi / 2` at 96 fractional bits, as a mathematical integer.
pub open spec fn hp96() -> int {
    0x1_921F_B544_42D1_8469_898C_C517
}

/// The reduced angle of a raw value: its magnitude scaled to 96
/// fractional bits, modulo `2 * pi`.
pub open spec fn reduced_of(raw: int) -> int {
    (crate::model::abs_int(raw) * 0x1_0000_0000) % tp96()
}

/// The quadrant of the reduced angle: which quarter turn it falls in.
pub open spec fn quad_of(raw: int) -> int {
    reduced_of(raw) / hp96()
}

/// The angle within its quadrant, scaled back to 64 fractional bits.
pub open spec fn tred_of(raw: int) -> int {
    (reduced_of(raw) % hp96()) / 0x1_0000_0000
}

/// The Taylor evaluation of `sin(t)/t` on a quadrant angle, by Horner
/// steps with divisors `(2k)(2k+1)` from `k` inwards to the fixed last
/// index 12.
pub open spec fn sin_acc(t2: int, k: int) -> int
    decreases 13 - k,
{
    if k < 1 || k > 12 {
        i64x()
    } else {
        i64x() - mul_down(t2 / ((2 * k) * (2 * k + 1)), sin_acc(t2, k + 1))
    }
}

/// The sine of a quadrant angle `t` in `[0, pi/2]`: `t` times its
/// Taylor factor.
pub open spec fn sin_kernel_spec(t: int) -> int {
    mul_down(t, sin_acc(mul_down(t, t), 1))
}

/// The Taylor evaluation of `cos(t)` on a quadrant angle, by Horner
/// steps with divisors `(2k-1)(2k)` from `k` inwards to the fixed last
/// index 12.
pub open spec fn cos_acc(t2: int, k: int) -> int
    decreases 13 - k,
{
    if k < 1 || k > 12 {
        i64x()
    } else {
        i64x() - mul_down(t2 / ((2 * k - 1) * (2 * k)), cos_acc(t2, k + 1))
    }
}

/// The cosine of a quadrant angle `t` in `[0, pi/2]`.
pub open spec fn cos_kernel_spec(t: int) -> int {
    cos_acc(mul_down(t, t), 1)
}

/// The raw sine of the magnitude of a raw value, assembled from its
/// quadrant.
pub open spec fn sin_mag(raw: int) -> int {
    let t = tred_of(raw);
    let q = quad_of(raw);
    if q == 0 {
        sin_kernel_spec(t)
    } else if q == 1 {
        cos_kernel_spec(t)
    } else if q == 2 {
        -sin_kernel_spec(t)
    } else {
        -cos_kernel_spec(t)
    }
}

/// The raw cosine of the magnitude of a raw value, assembled from its
/// quadrant.
pub open spec fn cos_mag(raw: int) -> int {
    let t = tred_of(raw);
    let q = quad_of(raw);
    if q == 0 {
        cos_kernel_spec(t)
    } else if q == 1 {
        -sin_kernel_spec(t)
    } else if q == 2 {
        -cos_kernel_spec(t)
    } else {
        sin_kernel_spec(t)
    }
}

/// The raw outcome of `sin`: total over the whole representable range,
/// odd in its argument.
pub open spec fn spec_sin(raw: int) -> Result<int, FixedError> {
    if raw < 0 {
        Ok(-sin_mag(raw))
    } else {
        Ok(sin_mag(raw))
    }
}

/// The raw outcome of `cos`: total over the whole representable range,
/// even in its argument.
pub open spec fn spec_cos(raw: int) -> Result<int, FixedError> {
    Ok(cos_mag(raw))
}

/// The raw outcome of `tan`: the quotient of the assembled sine and
/// cosine. A reduced cosine of exactly zero is a pole and outside the
/// domain; a quotient beyond the representable range overflows.
pub open spec fn spec_tan(raw: int) -> Result<int, FixedError> {
    let s = if raw < 0 {
        -sin_mag(raw)
    } else {
        sin_mag(raw)
    };
    let c = cos_mag(raw);
    if c == 0 {
        Err(FixedError::DomainError)
    } else if !in_range(div_raw(s, c)) {
        Err(FixedError::Overflow)
    } else {
        Ok(div_raw(s, c))
    }
}

/// The largest quadrant angle: `hp96() / 2^32`, just above `pi/2` in
/// 64.64.
pub const TMAX: i128 = 0x1_921F_B544_42D1_8469;

/// The extended-precision range reduction: the magnitude of the raw
/// argument, scaled to 96 fractional bits in two exact staged steps,
/// reduced modulo `2 * pi`, and split into a quadrant and a quadrant
/// angle at 64 fractional bits.
#[verifier::loop_isolation(false)]
fn reduce_angle(raw: i128) -> (r: (u64, i128))
    ensures
        r.0 == quad_of(raw as int),
        r.1 == tred_of(raw as int),
        0 <= r.0 <= 3,
        0 <= r.1 <= TMAX,
{
    let y: u128 = if raw >= 0 {
        raw as u128
    } else if raw == i128::MIN {
        0x8000_0000_0000_0000_0000_0000_0000_0000u128
    } else {
        (-raw) as u128
    };
    proof {
        vstd::arithmetic::div_mod::lemma_mod_bound(y as int, tp96());
    }
    let r0 = y % TP96;
    proof {
        vstd::arithmetic::div_mod::lemma_mod_bound((r0 as int) * 0x1_0000, tp96());
        vstd::arithmetic::div_mod::lemma_mul_mod_noop_left(y as int, 0x1_0000, tp96());
    }
    let r1 = (r0 * P16) % TP96;
    proof {
        vstd::arithmetic::div_mod::lemma_mod_bound((r1 as int) * 0x1_0000, tp96());
        vstd::arithmetic::div_mod::lemma_mul_mod_noop_left(
            (y as int) * 0x1_0000,
            0x1_0000,
            tp96(),
        );
        assert(((y as int) * 0x1_0000) * 0x1_0000 == (y as int) * 0x1_0000_0000)
            by (nonlinear_arith);
    }
    let r2 = (r1 * P16) % TP96;
    assert(r2 as int == reduced_of(raw as int));
    let q = r2 / HP96;
    let t96 = r2 % HP96;
    proof {
        vstd::arithmetic::div_mod::lemma_mod_bound(r2 as int, hp96());
        assert(r2 < 4 * HP96);
        vstd::arithmetic::div_mod::lemma_div_is_ordered(r2 as int, 4 * hp96() - 1, hp96());
        assert((4 * hp96() - 1) / hp96() == 3);
        vstd::arithmetic::div_mod::lemma_div_is_ordered(0, r2 as int, hp96());
        vstd::arithmetic::div_mod::lemma_div_is_ordered(t96 as int, hp96() - 1, 0x1_0000_0000);
        vstd::arithmetic::div_mod::lemma_div_is_ordered(0, t96 as int, 0x1_0000_0000);
        assert((hp96() - 1) / 0x1_0000_0000 == TMAX as int);
    }
    let t = (t96 / P32) as i128;
    (q as u64, t)
}

/// The sine Taylor kernel on a quadrant angle: twelve Horner steps.
#[verifier::loop_isolation(false)]
fn sin_kernel(t: i128) -> (r: i128)
    requires
        0 <= t <= TMAX,
    ensures
        r == sin_kernel_spec(t as int),
        -0x4_0000_0000_0000_0000 <= r <= 0x4_0000_0000_0000_0000,
{
    let t2 = match primitive::checked_mul_raw(t, t) {
        Some(v) => v,
        None => {
            proof {
                lemma_mul_down_range(t as int, t as int, TMAX as int, TMAX as int);
                assert(false);
            }
            0
        },
    };
    proof {
        lemma_mul_down_range(t as int, t as int, TMAX as int, TMAX as int);
        assert((TMAX as int) * (TMAX as int) / i64x() < 0x2_8000_0000_0000_0000int)
            by (nonlinear_arith);
        assert(0 <= mul_down(t as int, t as int)) by {
            assert((t as int) * (t as int) >= 0) by (nonlinear_arith);
            vstd::arithmetic::div_mod::lemma_div_is_ordered(0, (t as int) * (t as int), i64x());
        }
    }
    let mut acc: i128 = ONE_RAW;
    let mut k: i128 = 12;
    while k >= 1
        invariant
            0 <= k <= 12,
            0 <= t2 < 0x2_8000_0000_0000_0000,
            acc == sin_acc(t2 as int, k as int + 1),
            0 <= acc <= ONE_RAW as int,
        decreases k,
    {
        proof {
            assert(6 <= (2 * (k as int)) * (2 * (k as int) + 1) <= 600) by (nonlinear_arith)
                requires
                    1 <= k as int <= 12,
            ;
        }
        let d = (2 * k) * (2 * k + 1);
        let q = t2 / d;
        proof {
            vstd::arithmetic::div_mod::lemma_div_is_ordered_by_denominator(t2 as int, 6, d as int);
            vstd::arithmetic::div_mod::lemma_div_is_ordered(0, t2 as int, d as int);
            assert(t2 as int / 6 < i64x());
            lemma_mul_down_range(q as int, acc as int, i64x() - 1, i64x());
            if acc >= 1 {
                lemma_mul_down_lt(q as int, acc as int);
            } else {
                assert(mul_down(q as int, 0) == 0);
            }
        }
        let u = match primitive::checked_mul_raw(q, acc) {
            Some(v) => v,
            None => {
                proof {
                    assert(false);
                }
                0
            },
        };
        acc = ONE_RAW - u;
        k = k - 1;
    }
    proof {
        lemma_mul_down_range(t as int, acc as int, TMAX as int, i64x());
        assert((TMAX as int) * i64x() / i64x() < 0x4_0000_0000_0000_0000int) by (nonlinear_arith);
    }
    match primitive::checked_mul_raw(t, acc) {
        Some(v) => v,
        None => {
            proof {
                assert(false);
            }
            0
        },
    }
}

/// The cosine Taylor kernel on a quadrant angle: eleven uniform Horner
/// steps, then the widest final step on its own.
#[verifier::loop_isolation(false)]
fn cos_kernel(t: i128) -> (r: i128)
    requires
        0 <= t <= TMAX,
    ensures
        r == cos_kernel_spec(t as int),
        -0x4_0000_0000_0000_0000 <= r <= 0x4_0000_0000_0000_0000,
{
    let t2 = match primitive::checked_mul_raw(t, t) {
        Some(v) => v,
        None => {
            proof {
                lemma_mul_down_range(t as int, t as int, TMAX as int, TMAX as int);
                assert(false);
            }
            0
        },
    };
    proof {
        lemma_mul_down_range(t as int, t as int, TMAX as int, TMAX as int);
        assert((TMAX as int) * (TMAX as int) / i64x() < 0x2_8000_0000_0000_0000int)
            by (nonlinear_arith);
        assert(0 <= mul_down(t as int, t as int)) by {
            assert((t as int) * (t as int) >= 0) by (nonlinear_arith);
            vstd::arithmetic::div_mod::lemma_div_is_ordered(0, (t as int) * (t as int), i64x());
        }
    }
    let mut acc: i128 = ONE_RAW;
    let mut k: i128 = 12;
    while k >= 2
        invariant
            1 <= k <= 12,
            0 <= t2 < 0x2_8000_0000_0000_0000,
            acc == cos_acc(t2 as int, k as int + 1),
            0 <= acc <= ONE_RAW as int,
        decreases k,
    {
        proof {
            assert(12 <= (2 * (k as int) - 1) * (2 * (k as int)) <= 600) by (nonlinear_arith)
                requires
                    2 <= k as int <= 12,
            ;
        }
        let d = (2 * k - 1) * (2 * k);
        let q = t2 / d;
        proof {
            vstd::arithmetic::div_mod::lemma_div_is_ordered_by_denominator(t2 as int, 12, d as int);
            vstd::arithmetic::div_mod::lemma_div_is_ordered(0, t2 as int, d as int);
            assert(t2 as int / 12 < i64x());
            lemma_mul_down_range(q as int, acc as int, i64x() - 1, i64x());
            if acc >= 1 {
                lemma_mul_down_lt(q as int, acc as int);
            } else {
                assert(mul_down(q as int, 0) == 0);
            }
        }
        let u = match primitive::checked_mul_raw(q, acc) {
            Some(v) => v,
            None => {
                proof {
                    assert(false);
                }
                0
            },
        };
        acc = ONE_RAW - u;
        k = k - 1;
    }
    // the last step divides by two only, so the factor can exceed one
    // and the result can dip a little below zero near the pole
    let q1 = t2 / 2;
    proof {
        vstd::arithmetic::div_mod::lemma_div_is_ordered(0, t2 as int, 2);
        vstd::arithmetic::div_mod::lemma_div_is_ordered(t2 as int, 0x2_8000_0000_0000_0000, 2);
        lemma_mul_down_range(q1 as int, acc as int, 0x1_4000_0000_0000_0000, i64x());
        assert(0x1_4000_0000_0000_0000int * i64x() / i64x() == 0x1_4000_0000_0000_0000int)
            by (nonlinear_arith);
    }
    let u1 = match primitive::checked_mul_raw(q1, acc) {
        Some(v) => v,
        None => {
            proof {
                assert(false);
            }
            0
        },
    };
    acc = ONE_RAW - u1;
    acc
}

/// Calculate the sine. Total over the whole representable range: the
/// extended-precision reduction tolerates magnitudes that overflow the
/// exponential and logarithmic functions.
pub fn sin(x: &I64F64) -> (r: Result<I64F64, FixedError>)
    ensures
        matches_raw(r, spec_sin(x.raw())),
        r is Ok,
{
    let raw = x.to_raw();
    let (q, t) = reduce_angle(raw);
    let mag: i128 = if q == 0 {
        sin_kernel(t)
    } else if q == 1 {
        cos_kernel(t)
    } else if q == 2 {
        -sin_kernel(t)
    } else {
        -cos_kernel(t)
    };
    if raw < 0 {
        Ok(I64F64::from_raw(-mag))
    } else {
        Ok(I64F64::from_raw(mag))
    }
}

/// Calculate the cosine. Total over the whole representable range, and
/// even in its argument.
pub fn cos(x: &I64F64) -> (r: Result<I64F64, FixedError>)
    ensures
        matches_raw(r, spec_cos(x.raw())),
        r is Ok,
{
    let raw = x.to_raw();
    let (q, t) = reduce_angle(raw);
    let mag: i128 = if q == 0 {
        cos_kernel(t)
    } else if q == 1 {
        -sin_kernel(t)
    } else if q == 2 {
        -cos_kernel(t)
    } else {
        sin_kernel(t)
    };
    Ok(I64F64::from_raw(mag))
}

/// Calculate the tangent: the quotient of the assembled sine and
/// cosine over one shared reduction. Fails with `DomainError` when the
/// reduced cosine is exactly zero, and with `Overflow` when the
/// quotient leaves the representable range.
pub fn tan(x: &I64F64) -> (r: Result<I64F64, FixedError>)
    ensures
        matches_raw(r, spec_tan(x.raw())),
{
    let raw = x.to_raw();
    let (q, t) = reduce_angle(raw);
    let smag: i128 = if q == 0 {
        sin_kernel(t)
    } else if q == 1 {
        cos_kernel(t)
    } else if q == 2 {
        -sin_kernel(t)
    } else {
        -cos_kernel(t)
    };
    let s: i128 = if raw < 0 {
        -smag
    } else {
        smag
    };
    let c: i128 = if q == 0 {
        cos_kernel(t)
    } else if q == 1 {
        -sin_kernel(t)
    } else if q == 2 {
        -cos_kernel(t)
    } else {
        sin_kernel(t)
    };
    if c == 0 {
        return Err(FixedError::DomainError);
    }
    match primitive::checked_div_raw(s, c) {
        None => Err(FixedError::Overflow),
        Some(v) => Ok(I64F64::from_raw(v)),
    }
}

/// A product with a factor below one shrinks: the rounded-down product
/// of a nonnegative value and a factor under `2^64` stays under the
/// value.
pub proof fn lemma_mul_down_lt(r: int, acc: int)
    requires
        0 <= r < i64x(),
        1 <= acc,
    ensures
        0 <= mul_down(r, acc) < acc,
{
    assert(r * acc >= 0) by (nonlinear_arith)
        requires
            r >= 0,
            acc >= 0,
    ;
    assert(r * acc <= (i64x() - 1) * acc) by (nonlinear_arith)
        requires
            r <= i64x() - 1,
            acc >= 0,
    ;
    vstd::arithmetic::div_mod::lemma_div_is_ordered(0, r * acc, i64x());
    vstd::arithmetic::div_mod::lemma_div_is_ordered(r * acc, (i64x() - 1) * acc, i64x());
    vstd::arithmetic::div_mod::lemma_fundamental_div_mod((i64x() - 1) * acc, i64x());
    let q = ((i64x() - 1) * acc) / i64x();
    let m = ((i64x() - 1) * acc) % i64x();
    assert(q * i64x() <= (i64x() - 1) * acc);
    assert(q < acc) by (nonlinear_arith)
        requires
            q * i64x() <= (i64x() - 1) * acc,
            acc >= 1,
    ;
}

/// A product with a factor of at least one does not shrink.
proof fn lemma_mul_down_grows(p: int, f: int)
    requires
        p >= 0,
        f >= i64x(),
    ensures
        mul_down(p, f) >= p,
{
    assert(p * f >= p * i64x()) by (nonlinear_arith)
        requires
            p >= 0,
            f >= i64x(),
    ;
    vstd::arithmetic::div_mod::lemma_div_is_ordered(p * i64x(), p * f, i64x());
    vstd::arithmetic::div_mod::lemma_div_by_multiple(p, i64x());
}

/// The reciprocal of a value of at least one stays in range.
proof fn lemma_recip_in_range(p: int)
    requires
        p >= i64x(),
    ensures
        0 <= div_raw(i64x(), p) <= i64x(),
        in_range(div_raw(i64x(), p)),
{
    let n = i64x() * i64x();
    assert(div_raw(i64x(), p) == n / p);
    vstd::arithmetic::div_mod::lemma_div_is_ordered_by_denominator(n, i64x(), p);
    assert(n / i64x() == i64x());
    vstd::arithmetic::div_mod::lemma_div_is_ordered(0, n, p);
}

/// `2^k` over the integers.
pub open spec fn pow2_int(k: nat) -> int
    decreases k,
{
    if k == 0 {
        1
    } else {
        2 * pow2_int((k - 1) as nat)
    }
}

proof fn lemma_pow2_int_pos(k: nat)
    ensures
        pow2_int(k) >= 1,
    decreases k,
{
    if k > 0 {
        lemma_pow2_int_pos((k - 1) as nat);
    }
}

proof fn lemma_pow2_int_unfold(k: nat)
    requires
        k >= 1,
    ensures
        pow2_int(k) == 2 * pow2_int((k - 1) as nat),
{
}

proof fn lemma_pow2_int_increases(a: nat, b: nat)
    requires
        a <= b,
    ensures
        pow2_int(a) <= pow2_int(b),
    decreases b,
{
    if a < b {
        lemma_pow2_int_increases(a, (b - 1) as nat);
        lemma_pow2_int_pos((b - 1) as nat);
    }
}

proof fn lemma_pow2_int_31()
    ensures
        pow2_int(31) == 0x8000_0000,
{
    reveal_with_fuel(pow2_int, 32);
}

proof fn lemma_pow2_int_63()
    ensures
        pow2_int(63) == i63(),
{
    reveal_with_fuel(pow2_int, 64);
}

proof fn lemma_pow2_int_64()
    ensures
        pow2_int(64) == i64x(),
{
    reveal_with_fuel(pow2_int, 65);
}

/// Halving a quotient by two composes into one division by the doubled
/// power of two.
proof fn lemma_half_of_div(u: int, k: nat)
    requires
        u >= 0,
    ensures
        (u / pow2_int(k)) / 2 == u / pow2_int(k + 1),
{
    lemma_pow2_int_pos(k);
    vstd::arithmetic::div_mod::lemma_div_denominator(u, pow2_int(k), 2);
    assert(pow2_int(k) * 2 == pow2_int(k + 1));
}

/// The square of a normalized mantissa, scaled back, stays in the
/// doubled range.
proof fn lemma_square_range(m: int)
    requires
        i63() <= m < i64x(),
    ensures
        m * m < 0x1_0000_0000_0000_0000_0000_0000_0000_0000int,
        (m * m) / i63() >= i63(),
        (m * m) / i63() < i65(),
        (m * m) / i63() >= i64x() ==> ((m * m) / i63()) / 2 < i64x(),
{
    assert(m * m < 0x1_0000_0000_0000_0000_0000_0000_0000_0000int) by (nonlinear_arith)
        requires
            0 <= m < i64x(),
    ;
    assert(m * m >= 0x4000_0000_0000_0000_0000_0000_0000_0000int) by (nonlinear_arith)
        requires
            m >= i63(),
    ;
    vstd::arithmetic::div_mod::lemma_div_is_ordered(
        0x4000_0000_0000_0000_0000_0000_0000_0000int,
        m * m,
        i63(),
    );
    vstd::arithmetic::div_mod::lemma_div_is_ordered(
        m * m,
        0x1_0000_0000_0000_0000_0000_0000_0000_0000int - 1,
        i63(),
    );
    assert(0x4000_0000_0000_0000_0000_0000_0000_0000int / i63() == i63());
    assert((0x1_0000_0000_0000_0000_0000_0000_0000_0000int - 1) / i63() < i65());
}

/// The inverse of a raw value below one is at least one, and the
/// division that computes it is a flooring division.
proof fn lemma_inverse_large(raw: int, inv: int)
    requires
        0 < raw < i64x(),
        inv == div_raw(i64x(), raw),
    ensures
        inv >= i64x(),
{
    let n = (i64x()) * (i64x());
    assert(div_raw(i64x(), raw) == n / raw);
    assert((i64x()) * raw <= (i64x()) * (i64x())) by (nonlinear_arith)
        requires
            0 < raw <= i64x(),
    ;
    vstd::arithmetic::div_mod::lemma_div_is_ordered(i64x() * raw, n, raw);
    vstd::arithmetic::div_mod::lemma_div_by_multiple(i64x(), raw);
}

/// Bounds on a product rounded towards minus infinity, from bounds on
/// the operands.
pub proof fn lemma_mul_down_range(a: int, b: int, ca: int, cb: int)
    requires
        -ca <= a <= ca,
        -cb <= b <= cb,
        0 <= ca,
        0 <= cb,
    ensures
        -(ca * cb) / two64() - 1 <= mul_down(a, b) <= (ca * cb) / two64(),
{
    assert(-(ca * cb) <= a * b <= ca * cb) by (nonlinear_arith)
        requires
            -ca <= a <= ca,
            -cb <= b <= cb,
            0 <= ca,
            0 <= cb,
    ;
    vstd::arithmetic::div_mod::lemma_div_is_ordered(a * b, ca * cb, two64());
    vstd::arithmetic::div_mod::lemma_div_is_ordered(-(ca * cb), a * b, two64());
    lemma_neg_div_low(ca * cb);
}

/// The floored quotient of a negated value sits at most one below the
/// negated quotient.
proof fn lemma_neg_div_low(x: int)
    requires
        x >= 0,
    ensures
        (-x) / two64() >= -(x / two64()) - 1,
{
    vstd::arithmetic::div_mod::lemma_fundamental_div_mod(x, two64());
    vstd::arithmetic::div_mod::lemma_mod_bound(x, two64());
    let q = x / two64();
    let m = x % two64();
    if m == 0 {
        assert(-x == (-q) * two64() + 0) by (nonlinear_arith)
            requires
                x == q * two64() + m,
                m == 0,
        ;
        vstd::arithmetic::div_mod::lemma_fundamental_div_mod_converse(-x, two64(), -q, 0);
    } else {
        assert(-x == (-q - 1) * two64() + (two64() - m)) by (nonlinear_arith)
            requires
                x == q * two64() + m,
    ;
        vstd::arithmetic::div_mod::lemma_fundamental_div_mod_converse(
            -x,
            two64(),
            -q - 1,
            two64() - m,
        );
    }
}

} // verus!
