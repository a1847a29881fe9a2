//! The general laws of the library, each proved from the public
//! contracts and the model.

use vstd::prelude::*;

use crate::model::{
    ceil_raw, div_raw, floor_raw, has_point, in_range, is_digit, le_bytes, le_bytes_of_raw,
    le_val, raw_of_le, round_raw, scan_frac, scan_whole, split_fp, split_ip, two127, two128,
    two64, unsigned_of_raw,
};
use crate::transcendental::{
    i64x, log2_frac_acc, log2_pos_raw, msb_count, msb_norm, pow2_int, spec_log2, spec_powi,
};
use crate::FixedError;

verus! {

/// Round-trip: every 16-byte buffer decodes to a value that encodes
/// back to the same bytes.
pub proof fn lemma_encode_decode_roundtrip(b: Seq<u8>)
    requires
        b.len() == 16,
    ensures
        le_bytes_of_raw(raw_of_le(b)) == b,
{
    lemma_unsigned_of_raw_of_le(b);
    lemma_le_bytes_of_le_val(b);
}

/// Round-trip, the other way: every representable raw value encodes to
/// bytes that decode back to the same value.
pub proof fn lemma_decode_encode_roundtrip(raw: int)
    requires
        in_range(raw),
    ensures
        raw_of_le(le_bytes_of_raw(raw)) == raw,
{
    let u = unsigned_of_raw(raw);
    assert(pow256_int(16) == two128()) by {
        reveal_with_fuel(pow256_int, 17);
    }
    lemma_le_val_of_le_bytes(u, 16);
}

/// Reading back the bytes of a value below the space's size gives the
/// value.
proof fn lemma_le_val_of_le_bytes(u: int, n: nat)
    requires
        0 <= u < pow256_int(n),
    ensures
        le_val(le_bytes(u, n)) == u,
    decreases n,
{
    if n == 0 {
    } else {
        vstd::arithmetic::div_mod::lemma_fundamental_div_mod(u, 256);
        vstd::arithmetic::div_mod::lemma_mod_bound(u, 256);
        assert(u / 256 < pow256_int((n - 1) as nat)) by {
            vstd::arithmetic::div_mod::lemma_div_is_ordered(u, pow256_int(n) - 1, 256);
            assert((256 * pow256_int((n - 1) as nat) - 1) / 256 == pow256_int((n - 1) as nat) - 1);
        }
        lemma_le_val_of_le_bytes(u / 256, (n - 1) as nat);
        let s = le_bytes(u, n);
        assert(s =~= seq![(u % 256) as u8] + le_bytes(u / 256, (n - 1) as nat));
        assert(s.skip(1) =~= le_bytes(u / 256, (n - 1) as nat));
    }
}

/// The square root is unique: two values that both satisfy the root
/// bracket of the same input are equal — with the round-trip laws, two
/// compiled copies must agree on `sqrt` byte for byte.
pub proof fn lemma_sqrt_unique(raw: int, r1: int, r2: int)
    requires
        crate::transcendental::is_sqrt_of(raw, r1),
        crate::transcendental::is_sqrt_of(raw, r2),
    ensures
        r1 == r2,
{
    if r1 < r2 {
        assert((r1 + 1) * (r1 + 1) <= r2 * r2) by (nonlinear_arith)
            requires
                0 <= r1,
                r1 + 1 <= r2,
        ;
    }
    if r2 < r1 {
        assert((r2 + 1) * (r2 + 1) <= r1 * r1) by (nonlinear_arith)
            requires
                0 <= r2,
                r2 + 1 <= r1,
        ;
    }
}

/// When the logarithms succeed: on exactly the raw inputs of at least
/// three units. Anything at or below zero is outside the domain, and
/// the two smallest positive raw values have no representable inverse.
pub proof fn lemma_log2_ok_iff(raw: int)
    requires
        in_range(raw),
    ensures
        spec_log2(raw) is Ok <==> raw >= 3,
        crate::transcendental::spec_ln(raw) is Ok <==> raw >= 3,
        raw <= 0 ==> spec_log2(raw) == Err::<int, FixedError>(FixedError::DomainError),
        raw == 1 || raw == 2 ==> spec_log2(raw) == Err::<int, FixedError>(FixedError::Overflow),
{
    if 0 < raw < i64x() {
        let n = i64x() * i64x();
        assert(div_raw(i64x(), raw) == n / raw);
        if raw >= 3 {
            assert(n / raw <= n / 3) by {
                vstd::arithmetic::div_mod::lemma_div_is_ordered_by_denominator(n, 3, raw);
            }
            assert(n / 3 == 113427455640312821154458202477256070485int);
            vstd::arithmetic::div_mod::lemma_div_is_ordered(0, n, raw);
        } else {
            assert(n / 1 == n);
            assert(n / 2 == two127());
        }
    }
}

/// When the exponential succeeds: on every argument of magnitude at
/// most 42 whole units — `exp(-42)` is a value, not an error, while the
/// far larger magnitudes of the periodic functions' domain overflow
/// here.
pub proof fn lemma_exp_ok_within(raw: int)
    requires
        in_range(raw),
        -42 * i64x() <= raw <= 42 * i64x(),
    ensures
        crate::transcendental::spec_exp(raw) is Ok,
{
    if raw != 0 {
        let y = crate::model::abs_int(raw);
        let n = y / i64x();
        let r = y % i64x();
        vstd::arithmetic::div_mod::lemma_div_is_ordered(y, 42 * i64x(), i64x());
        vstd::arithmetic::div_mod::lemma_div_is_ordered(0, y, i64x());
        assert((42 * i64x()) / i64x() == 42);
        vstd::arithmetic::div_mod::lemma_mod_bound(y, i64x());
        lemma_exp_series_bounds(r, 1);
        lemma_chain_ok(crate::transcendental::exp_series(r, 1), n as nat, 0);
        if raw < 0 {
            assert(crate::transcendental::exp_chain(
                crate::transcendental::exp_series(r, 1),
                n as nat,
            ) matches Some(p) && p >= 1) by {
                lemma_chain_positive(crate::transcendental::exp_series(r, 1), n as nat);
            }
        }
    }
}

/// The Taylor accumulator of `exp` stays between one and three units.
proof fn lemma_exp_series_bounds(r: int, k: int)
    requires
        0 <= r < i64x(),
        1 <= k,
    ensures
        i64x() <= crate::transcendental::exp_series(r, k),
        k >= 2 ==> crate::transcendental::exp_series(r, k) <= 2 * i64x(),
        crate::transcendental::exp_series(r, k) <= 3 * i64x(),
    decreases 31 - k,
{
    if k > 30 {
    } else {
        lemma_exp_series_bounds(r, k + 1);
        let inner = crate::transcendental::exp_series(r, k + 1);
        crate::transcendental::lemma_mul_down_lt(r, inner);
        let u = crate::model::mul_down(r, inner);
        vstd::arithmetic::div_mod::lemma_div_is_ordered(0, u, k);
        if k >= 2 {
            vstd::arithmetic::div_mod::lemma_div_is_ordered_by_denominator(u, 2, k);
            vstd::arithmetic::div_mod::lemma_div_is_ordered(u, 2 * i64x() - 1, 2);
            assert((2 * i64x() - 1) / 2 == i64x() - 1);
        } else {
            vstd::arithmetic::div_mod::lemma_div_is_ordered_by_denominator(u, 1, k);
            assert(u / 1 == u);
        }
    }
}

/// The ceiling of the chain values: the kernel bound pushed through `j`
/// multiplications by `e`.
pub open spec fn chain_cap(j: nat) -> int
    decreases j,
{
    if j == 0 {
        3 * i64x()
    } else {
        crate::model::mul_down(chain_cap((j - 1) as nat), crate::transcendental::E_RAW as int)
    }
}

/// The chain ceiling grows but stays representable through 42 steps.
#[verifier::rlimit(100)]
proof fn lemma_chain_cap_fits()
    ensures
        chain_cap(42) < two127(),
{
    reveal_with_fuel(chain_cap, 43);
}

/// Each chain step stays under its ceiling, so a chain of at most 42
/// multiplications never leaves the range.
proof fn lemma_chain_ok(p: int, n: nat, j: nat)
    requires
        1 <= p <= chain_cap(j),
        n + j <= 42,
    ensures
        crate::transcendental::exp_chain(p, n) is Some,
    decreases n,
{
    if n > 0 {
        let e = crate::transcendental::E_RAW as int;
        let q = crate::model::mul_down(p, e);
        assert(p * e <= chain_cap(j) * e) by (nonlinear_arith)
            requires
                0 <= p <= chain_cap(j),
                e >= 0,
        ;
        vstd::arithmetic::div_mod::lemma_div_is_ordered(p * e, chain_cap(j) * e, i64x());
        assert(q <= chain_cap(j + 1));
        assert(p * i64x() <= p * e) by (nonlinear_arith)
            requires
                p >= 0,
                i64x() <= e,
        ;
        vstd::arithmetic::div_mod::lemma_div_is_ordered(p * i64x(), p * e, i64x());
        vstd::arithmetic::div_mod::lemma_div_by_multiple(p, i64x());
        assert(q >= p);
        lemma_chain_cap_mono(j + 1, 42);
        lemma_chain_cap_fits();
        lemma_chain_ok(q, (n - 1) as nat, j + 1);
    }
}

/// The chain ceiling never shrinks from step to step.
proof fn lemma_chain_cap_mono(a: nat, b: nat)
    requires
        a <= b,
    ensures
        chain_cap(a) <= chain_cap(b),
        chain_cap(a) >= 1,
    decreases b,
{
    if a == b {
        lemma_chain_cap_pos(a);
    } else {
        lemma_chain_cap_mono(a, (b - 1) as nat);
        let c = chain_cap((b - 1) as nat);
        let e = crate::transcendental::E_RAW as int;
        assert(c * i64x() <= c * e) by (nonlinear_arith)
            requires
                c >= 0,
                i64x() <= e,
        ;
        vstd::arithmetic::div_mod::lemma_div_is_ordered(c * i64x(), c * e, i64x());
        vstd::arithmetic::div_mod::lemma_div_by_multiple(c, i64x());
    }
}

/// The chain ceiling is positive at every step.
proof fn lemma_chain_cap_pos(a: nat)
    ensures
        chain_cap(a) >= 1,
    decreases a,
{
    if a > 0 {
        lemma_chain_cap_pos((a - 1) as nat);
        let c = chain_cap((a - 1) as nat);
        let e = crate::transcendental::E_RAW as int;
        assert(c * i64x() <= c * e) by (nonlinear_arith)
            requires
                c >= 0,
                i64x() <= e,
        ;
        vstd::arithmetic::div_mod::lemma_div_is_ordered(c * i64x(), c * e, i64x());
        vstd::arithmetic::div_mod::lemma_div_by_multiple(c, i64x());
    }
}

/// A successful chain on a positive start stays positive, so the
/// reciprocal taken for negative arguments is always defined.
proof fn lemma_chain_positive(p: int, n: nat)
    requires
        p >= 1,
        crate::transcendental::exp_chain(p, n) is Some,
    ensures
        crate::transcendental::exp_chain(p, n) matches Some(v) && v >= 1,
    decreases n,
{
    if n > 0 {
        let e = crate::transcendental::E_RAW as int;
        let q = crate::model::mul_down(p, e);
        assert(p * i64x() <= p * e) by (nonlinear_arith)
            requires
                p >= 0,
                i64x() <= e,
        ;
        vstd::arithmetic::div_mod::lemma_div_is_ordered(p * i64x(), p * e, i64x());
        vstd::arithmetic::div_mod::lemma_div_by_multiple(p, i64x());
        lemma_chain_positive(q, (n - 1) as nat);
    }
}

/// The literal grammar and the value decomposition agree: a body that
/// passes the scan splits into digit-only whole and fractional parts
/// around its point, with at least one digit in all — so the value that
/// `from_str` promises is read from exactly the scanned digits.
pub proof fn lemma_literal_parts(b: Seq<u8>)
    requires
        scan_whole(b, false),
    ensures
        forall|i: int| 0 <= i < split_ip(b).len() ==> is_digit(#[trigger] split_ip(b)[i]),
        forall|i: int| 0 <= i < split_fp(b).len() ==> is_digit(#[trigger] split_fp(b)[i]),
        split_ip(b).len() + split_fp(b).len() >= 1,
        has_point(b) ==> b == split_ip(b) + seq![46u8] + split_fp(b),
        !has_point(b) ==> split_ip(b) == b && split_fp(b).len() == 0,
{
    lemma_scan_whole_parts(b, false);
}

/// The inductive form of the shape lemma, generalized over the
/// digit-seen flag.
proof fn lemma_scan_whole_parts(b: Seq<u8>, seen: bool)
    requires
        scan_whole(b, seen),
    ensures
        forall|i: int| 0 <= i < split_ip(b).len() ==> is_digit(#[trigger] split_ip(b)[i]),
        forall|i: int| 0 <= i < split_fp(b).len() ==> is_digit(#[trigger] split_fp(b)[i]),
        !seen ==> split_ip(b).len() + split_fp(b).len() >= 1,
        has_point(b) ==> b == split_ip(b) + seq![46u8] + split_fp(b),
        !has_point(b) ==> split_ip(b) == b && split_fp(b).len() == 0,
    decreases b.len(),
{
    if b.len() == 0 {
        assert(split_ip(b) =~= b);
    } else if is_digit(b[0]) {
        lemma_scan_whole_parts(b.skip(1), true);
        assert(b =~= seq![b[0]] + b.skip(1));
        if has_point(b) {
            assert(b =~= split_ip(b) + seq![46u8] + split_fp(b));
        } else {
            assert(split_ip(b) =~= b);
        }
    } else if b[0] == 46 {
        lemma_scan_frac_digits(b.skip(1), seen);
        assert(b =~= seq![b[0]] + b.skip(1));
        assert(b =~= split_ip(b) + seq![46u8] + split_fp(b));
    }
}

/// A fractional scan accepts digit-only tails, nonempty when no digit
/// was seen before the point.
proof fn lemma_scan_frac_digits(c: Seq<u8>, seen: bool)
    requires
        scan_frac(c, seen),
    ensures
        forall|i: int| 0 <= i < c.len() ==> is_digit(#[trigger] c[i]),
        !seen ==> c.len() >= 1,
    decreases c.len(),
{
    if c.len() > 0 {
        lemma_scan_frac_digits(c.skip(1), true);
        assert forall|i: int| 0 <= i < c.len() implies is_digit(#[trigger] c[i]) by {
            if i > 0 {
                assert(c[i] == c.skip(1)[i - 1]);
            }
        }
    }
}

/// The unsigned value of a byte sequence is bounded by the size of its
/// value space.
proof fn lemma_le_val_bounds(b: Seq<u8>)
    ensures
        0 <= le_val(b),
        le_val(b) < pow256_int(b.len()),
    decreases b.len(),
{
    if b.len() == 0 {
    } else {
        lemma_le_val_bounds(b.skip(1));
        assert(pow256_int(b.len()) == 256 * pow256_int(b.skip(1).len()));
    }
}

/// `256^k`.
pub open spec fn pow256_int(k: nat) -> int
    decreases k,
{
    if k == 0 {
        1
    } else {
        256 * pow256_int((k - 1) as nat)
    }
}

/// Writing the unsigned value of a byte sequence back to bytes gives
/// the sequence itself.
proof fn lemma_le_bytes_of_le_val(b: Seq<u8>)
    ensures
        le_bytes(le_val(b), b.len()) == b,
    decreases b.len(),
{
    if b.len() == 0 {
        assert(le_bytes(le_val(b), 0) =~= b);
    } else {
        lemma_le_bytes_of_le_val(b.skip(1));
        lemma_le_val_bounds(b.skip(1));
        let v = le_val(b);
        vstd::arithmetic::div_mod::lemma_fundamental_div_mod_converse(
            v,
            256,
            le_val(b.skip(1)),
            b[0] as int,
        );
        assert(le_bytes(v, b.len()) =~= seq![(v % 256) as u8] + le_bytes(
            v / 256,
            (b.len() - 1) as nat,
        ));
        assert(le_bytes(v, b.len()) =~= b);
    }
}

/// The pieces of the round trip agree with `two128`: a convenience fact
/// tying the signed reinterpretation to the unsigned image.
proof fn lemma_unsigned_of_raw_of_le(b: Seq<u8>)
    requires
        b.len() == 16,
    ensures
        unsigned_of_raw(raw_of_le(b)) == le_val(b),
{
    lemma_le_val_bounds(b);
    assert(pow256_int(16) == two128()) by {
        reveal_with_fuel(pow256_int, 17);
    }
}

/// Idempotence of `floor`: flooring a floored value changes nothing.
pub proof fn lemma_floor_idempotent(raw: int)
    ensures
        floor_raw(floor_raw(raw)) == floor_raw(raw),
{
    lemma_whole_mod_zero(raw);
}

/// Idempotence of `ceil`.
pub proof fn lemma_ceil_idempotent(raw: int)
    ensures
        ceil_raw(ceil_raw(raw)) == ceil_raw(raw),
{
    lemma_whole_mod_zero(raw);
    if raw % two64() != 0 {
        let c = raw - raw % two64() + two64();
        assert(c % two64() == 0) by {
            vstd::arithmetic::div_mod::lemma_fundamental_div_mod(raw, two64());
            vstd::arithmetic::div_mod::lemma_fundamental_div_mod_converse(
                c,
                two64(),
                raw / two64() + 1,
                0,
            );
        }
    }
}

/// Idempotence of `round`: a rounded value is whole, and rounding a
/// whole value changes nothing.
pub proof fn lemma_round_idempotent(raw: int)
    ensures
        round_raw(round_raw(raw)) == round_raw(raw),
{
    let r = round_raw(raw);
    lemma_round_is_whole(raw);
    lemma_round_of_whole(r);
}

/// Every rounded value is a whole number of units.
proof fn lemma_round_is_whole(raw: int)
    ensures
        round_raw(raw) % two64() == 0,
{
    if raw >= 0 {
        lemma_whole_mod_zero(raw + two64() / 2);
    } else {
        let x = raw - two64() / 2;
        lemma_whole_mod_zero(x);
        if x % two64() != 0 {
            vstd::arithmetic::div_mod::lemma_fundamental_div_mod(x, two64());
            vstd::arithmetic::div_mod::lemma_fundamental_div_mod_converse(
                x - x % two64() + two64(),
                two64(),
                x / two64() + 1,
                0,
            );
        }
    }
}

/// Rounding a whole value gives the value back.
proof fn lemma_round_of_whole(r: int)
    requires
        r % two64() == 0,
    ensures
        round_raw(r) == r,
{
    let h = two64() / 2;
    vstd::arithmetic::div_mod::lemma_fundamental_div_mod(r, two64());
    if r >= 0 {
        assert((r + h) % two64() == h) by {
            vstd::arithmetic::div_mod::lemma_fundamental_div_mod_converse(
                r + h,
                two64(),
                r / two64(),
                h,
            );
        }
    } else {
        assert((r - h) % two64() == h) by {
            vstd::arithmetic::div_mod::lemma_fundamental_div_mod_converse(
                r - h,
                two64(),
                r / two64() - 1,
                h,
            );
        }
    }
}

/// A floored value leaves no remainder.
proof fn lemma_whole_mod_zero(raw: int)
    ensures
        (raw - raw % two64()) % two64() == 0,
{
    vstd::arithmetic::div_mod::lemma_fundamental_div_mod(raw, two64());
    vstd::arithmetic::div_mod::lemma_fundamental_div_mod_converse(
        raw - raw % two64(),
        two64(),
        raw / two64(),
        0,
    );
}

/// The base-2 logarithm of an exact power of two is exact: for a raw
/// input `2^j` (the value `2^(j-64)`), the result is exactly the whole
/// number `j - 64`. The two smallest positive raw values are the ones
/// whose inverse leaves the range and overflow instead.
pub proof fn lemma_log2_exact_on_powers(j: nat)
    requires
        2 <= j <= 126,
    ensures
        spec_log2(pow2_int(j)) == Ok::<int, FixedError>((j - 64) * two64()),
{
    lemma_pow2_consts();
    if j >= 64 {
        lemma_log2_pos_power(j);
        lemma_pow2_increasing(64, j);
    } else {
        // the inverse of 2^(j-64) is 2^(128-j), again a power of two
        let inv = div_raw(i64x(), pow2_int(j));
        lemma_pow2_increasing(j, 63);
        assert(pow2_int(j) < i64x());
        lemma_pow2_adds(64, 64);
        lemma_pow2_adds((128 - j) as nat, j);
        lemma_pow2_pos(j);
        lemma_pow2_pos((128 - j) as nat);
        assert(i64x() * i64x() == pow2_int(128));
        vstd::arithmetic::div_mod::lemma_div_by_multiple(pow2_int((128 - j) as nat), pow2_int(j));
        assert(inv == pow2_int((128 - j) as nat));
        lemma_pow2_increasing((128 - j) as nat, 126);
        lemma_pow2_adds(63, 63);
        lemma_pow2_adds(64, 63);
        assert(pow2_int(127) == two127());
        lemma_pow2_increasing(2, j);
        assert(in_range(inv));
        lemma_log2_pos_power((128 - j) as nat);
        assert(-(((128 - j) - 64) as int) * two64() == (j - 64) * two64()) by (nonlinear_arith);
    }
}

/// The handful of concrete powers of two that the proofs read off.
#[verifier::rlimit(100)]
proof fn lemma_pow2_consts()
    ensures
        pow2_int(63) == 0x8000_0000_0000_0000int,
        pow2_int(64) == 0x1_0000_0000_0000_0000int,
        pow2_int(65) == 0x2_0000_0000_0000_0000int,
        pow2_int(128) == pow2_int(64) * pow2_int(64),
{
    reveal_with_fuel(pow2_int, 66);
    lemma_pow2_adds(64, 64);
}

/// On a raw power of two at least one, the positive logarithm is the
/// exact exponent.
proof fn lemma_log2_pos_power(j: nat)
    requires
        64 <= j <= 127,
    ensures
        log2_pos_raw(pow2_int(j)) == (j - 64) * two64(),
{
    lemma_pow2_consts();
    lemma_msb_of_power(j);
    lemma_frac_acc_of_half_stays(64);
}

/// Normalizing a raw power of two lands exactly on `2^64`, after
/// exactly the exponent's excess halvings.
proof fn lemma_msb_of_power(j: nat)
    requires
        64 <= j <= 127,
    ensures
        msb_norm(pow2_int(j)) == pow2_int(64),
        msb_count(pow2_int(j)) == j - 64,
    decreases j,
{
    lemma_pow2_consts();
    if j == 64 {
    } else {
        lemma_pow2_increasing(65, j);
        lemma_msb_of_power((j - 1) as nat);
    }
}

/// The squaring rounds on the exact half mantissa keep every bit zero.
proof fn lemma_frac_acc_of_half_stays(i: nat)
    ensures
        log2_frac_acc(0x8000_0000_0000_0000, i, 0) == 0,
    decreases i,
{
    if i > 0 {
        assert((0x8000_0000_0000_0000int * 0x8000_0000_0000_0000int) / 0x8000_0000_0000_0000int
            == 0x8000_0000_0000_0000int);
        lemma_frac_acc_of_half_stays((i - 1) as nat);
    }
}

/// `2^a * 2^b == 2^(a+b)`.
proof fn lemma_pow2_adds(a: nat, b: nat)
    ensures
        pow2_int(a) * pow2_int(b) == pow2_int(a + b),
    decreases a,
{
    if a == 0 {
    } else {
        lemma_pow2_adds((a - 1) as nat, b);
        assert((2 * pow2_int((a - 1) as nat)) * pow2_int(b) == 2 * (pow2_int((a - 1) as nat)
            * pow2_int(b))) by (nonlinear_arith);
    }
}

proof fn lemma_pow2_pos(a: nat)
    ensures
        pow2_int(a) >= 1,
    decreases a,
{
    if a > 0 {
        lemma_pow2_pos((a - 1) as nat);
    }
}

proof fn lemma_pow2_increasing(a: nat, b: nat)
    requires
        a <= b,
    ensures
        pow2_int(a) <= pow2_int(b),
    decreases b,
{
    if a < b {
        lemma_pow2_increasing(a, (b - 1) as nat);
        lemma_pow2_pos((b - 1) as nat);
    }
}

/// The powi identity at exponent zero: every nonzero base to the power
/// zero is exactly one.
pub proof fn lemma_powi_zero(a: int)
    requires
        a != 0,
    ensures
        spec_powi(a, 0) == Ok::<int, FixedError>(i64x()),
{
}

/// The powi inversion law: a negative exponent on a base equals the
/// positive exponent on the reciprocal of the base, provided the
/// reciprocal is representable.
pub proof fn lemma_powi_negative(a: int, n: int)
    requires
        a != 0,
        n < 0,
        in_range(div_raw(i64x(), a)),
    ensures
        spec_powi(a, n) == spec_powi(div_raw(i64x(), a), -n),
{
}

/// The sine is odd: negating the argument negates the result, over the
/// whole representable range.
pub proof fn lemma_sin_odd(raw: int)
    ensures
        crate::transcendental::spec_sin(raw) matches Ok(s) && crate::transcendental::spec_sin(
            -raw,
        ) == Ok::<int, FixedError>(-s),
{
    assert(crate::model::abs_int(-raw) == crate::model::abs_int(raw));
    if raw == 0 {
        let z = crate::model::mul_down(0, 0);
        assert(z == 0);
        assert(crate::transcendental::sin_kernel_spec(0) == crate::model::mul_down(
            0,
            crate::transcendental::sin_acc(0, 1),
        ));
        assert(crate::model::mul_down(0, crate::transcendental::sin_acc(0, 1)) == 0);
        assert(crate::transcendental::reduced_of(0) == 0) by {
            vstd::arithmetic::div_mod::lemma_small_mod(0, crate::transcendental::tp96() as nat);
        }
        assert(crate::transcendental::quad_of(0) == 0);
        assert(crate::transcendental::tred_of(0) == 0);
    }
}

/// The cosine is even: negating the argument changes nothing.
pub proof fn lemma_cos_even(raw: int)
    ensures
        crate::transcendental::spec_cos(-raw) == crate::transcendental::spec_cos(raw),
{
}

/// Cross-target agreement: two outcomes that both meet a function's
/// contract on the same input are identical, error kind and raw result
/// alike — so two compiled copies of the library must agree byte for
/// byte.
pub proof fn lemma_cross_target_agreement(
    r1: Result<crate::I64F64, FixedError>,
    r2: Result<crate::I64F64, FixedError>,
    s: Result<int, FixedError>,
)
    requires
        crate::transcendental::matches_raw(r1, s),
        crate::transcendental::matches_raw(r2, s),
    ensures
        r1 is Ok <==> r2 is Ok,
        r1 is Ok ==> r1->Ok_0.raw() == r2->Ok_0.raw() && le_bytes_of_raw(r1->Ok_0.raw())
            == le_bytes_of_raw(r2->Ok_0.raw()),
        r1 is Err ==> r1->Err_0 == r2->Err_0,
{
}

} // verus!

