//! Fixed-point scalar arithmetic.
//!
//! Every length, color channel and ray parameter in this crate is an `i64`
//! holding a multiple of `1/FP_ONE`. All operations are exact integer
//! arithmetic: multiplication followed by a truncating division by `FP_ONE`,
//! and an integer square root where the geometry needs one.

use vstd::prelude::*;

verus! {

/// The fixed-point unit: the value `FP_ONE` represents the real number 1.
pub const FP_ONE: i64 = 65536;

/// The square of `FP_ONE`: the scale carried by a product of two
/// fixed-point values, such as a dot product.
pub const FP_SQ: i64 = 0x1_0000_0000;

/// The cube of `FP_ONE`.
pub const FP_CUBE: i64 = 0x1_0000_0000_0000;

/// World coordinates (sphere centers plus radii, ray origins, ray direction
/// components) stay below this bound, so that a dot product of two
/// coordinate vectors fits comfortably in 64 bits.
pub const WORLD_MAX: i64 = 0x1000_0000;

/// Truncating (round toward zero) division on mathematical integers, for a
/// positive divisor; this is what machine division computes on signed
/// integers.
pub open spec fn tdiv(n: int, d: int) -> int {
    if n >= 0 {
        n / d
    } else {
        -((-n) / d)
    }
}

/// `r` is the floor of the square root of `n`.
pub open spec fn is_isqrt(n: int, r: int) -> bool {
    r >= 0 && r * r <= n && n < (r + 1) * (r + 1)
}

/// Truncating division of 64-bit integers.
pub fn div_i64(n: i64, d: i64) -> (q: i64)
    requires
        d > 0,
        n > i64::MIN,
    ensures
        q == tdiv(n as int, d as int),
{
    if n >= 0 {
        ((n as u64) / (d as u64)) as i64
    } else {
        let m: u64 = (-n) as u64;
        -((m / (d as u64)) as i64)
    }
}

/// Truncating division of 128-bit integers.
pub fn div_i128(n: i128, d: i128) -> (q: i128)
    requires
        d > 0,
        n > i128::MIN,
    ensures
        q == tdiv(n as int, d as int),
{
    if n >= 0 {
        ((n as u128) / (d as u128)) as i128
    } else {
        let m: u128 = (-n) as u128;
        -((m / (d as u128)) as i128)
    }
}

/// The quotient is within one of the exact ratio: `d * tdiv(n, d)` differs
/// from `n` by less than `d`.
pub proof fn lemma_tdiv_close(n: int, d: int)
    requires
        d > 0,
    ensures
        n - d < d * tdiv(n, d) <= n || n <= d * tdiv(n, d) < n + d,
        n >= 0 ==> n - d < d * tdiv(n, d) <= n,
        n <= 0 ==> n <= d * tdiv(n, d) < n + d,
{
    if n >= 0 {
        assert(n == d * (n / d) + n % d) by {
            vstd::arithmetic::div_mod::lemma_fundamental_div_mod(n, d);
        }
        assert(0 <= n % d < d) by {
            vstd::arithmetic::div_mod::lemma_mod_bound(n, d);
        }
    } else {
        let m = -n;
        assert(m == d * (m / d) + m % d) by {
            vstd::arithmetic::div_mod::lemma_fundamental_div_mod(m, d);
        }
        assert(0 <= m % d < d) by {
            vstd::arithmetic::div_mod::lemma_mod_bound(m, d);
        }
        assert(d * tdiv(n, d) == -(d * (m / d))) by (nonlinear_arith)
            requires tdiv(n, d) == -(m / d);
    }
}

/// Truncating division never grows in magnitude and keeps the sign.
pub proof fn lemma_tdiv_bounds(n: int, d: int)
    requires
        d > 0,
    ensures
        n >= 0 ==> 0 <= tdiv(n, d) <= n,
        n <= 0 ==> n <= tdiv(n, d) <= 0,
{
    if n >= 0 {
        lemma_tdiv_bounds_nonneg(n, d);
    } else {
        lemma_tdiv_bounds_nonneg(-n, d);
    }
}

proof fn lemma_tdiv_bounds_nonneg(n: int, d: int)
    requires
        n >= 0,
        d > 0,
    ensures
        0 <= n / d <= n,
{
    vstd::arithmetic::div_mod::lemma_div_is_ordered(0, n, d);
    assert(n / d <= n) by {
        vstd::arithmetic::div_mod::lemma_div_nonincreasing(n, d);
    }
}

/// Truncating division is monotone in the numerator.
pub proof fn lemma_tdiv_mono(n1: int, n2: int, d: int)
    requires
        n1 <= n2,
        d > 0,
    ensures
        tdiv(n1, d) <= tdiv(n2, d),
{
    lemma_tdiv_close(n1, d);
    lemma_tdiv_close(n2, d);
    if tdiv(n1, d) > tdiv(n2, d) {
        assert(d * tdiv(n1, d) >= d * (tdiv(n2, d) + 1)) by (nonlinear_arith)
            requires d > 0 && tdiv(n1, d) >= tdiv(n2, d) + 1;
        assert(d * (tdiv(n2, d) + 1) == d * tdiv(n2, d) + d) by (nonlinear_arith);
        assert(false);
    }
}

/// Floor square root of a 128-bit integer.
pub fn isqrt_u128(n: u128) -> (r: u128)
    ensures
        is_isqrt(n as int, r as int),
        r <= u64::MAX,
{
    let mut lo: u128 = 0;
    let mut hi: u128 = 0xFFFF_FFFF_FFFF_FFFF;
    proof {
        assert((hi + 1) * (hi + 1) > n) by (nonlinear_arith)
            requires hi == 0xFFFF_FFFF_FFFF_FFFFu128 && n <= u128::MAX;
    }
    while lo < hi
        invariant
            lo <= hi,
            hi <= 0xFFFF_FFFF_FFFF_FFFF,
            lo * lo <= n,
            (hi + 1) * (hi + 1) > n,
        decreases hi - lo,
    {
        let mid: u128 = lo + (hi - lo + 1) / 2;
        proof {
            assert(lo < mid <= hi);
            assert(mid * mid <= u128::MAX) by (nonlinear_arith)
                requires mid <= 0xFFFF_FFFF_FFFF_FFFFu128;
        }
        if mid * mid <= n {
            lo = mid;
        } else {
            proof {
                assert((mid - 1 + 1) * (mid - 1 + 1) > n);
            }
            hi = mid - 1;
        }
    }
    lo
}

/// The floor square root is monotone: a value below an exact square has a
/// root below the square's base.
pub proof fn lemma_isqrt_below_square(n: int, r: int, s: int)
    requires
        is_isqrt(n, r),
        s >= 0,
        n < s * s,
    ensures
        r < s,
{
    if r >= s {
        assert(r * r >= s * s) by (nonlinear_arith)
            requires r >= s && s >= 0;
    }
}

} // verus!
