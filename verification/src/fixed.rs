//! Fixed-point scalars: raw integers counting millionths.

use vstd::prelude::*;

verus! {

/// Number of raw units that make up the value one.
pub const ONE: i64 = 1_000_000;

/// Largest magnitude a coordinate may have, in raw units.
pub const LIMIT: i64 = 1_000_000_000_000_000_000;

/// `v` restricted to the closed interval from zero to one.
pub open spec fn clamp_unit(v: int) -> int {
    if v < 0 {
        0
    } else if v > ONE {
        ONE as int
    } else {
        v
    }
}

/// The quotient of `a` by a positive `b`, rounded toward zero.
pub open spec fn div_toward_zero(a: int, b: int) -> int
    recommends
        b > 0,
{
    if a >= 0 {
        a / b
    } else {
        -((-a) / b)
    }
}

/// The fixed-point product of two raw values, rounded toward zero.
pub open spec fn fx_mul(a: int, b: int) -> int {
    div_toward_zero(a * b, ONE as int)
}

/// `r` is the integer part of the square root of `n`.
pub open spec fn is_floor_sqrt(n: int, r: int) -> bool {
    0 <= r && r * r <= n < (r + 1) * (r + 1)
}

/// The integer part of the square root of `n` (zero for negative `n`).
pub open spec fn floor_sqrt(n: int) -> int
    decreases n,
{
    if n <= 0 {
        0
    } else {
        let r = floor_sqrt(n - 1);
        if (r + 1) * (r + 1) <= n {
            r + 1
        } else {
            r
        }
    }
}

/// `floor_sqrt` is the integer square root.
pub proof fn lemma_floor_sqrt(n: int)
    requires
        0 <= n,
    ensures
        is_floor_sqrt(n, floor_sqrt(n)),
    decreases n,
{
    if n > 0 {
        lemma_floor_sqrt(n - 1);
        let r = floor_sqrt(n - 1);
        assert((r + 2) * (r + 2) > (r + 1) * (r + 1)) by (nonlinear_arith)
            requires
                r >= 0,
        ;
    }
}

/// Only one integer is the integer square root of `n`.
pub proof fn lemma_floor_sqrt_unique(n: int, r: int)
    requires
        is_floor_sqrt(n, r),
    ensures
        floor_sqrt(n) == r,
{
    assert(0 <= r * r) by (nonlinear_arith);
    lemma_floor_sqrt(n);
    let s = floor_sqrt(n);
    assert(s == r) by (nonlinear_arith)
        requires
            0 <= r,
            0 <= s,
            r * r <= n < (r + 1) * (r + 1),
            s * s <= n < (s + 1) * (s + 1),
    ;
}

/// Restricts a raw value to the closed interval from zero to one.
pub fn clamp_to_unit(v: i128) -> (r: i64)
    ensures
        r == clamp_unit(v as int),
        0 <= r <= ONE,
{
    if v < 0 {
        0
    } else if v > ONE as i128 {
        ONE
    } else {
        v as i64
    }
}

/// A product is bounded by the product of the bounds of its factors.
pub proof fn lemma_product_bounded(a: int, b: int, ma: int, mb: int)
    requires
        -ma <= a <= ma,
        -mb <= b <= mb,
    ensures
        -(ma * mb) <= a * b <= ma * mb,
{
    assert(-(ma * mb) <= a * b <= ma * mb) by (nonlinear_arith)
        requires
            -ma <= a <= ma,
            -mb <= b <= mb,
    ;
}

/// A quotient rounded toward zero is no larger in magnitude than the dividend's bound
/// divided by the divisor.
pub proof fn lemma_quotient_bounded(a: int, b: int, m: int)
    requires
        b > 0,
        m >= 0,
        -(m * b) <= a <= m * b,
    ensures
        -m <= div_toward_zero(a, b) <= m,
{
    if a >= 0 {
        assert(0 <= a / b <= m) by (nonlinear_arith)
            requires
                0 <= a <= m * b,
                b > 0,
        ;
    } else {
        let n = -a;
        assert(0 <= n / b <= m) by (nonlinear_arith)
            requires
                0 <= n <= m * b,
                b > 0,
        ;
    }
}

/// Multiplying by a factor of magnitude at most one does not increase the magnitude.
pub proof fn lemma_fx_mul_bounded(c: int, k: int, m: int)
    requires
        -ONE <= c <= ONE,
        -m <= k <= m,
    ensures
        -m <= fx_mul(c, k) <= m,
{
    assert(-(m * 1_000_000) <= c * k <= m * 1_000_000) by (nonlinear_arith)
        requires
            -1_000_000 <= c <= 1_000_000,
            -m <= k <= m,
    ;
    lemma_quotient_bounded(c * k, ONE as int, m);
}

/// A quotient rounded toward zero, times the divisor, misses the dividend by less than
/// the divisor.
pub proof fn lemma_quotient_remainder(a: int, b: int)
    requires
        b > 0,
    ensures
        -b < a - div_toward_zero(a, b) * b < b,
{
    if a >= 0 {
        let q = a / b;
        assert(0 <= a - q * b < b) by (nonlinear_arith)
            requires
                q == a / b,
                a >= 0,
                b > 0,
        ;
    } else {
        let n = -a;
        let q = n / b;
        assert(0 <= n - q * b < b) by (nonlinear_arith)
            requires
                q == n / b,
                n >= 0,
                b > 0,
        ;
        assert((-q) * b == -(q * b)) by (nonlinear_arith);
    }
}

/// The exact product of two raw values.
pub fn mul_wide(a: i64, b: i64) -> (r: i128)
    ensures
        r == a * b,
{
    proof {
        lemma_product_bounded(a as int, b as int, 0x8000_0000_0000_0000, 0x8000_0000_0000_0000);
    }
    a as i128 * b as i128
}

/// The fixed-point product of a factor of magnitude at most one and a raw value,
/// rounded toward zero.
pub fn mul_fx(c: i64, k: i64) -> (r: i64)
    requires
        -ONE <= c <= ONE,
        -4 * LIMIT <= k <= 4 * LIMIT,
    ensures
        r == fx_mul(c as int, k as int),
        k >= 0 ==> -k <= r <= k,
        k < 0 ==> k <= r <= -k,
        c >= 0 && k >= 0 ==> r >= 0,
{
    proof {
        let m: int = if k >= 0 { k as int } else { -k };
        lemma_fx_mul_bounded(c as int, k as int, m);
        if c >= 0 && k >= 0 {
            assert(c * k >= 0) by (nonlinear_arith)
                requires
                    c >= 0,
                    k >= 0,
            ;
        }
    }
    let q: i128 = mul_wide(c, k) / (ONE as i128);
    q as i64
}

/// Divides by a positive number, rounding toward zero.
pub fn div_round(a: i128, b: i128) -> (q: i128)
    requires
        b > 0,
    ensures
        q == div_toward_zero(a as int, b as int),
{
    a / b
}

/// The integer part of the square root of `n`.
pub fn isqrt(n: u128) -> (r: u64)
    ensures
        r == floor_sqrt(n as int),
        is_floor_sqrt(n as int, r as int),
{
    let mut lo: u128 = 0;
    let mut hi: u128 = 0x1_0000_0000_0000_0000;
    while hi - lo > 1
        invariant
            lo < hi <= 0x1_0000_0000_0000_0000,
            lo * lo <= n < hi * hi,
        decreases hi - lo,
    {
        let mid: u128 = lo + (hi - lo) / 2;
        assert(mid * mid <= 0xFFFF_FFFF_FFFF_FFFF * 0xFFFF_FFFF_FFFF_FFFF) by (nonlinear_arith)
            requires
                0 <= mid <= 0xFFFF_FFFF_FFFF_FFFF,
        ;
        if mid * mid <= n {
            lo = mid;
        } else {
            hi = mid;
        }
    }
    proof {
        lemma_floor_sqrt_unique(n as int, lo as int);
    }
    lo as u64
}

} // verus!
