//! Fixed-point scalars: the scale, the accepted range, rounding division and
//! the integer square root.
use vstd::prelude::*;

verus! {

/// The raw value of `1.0`: a scalar `v` stands for the real number `v / SCALE`.
pub const SCALE: i64 = 1_000_000;

/// The largest magnitude that geometric inputs may have (`1000.0`).
///
/// It keeps the fourth-degree expressions of the intersection test inside
/// `i128`.
pub const LIMIT: i64 = 1_000_000_000;

/// The largest magnitude of factors whose products can be added three at a
/// time within `i128`.
pub const WIDE: i64 = 4_000_000_000_000_000_000;

/// `v` is a raw scalar of at most [`LIMIT`] in magnitude.
pub open spec fn in_limit(v: int) -> bool {
    -LIMIT <= v <= LIMIT
}

/// `v` can be stored in an `i64`.
pub open spec fn fits_i64(v: int) -> bool {
    i64::MIN <= v <= i64::MAX
}

/// `n / d` rounded toward zero, for a positive divisor.
pub open spec fn quot(n: int, d: int) -> int {
    if n >= 0 {
        n / d
    } else {
        -((-n) / d)
    }
}

/// The fixed-point product: `a * b` brought back to the scale.
pub open spec fn fmul(a: int, b: int) -> int {
    quot(a * b, SCALE as int)
}

/// The fixed-point quotient `a / b`, for `b != 0`.
pub open spec fn fdiv(a: int, b: int) -> int {
    if b > 0 {
        quot(a * SCALE, b)
    } else {
        quot(-(a * SCALE), -b)
    }
}

/// `r` is the floor of the square root of `n`.
pub open spec fn is_root(n: int, r: int) -> bool {
    0 <= r && r * r <= n < (r + 1) * (r + 1)
}

/// The floor of the square root of `n`, for `n >= 0`.
pub open spec fn isqrt(n: int) -> int {
    choose|r: int| is_root(n, r)
}

/// The magnitude of `v`.
pub open spec fn abs(v: int) -> int {
    if v >= 0 {
        v
    } else {
        -v
    }
}

/// The truncated quotient is within one divisor of the exact one and keeps the
/// sign of the dividend.
pub proof fn lemma_quot_bounds(n: int, d: int)
    requires
        d > 0,
    ensures
        n >= 0 ==> 0 <= quot(n, d) && quot(n, d) * d <= n < quot(n, d) * d + d,
        n <= 0 ==> quot(n, d) <= 0 && quot(n, d) * d - d < n <= quot(n, d) * d,
        abs(quot(n, d)) <= abs(n),
        quot(-n, d) == -quot(n, d),
{
    let m = abs(n);
    vstd::arithmetic::div_mod::lemma_fundamental_div_mod(m, d);
    vstd::arithmetic::div_mod::lemma_mod_bound(m, d);
    vstd::arithmetic::div_mod::lemma_div_pos_is_pos(m, d);
    assert(d * (m / d) == (m / d) * d) by (nonlinear_arith);
    assert((-(m / d)) * d == -((m / d) * d)) by (nonlinear_arith);
    assert((m / d) <= m) by (nonlinear_arith)
        requires
            (m / d) * d <= m,
            d >= 1,
            m / d >= 0,
    ;
}

/// The truncated quotient times the divisor does not exceed the dividend in
/// magnitude.
pub proof fn lemma_quot_abs(n: int, d: int)
    requires
        d > 0,
    ensures
        abs(quot(n, d)) * d <= abs(n),
{
    lemma_quot_bounds(n, d);
    assert((-quot(n, d)) * d == -(quot(n, d) * d)) by (nonlinear_arith);
}

/// The truncated quotient grows with the dividend.
pub proof fn lemma_quot_monotone(n1: int, n2: int, d: int)
    requires
        d > 0,
        n1 <= n2,
    ensures
        quot(n1, d) <= quot(n2, d),
{
    lemma_quot_bounds(n1, d);
    lemma_quot_bounds(n2, d);
    if n1 >= 0 {
        vstd::arithmetic::div_mod::lemma_div_is_ordered(n1, n2, d);
    } else if n2 < 0 {
        vstd::arithmetic::div_mod::lemma_div_is_ordered(-n2, -n1, d);
    }
}

/// A dividend of at most `b * d` in magnitude gives a quotient of at most `b`.
pub proof fn lemma_quot_le(n: int, d: int, b: int)
    requires
        d > 0,
        b >= 0,
        abs(n) <= b * d,
    ensures
        abs(quot(n, d)) <= b,
{
    lemma_quot_bounds(n, d);
    let q = abs(quot(n, d));
    lemma_quot_abs(n, d);
    assert(q <= b) by (nonlinear_arith)
        requires
            q * d <= b * d,
            d > 0,
    ;
}

/// Dividing a multiple of `d` by `d` gives the multiplier back.
pub proof fn lemma_quot_exact(x: int, d: int)
    requires
        d > 0,
    ensures
        quot(x * d, d) == x,
{
    if x >= 0 {
        assert(x * d >= 0) by (nonlinear_arith)
            requires
                x >= 0,
                d > 0,
        ;
        vstd::arithmetic::div_mod::lemma_div_by_multiple(x, d);
    } else {
        assert(x * d < 0 && -(x * d) == (-x) * d) by (nonlinear_arith)
            requires
                x < 0,
                d > 0,
        ;
        vstd::arithmetic::div_mod::lemma_div_by_multiple(-x, d);
    }
}

/// Multiplying by a scalar of magnitude at most one does not enlarge.
pub proof fn lemma_fmul_bound(a: int, b: int, m: int)
    requires
        abs(a) <= SCALE,
        abs(b) <= m,
    ensures
        abs(fmul(a, b)) <= m,
{
    assert(abs(a * b) == abs(a) * abs(b)) by (nonlinear_arith);
    assert(abs(a) * abs(b) <= m * SCALE) by (nonlinear_arith)
        requires
            0 <= abs(a) <= SCALE,
            0 <= abs(b) <= m,
    ;
    lemma_quot_le(a * b, SCALE as int, m);
}

/// Every non-negative integer has exactly one floor square root.
pub proof fn lemma_isqrt(n: int)
    requires
        n >= 0,
    ensures
        is_root(n, isqrt(n)),
        forall|r: int| is_root(n, r) ==> r == isqrt(n),
    decreases n,
{
    if n == 0 {
        assert(is_root(0, 0));
    } else {
        lemma_isqrt(n - 1);
        let r = isqrt(n - 1);
        if (r + 1) * (r + 1) <= n {
            assert((r + 2) * (r + 2) > (r + 1) * (r + 1)) by (nonlinear_arith)
                requires
                    r >= 0,
            ;
            assert(is_root(n, r + 1));
        } else {
            assert(is_root(n, r));
        }
    }
    let s = isqrt(n);
    assert forall|r: int| is_root(n, r) implies r == s by {
        lemma_root_unique(n, r, s);
    }
}

/// Two floor square roots of one number are equal.
pub proof fn lemma_root_unique(n: int, r: int, s: int)
    requires
        is_root(n, r),
        is_root(n, s),
    ensures
        r == s,
{
    if r < s {
        assert((r + 1) * (r + 1) <= s * s) by (nonlinear_arith)
            requires
                0 <= r,
                r + 1 <= s,
        ;
    } else if s < r {
        assert((s + 1) * (s + 1) <= r * r) by (nonlinear_arith)
            requires
                0 <= s,
                s + 1 <= r,
        ;
    }
}

/// `n / d` rounded toward zero.
pub fn quot_wide(n: i128, d: i128) -> (q: i128)
    requires
        d > 0,
        n > i128::MIN,
    ensures
        q == quot(n as int, d as int),
{
    if n >= 0 {
        n / d
    } else {
        let m: i128 = -n;
        proof {
            lemma_quot_bounds(m as int, d as int);
        }
        -(m / d)
    }
}

/// The fixed-point product of two scalars.
pub fn fixed_mul(a: i64, b: i64) -> (r: i64)
    requires
        fits_i64(fmul(a as int, b as int)),
    ensures
        r == fmul(a as int, b as int),
{
    proof {
        lemma_product_fits(a as int, b as int);
    }
    let wide: i128 = (a as i128) * (b as i128);
    let q: i128 = quot_wide(wide, SCALE as i128);
    q as i64
}

/// The fixed-point quotient of two scalars.
pub fn fixed_div(a: i64, b: i64) -> (r: i64)
    requires
        b != 0,
        fits_i64(fdiv(a as int, b as int)),
    ensures
        r == fdiv(a as int, b as int),
{
    assert(abs(a * SCALE) <= 0x8000_0000_0000_0000 * 1_000_000) by (nonlinear_arith)
        requires
            -0x8000_0000_0000_0000 <= a < 0x8000_0000_0000_0000,
            SCALE == 1_000_000,
    ;
    let wide: i128 = (a as i128) * (SCALE as i128);
    let q: i128 = if b > 0 {
        quot_wide(wide, b as i128)
    } else {
        quot_wide(-wide, -(b as i128))
    };
    q as i64
}

/// The product of two `i64` values has a magnitude of at most `2^126`.
pub proof fn lemma_product_fits(a: int, b: int)
    requires
        fits_i64(a),
        fits_i64(b),
    ensures
        abs(a * b) <= 0x4000_0000_0000_0000_0000_0000_0000_0000,
{
    let m: int = 0x8000_0000_0000_0000;
    assert(abs(a) <= m && abs(b) <= m);
    assert(abs(a * b) == abs(a) * abs(b)) by (nonlinear_arith);
    assert(abs(a) * abs(b) <= m * m) by (nonlinear_arith)
        requires
            0 <= abs(a) <= m,
            0 <= abs(b) <= m,
    ;
}

/// The floor of the square root of `n`.
pub fn int_sqrt(n: u128) -> (r: u64)
    ensures
        r == isqrt(n as int),
        is_root(n as int, r as int),
{
    let mut lo: u128 = 0;
    let mut hi: u128 = 0x1_0000_0000_0000_0000;
    assert(hi * hi > n) by (nonlinear_arith)
        requires
            hi == 0x1_0000_0000_0000_0000,
            n <= u128::MAX,
    ;
    while hi - lo > 1
        invariant
            lo < hi <= 0x1_0000_0000_0000_0000,
            lo * lo <= n < hi * hi,
        decreases hi - lo,
    {
        let mid: u128 = lo + (hi - lo) / 2;
        assert(mid * mid <= u128::MAX) by (nonlinear_arith)
            requires
                0 <= mid <= 0xffff_ffff_ffff_ffff,
        ;
        if mid * mid <= n {
            lo = mid;
        } else {
            hi = mid;
        }
    }
    proof {
        assert(is_root(n as int, lo as int));
        lemma_isqrt(n as int);
    }
    lo as u64
}

} // verus!
