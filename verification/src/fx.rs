//! Fixed-point scalars: `i64` values at a scale of `SCALE` per unit, with
//! truncating division and a floor integer square root.

use vstd::prelude::*;

verus! {

/// Raw units per geometric unit: a raw value `v` stands for `v / SCALE`.
pub const SCALE: i64 = 1_000_000;

/// Largest magnitude accepted for a scene coordinate, direction component
/// or radius (one thousand geometric units).
pub const COORD_MAX: i64 = 1_000_000_000;

/// Largest ray parameter a hit search will look at (the far horizon).
pub const T_MAX: i64 = 8_000_000_000;

/// The square-root routine accepts inputs below this bound (two to the 126th).
pub const SQRT_IN_MAX: u128 = 85070591730234615865843651857942052864;

/// The square-root search never takes its upper bound past this (two to the 64th).
pub const SQRT_HI_CAP: u128 = 18446744073709551616;

/// Division that truncates toward zero, as the executable code computes it.
pub open spec fn div_tz(n: int, d: int) -> int
    recommends
        d >= 1,
{
    if n >= 0 {
        n / d
    } else {
        -((-n) / d)
    }
}

/// Truncating division on wide integers.
pub fn div_trunc(n: i128, d: i128) -> (q: i128)
    requires
        1 <= d,
        i128::MIN < n,
    ensures
        q as int == div_tz(n as int, d as int),
{
    if n >= 0 {
        n / d
    } else {
        -((-n) / d)
    }
}

/// Truncating toward zero never grows the magnitude, and divides it by `d`.
pub proof fn lemma_div_tz_mag(n: int, d: int)
    requires
        d >= 1,
    ensures
        n >= 0 ==> 0 <= div_tz(n, d) <= n / d <= n,
        n < 0 ==> n <= -((-n) / d) <= div_tz(n, d) <= 0,
{
    if n >= 0 {
        assert(0 <= n / d <= n) by (nonlinear_arith)
            requires
                n >= 0,
                d >= 1,
        ;
    } else {
        assert(0 <= (-n) / d <= -n) by (nonlinear_arith)
            requires
                n < 0,
                d >= 1,
        ;
    }
}

/// An exact multiple divides back out exactly.
pub proof fn lemma_div_tz_exact(a: int, d: int)
    requires
        d >= 1,
    ensures
        div_tz(a * d, d) == a,
{
    if a >= 0 {
        assert(a * d >= 0 && (a * d) / d == a) by (nonlinear_arith)
            requires
                a >= 0,
                d >= 1,
        ;
    } else {
        assert(a * d < 0 && ((-a) * d) / d == -a && -(a * d) == (-a) * d) by (nonlinear_arith)
            requires
                a < 0,
                d >= 1,
        ;
    }
}

/// Truncation is odd: negating the numerator negates the quotient.
pub proof fn lemma_div_tz_neg(n: int, d: int)
    requires
        d >= 1,
    ensures
        div_tz(-n, d) == -div_tz(n, d),
{
}

/// Truncating division is monotone in the numerator.
pub proof fn lemma_div_tz_mono(n1: int, n2: int, d: int)
    requires
        d >= 1,
        n1 <= n2,
    ensures
        div_tz(n1, d) <= div_tz(n2, d),
{
    if n1 >= 0 {
        assert(n1 / d <= n2 / d) by (nonlinear_arith)
            requires
                d >= 1,
                0 <= n1 <= n2,
        ;
    } else if n2 < 0 {
        assert((-n2) / d <= (-n1) / d) by (nonlinear_arith)
            requires
                d >= 1,
                0 <= -n2 <= -n1,
        ;
    } else {
        assert(0 <= (-n1) / d && 0 <= n2 / d) by (nonlinear_arith)
            requires
                d >= 1,
                -n1 >= 0,
                n2 >= 0,
        ;
    }
}

/// The floor integer square root, by counting up.
pub open spec fn isqrt_r(n: nat) -> nat
    decreases n,
{
    if n == 0 {
        0
    } else {
        let r = isqrt_r((n - 1) as nat);
        if (r + 1) * (r + 1) <= n {
            r + 1
        } else {
            r
        }
    }
}

/// `isqrt_r(n)` is the unique `r` with `r * r <= n < (r + 1) * (r + 1)`.
pub proof fn lemma_isqrt_bounds(n: nat)
    ensures
        isqrt_r(n) * isqrt_r(n) <= n,
        n < (isqrt_r(n) + 1) * (isqrt_r(n) + 1),
    decreases n,
{
    if n > 0 {
        lemma_isqrt_bounds((n - 1) as nat);
        let r = isqrt_r((n - 1) as nat);
        assert(r * r <= n - 1 && n - 1 < (r + 1) * (r + 1));
        if (r + 1) * (r + 1) <= n {
            assert(isqrt_r(n) == r + 1);
            assert(isqrt_r(n) * isqrt_r(n) <= n);
            assert(n < (r + 2) * (r + 2)) by (nonlinear_arith)
                requires
                    r >= 0,
                    n <= (r + 1) * (r + 1),
            ;
            assert((isqrt_r(n) + 1) * (isqrt_r(n) + 1) == (r + 2) * (r + 2));
            assert(n < (isqrt_r(n) + 1) * (isqrt_r(n) + 1));
        } else {
            assert(isqrt_r(n) == r);
            assert(isqrt_r(n) * isqrt_r(n) <= n);
            assert(n < (isqrt_r(n) + 1) * (isqrt_r(n) + 1));
        }
    } else {
        assert(isqrt_r(n) == 0);
        let q = isqrt_r(n);
        assert(q * q <= n && n < (q + 1) * (q + 1)) by (nonlinear_arith)
            requires
                n == 0,
                q == 0,
        ;
    }
}

/// Any `r` squeezed between the two squares is the square root.
pub proof fn lemma_isqrt_squeeze(n: nat, r: nat)
    requires
        r * r <= n,
        n < (r + 1) * (r + 1),
    ensures
        isqrt_r(n) == r,
{
    lemma_isqrt_bounds(n);
    let q = isqrt_r(n);
    assert(q == r) by (nonlinear_arith)
        requires
            r * r <= n,
            n < (r + 1) * (r + 1),
            q * q <= n,
            n < (q + 1) * (q + 1),
    ;
}

/// Any pair of squares around `n` brackets its square root.
pub proof fn lemma_isqrt_range(n: nat, lo: nat, hi: nat)
    requires
        lo * lo <= n,
        n < hi * hi,
    ensures
        lo <= isqrt_r(n) < hi,
{
    lemma_isqrt_bounds(n);
    let q = isqrt_r(n);
    assert(lo <= q < hi) by (nonlinear_arith)
        requires
            lo * lo <= n,
            n < hi * hi,
            q * q <= n,
            n < (q + 1) * (q + 1),
            q >= 0,
            lo >= 0,
            hi >= 0,
    ;
}

/// A nonnegative numerator below `(m + 1) * d` divides to at most `m`.
pub proof fn lemma_div_tz_lt(n: int, d: int, m: int)
    requires
        d >= 1,
        m >= 0,
        0 <= n < (m + 1) * d,
    ensures
        0 <= div_tz(n, d) <= m,
{
    assert(0 <= n / d <= m) by (nonlinear_arith)
        requires
            d >= 1,
            m >= 0,
            0 <= n,
            n < (m + 1) * d,
    ;
}

/// Floor square root of a wide unsigned integer.
pub fn isqrt(n: u128) -> (r: u128)
    requires
        n < SQRT_IN_MAX,
    ensures
        r as nat == isqrt_r(n as nat),
        r * r <= n,
        n < (r + 1) * (r + 1),
{
    if n == 0 {
        proof {
            assert(isqrt_r(0) == 0);
        }
        return 0;
    }
    let mut lo: u128 = 0;
    let mut hi: u128 = 1;
    while hi * hi <= n
        invariant
            n >= 1,
            n < SQRT_IN_MAX,
            lo * lo <= n,
            1 <= hi < SQRT_HI_CAP - 1,
            hi * hi <= 4 * n,
        decreases SQRT_HI_CAP - hi,
    {
        assert(2 * hi < SQRT_HI_CAP - 1 && (2 * hi) * (2 * hi) <= 4 * n) by (nonlinear_arith)
            requires
                hi * hi <= n,
                n < SQRT_IN_MAX,
                hi >= 1,
                SQRT_IN_MAX == 85070591730234615865843651857942052864u128,
                SQRT_HI_CAP == 18446744073709551616u128,
        ;
        lo = hi;
        hi = hi * 2;
    }
    proof {
        assert(lo < hi) by (nonlinear_arith)
            requires
                lo * lo <= n,
                n < hi * hi,
                hi >= 1,
        ;
    }
    while lo + 1 < hi
        invariant
            lo < hi < SQRT_HI_CAP,
            lo * lo <= n,
            n < hi * hi,
        decreases hi - lo,
    {
        let mid = lo + (hi - lo) / 2;
        assert(mid * mid < SQRT_HI_CAP * SQRT_HI_CAP) by (nonlinear_arith)
            requires
                mid < SQRT_HI_CAP,
        ;
        if mid * mid <= n {
            lo = mid;
        } else {
            hi = mid;
        }
    }
    proof {
        assert(n < (lo + 1) * (lo + 1)) by (nonlinear_arith)
            requires
                lo + 1 >= hi,
                n < hi * hi,
                hi >= 1,
        ;
        lemma_isqrt_squeeze(n as nat, lo as nat);
    }
    lo
}

} // verus!
