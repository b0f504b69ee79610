//! Fixed-point arithmetic primitives: truncating scaled division and an
//! integer square root, each with an exact functional contract.

use vstd::prelude::*;
use vstd::arithmetic::div_mod::{lemma_div_of0, lemma_fundamental_div_mod};

verus! {

/// Number of fixed-point ticks in one world unit.
pub const UNIT: i64 = 1024;

/// Magnitude of an integer.
pub open spec fn mag(a: int) -> int {
    if a >= 0 {
        a
    } else {
        -a
    }
}

/// Quotient of `a / d` rounded toward zero, for any `d != 0`.
///
/// This is the rounding of two's-complement hardware division: the magnitude
/// of the quotient is the floor of the quotient of the magnitudes, and the
/// sign is the product of the signs.
pub open spec fn tdiv(a: int, d: int) -> int {
    if d >= 0 {
        if a >= 0 {
            a / d
        } else {
            -((-a) / d)
        }
    } else {
        if a >= 0 {
            -(a / (-d))
        } else {
            (-a) / (-d)
        }
    }
}

/// The truncating quotient, spelt out over magnitudes and signs, for any
/// nonzero divisor.
pub proof fn lemma_tdiv_signs(a: int, d: int)
    requires
        d != 0,
    ensures
        (a >= 0 && d > 0) || (a <= 0 && d < 0) ==> tdiv(a, d) == mag(a) / mag(d),
        (a <= 0 && d > 0) || (a >= 0 && d < 0) ==> tdiv(a, d) == -(mag(a) / mag(d)),
{
    if a == 0 {
        if d > 0 {
            lemma_div_of0(d);
        } else {
            lemma_div_of0(-d);
        }
    }
}

/// Floor of the square root of `n` (and `0` for negative `n`).
pub open spec fn sqrt_floor(n: int) -> int
    decreases n,
{
    if n <= 0 {
        0
    } else {
        let s = sqrt_floor(n - 1);
        if (s + 1) * (s + 1) <= n {
            s + 1
        } else {
            s
        }
    }
}

/// `r` is the integer square root of `n`.
pub open spec fn is_sqrt(n: int, r: int) -> bool {
    &&& 0 <= r
    &&& r * r <= n
    &&& n < (r + 1) * (r + 1)
}

/// `sqrt_floor` meets the defining property of the integer square root.
pub proof fn lemma_sqrt_floor(n: int)
    requires
        n >= 0,
    ensures
        is_sqrt(n, sqrt_floor(n)),
    decreases n,
{
    if n > 0 {
        lemma_sqrt_floor(n - 1);
        let s = sqrt_floor(n - 1);
        if (s + 1) * (s + 1) <= n {
            assert((s + 1) * (s + 1) < (s + 2) * (s + 2)) by (nonlinear_arith)
                requires
                    s >= 0,
            ;
        }
    }
}

/// The integer square root is unique.
pub proof fn lemma_sqrt_unique(n: int, r: int)
    requires
        is_sqrt(n, r),
    ensures
        r == sqrt_floor(n),
{
    assert(n >= 0) by (nonlinear_arith)
        requires
            0 <= r,
            r * r <= n,
    ;
    lemma_sqrt_floor(n);
    let s = sqrt_floor(n);
    if r > s {
        assert((s + 1) * (s + 1) <= r * r) by (nonlinear_arith)
            requires
                0 <= s + 1 <= r,
        ;
    }
    if s > r {
        assert((r + 1) * (r + 1) <= s * s) by (nonlinear_arith)
            requires
                0 <= r + 1 <= s,
        ;
    }
}

/// The integer square root never decreases as its argument grows.
pub proof fn lemma_sqrt_monotone(a: int, b: int)
    requires
        0 <= a <= b,
    ensures
        sqrt_floor(a) <= sqrt_floor(b),
{
    lemma_sqrt_floor(a);
    lemma_sqrt_floor(b);
    let ra = sqrt_floor(a);
    let rb = sqrt_floor(b);
    if ra > rb {
        assert((rb + 1) * (rb + 1) <= ra * ra) by (nonlinear_arith)
            requires
                0 <= rb + 1 <= ra,
        ;
    }
}

/// A square below `b * b` pins the root below `b`.
pub proof fn lemma_sq_lt(a: int, b: int)
    requires
        b >= 0,
        a * a < b * b,
    ensures
        -b < a < b,
{
    assert(-b < a < b) by (nonlinear_arith)
        requires
            b >= 0,
            a * a < b * b,
    ;
}

/// Bounds of the truncating quotient: its magnitude is the floor of the
/// magnitude of the exact quotient, and its sign follows the numerator.
pub proof fn lemma_tdiv_bounds(a: int, d: int)
    requires
        d >= 1,
    ensures
        a >= 0 ==> tdiv(a, d) >= 0,
        a <= 0 ==> tdiv(a, d) <= 0,
        mag(tdiv(a, d)) * d <= mag(a),
        mag(a) < (mag(tdiv(a, d)) + 1) * d,
{
    let m = mag(a);
    lemma_fundamental_div_mod(m, d);
    let q = m / d;
    assert(q >= 0) by (nonlinear_arith)
        requires
            d >= 1,
            m >= 0,
            d * q + m % d == m,
            0 <= m % d < d,
    ;
    assert(q * d <= m && m < (q + 1) * d) by (nonlinear_arith)
        requires
            d >= 1,
            d * q + m % d == m,
            0 <= m % d < d,
    ;
}

/// Squaring preserves order on non-negative numbers.
pub proof fn lemma_sq_le(a: int, b: int)
    requires
        0 <= a <= b,
    ensures
        a * a <= b * b,
{
    assert(a * a <= b * b) by (nonlinear_arith)
        requires
            0 <= a <= b,
    ;
}

/// Magnitudes distribute over products with a non-negative factor.
pub proof fn lemma_mag_mul(a: int, b: int)
    requires
        b >= 0,
    ensures
        mag(a * b) == mag(a) * b,
{
    if a >= 0 {
        assert(a * b >= 0) by (nonlinear_arith)
            requires
                a >= 0,
                b >= 0,
        ;
    } else {
        assert(a * b <= 0) by (nonlinear_arith)
            requires
                a <= 0,
                b >= 0,
        ;
        assert((-a) * b == -(a * b)) by (nonlinear_arith);
    }
}

/// Magnitudes distribute over arbitrary products.
pub proof fn lemma_mag_mul2(a: int, b: int)
    ensures
        mag(a * b) == mag(a) * mag(b),
{
    if b >= 0 {
        lemma_mag_mul(a, b);
    } else {
        lemma_mag_mul(a, -b);
        assert(a * (-b) == -(a * b)) by (nonlinear_arith);
    }
}

/// The square of the magnitude is the square of the number.
pub proof fn lemma_mag_sq(a: int)
    ensures
        mag(a) * mag(a) == a * a,
{
    if a < 0 {
        assert((-a) * (-a) == a * a) by (nonlinear_arith);
    }
}

/// Lower bound for the square of a quotient scaled back up: if
/// `l * q` undershoots `t` by less than `l`, its square undershoots `t * t`
/// by less than `2 * l * t`.
pub proof fn lemma_sq_lower(t: int, l: int, q: int)
    requires
        l >= 1,
        q >= 0,
        t >= 0,
        l * q > t - l,
    ensures
        (l * q) * (l * q) >= t * t - 2 * (l * t),
{
    if t <= l {
        assert((l * q) * (l * q) >= t * t - 2 * (l * t)) by (nonlinear_arith)
            requires
                0 <= t <= l,
                l >= 1,
                q >= 0,
        ;
    } else {
        assert((l * q) * (l * q) >= t * t - 2 * (l * t)) by (nonlinear_arith)
            requires
                l * q >= t - l + 1,
                t > l,
                l >= 1,
                q >= 0,
        ;
    }
}

/// If `d * d * s` stays below `b * b`, the root of `s` stays below `b / d`.
pub proof fn lemma_sqrt_div_bound(s: int, b: int, d: int)
    requires
        d >= 1,
        b >= 0,
        s >= 0,
        d * d * s < b * b,
    ensures
        sqrt_floor(s) <= b / d,
{
    lemma_fundamental_div_mod(b, d);
    let k = b / d;
    assert(k >= 0) by (nonlinear_arith)
        requires
            d >= 1,
            b >= 0,
            d * k + b % d == b,
            0 <= b % d < d,
    ;
    assert(b <= d * k + d - 1);
    lemma_sq_le(b, d * k + d - 1);
    assert((d * k + d - 1) * (d * k + d - 1) < (d * (k + 1)) * (d * (k + 1))) by (nonlinear_arith)
        requires
            d >= 1,
            k >= 0,
    ;
    assert(s < (k + 1) * (k + 1)) by (nonlinear_arith)
        requires
            d >= 1,
            d * d * s < (d * (k + 1)) * (d * (k + 1)),
    ;
    lemma_sqrt_floor(s);
    lemma_sq_lt(sqrt_floor(s), k + 1);
}

/// Binary-search integer square root of a machine word.
pub fn isqrt64(n: u64) -> (r: u64)
    ensures
        r == sqrt_floor(n as int),
        is_sqrt(n as int, r as int),
{
    proof {
        lemma_sqrt_floor(n as int);
    }
    let mut lo: u64 = 0;
    let mut hi: u64 = 0x1_0000_0000;
    while lo + 1 < hi
        invariant
            lo < hi <= 0x1_0000_0000,
            (lo as int) * (lo as int) <= n as int,
            (n as int) < (hi as int) * (hi as int),
        decreases hi - lo,
    {
        let mid: u64 = lo + (hi - lo) / 2;
        proof {
            assert((mid as int) * (mid as int) <= 0xffff_ffff * 0xffff_ffff) by (nonlinear_arith)
                requires
                    0 <= mid as int <= 0xffff_ffff,
            ;
        }
        if mid * mid <= n {
            lo = mid;
        } else {
            hi = mid;
        }
    }
    proof {
        lemma_sqrt_unique(n as int, lo as int);
    }
    lo
}

/// `(a * num) / den`, rounded toward zero, computed on magnitudes so that the
/// result is exactly `tdiv(a * num, den)`, for any nonzero divisor.
pub fn muldiv(a: i64, num: i64, den: i64) -> (r: i64)
    requires
        -0x4000_0000 <= a <= 0x4000_0000,
        -0x4000_0000 <= num <= 0x4000_0000,
        den != 0,
    ensures
        r == tdiv(a as int * num as int, den as int),
        mag(r as int) * mag(den as int) <= mag(a as int * num as int),
{
    let ghost ai = a as int;
    let ghost ni = num as int;
    let ghost di = den as int;
    let ghost pn = ai * ni;
    let ma: u64 = if a < 0 {
        (-a) as u64
    } else {
        a as u64
    };
    let mn: u64 = if num < 0 {
        (-num) as u64
    } else {
        num as u64
    };
    let md: u64 = if den < 0 {
        (-(den as i128)) as u64
    } else {
        den as u64
    };
    proof {
        assert(ma == mag(ai) && mn == mag(ni) && md == mag(di));
        assert(ma as int * mn as int <= 0x4000_0000 * 0x4000_0000) by (nonlinear_arith)
            requires
                0 <= ma as int <= 0x4000_0000,
                0 <= mn as int <= 0x4000_0000,
        ;
        assert(ma as int * mn as int == mag(pn)) by (nonlinear_arith)
            requires
                ma == mag(ai),
                mn == mag(ni),
                pn == ai * ni,
        ;
    }
    let p: u64 = ma * mn;
    let q: u64 = p / md;
    proof {
        lemma_fundamental_div_mod(p as int, md as int);
        assert(q as int <= p as int) by (nonlinear_arith)
            requires
                md as int >= 1,
                q as int >= 0,
                (md as int) * (q as int) + (p as int) % (md as int) == p as int,
                0 <= (p as int) % (md as int),
        ;
        lemma_tdiv_signs(pn, di);
        if (a < 0) != (num < 0) {
            assert(pn <= 0) by (nonlinear_arith)
                requires
                    (ai < 0 && ni >= 0) || (ai >= 0 && ni < 0),
                    pn == ai * ni,
            ;
        } else {
            assert(pn >= 0) by (nonlinear_arith)
                requires
                    (ai < 0 && ni < 0) || (ai >= 0 && ni >= 0),
                    pn == ai * ni,
            ;
        }
        assert(tdiv(pn, di) == q || tdiv(pn, di) == -(q as int));
        assert(mag(tdiv(pn, di)) == q);
        assert(mag(tdiv(pn, di)) * mag(di) <= mag(pn)) by (nonlinear_arith)
            requires
                mag(tdiv(pn, di)) == q as int,
                (md as int) * (q as int) + (p as int) % (md as int) == p as int,
                0 <= (p as int) % (md as int),
                md == mag(di),
                p == mag(pn),
        ;
    }
    let neg: bool = ((a < 0) != (num < 0)) != (den < 0);
    if neg {
        proof {
            assert(tdiv(pn, di) == -(q as int));
        }
        -(q as i64)
    } else {
        proof {
            assert(tdiv(pn, di) == q);
        }
        q as i64
    }
}

} // verus!
