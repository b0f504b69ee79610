//! 2D vectors in fixed-point coordinates, with exact contracts for the
//! arithmetic, the length, and normalisation.

use vstd::prelude::*;
use vstd::arithmetic::div_mod::{lemma_div_of0, lemma_fundamental_div_mod,
    lemma_fundamental_div_mod_converse};
use crate::math::{UNIT, tdiv, sqrt_floor, mag, is_sqrt, muldiv, isqrt64};
use crate::math::{lemma_sqrt_floor, lemma_sqrt_unique, lemma_sqrt_monotone, lemma_sq_lt,
    lemma_sq_le, lemma_sq_lower, lemma_tdiv_bounds, lemma_mag_mul, lemma_mag_sq,
    lemma_sqrt_div_bound};

verus! {

/// Mathematical model of a vector: a pair of unbounded integers.
pub struct V2 {
    pub x: int,
    pub y: int,
}

/// A 2D vector; coordinates are fixed-point ticks (`UNIT` ticks per world unit).
#[derive(Clone, Copy)]
pub struct Vector {
    pub x: i64,
    pub y: i64,
}

impl View for Vector {
    type V = V2;

    open spec fn view(&self) -> V2 {
        V2 { x: self.x as int, y: self.y as int }
    }
}

pub open spec fn v2(x: int, y: int) -> V2 {
    V2 { x: x, y: y }
}

pub open spec fn vadd(a: V2, b: V2) -> V2 {
    V2 { x: a.x + b.x, y: a.y + b.y }
}

pub open spec fn vsub(a: V2, b: V2) -> V2 {
    V2 { x: a.x - b.x, y: a.y - b.y }
}

/// Fixed-point scaling by the scalar `s` (in ticks): `a * s / UNIT`,
/// each coordinate rounded toward zero.
pub open spec fn vmul(a: V2, s: int) -> V2 {
    V2 { x: tdiv(a.x * s, UNIT as int), y: tdiv(a.y * s, UNIT as int) }
}

/// Fixed-point division by the scalar `s != 0` (in ticks): `a * UNIT / s`,
/// each coordinate rounded toward zero.
pub open spec fn vdiv(a: V2, s: int) -> V2 {
    V2 { x: tdiv(a.x * UNIT, s), y: tdiv(a.y * UNIT, s) }
}

/// Squared Euclidean length.
pub open spec fn norm2(a: V2) -> int {
    a.x * a.x + a.y * a.y
}

/// Euclidean length, rounded down to a whole number of ticks.
pub open spec fn vlen(a: V2) -> int {
    sqrt_floor(norm2(a))
}

/// Direction of `a`, scaled to length `UNIT`.  The zero vector has no
/// direction; it is mapped to the zero vector, so normalisation is total.
pub open spec fn vnorm(a: V2) -> V2 {
    if vlen(a) <= 0 {
        v2(0, 0)
    } else {
        vdiv(a, vlen(a))
    }
}

/// Both coordinates lie within `[-b, b]`.
pub open spec fn in_range(a: V2, b: int) -> bool {
    &&& -b <= a.x <= b
    &&& -b <= a.y <= b
}

/// A squared length is never negative.
pub proof fn lemma_norm2_nonneg(a: V2)
    ensures
        norm2(a) >= 0,
        norm2(a) >= a.x * a.x,
        norm2(a) >= a.y * a.y,
{
    assert(a.x * a.x >= 0 && a.y * a.y >= 0) by (nonlinear_arith);
}

/// The length meets the defining property of the integer square root.
pub proof fn lemma_vlen_is_sqrt(a: V2)
    ensures
        is_sqrt(norm2(a), vlen(a)),
        vlen(a) >= 0,
{
    lemma_norm2_nonneg(a);
    lemma_sqrt_floor(norm2(a));
}

/// No coordinate exceeds the length.
pub proof fn lemma_component_le_len(a: V2)
    ensures
        mag(a.x) <= vlen(a),
        mag(a.y) <= vlen(a),
{
    lemma_vlen_is_sqrt(a);
    let l = vlen(a);
    lemma_norm2_nonneg(a);
    assert(a.x * a.x < (l + 1) * (l + 1));
    assert(a.y * a.y < (l + 1) * (l + 1));
    lemma_sq_lt(a.x, l + 1);
    lemma_sq_lt(a.y, l + 1);
}

/// A normalised vector has coordinates no larger than `UNIT`.
pub proof fn lemma_vnorm_in_range(a: V2)
    ensures
        in_range(vnorm(a), UNIT as int),
{
    let l = vlen(a);
    if l > 0 {
        lemma_component_le_len(a);
        lemma_tdiv_bounds(a.x * UNIT, l);
        lemma_tdiv_bounds(a.y * UNIT, l);
        let r = vnorm(a);
        assert(mag(a.x * UNIT) == mag(a.x) * UNIT && mag(a.y * UNIT) == mag(a.y) * UNIT)
            by (nonlinear_arith);
        assert(mag(r.x) <= UNIT) by (nonlinear_arith)
            requires
                l >= 1,
                mag(r.x) * l <= mag(a.x) * UNIT,
                mag(a.x) <= l,
                mag(r.x) >= 0,
        ;
        assert(mag(r.y) <= UNIT) by (nonlinear_arith)
            requires
                l >= 1,
                mag(r.y) * l <= mag(a.y) * UNIT,
                mag(a.y) <= l,
                mag(r.y) >= 0,
        ;
    }
}

/// If each coordinate of `r` is at most `n / l` times the matching coordinate
/// of `p` in magnitude, and `p` is shorter than `l + 1`, then `r` is no
/// longer than `n * (l + 1) / l`.
pub proof fn lemma_scaled_len_bound(p: V2, r: V2, n: int, l: int)
    requires
        l >= 1,
        n >= 0,
        norm2(p) < (l + 1) * (l + 1),
        mag(r.x) * l <= mag(p.x) * n,
        mag(r.y) * l <= mag(p.y) * n,
    ensures
        vlen(r) <= (n * (l + 1)) / l,
{
    let px = p.x;
    let py = p.y;
    let rx = r.x;
    let ry = r.y;
    if n == 0 {
        assert(mag(px) * 0 == 0 && mag(py) * 0 == 0) by (nonlinear_arith);
        assert(mag(rx) == 0 && mag(ry) == 0) by (nonlinear_arith)
            requires
                l >= 1,
                mag(rx) >= 0,
                mag(ry) >= 0,
                mag(rx) * l <= 0,
                mag(ry) * l <= 0,
        ;
        assert(norm2(r) == 0);
        assert(0 * (l + 1) == 0) by (nonlinear_arith);
        lemma_div_of0(l);
    } else {
        assert(mag(rx) * l >= 0 && mag(ry) * l >= 0) by (nonlinear_arith)
            requires
                l >= 1,
                mag(rx) >= 0,
                mag(ry) >= 0,
        ;
        lemma_sq_le(mag(rx) * l, mag(px) * n);
        lemma_sq_le(mag(ry) * l, mag(py) * n);
        lemma_mag_sq(rx);
        lemma_mag_sq(ry);
        lemma_mag_sq(px);
        lemma_mag_sq(py);
        assert((mag(rx) * l) * (mag(rx) * l) == l * l * (rx * rx)) by (nonlinear_arith)
            requires
                mag(rx) * mag(rx) == rx * rx,
        ;
        assert((mag(ry) * l) * (mag(ry) * l) == l * l * (ry * ry)) by (nonlinear_arith)
            requires
                mag(ry) * mag(ry) == ry * ry,
        ;
        assert((mag(px) * n) * (mag(px) * n) == n * n * (px * px)) by (nonlinear_arith)
            requires
                mag(px) * mag(px) == px * px,
        ;
        assert((mag(py) * n) * (mag(py) * n) == n * n * (py * py)) by (nonlinear_arith)
            requires
                mag(py) * mag(py) == py * py,
        ;
        assert(l * l * norm2(r) == l * l * (rx * rx) + l * l * (ry * ry)) by (nonlinear_arith)
            requires
                norm2(r) == rx * rx + ry * ry,
        ;
        assert(n * n * norm2(p) == n * n * (px * px) + n * n * (py * py)) by (nonlinear_arith)
            requires
                norm2(p) == px * px + py * py,
        ;
        assert(l * l * norm2(r) <= n * n * norm2(p));
        assert(n * n * norm2(p) < (n * (l + 1)) * (n * (l + 1))) by (nonlinear_arith)
            requires
                n >= 1,
                l >= 1,
                norm2(p) < (l + 1) * (l + 1),
        ;
        lemma_norm2_nonneg(r);
        assert(n * (l + 1) >= 0) by (nonlinear_arith)
            requires
                n >= 1,
                l >= 1,
        ;
        lemma_sqrt_div_bound(norm2(r), n * (l + 1), l);
    }
}

/// Splitting the quotient of the bound above: `n * (l + 1) / l` is exactly
/// `n + n / l`.
pub proof fn lemma_scale_quotient(n: int, l: int)
    requires
        l >= 1,
        n >= 0,
    ensures
        (n * (l + 1)) / l == n + n / l,
{
    lemma_fundamental_div_mod(n, l);
    let q = n / l;
    let e = n % l;
    assert(n * (l + 1) == (n + q) * l + e) by (nonlinear_arith)
        requires
            n == l * q + e,
    ;
    lemma_fundamental_div_mod_converse(n * (l + 1), l, n + q, e);
}

/// Normalisation yields approximately unit length for every vector of
/// nonzero length: at most three ticks below `UNIT` and at most
/// `UNIT / vlen(a)` ticks above it, so the tolerance tightens as the vector
/// grows.
pub proof fn lemma_normalise_unit_length(a: V2)
    requires
        vlen(a) >= 1,
    ensures
        UNIT - 3 <= vlen(vnorm(a)),
        vlen(vnorm(a)) <= UNIT + (UNIT as int) / vlen(a),
{
    let l = vlen(a);
    let u = UNIT as int;
    let r = vnorm(a);
    lemma_vlen_is_sqrt(a);
    lemma_tdiv_bounds(a.x * u, l);
    lemma_tdiv_bounds(a.y * u, l);
    lemma_mag_mul(a.x, u);
    lemma_mag_mul(a.y, u);
    assert(mag(r.x) * l <= mag(a.x) * u && mag(r.y) * l <= mag(a.y) * u);
    lemma_scaled_len_bound(a, r, u, l);
    lemma_scale_quotient(u, l);
    let qx = mag(r.x);
    let qy = mag(r.y);
    let tx = mag(a.x) * u;
    let ty = mag(a.y) * u;
    assert(l * qx > tx - l && l * qy > ty - l) by (nonlinear_arith)
        requires
            tx < (qx + 1) * l,
            ty < (qy + 1) * l,
    ;
    assert(tx >= 0 && ty >= 0) by (nonlinear_arith)
        requires
            mag(a.x) >= 0,
            mag(a.y) >= 0,
            tx == mag(a.x) * u,
            ty == mag(a.y) * u,
            u >= 1,
    ;
    lemma_sq_lower(tx, l, qx);
    lemma_sq_lower(ty, l, qy);
    lemma_component_le_len(a);
    lemma_mag_sq(r.x);
    lemma_mag_sq(r.y);
    lemma_mag_sq(a.x);
    lemma_mag_sq(a.y);
    assert((l * qx) * (l * qx) == l * l * (r.x * r.x)) by (nonlinear_arith)
        requires
            qx == mag(r.x),
            mag(r.x) * mag(r.x) == r.x * r.x,
    ;
    assert((l * qy) * (l * qy) == l * l * (r.y * r.y)) by (nonlinear_arith)
        requires
            qy == mag(r.y),
            mag(r.y) * mag(r.y) == r.y * r.y,
    ;
    assert(tx * tx == u * u * (a.x * a.x) && 2 * (l * tx) == 2 * (l * u) * mag(a.x))
        by (nonlinear_arith)
        requires
            tx == mag(a.x) * u,
            mag(a.x) * mag(a.x) == a.x * a.x,
    ;
    assert(ty * ty == u * u * (a.y * a.y) && 2 * (l * ty) == 2 * (l * u) * mag(a.y))
        by (nonlinear_arith)
        requires
            ty == mag(a.y) * u,
            mag(a.y) * mag(a.y) == a.y * a.y,
    ;
    assert(l * l * norm2(r) == l * l * (r.x * r.x) + l * l * (r.y * r.y)) by (nonlinear_arith)
        requires
            norm2(r) == r.x * r.x + r.y * r.y,
    ;
    assert(u * u * norm2(a) == u * u * (a.x * a.x) + u * u * (a.y * a.y)) by (nonlinear_arith)
        requires
            norm2(a) == a.x * a.x + a.y * a.y,
    ;
    assert(l * l * norm2(r) >= u * u * norm2(a) - (2 * (l * u) * mag(a.x) + 2 * (l * u) * mag(
        a.y,
    )));
    assert(2 * (l * u) * mag(a.x) + 2 * (l * u) * mag(a.y) <= 4 * (l * l) * u)
        by (nonlinear_arith)
        requires
            mag(a.x) <= l,
            mag(a.y) <= l,
            mag(a.x) >= 0,
            mag(a.y) >= 0,
            l >= 1,
            u >= 1,
    ;
    assert(u * u * norm2(a) >= u * u * (l * l)) by (nonlinear_arith)
        requires
            norm2(a) >= l * l,
            u >= 1,
    ;
    assert(l * l * norm2(r) >= l * l * (u * u - 4 * u)) by (nonlinear_arith)
        requires
            l * l * norm2(r) >= u * u * (l * l) - 4 * (l * l) * u,
    ;
    assert(norm2(r) >= u * u - 4 * u) by (nonlinear_arith)
        requires
            l >= 1,
            l * l * norm2(r) >= l * l * (u * u - 4 * u),
    ;
    lemma_sqrt_monotone(1042441, norm2(r));
    lemma_sqrt_unique(1042441, 1021);
}

impl Vector {
    /// Builds a vector from a coordinate pair; always succeeds.
    pub fn new(x: i64, y: i64) -> (r: Self)
        ensures
            r@ == v2(x as int, y as int),
    {
        Vector { x, y }
    }

    /// Componentwise sum.
    pub fn add(self, rhs: Self) -> (r: Self)
        requires
            in_range(self@, 0x3fff_ffff_ffff_ffff),
            in_range(rhs@, 0x3fff_ffff_ffff_ffff),
        ensures
            r@ == vadd(self@, rhs@),
    {
        Vector { x: self.x + rhs.x, y: self.y + rhs.y }
    }

    /// In-place componentwise sum.
    pub fn add_assign(&mut self, rhs: Self)
        requires
            in_range(old(self)@, 0x3fff_ffff_ffff_ffff),
            in_range(rhs@, 0x3fff_ffff_ffff_ffff),
        ensures
            final(self)@ == vadd(old(self)@, rhs@),
    {
        let v = *self;
        *self = v.add(rhs);
    }

    /// Componentwise difference.
    pub fn sub(self, rhs: Self) -> (r: Self)
        requires
            in_range(self@, 0x3fff_ffff_ffff_ffff),
            in_range(rhs@, 0x3fff_ffff_ffff_ffff),
        ensures
            r@ == vsub(self@, rhs@),
    {
        Vector { x: self.x - rhs.x, y: self.y - rhs.y }
    }

    /// In-place componentwise difference.
    pub fn sub_assign(&mut self, rhs: Self)
        requires
            in_range(old(self)@, 0x3fff_ffff_ffff_ffff),
            in_range(rhs@, 0x3fff_ffff_ffff_ffff),
        ensures
            final(self)@ == vsub(old(self)@, rhs@),
    {
        let v = *self;
        *self = v.sub(rhs);
    }

    /// Scales by the fixed-point scalar `s`.
    pub fn mul(self, s: i64) -> (r: Self)
        requires
            in_range(self@, 0x4000_0000),
            -0x4000_0000 <= s <= 0x4000_0000,
        ensures
            r@ == vmul(self@, s as int),
    {
        Vector { x: muldiv(self.x, s, UNIT), y: muldiv(self.y, s, UNIT) }
    }

    /// Divides by the fixed-point scalar `s`, defined for every nonzero `s`;
    /// each coordinate is rounded toward zero.
    pub fn div(self, s: i64) -> (r: Self)
        requires
            in_range(self@, 0x4000_0000),
            s != 0,
        ensures
            r@ == vdiv(self@, s as int),
    {
        Vector { x: muldiv(self.x, UNIT, s), y: muldiv(self.y, UNIT, s) }
    }

    /// Length in ticks, rounded down.
    pub fn len(&self) -> (r: i64)
        requires
            in_range(self@, 0x4000_0000),
        ensures
            r == vlen(self@),
            0 <= r < 0x8000_0000,
    {
        let mx: u64 = if self.x < 0 {
            (-self.x) as u64
        } else {
            self.x as u64
        };
        let my: u64 = if self.y < 0 {
            (-self.y) as u64
        } else {
            self.y as u64
        };
        proof {
            assert(mx == mag(self@.x) && my == mag(self@.y));
            assert(mx as int * mx as int == self@.x * self@.x && mx as int * mx as int
                <= 0x4000_0000 * 0x4000_0000) by (nonlinear_arith)
                requires
                    mx == mag(self@.x),
                    0 <= mx <= 0x4000_0000,
            ;
            assert(my as int * my as int == self@.y * self@.y && my as int * my as int
                <= 0x4000_0000 * 0x4000_0000) by (nonlinear_arith)
                requires
                    my == mag(self@.y),
                    0 <= my <= 0x4000_0000,
            ;
        }
        let s: u64 = mx * mx + my * my;
        let rt: u64 = isqrt64(s);
        proof {
            lemma_vlen_is_sqrt(self@);
            lemma_sq_lt(rt as int, 0x8000_0000);
        }
        rt as i64
    }

    /// Direction of `self`, scaled to length `UNIT`; the zero vector is
    /// returned unchanged.
    pub fn normalise(&self) -> (r: Self)
        requires
            in_range(self@, 0x4000_0000),
        ensures
            r@ == vnorm(self@),
            in_range(r@, UNIT as int),
    {
        proof {
            lemma_vnorm_in_range(self@);
        }
        let l = self.len();
        if l == 0 {
            Vector { x: 0, y: 0 }
        } else {
            self.div(l)
        }
    }
}

} // verus!
