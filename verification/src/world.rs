//! The world: an ordered collection of balls and a constant gravity vector.
//! A frame applies gravity, integrates and clamps each ball in insertion
//! order, then resolves overlaps over every ordered pair with live positions.

use vstd::prelude::*;
use vstd::arithmetic::div_mod::lemma_fundamental_div_mod;
use crate::math::{UNIT, tdiv, mag, sqrt_floor};
use crate::math::{lemma_tdiv_bounds, lemma_mag_mul, lemma_mag_mul2, lemma_mag_sq, lemma_sq_le,
    lemma_sqrt_monotone, lemma_sqrt_unique};
use crate::vector::{Vector, V2, v2, vadd, vsub, vmul, vlen, vnorm, norm2, in_range};
use crate::vector::{lemma_vlen_is_sqrt, lemma_component_le_len, lemma_vnorm_in_range,
    lemma_norm2_nonneg};
use crate::ball::{Ball, BallM, ball_wf, integ, constrained, MAX_POS, MAX_ACC, MAX_RADIUS};
use crate::math::muldiv;

verus! {

/// Radius of the circular arena in ticks (250 world units).  The display
/// layer must draw the boundary with this same radius.
pub const BOUNDARY_RADIUS: i64 = 256000;

/// Default downward gravity in ticks (9.8 world units).
pub const GRAVITY_Y: i64 = 10035;

/// Mathematical model of a world.
pub struct WorldM {
    pub balls: Seq<BallM>,
    pub gravity: V2,
}

/// The simulation state: all balls, in insertion order, and gravity.
pub struct World {
    pub balls: Vec<Ball>,
    pub gravity: Vector,
}

impl View for World {
    type V = WorldM;

    open spec fn view(&self) -> WorldM {
        WorldM { balls: self.balls@.map_values(|b: Ball| b@), gravity: self.gravity@ }
    }
}

/// Every ball is within the machine limits.
pub open spec fn balls_wf(s: Seq<BallM>) -> bool {
    forall|k: int| 0 <= k < s.len() ==> ball_wf(#[trigger] s[k])
}

/// A well-formed world: well-formed balls and bounded gravity.
pub open spec fn world_wf(w: WorldM) -> bool {
    &&& balls_wf(w.balls)
    &&& in_range(w.gravity, MAX_ACC as int)
}

/// The per-ball phase of a frame: acceleration set to gravity, one Verlet
/// step of size `dt`, then the clamp to the arena.
pub open spec fn step(b: BallM, g: V2, dt: int) -> BallM {
    constrained(integ(BallM { acceleration: g, ..b }, dt), BOUNDARY_RADIUS as int)
}

/// All balls stepped, in order.
pub open spec fn stepped(s: Seq<BallM>, g: V2, dt: int) -> Seq<BallM> {
    s.map_values(|b: BallM| step(b, g, dt))
}

/// One ordered-pair visit of the collision sweep.  If the balls overlap and
/// their centres do not coincide, each is moved half the overlap along the
/// line between the centres, away from the other.  A visit whose centres
/// coincide is skipped (a zero-length direction is undefined), as is one
/// that would push a centre coordinate beyond `MAX_POS`.
pub open spec fn visit(s: Seq<BallM>, i: int, j: int) -> Seq<BallM> {
    if 0 <= i < s.len() && 0 <= j < s.len() && i != j {
        let bi = s[i];
        let bj = s[j];
        let w = vsub(bj.position, bi.position);
        let d = vlen(w);
        let overlap = bi.radius + bj.radius - d;
        if overlap > 0 && d > 0 {
            let delta = vmul(vnorm(w), overlap / 2);
            let pi = vsub(bi.position, delta);
            let pj = vadd(bj.position, delta);
            if in_range(pi, MAX_POS as int) && in_range(pj, MAX_POS as int) {
                s.update(i, BallM { position: pi, ..bi }).update(j, BallM { position: pj, ..bj })
            } else {
                s
            }
        } else {
            s
        }
    } else {
        s
    }
}

/// The inner sweep: ball `i` visited against every `j` from `j` upward.
pub open spec fn sweep_inner(s: Seq<BallM>, i: int, j: int) -> Seq<BallM>
    decreases s.len() - j,
{
    if j < 0 || j >= s.len() {
        s
    } else {
        sweep_inner(visit(s, i, j), i, j + 1)
    }
}

/// A visit never changes the number of balls.
pub proof fn lemma_visit_len(s: Seq<BallM>, i: int, j: int)
    ensures
        visit(s, i, j).len() == s.len(),
{
}

/// Neither does the inner sweep.
pub proof fn lemma_sweep_inner_len(s: Seq<BallM>, i: int, j: int)
    ensures
        sweep_inner(s, i, j).len() == s.len(),
    decreases s.len() - j,
{
    if 0 <= j < s.len() {
        lemma_visit_len(s, i, j);
        lemma_sweep_inner_len(visit(s, i, j), i, j + 1);
    }
}

/// The outer sweep: every ball from `i` upward visited against every other.
pub open spec fn sweep_outer(s: Seq<BallM>, i: int) -> Seq<BallM>
    decreases s.len() - i,
    via sweep_outer_decreases
{
    if i < 0 || i >= s.len() {
        s
    } else {
        sweep_outer(sweep_inner(s, i, 0), i + 1)
    }
}

#[via_fn]
proof fn sweep_outer_decreases(s: Seq<BallM>, i: int) {
    if 0 <= i < s.len() {
        lemma_sweep_inner_len(s, i, 0);
    }
}

/// The full collision pass: every ordered pair `(i, j)` with `i != j`, in
/// loop order, each visit seeing the positions the previous visits left.
pub open spec fn sweep(s: Seq<BallM>) -> Seq<BallM> {
    sweep_outer(s, 0)
}

/// Nor does the outer sweep change the number of balls.
pub proof fn lemma_sweep_outer_len(s: Seq<BallM>, i: int)
    ensures
        sweep_outer(s, i).len() == s.len(),
    decreases s.len() - i,
{
    if 0 <= i < s.len() {
        lemma_sweep_inner_len(s, i, 0);
        lemma_sweep_outer_len(sweep_inner(s, i, 0), i + 1);
    }
}

/// A visit keeps every ball well-formed: only positions move, and only
/// within the guarded range.
pub proof fn lemma_visit_wf(s: Seq<BallM>, i: int, j: int)
    requires
        balls_wf(s),
    ensures
        balls_wf(visit(s, i, j)),
{
    let r = visit(s, i, j);
    assert forall|k: int| 0 <= k < r.len() implies ball_wf(#[trigger] r[k]) by {
        assert(ball_wf(s[k]));
    }
}

/// The inner sweep keeps every ball well-formed.
pub proof fn lemma_sweep_inner_wf(s: Seq<BallM>, i: int, j: int)
    requires
        balls_wf(s),
    ensures
        balls_wf(sweep_inner(s, i, j)),
    decreases s.len() - j,
{
    if 0 <= j < s.len() {
        lemma_visit_wf(s, i, j);
        lemma_visit_len(s, i, j);
        lemma_sweep_inner_wf(visit(s, i, j), i, j + 1);
    }
}

/// The outer sweep keeps every ball well-formed.
pub proof fn lemma_sweep_outer_wf(s: Seq<BallM>, i: int)
    requires
        balls_wf(s),
    ensures
        balls_wf(sweep_outer(s, i)),
    decreases s.len() - i,
{
    if 0 <= i < s.len() {
        lemma_sweep_inner_wf(s, i, 0);
        lemma_sweep_inner_len(s, i, 0);
        lemma_sweep_outer_wf(sweep_inner(s, i, 0), i + 1);
    }
}

/// The integrated position stays within machine range for well-formed
/// inputs and a step of at most one second.
pub proof fn lemma_integ_range(b: BallM, dt: int)
    requires
        in_range(b.position, MAX_POS as int),
        in_range(b.position_last, MAX_POS as int),
        in_range(b.acceleration, MAX_ACC as int),
        0 <= dt <= UNIT as int,
    ensures
        in_range(integ(b, dt).position, 0x1000_0000),
{
    lemma_tdiv_bounds(b.acceleration.x * dt, UNIT as int);
    lemma_tdiv_bounds(b.acceleration.y * dt, UNIT as int);
    lemma_mag_mul(b.acceleration.x, dt);
    lemma_mag_mul(b.acceleration.y, dt);
    assert(mag(b.acceleration.x) * dt <= 0x10_0000 * 0x400 && mag(b.acceleration.y) * dt
        <= 0x10_0000 * 0x400) by (nonlinear_arith)
        requires
            0 <= mag(b.acceleration.x) <= 0x10_0000,
            0 <= mag(b.acceleration.y) <= 0x10_0000,
            0 <= dt <= 0x400,
    ;
}

/// The clamped position stays within machine range.
pub proof fn lemma_constrained_range(b: BallM, boundary: int)
    requires
        0 <= boundary <= 0x40_0000,
        1 <= b.radius <= MAX_RADIUS as int,
    ensures
        in_range(constrained(b, boundary).position, 0x80_0000),
{
    let md = boundary - b.radius;
    let p = b.position;
    if vlen(p) > md {
        let dir = vnorm(p);
        let r = vmul(dir, md);
        let u = UNIT as int;
        lemma_vnorm_in_range(p);
        lemma_tdiv_bounds(dir.x * md, u);
        lemma_tdiv_bounds(dir.y * md, u);
        lemma_mag_mul2(dir.x, md);
        lemma_mag_mul2(dir.y, md);
        assert(mag(dir.x) * mag(md) <= 0x400 * 0x50_0000 && mag(dir.y) * mag(md) <= 0x400
            * 0x50_0000) by (nonlinear_arith)
            requires
                0 <= mag(dir.x) <= 0x400,
                0 <= mag(dir.y) <= 0x400,
                0 <= mag(md) <= 0x50_0000,
        ;
    } else {
        lemma_component_le_len(p);
    }
}

/// One stepped ball is again well-formed.
pub proof fn lemma_step_wf(b: BallM, g: V2, dt: int)
    requires
        ball_wf(b),
        in_range(g, MAX_ACC as int),
        0 <= dt <= UNIT as int,
    ensures
        ball_wf(step(b, g, dt)),
        in_range(integ(BallM { acceleration: g, ..b }, dt).position, 0x1000_0000),
{
    lemma_integ_range(BallM { acceleration: g, ..b }, dt);
    lemma_constrained_range(integ(BallM { acceleration: g, ..b }, dt), BOUNDARY_RADIUS as int);
}

/// With no balls, a frame changes nothing at all.
pub proof fn lemma_empty_update(g: V2, dt: int)
    ensures
        stepped(Seq::<BallM>::empty(), g, dt) == Seq::<BallM>::empty(),
        sweep(stepped(Seq::<BallM>::empty(), g, dt)) == Seq::<BallM>::empty(),
{
    assert(stepped(Seq::<BallM>::empty(), g, dt) =~= Seq::<BallM>::empty());
}

/// Centre distance between balls `i` and `j`.
pub open spec fn pair_dist(s: Seq<BallM>, i: int, j: int) -> int {
    vlen(vsub(s[j].position, s[i].position))
}

/// The centre distance does not depend on the order of the pair.
pub proof fn lemma_pair_dist_sym(s: Seq<BallM>, i: int, j: int)
    ensures
        pair_dist(s, i, j) == pair_dist(s, j, i),
{
    let a = s[i].position;
    let b = s[j].position;
    assert((b.x - a.x) * (b.x - a.x) == (a.x - b.x) * (a.x - b.x)) by (nonlinear_arith);
    assert((b.y - a.y) * (b.y - a.y) == (a.y - b.y) * (a.y - b.y)) by (nonlinear_arith);
}

/// The doubly scaled correction keeps the sign of the coordinate it came
/// from: truncation rounds toward zero, never across it.
proof fn lemma_delta_sign(wx: int, d: int, h: int)
    requires
        d >= 1,
        h >= 0,
    ensures
        wx >= 0 ==> tdiv(tdiv(wx * (UNIT as int), d) * h, UNIT as int) >= 0,
        wx <= 0 ==> tdiv(tdiv(wx * (UNIT as int), d) * h, UNIT as int) <= 0,
{
    let u = UNIT as int;
    let dirx = tdiv(wx * u, d);
    lemma_tdiv_bounds(wx * u, d);
    lemma_tdiv_bounds(dirx * h, u);
    if wx >= 0 {
        assert(dirx * h >= 0) by (nonlinear_arith)
            requires
                dirx >= 0,
                h >= 0,
        ;
    }
    if wx <= 0 {
        assert(dirx * h <= 0) by (nonlinear_arith)
            requires
                dirx <= 0,
                h >= 0,
        ;
    }
}

/// A visit of the pair `(i, j)` never moves the two balls closer: the
/// correction pushes both apart along the line between their centres, and
/// truncation cannot flip its direction.
pub proof fn lemma_visit_separates(s: Seq<BallM>, i: int, j: int)
    requires
        0 <= i < s.len(),
        0 <= j < s.len(),
        i != j,
    ensures
        pair_dist(visit(s, i, j), i, j) >= pair_dist(s, i, j),
{
    let bi = s[i];
    let bj = s[j];
    let w = vsub(bj.position, bi.position);
    let d = vlen(w);
    let overlap = bi.radius + bj.radius - d;
    if overlap > 0 && d > 0 {
        let h = overlap / 2;
        let dir = vnorm(w);
        let delta = vmul(dir, h);
        let pi = vsub(bi.position, delta);
        let pj = vadd(bj.position, delta);
        if in_range(pi, MAX_POS as int) && in_range(pj, MAX_POS as int) {
            let s2 = visit(s, i, j);
            assert(s2[i] == (BallM { position: pi, ..bi }) && s2[j] == (BallM {
                position: pj,
                ..bj
            }));
            let w2 = vsub(pj, pi);
            assert(w2.x == w.x + 2 * delta.x && w2.y == w.y + 2 * delta.y);
            vstd::arithmetic::div_mod::lemma_div_pos_is_pos(overlap, 2);
            lemma_delta_sign(w.x, d, h);
            lemma_delta_sign(w.y, d, h);
            assert(w2.x * w2.x >= w.x * w.x) by (nonlinear_arith)
                requires
                    (w.x >= 0 && delta.x >= 0) || (w.x <= 0 && delta.x <= 0),
                    w2.x == w.x + 2 * delta.x,
            ;
            assert(w2.y * w2.y >= w.y * w.y) by (nonlinear_arith)
                requires
                    (w.y >= 0 && delta.y >= 0) || (w.y <= 0 && delta.y <= 0),
                    w2.y == w.y + 2 * delta.y,
            ;
            lemma_norm2_nonneg(w);
            lemma_sqrt_monotone(norm2(w), norm2(w2));
        }
    }
}

/// A direction coordinate that carries most of the length is large: at
/// least 700 of the `UNIT` ticks.
proof fn lemma_dir_comp_large(wm: int, d: int)
    requires
        d >= 1,
        10 * mag(wm) >= 7 * d,
    ensures
        mag(tdiv(wm * (UNIT as int), d)) >= 700,
{
    let u = UNIT as int;
    let q = mag(tdiv(wm * u, d));
    lemma_tdiv_bounds(wm * u, d);
    lemma_mag_mul(wm, u);
    // q * d overshoots 1024 * mag(wm) by less than d, and that is at least
    // 716 * d, so q is at least 715.
    assert((q + 1) * d == q * d + d) by (nonlinear_arith);
    assert(q * d > 1024 * mag(wm) - d);
    assert(10 * (q * d) > 7168 * d - 10 * d) by (nonlinear_arith)
        requires
            q * d > 1024 * mag(wm) - d,
            10 * (1024 * mag(wm)) >= 7168 * d,
    ;
    if q < 715 {
        assert(10 * (q * d) <= 7140 * d) by (nonlinear_arith)
            requires
                q <= 714,
                q >= 0,
                d >= 1,
        ;
    }
}

/// A correction built from a large direction coordinate and at least two
/// ticks of half-overlap moves by at least one tick.
proof fn lemma_delta_comp_moves(dirm: int, h: int)
    requires
        mag(dirm) >= 700,
        h >= 2,
    ensures
        mag(tdiv(dirm * h, UNIT as int)) >= 1,
{
    let u = UNIT as int;
    lemma_tdiv_bounds(dirm * h, u);
    lemma_mag_mul(dirm, h);
    assert(mag(dirm) * h >= 1400) by (nonlinear_arith)
        requires
            mag(dirm) >= 700,
            h >= 2,
    ;
}

/// When the overlap is at least four ticks and the centres are distinct and
/// comfortably inside the coordinate range, a visit strictly separates the
/// pair.
pub proof fn lemma_visit_strictly_separates(s: Seq<BallM>, i: int, j: int)
    requires
        0 <= i < s.len(),
        0 <= j < s.len(),
        i != j,
        ball_wf(s[i]),
        ball_wf(s[j]),
        in_range(s[i].position, MAX_POS - MAX_RADIUS),
        in_range(s[j].position, MAX_POS - MAX_RADIUS),
        pair_dist(s, i, j) >= 1,
        s[i].radius + s[j].radius - pair_dist(s, i, j) >= 4,
    ensures
        pair_dist(visit(s, i, j), i, j) > pair_dist(s, i, j),
{
    let u = UNIT as int;
    let bi = s[i];
    let bj = s[j];
    let w = vsub(bj.position, bi.position);
    let d = vlen(w);
    let overlap = bi.radius + bj.radius - d;
    let h = overlap / 2;
    let dir = vnorm(w);
    let delta = vmul(dir, h);
    let pi = vsub(bi.position, delta);
    let pj = vadd(bj.position, delta);
    vstd::arithmetic::div_mod::lemma_div_is_ordered(4, overlap, 2);
    assert(h >= 2);
    vstd::arithmetic::div_mod::lemma_div_is_ordered(overlap, 2 * MAX_RADIUS as int, 2);
    vstd::arithmetic::div_mod::lemma_div_multiples_vanish(MAX_RADIUS as int, 2);
    assert(h <= MAX_RADIUS as int);
    // the correction moves each coordinate by at most the half-overlap, so
    // the guarded range check passes
    lemma_vnorm_in_range(w);
    lemma_tdiv_bounds(dir.x * h, u);
    lemma_tdiv_bounds(dir.y * h, u);
    lemma_mag_mul(dir.x, h);
    lemma_mag_mul(dir.y, h);
    assert(mag(dir.x) * h <= 1024 * h && mag(dir.y) * h <= 1024 * h) by (nonlinear_arith)
        requires
            0 <= mag(dir.x) <= 1024,
            0 <= mag(dir.y) <= 1024,
            h >= 0,
    ;
    assert(mag(delta.x) <= h && mag(delta.y) <= h);
    assert(in_range(pi, MAX_POS as int) && in_range(pj, MAX_POS as int));
    let s2 = visit(s, i, j);
    assert(s2[i] == (BallM { position: pi, ..bi }) && s2[j] == (BallM { position: pj, ..bj }));
    let w2 = vsub(pj, pi);
    assert(w2.x == w.x + 2 * delta.x && w2.y == w.y + 2 * delta.y);
    // one coordinate carries most of the length
    lemma_vlen_is_sqrt(w);
    lemma_mag_sq(w.x);
    lemma_mag_sq(w.y);
    let mx = mag(w.x);
    let my = mag(w.y);
    let m = if mx >= my {
        mx
    } else {
        my
    };
    assert(2 * (m * m) >= norm2(w)) by (nonlinear_arith)
        requires
            m >= mx,
            m >= my,
            mx >= 0,
            my >= 0,
            mx * mx == w.x * w.x,
            my * my == w.y * w.y,
            norm2(w) == w.x * w.x + w.y * w.y,
    ;
    assert(10 * m >= 7 * d) by (nonlinear_arith)
        requires
            2 * (m * m) >= d * d,
            m >= 0,
            d >= 0,
    ;
    lemma_delta_sign(w.x, d, h);
    lemma_delta_sign(w.y, d, h);
    // the matching correction coordinate moves by at least one tick
    if mx >= my {
        lemma_dir_comp_large(w.x, d);
        lemma_delta_comp_moves(dir.x, h);
        assert(mag(w2.x) >= m + 2 && mag(w2.y) >= my);
    } else {
        lemma_dir_comp_large(w.y, d);
        lemma_delta_comp_moves(dir.y, h);
        assert(mag(w2.x) >= mx && mag(w2.y) >= m + 2);
    }
    lemma_mag_sq(w2.x);
    lemma_mag_sq(w2.y);
    if mx >= my {
        lemma_sq_le(m + 2, mag(w2.x));
        lemma_sq_le(my, mag(w2.y));
        assert(norm2(w2) >= norm2(w) + 4 * m + 4) by (nonlinear_arith)
            requires
                norm2(w2) >= (m + 2) * (m + 2) + my * my,
                norm2(w) == m * m + my * my,
        ;
    } else {
        lemma_sq_le(m + 2, mag(w2.y));
        lemma_sq_le(mx, mag(w2.x));
        assert(norm2(w2) >= norm2(w) + 4 * m + 4) by (nonlinear_arith)
            requires
                norm2(w2) >= (m + 2) * (m + 2) + mx * mx,
                norm2(w) == m * m + mx * mx,
        ;
    }
    assert(norm2(w2) >= d * d + 2 * d + 4);
    assert((d + 1) * (d + 1) == d * d + 2 * d + 1) by (nonlinear_arith);
    lemma_sqrt_monotone((d + 1) * (d + 1), norm2(w2));
    assert((d + 2) * (d + 2) > (d + 1) * (d + 1)) by (nonlinear_arith)
        requires
            d >= 0,
    ;
    lemma_sqrt_unique((d + 1) * (d + 1), d + 1);
}

/// A visit never overshoots: the pair ends strictly nearer than the mirror
/// image of its starting distance about the contact distance, so a
/// correction can reduce the overlap but not invert it into a larger gap.
pub proof fn lemma_visit_no_overshoot(s: Seq<BallM>, i: int, j: int)
    requires
        0 <= i < s.len(),
        0 <= j < s.len(),
        i != j,
        pair_dist(s, i, j) >= 1,
        s[i].radius + s[j].radius - pair_dist(s, i, j) >= 1,
    ensures
        pair_dist(visit(s, i, j), i, j) < pair_dist(s, i, j) + 2 * (s[i].radius + s[j].radius
            - pair_dist(s, i, j)),
{
    let u = UNIT as int;
    let bi = s[i];
    let bj = s[j];
    let w = vsub(bj.position, bi.position);
    let d = vlen(w);
    let overlap = bi.radius + bj.radius - d;
    let h = overlap / 2;
    let dir = vnorm(w);
    let delta = vmul(dir, h);
    let pi = vsub(bi.position, delta);
    let pj = vadd(bj.position, delta);
    vstd::arithmetic::div_mod::lemma_div_pos_is_pos(overlap, 2);
    lemma_fundamental_div_mod(overlap, 2);
    assert(2 * h <= overlap);
    // each coordinate of the correction moves by at most the half-overlap
    lemma_vnorm_in_range(w);
    lemma_tdiv_bounds(dir.x * h, u);
    lemma_tdiv_bounds(dir.y * h, u);
    lemma_mag_mul2(dir.x, h);
    lemma_mag_mul2(dir.y, h);
    assert(mag(dir.x) * mag(h) <= 1024 * h && mag(dir.y) * mag(h) <= 1024 * h)
        by (nonlinear_arith)
        requires
            0 <= mag(dir.x) <= 1024,
            0 <= mag(dir.y) <= 1024,
            mag(h) == h,
            h >= 0,
    ;
    assert(mag(delta.x) <= h && mag(delta.y) <= h);
    if !(in_range(pi, MAX_POS as int) && in_range(pj, MAX_POS as int)) {
        // the guarded visit leaves everything unchanged
        assert(visit(s, i, j) == s);
    } else if h == 0 {
        // one tick of overlap halves to nothing: the visit moves nobody
        assert(delta.x == 0 && delta.y == 0);
        assert(visit(s, i, j)[i].position == bi.position && visit(s, i, j)[j].position
            == bj.position);
    } else {
        let s2 = visit(s, i, j);
        assert(s2[i] == (BallM { position: pi, ..bi }) && s2[j] == (BallM {
            position: pj,
            ..bj
        }));
        let w2 = vsub(pj, pi);
        assert(w2.x == w.x + 2 * delta.x && w2.y == w.y + 2 * delta.y);
        let mx = mag(w.x);
        let my = mag(w.y);
        assert(mag(w2.x) <= mx + 2 * h && mag(w2.y) <= my + 2 * h);
        lemma_mag_sq(w2.x);
        lemma_mag_sq(w2.y);
        lemma_mag_sq(w.x);
        lemma_mag_sq(w.y);
        lemma_sq_le(mag(w2.x), mx + 2 * h);
        lemma_sq_le(mag(w2.y), my + 2 * h);
        lemma_vlen_is_sqrt(w);
        assert((d + 1) * (d + 1) == d * d + 2 * d + 1) by (nonlinear_arith);
        assert(norm2(w) <= d * d + 2 * d);
        assert(norm2(w2) <= norm2(w) + 4 * (h * (mx + my)) + 8 * (h * h)) by (nonlinear_arith)
            requires
                norm2(w2) == w2.x * w2.x + w2.y * w2.y,
                w2.x * w2.x <= (mx + 2 * h) * (mx + 2 * h),
                w2.y * w2.y <= (my + 2 * h) * (my + 2 * h),
                norm2(w) == w.x * w.x + w.y * w.y,
                mx * mx == w.x * w.x,
                my * my == w.y * w.y,
        ;
        // Cauchy-Schwarz, loosened to integers: the coordinate sum is under
        // one and a half times the length plus one
        assert((mx + my) * (mx + my) <= 2 * norm2(w)) by (nonlinear_arith)
            requires
                norm2(w) == w.x * w.x + w.y * w.y,
                mx * mx == w.x * w.x,
                my * my == w.y * w.y,
                mx >= 0,
                my >= 0,
        ;
        assert(10 * (mx + my) <= 15 * (d + 1)) by (nonlinear_arith)
            requires
                (mx + my) * (mx + my) <= 2 * norm2(w),
                norm2(w) <= d * d + 2 * d,
                mx + my >= 0,
                d >= 1,
        ;
        assert(4 * (h * (mx + my)) <= 6 * (h * (d + 1))) by (nonlinear_arith)
            requires
                10 * (mx + my) <= 15 * (d + 1),
                h >= 0,
        ;
        assert(norm2(w2) < (d + 4 * h) * (d + 4 * h)) by (nonlinear_arith)
            requires
                norm2(w2) <= norm2(w) + 4 * (h * (mx + my)) + 8 * (h * h),
                4 * (h * (mx + my)) <= 6 * (h * (d + 1)),
                norm2(w) <= d * d + 2 * d,
                d >= 1,
                h >= 1,
        ;
        lemma_norm2_nonneg(w2);
        crate::math::lemma_sqrt_floor(norm2(w2));
        crate::math::lemma_sq_lt(sqrt_floor(norm2(w2)), d + 4 * h);
    }
}

/// For a world of exactly two overlapping balls, distinct centres and at
/// least four ticks of overlap, one collision pass brings their separation
/// strictly closer to the contact distance `radius + radius`: it grows, and
/// it stays strictly nearer to contact than the mirror image of where it
/// started.
pub proof fn lemma_sweep_two_separates(s: Seq<BallM>)
    requires
        s.len() == 2,
        balls_wf(s),
        in_range(s[0].position, MAX_POS - MAX_RADIUS),
        in_range(s[1].position, MAX_POS - MAX_RADIUS),
        pair_dist(s, 0, 1) >= 1,
        s[0].radius + s[1].radius - pair_dist(s, 0, 1) >= 4,
    ensures
        pair_dist(sweep(s), 0, 1) > pair_dist(s, 0, 1),
        pair_dist(sweep(s), 0, 1) < pair_dist(s, 0, 1) + 2 * (s[0].radius + s[1].radius
            - pair_dist(s, 0, 1)),
{
    assert(ball_wf(s[0]) && ball_wf(s[1]));
    let d0 = pair_dist(s, 0, 1);
    let rsum = s[0].radius + s[1].radius;
    lemma_visit_strictly_separates(s, 0, 1);
    lemma_visit_no_overshoot(s, 0, 1);
    let s1 = visit(s, 0, 1);
    lemma_visit_len(s, 0, 1);
    assert(s1[0].radius == s[0].radius && s1[1].radius == s[1].radius);
    lemma_visit_separates(s1, 1, 0);
    let s2 = visit(s1, 1, 0);
    lemma_visit_len(s1, 1, 0);
    lemma_pair_dist_sym(s1, 0, 1);
    lemma_pair_dist_sym(s2, 0, 1);
    let d1 = pair_dist(s1, 0, 1);
    if rsum - d1 >= 1 {
        lemma_visit_no_overshoot(s1, 1, 0);
        assert(pair_dist(s2, 1, 0) < d1 + 2 * (rsum - d1));
    } else {
        assert(visit(s1, 1, 0) == s1);
    }
    assert(pair_dist(s2, 0, 1) < d0 + 2 * (rsum - d0));
    // unfold one pass over two balls: visits (0,0), (0,1), (1,0), (1,1)
    assert(visit(s, 0, 0) == s);
    assert(sweep_inner(s1, 0, 2) == s1);
    assert(sweep_inner(s, 0, 1) == sweep_inner(s1, 0, 2));
    assert(sweep_inner(s, 0, 0) == sweep_inner(s, 0, 1));
    assert(visit(s2, 1, 1) == s2);
    assert(sweep_inner(s2, 1, 2) == s2);
    assert(sweep_inner(s2, 1, 1) == sweep_inner(s2, 1, 2));
    assert(sweep_inner(s1, 1, 0) == sweep_inner(s2, 1, 1));
    assert(sweep_outer(s2, 2) == s2);
    assert(sweep_outer(s1, 1) == sweep_outer(s2, 2));
    assert(sweep_outer(s, 0) == sweep_outer(s1, 1));
}

impl World {
    /// All machine limits hold of this world.
    pub open spec fn wf(&self) -> bool {
        world_wf(self@)
    }

    /// Creates an empty world with the default downward gravity.
    pub fn new() -> (r: Self)
        ensures
            r@.balls == Seq::<BallM>::empty(),
            r@.gravity == v2(0, GRAVITY_Y as int),
            r.wf(),
    {
        let w = World { balls: Vec::new(), gravity: Vector::new(0, GRAVITY_Y) };
        proof {
            assert(w@.balls =~= Seq::<BallM>::empty());
        }
        w
    }

    /// Appends a ball; insertion order is preserved, and there is no
    /// capacity limit or error condition.
    pub fn add(&mut self, ball: Ball)
        requires
            old(self).wf(),
            ball_wf(ball@),
        ensures
            final(self)@.balls == old(self)@.balls.push(ball@),
            final(self)@.gravity == old(self)@.gravity,
            final(self).wf(),
    {
        self.balls.push(ball);
        proof {
            assert(self@.balls =~= old(self)@.balls.push(ball@));
        }
    }

    /// Appends a ball and hands the world back: a chainable form of `add`.
    pub fn with(self, ball: Ball) -> (r: Self)
        requires
            self.wf(),
            ball_wf(ball@),
        ensures
            r@.balls == self@.balls.push(ball@),
            r@.gravity == self@.gravity,
            r.wf(),
    {
        let mut w = self;
        w.add(ball);
        w
    }

    /// One frame of size `dt` ticks: for every ball in order, set its
    /// acceleration to gravity, integrate, and clamp to the arena; then run
    /// the full collision sweep.
    pub fn update(&mut self, dt: i64)
        requires
            old(self).wf(),
            0 <= dt <= UNIT,
        ensures
            final(self)@.balls == sweep(
                stepped(old(self)@.balls, old(self)@.gravity, dt as int),
            ),
            final(self)@.balls.len() == old(self)@.balls.len(),
            final(self)@.gravity == old(self)@.gravity,
            final(self).wf(),
    {
        proof {
            lemma_sweep_outer_len(
                stepped(old(self)@.balls, old(self)@.gravity, dt as int),
                0,
            );
        }
        let ghost orig = self@.balls;
        let ghost g = self@.gravity;
        let n = self.balls.len();
        let gravity = self.gravity;
        let mut i: usize = 0;
        while i < n
            invariant
                n == self.balls.len(),
                self@.balls.len() == n,
                i <= n,
                gravity@ == g,
                self.gravity@ == g,
                orig.len() == n,
                balls_wf(orig),
                in_range(g, MAX_ACC as int),
                0 <= dt <= UNIT,
                forall|k: int| 0 <= k < i ==> self@.balls[k] == step(orig[k], g, dt as int),
                forall|k: int| i <= k < n ==> self@.balls[k] == orig[k],
            decreases n - i,
        {
            let mut b = self.balls[i];
            proof {
                assert(b@ == orig[i as int]);
                assert(ball_wf(b@));
                lemma_step_wf(b@, g, dt as int);
            }
            b.set_acceleration(gravity);
            b.update(dt);
            b.constrain(BOUNDARY_RADIUS);
            let ghost prev = self@.balls;
            self.balls.set(i, b);
            proof {
                assert(self@.balls =~= prev.update(i as int, b@));
                assert(b@ == step(orig[i as int], g, dt as int));
            }
            i += 1;
        }
        proof {
            assert(self@.balls =~= stepped(orig, g, dt as int));
            assert forall|k: int| 0 <= k < n implies ball_wf(#[trigger] stepped(orig, g, dt as int)[k]) by {
                lemma_step_wf(orig[k], g, dt as int);
            }
        }
        self.collide();
    }

    /// The collision pass: visits every ordered pair `(i, j)` with `i != j`
    /// and pushes overlapping balls apart, half the overlap each, along the
    /// line between their centres, using live positions throughout.
    pub fn collide(&mut self)
        requires
            old(self).wf(),
        ensures
            final(self)@.balls == sweep(old(self)@.balls),
            final(self)@.balls.len() == old(self)@.balls.len(),
            final(self)@.gravity == old(self)@.gravity,
            final(self).wf(),
    {
        proof {
            lemma_sweep_outer_len(old(self)@.balls, 0);
        }
        let ghost orig = self@.balls;
        let n = self.balls.len();
        let mut i: usize = 0;
        while i < n
            invariant
                n == self.balls.len(),
                self@.balls.len() == n,
                i <= n,
                balls_wf(self@.balls),
                self.gravity == old(self).gravity,
                sweep_outer(self@.balls, i as int) == sweep_outer(orig, 0),
            decreases n - i,
        {
            let mut j: usize = 0;
            proof {
                assert(sweep_outer(self@.balls, i as int) == sweep_outer(
                    sweep_inner(self@.balls, i as int, 0),
                    i as int + 1,
                ));
            }
            while j < n
                invariant
                    n == self.balls.len(),
                    self@.balls.len() == n,
                    i < n,
                    j <= n,
                    balls_wf(self@.balls),
                    self.gravity == old(self).gravity,
                    sweep_outer(sweep_inner(self@.balls, i as int, j as int), i as int + 1)
                        == sweep_outer(orig, 0),
                decreases n - j,
            {
                let ghost pre = self@.balls;
                if i != j {
                    let bi = self.balls[i];
                    let bj = self.balls[j];
                    proof {
                        assert(bi@ == pre[i as int] && bj@ == pre[j as int]);
                        assert(ball_wf(bi@) && ball_wf(bj@));
                    }
                    let w = bj.position.sub(bi.position);
                    let d = w.len();
                    let overlap = bi.radius + bj.radius - d;
                    if overlap > 0 && d > 0 {
                        let dir = w.normalise();
                        let half = muldiv(overlap, 1, 2);
                        proof {
                            assert(overlap * 1 == overlap);
                            assert(half == overlap as int / 2);
                            assert(0 <= half <= 0x10_0000);
                            let h = half as int;
                            lemma_tdiv_bounds(dir@.x * h, UNIT as int);
                            lemma_tdiv_bounds(dir@.y * h, UNIT as int);
                            lemma_mag_mul2(dir@.x, h);
                            lemma_mag_mul2(dir@.y, h);
                            assert(mag(dir@.x) * mag(h) <= 0x400 * 0x10_0000 && mag(dir@.y)
                                * mag(h) <= 0x400 * 0x10_0000) by (nonlinear_arith)
                                requires
                                    0 <= mag(dir@.x) <= 0x400,
                                    0 <= mag(dir@.y) <= 0x400,
                                    0 <= mag(h) <= 0x10_0000,
                            ;
                        }
                        let delta = dir.mul(half);
                        let pi = bi.position.sub(delta);
                        let pj = bj.position.add(delta);
                        if pi.x >= -MAX_POS && pi.x <= MAX_POS && pi.y >= -MAX_POS && pi.y
                            <= MAX_POS && pj.x >= -MAX_POS && pj.x <= MAX_POS && pj.y >= -MAX_POS
                            && pj.y <= MAX_POS {
                            let nbi = Ball { position: pi, ..bi };
                            let nbj = Ball { position: pj, ..bj };
                            self.balls.set(i, nbi);
                            self.balls.set(j, nbj);
                            proof {
                                assert(self@.balls =~= pre.update(
                                    i as int,
                                    BallM { position: pi@, ..bi@ },
                                ).update(j as int, BallM { position: pj@, ..bj@ }));
                            }
                        }
                    }
                    proof {
                        assert(self@.balls == visit(pre, i as int, j as int));
                        lemma_visit_wf(pre, i as int, j as int);
                    }
                } else {
                    proof {
                        assert(self@.balls == visit(pre, i as int, j as int));
                    }
                }
                proof {
                    assert(sweep_inner(pre, i as int, j as int) == sweep_inner(
                        visit(pre, i as int, j as int),
                        i as int,
                        j + 1,
                    ));
                }
                j += 1;
            }
            proof {
                assert(sweep_inner(self@.balls, i as int, n as int) == self@.balls);
            }
            i += 1;
        }
        proof {
            assert(sweep_outer(self@.balls, n as int) == self@.balls);
        }
    }
}

} // verus!
