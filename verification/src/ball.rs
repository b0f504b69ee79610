//! A particle ("ball"): position, previous position, transient acceleration,
//! radius, and a display colour that the physics never reads.
//!
//! Velocity is implicit: it is always the difference between the current and
//! the previous position (Verlet integration).

use vstd::prelude::*;
use crate::math::{UNIT, tdiv, mag};
use crate::vector::{Vector, V2, v2, vadd, vsub, vmul, vlen, vnorm, in_range};

verus! {

/// Largest coordinate magnitude (in ticks) of a well-formed ball.
pub const MAX_POS: i64 = 0x100_0000;

/// Largest radius (in ticks) of a well-formed ball.
pub const MAX_RADIUS: i64 = 0x10_0000;

/// Largest acceleration magnitude (in ticks) of a well-formed ball.
pub const MAX_ACC: i64 = 0x10_0000;

/// Colour newly created balls start with (RGBA red), as a plain value for the
/// display layer; the physics never reads it.
pub const DEFAULT_COLOR: u32 = 0xff00_00ff;

/// Mathematical model of a ball.
pub struct BallM {
    pub position: V2,
    pub position_last: V2,
    pub acceleration: V2,
    pub radius: int,
    pub color: u32,
}

/// A particle in fixed-point coordinates.
#[derive(Clone, Copy)]
pub struct Ball {
    pub position: Vector,
    pub position_last: Vector,
    pub acceleration: Vector,
    pub radius: i64,
    pub color: u32,
}

impl View for Ball {
    type V = BallM;

    open spec fn view(&self) -> BallM {
        BallM {
            position: self.position@,
            position_last: self.position_last@,
            acceleration: self.acceleration@,
            radius: self.radius as int,
            color: self.color,
        }
    }
}

/// A ball whose fields are within the machine limits the arithmetic needs.
pub open spec fn ball_wf(b: BallM) -> bool {
    &&& in_range(b.position, MAX_POS as int)
    &&& in_range(b.position_last, MAX_POS as int)
    &&& in_range(b.acceleration, MAX_ACC as int)
    &&& 1 <= b.radius <= MAX_RADIUS as int
}

/// One Verlet step: the implicit velocity `position - position_last` carries
/// over, and the acceleration contributes `acceleration * dt` (scaled once by
/// `dt`, exactly as the update rule is stated).
pub open spec fn integ(b: BallM, dt: int) -> BallM {
    BallM {
        position: vadd(
            vadd(b.position, vsub(b.position, b.position_last)),
            vmul(b.acceleration, dt),
        ),
        position_last: b.position,
        ..b
    }
}

/// Clamping to the circular arena: a ball farther out than
/// `boundary - radius` is pulled back onto that circle along its own
/// direction from the origin.
pub open spec fn constrained(b: BallM, boundary: int) -> BallM {
    let md = boundary - b.radius;
    if vlen(b.position) > md {
        BallM { position: vmul(vnorm(b.position), md), ..b }
    } else {
        b
    }
}

impl Ball {
    /// Creates a ball at rest: the previous position equals the position, so
    /// the implicit velocity is zero, and the acceleration is zero.
    pub fn new(position: Vector, radius: i64) -> (r: Self)
        ensures
            r@.position == position@,
            r@.position_last == position@,
            r@.acceleration == v2(0, 0),
            r@.radius == radius as int,
            r@.color == DEFAULT_COLOR,
    {
        Ball {
            position,
            position_last: position,
            acceleration: Vector::new(0, 0),
            radius,
            color: DEFAULT_COLOR,
        }
    }

    /// Overwrites the acceleration; nothing else changes.
    pub fn set_acceleration(&mut self, acceleration: Vector)
        ensures
            final(self)@ == (BallM { acceleration: acceleration@, ..old(self)@ }),
    {
        self.acceleration = acceleration;
    }

    /// Advances the position one Verlet step of size `dt` (in ticks).
    pub fn update(&mut self, dt: i64)
        requires
            in_range(old(self)@.position, 0x1000_0000),
            in_range(old(self)@.position_last, 0x1000_0000),
            in_range(old(self)@.acceleration, 0x4000_0000),
            -0x4000_0000 <= dt <= 0x4000_0000,
        ensures
            final(self)@ == integ(old(self)@, dt as int),
    {
        proof {
            let ax = old(self)@.acceleration.x;
            let ay = old(self)@.acceleration.y;
            let dti = dt as int;
            crate::math::lemma_tdiv_bounds(ax * dti, UNIT as int);
            crate::math::lemma_tdiv_bounds(ay * dti, UNIT as int);
            assert(mag(ax * dti) <= 0x4000_0000 * 0x4000_0000 && mag(ay * dti) <= 0x4000_0000
                * 0x4000_0000) by (nonlinear_arith)
                requires
                    -0x4000_0000 <= ax <= 0x4000_0000,
                    -0x4000_0000 <= ay <= 0x4000_0000,
                    -0x4000_0000 <= dti <= 0x4000_0000,
            ;
        }
        let velocity = self.position.sub(self.position_last);
        self.position_last = self.position;
        self.position = self.position.add(velocity).add(self.acceleration.mul(dt));
    }

    /// Keeps the ball fully inside the circular arena of radius `radius`
    /// (in ticks) centred on the origin: afterwards its centre is within
    /// `radius - self.radius` of the origin, whatever position it held.
    pub fn constrain(&mut self, radius: i64)
        requires
            in_range(old(self)@.position, 0x4000_0000),
            0 <= radius <= 0x4000_0000,
            0 <= old(self)@.radius <= 0x4000_0000,
        ensures
            final(self)@ == constrained(old(self)@, radius as int),
            radius >= old(self)@.radius ==> vlen(final(self)@.position) <= radius as int
                - old(self)@.radius,
    {
        proof {
            if radius >= old(self)@.radius {
                lemma_constrain_inside(old(self)@, radius as int);
            }
        }
        let max_dist = radius - self.radius;
        let l = self.position.len();
        if l > max_dist {
            let direction = self.position.normalise();
            self.position = direction.mul(max_dist);
        }
    }
}

/// After clamping, the ball lies fully inside the arena: its centre is within
/// `boundary - radius` of the origin, whatever position it started from, for
/// every boundary at least as large as its radius.
pub proof fn lemma_constrain_inside(b: BallM, boundary: int)
    requires
        boundary - b.radius >= 0,
    ensures
        vlen(constrained(b, boundary).position) <= boundary - b.radius,
{
    let md = boundary - b.radius;
    let p = b.position;
    let l = vlen(p);
    if l > md {
        let dir = vnorm(p);
        let r = vmul(dir, md);
        let u = UNIT as int;
        crate::vector::lemma_vlen_is_sqrt(p);
        crate::math::lemma_tdiv_bounds(p.x * u, l);
        crate::math::lemma_tdiv_bounds(p.y * u, l);
        crate::math::lemma_mag_mul(p.x, u);
        crate::math::lemma_mag_mul(p.y, u);
        crate::math::lemma_tdiv_bounds(dir.x * md, u);
        crate::math::lemma_tdiv_bounds(dir.y * md, u);
        crate::math::lemma_mag_mul(dir.x, md);
        crate::math::lemma_mag_mul(dir.y, md);
        assert(mag(r.x) * l <= mag(p.x) * md) by (nonlinear_arith)
            requires
                mag(r.x) * UNIT <= mag(dir.x) * md,
                mag(dir.x) * l <= mag(p.x) * UNIT,
                l >= 1,
                md >= 0,
                mag(r.x) >= 0,
                mag(dir.x) >= 0,
                mag(p.x) >= 0,
        ;
        assert(mag(r.y) * l <= mag(p.y) * md) by (nonlinear_arith)
            requires
                mag(r.y) * UNIT <= mag(dir.y) * md,
                mag(dir.y) * l <= mag(p.y) * UNIT,
                l >= 1,
                md >= 0,
                mag(r.y) >= 0,
                mag(dir.y) >= 0,
                mag(p.y) >= 0,
        ;
        crate::vector::lemma_scaled_len_bound(p, r, md, l);
        crate::vector::lemma_scale_quotient(md, l);
        vstd::arithmetic::div_mod::lemma_basic_div(md, l);
    }
}

/// A ball at rest with zero acceleration does not move, whatever the step
/// size: the Verlet update keeps its position exactly.
pub proof fn lemma_rest_stays_at_rest(b: BallM, dt: int)
    requires
        b.position == b.position_last,
        b.acceleration == v2(0, 0),
    ensures
        integ(b, dt).position == b.position,
        integ(b, dt).position_last == b.position,
{
    assert(tdiv(0 * dt, UNIT as int) == 0) by {
        assert(0 * dt == 0) by (nonlinear_arith);
    }
}

/// The literal displacement recurrence of the implemented update rule: each
/// step adds the previous step's displacement plus `acceleration * dt`
/// (scaled once by `dt`, not squared).
pub proof fn lemma_update_recurrence(b: BallM, dt: int)
    ensures
        integ(b, dt).position.x - b.position.x == (b.position.x - b.position_last.x) + tdiv(
            b.acceleration.x * dt,
            UNIT as int,
        ),
        integ(b, dt).position.y - b.position.y == (b.position.y - b.position_last.y) + tdiv(
            b.acceleration.y * dt,
            UNIT as int,
        ),
        integ(b, dt).position_last == b.position,
{
}

} // verus!
