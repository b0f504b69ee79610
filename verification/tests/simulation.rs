//! Ball and world behaviour on concrete scenarios: the Verlet step, the
//! boundary clamp, the collision sweep, and whole frames.

use verlet::ball::{Ball, DEFAULT_COLOR};
use verlet::math::{muldiv, UNIT};
use verlet::vector::Vector;
use verlet::world::{World, BOUNDARY_RADIUS, GRAVITY_Y};

fn dist(a: Vector, b: Vector) -> i64 {
    b.sub(a).len()
}

#[test]
fn new_ball_is_at_rest() {
    let b = Ball::new(Vector::new(123, -456), 10240);
    assert_eq!((b.position.x, b.position.y), (123, -456));
    assert_eq!((b.position_last.x, b.position_last.y), (123, -456));
    assert_eq!((b.acceleration.x, b.acceleration.y), (0, 0));
    assert_eq!(b.radius, 10240);
    assert_eq!(b.color, DEFAULT_COLOR);
}

#[test]
fn ball_at_rest_does_not_move() {
    // Zero implicit velocity, zero acceleration: the step is a no-op,
    // whatever the step size.
    let mut b = Ball::new(Vector::new(1000, 2000), 5120);
    b.update(17);
    assert_eq!((b.position.x, b.position.y), (1000, 2000));
    b.update(1024);
    assert_eq!((b.position.x, b.position.y), (1000, 2000));
}

#[test]
fn constant_acceleration_follows_the_literal_recurrence() {
    // The implemented rule adds acceleration * dt (scaled once by dt, not
    // squared) to each step's displacement: check the recurrence itself.
    let dt: i64 = 17;
    let accel = Vector::new(0, 100);
    let kick = muldiv(accel.y, dt, UNIT);
    let mut b = Ball::new(Vector::new(0, 0), 5120);
    b.set_acceleration(accel);
    let mut prev2 = b.position;
    let mut prev1 = b.position;
    for _ in 0..8 {
        b.update(dt);
        assert_eq!(b.position.y - prev1.y, (prev1.y - prev2.y) + kick);
        assert_eq!(b.position.x, 0);
        assert_eq!((b.position_last.x, b.position_last.y), (prev1.x, prev1.y));
        prev2 = prev1;
        prev1 = b.position;
    }
    // With these numbers the kick is one tick per step, so after n steps the
    // displacement is the n-th triangular number.
    assert_eq!(kick, 1);
    assert_eq!(b.position.y, 36);
}

#[test]
fn constrain_clamps_to_the_arena() {
    // Straight out along the x axis: the clamp is exact.
    let mut b = Ball::new(Vector::new(300000, 0), 10240);
    b.constrain(BOUNDARY_RADIUS);
    assert_eq!((b.position.x, b.position.y), (245760, 0));

    // Diagonal case: still inside the allowed circle afterwards.
    let mut c = Ball::new(Vector::new(200000, 200000), 10240);
    c.constrain(BOUNDARY_RADIUS);
    assert_eq!((c.position.x, c.position.y), (173760, 173760));
    let l = c.position.len();
    assert!(l <= BOUNDARY_RADIUS - 10240, "length {} is outside", l);
    assert!(l >= 245000, "length {} clamps too far in", l);

    // A ball already inside does not move.
    let mut d = Ball::new(Vector::new(-1000, 4000), 10240);
    d.constrain(BOUNDARY_RADIUS);
    assert_eq!((d.position.x, d.position.y), (-1000, 4000));
}

#[test]
fn world_defaults() {
    let w = World::new();
    assert_eq!(w.balls.len(), 0);
    assert_eq!((w.gravity.x, w.gravity.y), (0, GRAVITY_Y));
    assert_eq!(GRAVITY_Y, 10035);
}

#[test]
fn add_and_with_preserve_order() {
    let mut w = World::new()
        .with(Ball::new(Vector::new(1, 0), 1024))
        .with(Ball::new(Vector::new(2, 0), 1024));
    w.add(Ball::new(Vector::new(3, 0), 1024));
    assert_eq!(w.balls.len(), 3);
    assert_eq!(w.balls[0].position.x, 1);
    assert_eq!(w.balls[1].position.x, 2);
    assert_eq!(w.balls[2].position.x, 3);
}

#[test]
fn empty_world_update_is_a_no_op() {
    let mut w = World::new();
    w.update(17);
    w.collide();
    assert_eq!(w.balls.len(), 0);
}

#[test]
fn single_ball_falls_under_gravity() {
    // One frame at dt = 17 ticks: the kick is 10035 * 17 / 1024 = 166 ticks.
    let mut w = World::new().with(Ball::new(Vector::new(0, 0), 10240));
    w.update(17);
    assert_eq!((w.balls[0].position.x, w.balls[0].position.y), (0, 166));
    assert_eq!((w.balls[0].position_last.x, w.balls[0].position_last.y), (0, 0));
    // Velocity carries over: the next frame falls three kicks in all.
    w.update(17);
    assert_eq!(w.balls[0].position.y, 498);
}

#[test]
fn two_overlapping_balls_separate_in_one_pass() {
    // Two balls of radius 10 units at (0, 0) and (5, 0): 15 units of
    // overlap, gravity disabled, one collision pass in order [A, B].
    let mut w = World::new()
        .with(Ball::new(Vector::new(0, 0), 10240))
        .with(Ball::new(Vector::new(5120, 0), 10240));
    w.gravity = Vector::new(0, 0);
    let before = dist(w.balls[0].position, w.balls[1].position);
    assert_eq!(before, 5120);
    w.collide();
    let after = dist(w.balls[0].position, w.balls[1].position);
    assert!(after > before);
    // Both moved apart along the x axis, half the overlap each; for this
    // axis-aligned pair the pass resolves the full 15 units at once.
    assert_eq!((w.balls[0].position.x, w.balls[0].position.y), (-7680, 0));
    assert_eq!((w.balls[1].position.x, w.balls[1].position.y), (12800, 0));
    assert_eq!(after, 20480);
    // Repeated passes stay at contact distance.
    for _ in 0..3 {
        w.collide();
    }
    assert_eq!(dist(w.balls[0].position, w.balls[1].position), 20480);
}

#[test]
fn diagonal_overlap_improves_monotonically() {
    let mut w = World::new()
        .with(Ball::new(Vector::new(0, 0), 10240))
        .with(Ball::new(Vector::new(1024, 1024), 10240));
    w.gravity = Vector::new(0, 0);
    let mut last = dist(w.balls[0].position, w.balls[1].position);
    assert_eq!(last, 1448);
    for _ in 0..5 {
        w.collide();
        let now = dist(w.balls[0].position, w.balls[1].position);
        assert!(now >= last, "separation shrank from {} to {}", last, now);
        last = now;
    }
    // Close to contact distance 20480 after repeated passes, never past the
    // double of it.
    assert!(last > 20400 && last < 20490, "final separation {}", last);
}

#[test]
fn coincident_centres_are_left_alone() {
    // The documented degenerate-geometry policy: no direction, no move.
    let mut w = World::new()
        .with(Ball::new(Vector::new(777, -5), 10240))
        .with(Ball::new(Vector::new(777, -5), 10240));
    w.gravity = Vector::new(0, 0);
    w.collide();
    assert_eq!((w.balls[0].position.x, w.balls[0].position.y), (777, -5));
    assert_eq!((w.balls[1].position.x, w.balls[1].position.y), (777, -5));
}

#[test]
fn hundred_balls_six_hundred_frames_stay_bounded() {
    // A stress run: spawn 100 balls on a grid with radii between 5 and 20
    // units, run 600 frames at 1/60 s, and check that every coordinate is
    // still a sane number inside the arena (the integer core has no NaN to
    // produce, and the clamp keeps everything near the boundary).
    let mut w = World::new();
    for k in 0..100i64 {
        let x = ((k % 10) - 5) * 10240 + 512 * (k % 7);
        let y = ((k / 10) - 5) * 10240 + 512 * (k % 3);
        let r = 5120 + (k % 16) * 1024;
        w.add(Ball::new(Vector::new(x, y), r));
    }
    for _ in 0..600 {
        w.update(17);
    }
    assert_eq!(w.balls.len(), 100);
    for b in w.balls.iter() {
        let l = b.position.len();
        assert!(
            l <= BOUNDARY_RADIUS + 40960,
            "a ball ended far outside the arena: length {}",
            l
        );
        assert!(b.position.x.abs() < 1 << 24 && b.position.y.abs() < 1 << 24);
    }
}
