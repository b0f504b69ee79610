//! Vector arithmetic, length and normalisation on concrete values.

use verlet::math::{isqrt64, muldiv, UNIT};
use verlet::vector::Vector;

#[test]
fn isqrt_small_values() {
    assert_eq!(isqrt64(0), 0);
    assert_eq!(isqrt64(1), 1);
    assert_eq!(isqrt64(3), 1);
    assert_eq!(isqrt64(4), 2);
    assert_eq!(isqrt64(24), 4);
    assert_eq!(isqrt64(25), 5);
}

#[test]
fn isqrt_large_values() {
    assert_eq!(isqrt64(u64::MAX), 4294967295);
    assert_eq!(isqrt64(1 << 60), 1 << 30);
    assert_eq!(isqrt64((1 << 60) - 1), (1 << 30) - 1);
}

#[test]
fn muldiv_rounds_toward_zero() {
    assert_eq!(muldiv(7, 3, 2), 10);
    assert_eq!(muldiv(-7, 3, 2), -10);
    assert_eq!(muldiv(7, -3, 2), -10);
    assert_eq!(muldiv(-7, -3, 2), 10);
    assert_eq!(muldiv(0, 5, 9), 0);
}

#[test]
fn muldiv_handles_negative_divisors() {
    assert_eq!(muldiv(7, 3, -2), -10);
    assert_eq!(muldiv(-7, 3, -2), 10);
    assert_eq!(muldiv(7, -3, -2), 10);
    assert_eq!(muldiv(-7, -3, -2), -10);
    assert_eq!(muldiv(0, 5, -9), 0);
    assert_eq!(muldiv(1 << 30, 1 << 30, i64::MIN), 0);
    assert_eq!(muldiv(1 << 30, 1 << 30, -(1 << 59)), -2);
}

#[test]
fn add_and_sub_are_componentwise() {
    let a = Vector::new(3, -4);
    let b = Vector::new(10, 20);
    let s = a.add(b);
    assert_eq!((s.x, s.y), (13, 16));
    let d = a.sub(b);
    assert_eq!((d.x, d.y), (-7, -24));
}

#[test]
fn add_assign_and_sub_assign_accumulate() {
    let mut a = Vector::new(100, 200);
    a.add_assign(Vector::new(1, 2));
    assert_eq!((a.x, a.y), (101, 202));
    a.sub_assign(Vector::new(201, 2));
    assert_eq!((a.x, a.y), (-100, 200));
}

#[test]
fn mul_scales_by_fixed_point_ticks() {
    // 512 ticks is one half: each coordinate halves, rounded toward zero.
    let v = Vector::new(2048, 1023).mul(512);
    assert_eq!((v.x, v.y), (1024, 511));
    let w = Vector::new(-2048, -1023).mul(512);
    assert_eq!((w.x, w.y), (-1024, -511));
}

#[test]
fn div_is_the_inverse_scaling() {
    let v = Vector::new(2048, 1024).div(512);
    assert_eq!((v.x, v.y), (4096, 2048));
}

#[test]
fn div_by_a_negative_scalar_flips_the_vector() {
    let v = Vector::new(2048, 1024).div(-512);
    assert_eq!((v.x, v.y), (-4096, -2048));
    let w = Vector::new(-2048, 1023).div(-1024);
    assert_eq!((w.x, w.y), (2048, -1023));
    // Truncation is toward zero on every sign combination, and even the
    // most negative divisor is accepted.
    let t = Vector::new(2048, -1024).div(i64::MIN);
    assert_eq!((t.x, t.y), (0, 0));
}

#[test]
fn len_of_scaled_pythagorean_triple() {
    // 3-4-5 triangle in ticks.
    assert_eq!(Vector::new(3072, 4096).len(), 5120);
    assert_eq!(Vector::new(-3072, 4096).len(), 5120);
    assert_eq!(Vector::new(0, 0).len(), 0);
    assert_eq!(Vector::new(1, -1).len(), 1);
}

#[test]
fn normalise_has_unit_length() {
    // A vector of length at least one world unit normalises to within a few
    // ticks of UNIT = 1024.
    let n = Vector::new(3000, 4000).normalise();
    assert_eq!((n.x, n.y), (614, 819));
    let l = n.len();
    assert!(UNIT - 3 <= l && l <= UNIT + 1, "normalised length was {}", l);

    let axis = Vector::new(7777, 0).normalise();
    assert_eq!((axis.x, axis.y), (1024, 0));
    assert_eq!(axis.len(), 1024);

    let neg = Vector::new(0, -123456).normalise();
    assert_eq!((neg.x, neg.y), (0, -1024));
    assert_eq!(neg.len(), 1024);
}

#[test]
fn normalise_of_zero_is_zero() {
    // The documented policy for the degenerate case: no direction, no move.
    let n = Vector::new(0, 0).normalise();
    assert_eq!((n.x, n.y), (0, 0));
}
