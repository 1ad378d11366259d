use boids::geometry::Vec2I;
use boids::mathx::{div_i64, isqrt, mul_div, scaled_norm, vec_norm};

#[test]
fn isqrt_small_values() {
    assert_eq!(isqrt(0), 0);
    assert_eq!(isqrt(1), 1);
    assert_eq!(isqrt(2), 1);
    assert_eq!(isqrt(3), 1);
    assert_eq!(isqrt(4), 2);
    assert_eq!(isqrt(15), 3);
    assert_eq!(isqrt(16), 4);
    assert_eq!(isqrt(99), 9);
    assert_eq!(isqrt(100), 10);
}

#[test]
fn isqrt_large_values() {
    assert_eq!(isqrt(1_000_000_000_000_000_000), 1_000_000_000);
    let five_e18: u128 = 5_000_000_000_000_000_000;
    assert_eq!(isqrt(five_e18 * five_e18), 5_000_000_000_000_000_000);
    assert_eq!(isqrt(five_e18 * five_e18 - 1), 4_999_999_999_999_999_999);
}

#[test]
fn division_truncates_toward_zero() {
    assert_eq!(div_i64(7, 2), 3);
    assert_eq!(div_i64(-7, 2), -3);
    assert_eq!(div_i64(-1, 2), 0);
    assert_eq!(mul_div(3, 10, 5), 6);
    assert_eq!(mul_div(-3, 10, 5), -6);
    assert_eq!(mul_div(-1, 1, 2), 0);
}

#[test]
fn vec_norm_values() {
    assert_eq!(vec_norm(Vec2I { x: 3, y: 4 }), 5);
    assert_eq!(vec_norm(Vec2I { x: -3, y: 4 }), 5);
    assert_eq!(vec_norm(Vec2I { x: 1, y: 1 }), 1);
    assert_eq!(vec_norm(Vec2I { x: 0, y: 0 }), 0);
    assert_eq!(vec_norm(Vec2I { x: 0, y: -7 }), 7);
}

#[test]
fn scaled_norm_values() {
    let r = scaled_norm(Vec2I { x: 3, y: 4 }, 10);
    assert_eq!((r.x, r.y), (6, 8));
    let z = scaled_norm(Vec2I { x: 0, y: 0 }, 10);
    assert_eq!((z.x, z.y), (0, 0));
    let n = scaled_norm(Vec2I { x: -3000, y: 4000 }, 100);
    assert_eq!((n.x, n.y), (-60, 80));
}
