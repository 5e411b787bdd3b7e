use tracer::primitives::triangle::{max_scalar, min_scalar};
use tracer::scalar::{
    ceil_div, floor_div, floor_div_rem, isqrt, isqrt_ceil, scaled_quotient, trunc_div, COORD_MAX,
    DISTANCE_MAX, ONE,
};
use tracer::utils::camera::Camera;
use tracer::utils::color::{Color, CHANNEL_MAX};
use tracer::utils::ray::Ray;
use tracer::vector::{distance, distance2, Point3, Vector3, Wide3};

#[test]
fn square_roots_round_down_and_up() {
    assert_eq!(isqrt(0), 0);
    assert_eq!(isqrt(1), 1);
    assert_eq!(isqrt(3), 1);
    assert_eq!(isqrt(4), 2);
    assert_eq!(isqrt(99), 9);
    assert_eq!(isqrt(100), 10);
    assert_eq!(isqrt(u128::MAX), u64::MAX);
    assert_eq!(isqrt((1u128 << 64) - 1), (1u64 << 32) - 1);
    assert_eq!(isqrt_ceil(0), 0);
    assert_eq!(isqrt_ceil(1), 1);
    assert_eq!(isqrt_ceil(2), 2);
    assert_eq!(isqrt_ceil(99), 10);
    assert_eq!(isqrt_ceil(100), 10);
    assert_eq!(isqrt_ceil(101), 11);
    assert_eq!(isqrt_ceil(u128::MAX), 1u128 << 64);
}

#[test]
fn divisions_round_as_named() {
    assert_eq!(floor_div(7, 2), 3);
    assert_eq!(floor_div(-7, 2), -4);
    assert_eq!(floor_div(-8, 2), -4);
    assert_eq!(floor_div(0, 5), 0);
    assert_eq!(floor_div_rem(-7, 2), (-4, 1));
    assert_eq!(floor_div_rem(7, 2), (3, 1));
    assert_eq!(floor_div_rem(-8, 4), (-2, 0));
    assert_eq!(ceil_div(7, 2), 4);
    assert_eq!(ceil_div(-7, 2), -3);
    assert_eq!(ceil_div(8, 2), 4);
    assert_eq!(trunc_div(7, 2), 3);
    assert_eq!(trunc_div(-7, 2), -3);
}

#[test]
fn scaled_quotient_scales_rounds_and_saturates() {
    assert_eq!(scaled_quotient(10, 4), 163840);
    assert_eq!(scaled_quotient(1, 3), 21845);
    assert_eq!(scaled_quotient(-1, 3), -21846);
    assert_eq!(scaled_quotient(0, 3), 0);
    assert_eq!(scaled_quotient(i128::MAX, 1), DISTANCE_MAX);
    assert_eq!(scaled_quotient(-i128::MAX, 1), -DISTANCE_MAX);
    assert_eq!(scaled_quotient(70368744177664, 1), DISTANCE_MAX);
    assert_eq!(scaled_quotient(70368744177663, 1), DISTANCE_MAX - ONE);
}

#[test]
fn smaller_and_larger_scalar() {
    assert_eq!(min_scalar(3, -4), -4);
    assert_eq!(min_scalar(-4, 3), -4);
    assert_eq!(max_scalar(3, -4), 3);
    assert_eq!(max_scalar(5, 5), 5);
}

#[test]
fn vectors_multiply_exactly() {
    let a = Vector3::new(1, 2, 3);
    let b = Vector3::new(-4, 5, 6);
    assert_eq!(a.dot(&b), 24);
    assert_eq!(a.cross(&b), Wide3 { x: -3, y: -18, z: 13 });
    assert_eq!(a.dot_wide(&a.cross(&b)), 0);
    assert_eq!(b.dot_wide(&a.cross(&b)), 0);
    assert_eq!(a.widen(), Wide3 { x: 1, y: 2, z: 3 });
    assert!(!a.is_zero());
    assert!(Vector3::new(0, 0, 0).is_zero());
    let big = Vector3::new(1 << 41, -(1 << 41), 1 << 41);
    assert_eq!(big.dot(&big), 3 * (1i128 << 82));
    assert_eq!(big.cross(&Vector3::new(1 << 41, 1 << 41, -(1 << 41))).y, 1i128 << 83);
}

#[test]
fn points_subtract_and_measure() {
    let p = Point3::new(10 * ONE, 0, 0);
    let q = Point3::new(7 * ONE, 4 * ONE, 0);
    assert_eq!(p.minus(&q), Vector3::new(3 * ONE, -4 * ONE, 0));
    assert_eq!(distance(&p, &q), 5 * ONE);
    assert_eq!(distance2(&p, &q), 25 * (ONE as i128) * (ONE as i128));
    assert_eq!(distance(&p, &p), 0);
    assert_eq!(distance(&Point3::new(1, 1, 0), &Point3::new(0, 0, 0)), 1);
}

#[test]
fn normalize_keeps_direction_within_unit_length() {
    assert_eq!(Wide3 { x: 0, y: 0, z: 0 }.normalize(), Vector3::new(0, 0, 0));
    assert_eq!(Wide3 { x: 7, y: 0, z: 0 }.normalize(), Vector3::new(ONE, 0, 0));
    assert_eq!(Wide3 { x: 0, y: -1, z: 0 }.normalize(), Vector3::new(0, -ONE, 0));
    assert_eq!(Wide3 { x: 3, y: 4, z: 0 }.normalize(), Vector3::new(39321, 52428, 0));
    assert_eq!(Wide3 { x: 1, y: 1, z: 1 }.normalize(), Vector3::new(37837, 37837, 37837));
    assert_eq!(
        Wide3 { x: 3 << 80, y: -(4 << 80), z: 0 }.normalize(),
        Vector3::new(39321, -52428, 0)
    );
    assert_eq!(
        Wide3 { x: 1 << 84, y: 1 << 84, z: -(1 << 84) }.normalize(),
        Vector3::new(37837, 37837, -37837)
    );
    let mut seed: u64 = 5;
    for _ in 0..2000 {
        let mut next = || {
            seed = seed.wrapping_mul(6364136223846793005).wrapping_add(1442695040888963407);
            ((seed >> 20) as i64 % 2000001 - 1000000) as i128
        };
        let v = Wide3 { x: next(), y: next(), z: next() };
        let d = v.normalize();
        let n2 = d.dot(&d);
        assert!(n2 <= (ONE as i128) * (ONE as i128));
        assert!(n2 >= (ONE as i128 - 3) * (ONE as i128 - 3));
    }
}

#[test]
fn point_along_ray_rounds_down_and_stays_in_range() {
    let r = Ray::new(Point3::new(0, 0, 0), Vector3::new(3, 4, 0));
    assert_eq!(r.point_at(10 * ONE), Point3::new(393210, 524280, 0));
    assert_eq!(r.point_at(-10 * ONE), Point3::new(-393210, -524280, 0));
    assert_eq!(r.point_at(3), Point3::new(1, 2, 0));
    assert_eq!(r.point_at(-3), Point3::new(-2, -3, 0));
    assert_eq!(r.point_at(DISTANCE_MAX), Point3::new(COORD_MAX, COORD_MAX, 0));
    assert_eq!(r.point_at(-DISTANCE_MAX), Point3::new(-COORD_MAX, -COORD_MAX, 0));
}

#[test]
fn ranges_are_checked() {
    assert!(Point3::new(COORD_MAX, -COORD_MAX, 0).in_range());
    assert!(!Point3::new(COORD_MAX + 1, 0, 0).in_range());
    assert!(!Point3::new(0, 0, -COORD_MAX - 1).in_range());
    assert!(Color::new(0, CHANNEL_MAX, ONE).in_range());
    assert!(!Color::new(-1, 0, 0).in_range());
    assert!(!Color::new(0, 0, CHANNEL_MAX + 1).in_range());
}

#[test]
fn camera_frame_needs_a_line_of_sight_apart_from_up() {
    let eye = Point3::new(0, 0, 500 * ONE);
    let target = Point3::new(0, 0, 0);
    assert!(Camera::frame_exists(&eye, &target, &Vector3::new(0, 1, 0)));
    assert!(Camera::frame_exists(&eye, &target, &Vector3::new(1, 1, 1)));
    assert!(!Camera::frame_exists(&eye, &target, &Vector3::new(0, 0, 1)));
    assert!(!Camera::frame_exists(&eye, &target, &Vector3::new(0, 0, -7)));
    assert!(!Camera::frame_exists(&eye, &target, &Vector3::new(0, 0, 0)));
    assert!(!Camera::frame_exists(&eye, &eye, &Vector3::new(0, 1, 0)));
}
