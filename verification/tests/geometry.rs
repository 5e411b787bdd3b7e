use tracer::primitives::bounding_box::BoundingBox;
use tracer::primitives::sphere::Sphere;
use tracer::primitives::triangle::Triangle;
use tracer::primitives::{HasBoundingBox, HasCenter, HasColor, HasNormal, Intersectable, Primitive};
use tracer::scalar::ONE;
use tracer::utils::color::Color;
use tracer::utils::ray::Ray;
use tracer::vector::{Point3, Vector3};

fn world(x: i64) -> i64 {
    x * ONE
}

fn point(x: i64, y: i64, z: i64) -> Point3 {
    Point3::new(world(x), world(y), world(z))
}

fn red() -> Color {
    Color::new(ONE, 0, 0)
}

#[test]
fn ray_new_normalizes_direction() {
    let r = Ray::new(point(0, 0, 500), Vector3::new(0, 0, -12345));
    assert_eq!(r.direction, Vector3::new(0, 0, -ONE));
    let r = Ray::new(point(0, 0, 0), Vector3::new(world(3), world(4), 0));
    assert_eq!(r.direction, Vector3::new(39321, 52428, 0));
}

#[test]
fn ray_with_zero_direction_stays_zero() {
    let r = Ray::new(point(1, 2, 3), Vector3::new(0, 0, 0));
    assert_eq!(r.direction, Vector3::new(0, 0, 0));
    let s = Sphere::new(world(100), point(1, 2, 3), red());
    assert_eq!(s.intersect(&r), None);
}

#[test]
fn sphere_hit_from_outside_reports_near_crossing() {
    let s = Sphere::new(world(100), point(0, 0, 0), red());
    let r = Ray::new(point(0, 0, 500), Vector3::new(0, 0, -1));
    assert_eq!(s.intersect(&r), Some(world(400)));
}

#[test]
fn sphere_behind_ray_is_missed() {
    let s = Sphere::new(world(100), point(0, 0, 0), red());
    let r = Ray::new(point(0, 0, 500), Vector3::new(0, 0, 1));
    assert_eq!(s.intersect(&r), None);
    let r = Ray::new(point(0, 0, 500), Vector3::new(1, 0, 0));
    assert_eq!(s.intersect(&r), None);
}

#[test]
fn sphere_passed_at_a_distance_is_missed() {
    let s = Sphere::new(world(100), point(0, 0, 0), red());
    let r = Ray::new(point(101, 0, 500), Vector3::new(0, 0, -1));
    assert_eq!(s.intersect(&r), None);
    let r = Ray::new(point(100, 0, 500), Vector3::new(0, 0, -1));
    assert_eq!(s.intersect(&r), Some(world(500)));
}

#[test]
fn ray_from_center_leaves_at_radius() {
    let s = Sphere::new(world(100), point(7, -3, 12), red());
    for d in [
        Vector3::new(1, 0, 0),
        Vector3::new(0, -5, 0),
        Vector3::new(3, 4, 5),
        Vector3::new(-1000, 77, 31),
    ] {
        let r = Ray::new(point(7, -3, 12), d);
        assert_eq!(s.intersect(&r), Some(world(100)));
    }
}

#[test]
fn ray_from_inside_reports_far_crossing() {
    let s = Sphere::new(world(100), point(0, 0, 0), red());
    let r = Ray::new(point(0, 0, 50), Vector3::new(0, 0, -1));
    assert_eq!(s.intersect(&r), Some(world(150)));
}

#[test]
fn sphere_box_and_center_and_normal() {
    let s = Sphere::new(world(10), point(1, 2, 3), red());
    let b = s.get_bounding_box();
    assert_eq!(b.min, point(-9, -8, -7));
    assert_eq!(b.max, point(11, 12, 13));
    assert_eq!(s.get_center(), point(1, 2, 3));
    assert_eq!(s.get_normal(point(1, 12, 3)), Vector3::new(0, ONE, 0));
    assert_eq!(s.get_color(), red());
}

fn flat_triangle() -> Triangle {
    Triangle::new(point(-100, -100, 0), point(100, -100, 0), point(0, 100, 0), red())
}

#[test]
fn triangle_edges_and_normal_are_precomputed() {
    let t = flat_triangle();
    assert_eq!(t.e1, Vector3::new(world(200), 0, 0));
    assert_eq!(t.e2, Vector3::new(world(100), world(200), 0));
    assert_eq!(t.normal, Vector3::new(0, 0, ONE));
    assert_eq!(t.get_normal(point(5, 5, 5)), Vector3::new(0, 0, ONE));
}

#[test]
fn triangle_hit_reports_distance() {
    let t = flat_triangle();
    let r = Ray::new(point(0, 0, 10), Vector3::new(0, 0, -1));
    assert_eq!(t.intersect(&r), Some(world(10)));
    let r = Ray::new(point(10, -20, 250), Vector3::new(0, 0, -1));
    assert_eq!(t.intersect(&r), Some(world(250)));
}

#[test]
fn triangle_behind_ray_reports_negative_distance() {
    let t = flat_triangle();
    let r = Ray::new(point(0, 0, 10), Vector3::new(0, 0, 1));
    assert_eq!(t.intersect(&r), Some(world(-10)));
}

#[test]
fn triangle_missed_outside_its_edges() {
    let t = flat_triangle();
    let r = Ray::new(point(101, 0, 10), Vector3::new(0, 0, -1));
    assert_eq!(t.intersect(&r), None);
    let r = Ray::new(point(0, 101, 10), Vector3::new(0, 0, -1));
    assert_eq!(t.intersect(&r), None);
    let r = Ray::new(point(-90, 90, 10), Vector3::new(0, 0, -1));
    assert_eq!(t.intersect(&r), None);
}

#[test]
fn triangle_parallel_ray_is_missed() {
    let t = flat_triangle();
    let r = Ray::new(point(0, 0, 10), Vector3::new(1, 0, 0));
    assert_eq!(t.intersect(&r), None);
    let r = Ray::new(point(0, 0, 0), Vector3::new(0, 1, 0));
    assert_eq!(t.intersect(&r), None);
}

#[test]
fn ray_through_centroid_along_negated_normal_hits() {
    let t = Triangle::new(point(0, 0, 0), point(300, 0, 0), point(0, 300, 0), red());
    let n = t.normal;
    let origin = Point3::new(world(100) + 50 * n.x, world(100) + 50 * n.y, 50 * n.z);
    let r = Ray::new(origin, Vector3::new(-n.x, -n.y, -n.z));
    assert_eq!(t.intersect(&r), Some(world(50)));
}

#[test]
fn triangle_box_and_center() {
    let t = Triangle::new(point(-1, 5, 2), point(4, -6, 3), point(0, 0, -7), red());
    let b = t.get_bounding_box();
    assert_eq!(b.min, point(-1, -6, -7));
    assert_eq!(b.max, point(4, 5, 3));
    assert_eq!(t.get_center(), Point3::new(world(3) / 2, world(-1) / 2, world(-2)));
    assert_eq!(t.get_color(), red());
}

#[test]
fn primitive_forwards_to_its_shape() {
    let s = Sphere::new(world(100), point(0, 0, 0), red());
    let p = Primitive::Sphere(s);
    let r = Ray::new(point(0, 0, 500), Vector3::new(0, 0, -1));
    assert_eq!(p.intersect(&r), s.intersect(&r));
    assert_eq!(p.get_bounding_box(), s.get_bounding_box());
    assert_eq!(p.get_color(), red());
    assert_eq!(p.get_center(), point(0, 0, 0));
    assert_eq!(p.get_normal(point(0, 0, 100)), Vector3::new(0, 0, ONE));
    let t = flat_triangle();
    let p = Primitive::Triangle(t);
    let r = Ray::new(point(0, 0, 10), Vector3::new(0, 0, -1));
    assert_eq!(p.intersect(&r), Some(world(10)));
    assert_eq!(p.get_bounding_box(), t.get_bounding_box());
    assert_eq!(BoundingBox::new(&p), t.get_bounding_box());
}

fn cube(lo: i64, hi: i64) -> BoundingBox {
    BoundingBox { min: point(lo, lo, lo), max: point(hi, hi, hi) }
}

#[test]
fn merge_takes_smallest_and_largest_corners() {
    let a = BoundingBox { min: point(0, -5, 2), max: point(1, 1, 9) };
    let b = BoundingBox { min: point(-3, 0, 4), max: point(0, 7, 5) };
    let m = BoundingBox::new_from(&a, &b);
    assert_eq!(m.min, point(-3, -5, 2));
    assert_eq!(m.max, point(1, 7, 9));
}

#[test]
fn merge_is_commutative_and_associative() {
    let a = BoundingBox { min: point(0, -5, 2), max: point(1, 1, 9) };
    let b = BoundingBox { min: point(-3, 0, 4), max: point(0, 7, 5) };
    let c = BoundingBox { min: point(2, 2, -8), max: point(20, 3, 0) };
    assert_eq!(BoundingBox::new_from(&a, &b), BoundingBox::new_from(&b, &a));
    assert_eq!(
        BoundingBox::new_from(&BoundingBox::new_from(&a, &b), &c),
        BoundingBox::new_from(&a, &BoundingBox::new_from(&b, &c))
    );
}

#[test]
fn box_center_is_its_centroid() {
    let a = BoundingBox { min: point(0, -5, 2), max: point(10, 1, 9) };
    assert_eq!(a.get_center(), Point3::new(world(5), world(-2), world(11) / 2));
}

#[test]
fn box_hit_reports_entry_distance() {
    let b = cube(-1, 1);
    let r = Ray::new(point(0, 0, 5), Vector3::new(0, 0, -1));
    assert_eq!(b.intersect(&r), Some(world(4)));
}

#[test]
fn box_hit_from_inside_is_zero() {
    let b = cube(-1, 1);
    let r = Ray::new(point(0, 0, 0), Vector3::new(1, 2, 3));
    assert_eq!(b.intersect(&r), Some(0));
}

#[test]
fn box_behind_or_beside_ray_is_missed() {
    let b = cube(-1, 1);
    let r = Ray::new(point(0, 0, 5), Vector3::new(0, 0, 1));
    assert_eq!(b.intersect(&r), None);
    let r = Ray::new(point(2, 0, 5), Vector3::new(0, 0, -1));
    assert_eq!(b.intersect(&r), None);
    let r = Ray::new(point(0, 0, 5), Vector3::new(1, 0, -1));
    assert_eq!(b.intersect(&r), None);
}

#[test]
fn box_touched_on_its_face_is_hit() {
    let b = cube(-1, 1);
    let r = Ray::new(point(1, 0, 5), Vector3::new(0, 0, -1));
    assert_eq!(b.intersect(&r), Some(world(4)));
}

#[test]
fn flat_box_is_hit_across() {
    let t = flat_triangle();
    let b = t.get_bounding_box();
    let r = Ray::new(point(0, 0, 10), Vector3::new(0, 0, -1));
    assert_eq!(b.intersect(&r), Some(world(10)));
}
