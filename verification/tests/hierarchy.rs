use tracer::primitives::sphere::Sphere;
use tracer::primitives::triangle::Triangle;
use tracer::primitives::{HasBoundingBox, HasColor, HasNormal, Intersectable, Primitive};
use tracer::scalar::ONE;
use tracer::utils::bounding_volume_hierarchy::{
    BVHNode, BoundingVolumeHierarchy, HitInfo, HIT_THRESHOLD,
};
use tracer::utils::color::Color;
use tracer::utils::ray::Ray;
use tracer::vector::{Point3, Vector3};

fn world(x: i64) -> i64 {
    x * ONE
}

fn point(x: i64, y: i64, z: i64) -> Point3 {
    Point3::new(world(x), world(y), world(z))
}

fn ball(x: i64, y: i64, z: i64, r: i64, shade: i64) -> Primitive {
    Primitive::Sphere(Sphere::new(world(r), point(x, y, z), Color::new(shade, 0, 0)))
}

fn scattered() -> Vec<Primitive> {
    vec![
        ball(0, 0, 0, 100, 1),
        ball(300, 0, 0, 50, 2),
        ball(-250, 100, 50, 80, 3),
        ball(0, 400, -100, 120, 4),
        ball(50, -300, 200, 60, 5),
        Primitive::Triangle(Triangle::new(
            point(-500, -500, -300),
            point(500, -500, -300),
            point(0, 500, -300),
            Color::new(6, 0, 0),
        )),
        Primitive::Triangle(Triangle::new(
            point(200, 200, 200),
            point(400, 200, 250),
            point(300, 400, 150),
            Color::new(7, 0, 0),
        )),
        Primitive::Triangle(Triangle::new(
            point(-10000, 0, -10000),
            point(10000, 0, -10000),
            point(0, 0, 10000),
            Color::new(8, 0, 0),
        )),
    ]
}

struct Dice(u64);

impl Dice {
    fn next(&mut self, span: i64) -> i64 {
        self.0 = self.0.wrapping_mul(6364136223846793005).wrapping_add(1442695040888963407);
        ((self.0 >> 33) % (2 * span as u64 + 1)) as i64 - span
    }
}

fn nearest_by_scan(primitives: &[Primitive], ray: &Ray) -> Option<i64> {
    let mut best: Option<i64> = None;
    for p in primitives {
        if let Some(t) = p.intersect(ray) {
            if t > HIT_THRESHOLD && best.map_or(true, |b| t < b) {
                best = Some(t);
            }
        }
    }
    best
}

#[test]
fn hierarchy_agrees_with_scan_over_all_primitives() {
    let primitives = scattered();
    let bvh = BoundingVolumeHierarchy::new(primitives.clone());
    let mut dice = Dice(7);
    let mut hits = 0;
    for _ in 0..2000 {
        let origin = point(dice.next(700), dice.next(700), dice.next(700));
        let direction = Vector3::new(dice.next(1000), dice.next(1000), dice.next(1000));
        let ray = Ray::new(origin, direction);
        let found = bvh.intersect(&ray).map(|h| h.distance);
        assert_eq!(found, nearest_by_scan(&primitives, &ray));
        if found.is_some() {
            hits += 1;
        }
    }
    assert!(hits > 100);
}

#[test]
fn hit_belongs_to_the_primitive_that_was_hit() {
    let primitives = scattered();
    let bvh = BoundingVolumeHierarchy::new(primitives.clone());
    let mut dice = Dice(99);
    for _ in 0..500 {
        let origin = point(dice.next(700), dice.next(700), dice.next(700));
        let direction = Vector3::new(dice.next(1000), dice.next(1000), dice.next(1000));
        let ray = Ray::new(origin, direction);
        if let Some(h) = bvh.intersect(&ray) {
            let owner = primitives
                .iter()
                .find(|p| p.intersect(&ray) == Some(h.distance) && p.get_color() == h.color);
            let owner = owner.unwrap();
            assert_eq!(h.p_hit, ray.point_at(h.distance));
            assert_eq!(h.normal, owner.get_normal(h.p_hit));
        }
    }
}

#[test]
fn building_twice_gives_the_same_hits() {
    let first = BoundingVolumeHierarchy::new(scattered());
    let second = BoundingVolumeHierarchy::new(scattered());
    let mut dice = Dice(3);
    for _ in 0..500 {
        let origin = point(dice.next(700), dice.next(700), dice.next(700));
        let direction = Vector3::new(dice.next(1000), dice.next(1000), dice.next(1000));
        let ray = Ray::new(origin, direction);
        assert_eq!(first.intersect(&ray), second.intersect(&ray));
    }
}

#[test]
fn order_of_primitives_does_not_change_distances() {
    let mut reversed = scattered();
    reversed.reverse();
    let first = BoundingVolumeHierarchy::new(scattered());
    let second = BoundingVolumeHierarchy::new(reversed);
    let mut dice = Dice(11);
    for _ in 0..500 {
        let origin = point(dice.next(700), dice.next(700), dice.next(700));
        let direction = Vector3::new(dice.next(1000), dice.next(1000), dice.next(1000));
        let ray = Ray::new(origin, direction);
        assert_eq!(
            first.intersect(&ray).map(|h| h.distance),
            second.intersect(&ray).map(|h| h.distance)
        );
    }
}

#[test]
fn empty_scene_is_never_hit() {
    let bvh = BoundingVolumeHierarchy::new(Vec::new());
    assert!(bvh.root.is_none());
    let ray = Ray::new(point(0, 0, 500), Vector3::new(0, 0, -1));
    assert_eq!(bvh.intersect(&ray), None);
}

#[test]
fn single_primitive_is_the_root_leaf() {
    let bvh = BoundingVolumeHierarchy::new(vec![ball(0, 0, 0, 100, 1)]);
    match bvh.root.as_deref() {
        Some(BVHNode::Leaf { bbox, primitive }) => {
            assert_eq!(*primitive, ball(0, 0, 0, 100, 1));
            assert_eq!(*bbox, primitive.get_bounding_box());
        }
        _ => panic!("a single primitive makes a single leaf"),
    }
}

fn leaf_primitive(node: &BVHNode) -> Primitive {
    match node {
        BVHNode::Leaf { primitive, .. } => *primitive,
        BVHNode::Internal { .. } => panic!("a leaf was expected"),
    }
}

#[test]
fn last_node_is_joined_with_its_nearest() {
    let a = ball(0, 0, 0, 10, 1);
    let b = ball(10, 0, 0, 10, 2);
    let c = ball(100, 0, 0, 10, 3);
    let bvh = BoundingVolumeHierarchy::new(vec![a, b, c]);
    match bvh.root.as_deref() {
        Some(BVHNode::Internal { bbox, left, right }) => {
            assert_eq!(leaf_primitive(left), a);
            assert_eq!(bbox.min, point(-10, -10, -10));
            assert_eq!(bbox.max, point(110, 10, 10));
            match &**right {
                BVHNode::Internal { bbox, left, right } => {
                    assert_eq!(leaf_primitive(left), c);
                    assert_eq!(leaf_primitive(right), b);
                    assert_eq!(bbox.min, point(0, -10, -10));
                    assert_eq!(bbox.max, point(110, 10, 10));
                }
                _ => panic!("the two nearest nodes were joined first"),
            }
        }
        _ => panic!("three primitives make an inner root"),
    }
}

#[test]
fn nearest_node_ties_go_to_the_first() {
    let a = ball(-50, 0, 0, 10, 1);
    let b = ball(50, 0, 0, 10, 2);
    let c = ball(0, 0, 0, 10, 3);
    let bvh = BoundingVolumeHierarchy::new(vec![a, b, c]);
    match bvh.root.as_deref() {
        Some(BVHNode::Internal { left, right, .. }) => {
            assert_eq!(leaf_primitive(left), b);
            match &**right {
                BVHNode::Internal { left, right, .. } => {
                    assert_eq!(leaf_primitive(left), c);
                    assert_eq!(leaf_primitive(right), a);
                }
                _ => panic!("the tie goes to the first node"),
            }
        }
        _ => panic!("three primitives make an inner root"),
    }
}

#[test]
fn node_constructors_build_boxes() {
    let a = ball(0, 0, 0, 10, 1);
    let b = ball(100, 0, 0, 10, 2);
    let la = BVHNode::new_leaf(a);
    let lb = BVHNode::new_leaf(b);
    assert_eq!(*la.bounding_box(), a.get_bounding_box());
    let n = BVHNode::new(Box::new(la), Box::new(lb));
    assert_eq!(n.bounding_box().min, point(-10, -10, -10));
    assert_eq!(n.bounding_box().max, point(110, 10, 10));
    let ray = Ray::new(point(50, 0, 500), Vector3::new(50, 0, -500));
    let h = n.intersect(&ray).unwrap();
    assert_eq!(h.color, Color::new(2, 0, 0));
}

#[test]
fn nearer_of_two_hits_wins() {
    let near = ball(0, 0, 200, 50, 1);
    let far = ball(0, 0, -200, 50, 2);
    let ray = Ray::new(point(0, 0, 500), Vector3::new(0, 0, -1));
    for primitives in [vec![near, far], vec![far, near]] {
        let bvh = BoundingVolumeHierarchy::new(primitives);
        let h = bvh.intersect(&ray).unwrap();
        assert_eq!(
            h,
            HitInfo {
                color: Color::new(1, 0, 0),
                normal: Vector3::new(0, 0, ONE),
                p_hit: point(0, 0, 250),
                distance: world(250),
            }
        );
    }
}

#[test]
fn hit_at_the_threshold_is_not_reported() {
    let wall = Primitive::Triangle(Triangle::new(
        point(-100, -100, 0),
        point(100, -100, 0),
        point(0, 100, 0),
        Color::new(1, 0, 0),
    ));
    let bvh = BoundingVolumeHierarchy::new(vec![wall]);
    let at = Ray::new(point(0, 0, 1), Vector3::new(0, 0, -1));
    assert_eq!(wall.intersect(&at), Some(HIT_THRESHOLD));
    assert_eq!(bvh.intersect(&at), None);
    let beyond = Ray::new(Point3::new(0, 0, ONE + 1), Vector3::new(0, 0, -1));
    assert_eq!(bvh.intersect(&beyond).map(|h| h.distance), Some(ONE + 1));
    let on = Ray::new(point(0, 0, 0), Vector3::new(0, 0, -1));
    assert_eq!(bvh.intersect(&on), None);
    let behind = Ray::new(point(0, 0, 10), Vector3::new(0, 0, 1));
    assert_eq!(bvh.intersect(&behind), None);
}

#[test]
fn equal_distances_are_settled_the_same_way_every_time() {
    let first = ball(0, 0, 0, 100, 1);
    let second = ball(0, 0, 0, 100, 2);
    let ray = Ray::new(point(0, 0, 500), Vector3::new(0, 0, -1));
    for _ in 0..3 {
        let bvh = BoundingVolumeHierarchy::new(vec![first, second]);
        let h = bvh.intersect(&ray).unwrap();
        assert_eq!(h.distance, world(400));
        assert_eq!(h.color, Color::new(1, 0, 0));
    }
}
