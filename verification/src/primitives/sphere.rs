//! Spheres.

use crate::primitives::bounding_box::{in_slab, lemma_point_in_box_is_hit, BoundingBox};
use crate::primitives::{HasBoundingBox, HasCenter, HasColor, HasNormal, Intersectable, WellFormed};
use crate::scalar::{
    floor_div, isqrt, lemma_mul_within, lemma_sqrt_bound, lemma_sqrt_floor,
    lemma_sqrt_of_square, sqrt_floor, COORD_MAX, ONE,
};
use crate::utils::color::Color;
use crate::utils::ray::Ray;
use crate::vector::{
    lemma_direction_within, lemma_swap_factors, normalized, Point3, Vector3, EDGE_MAX, V3,
};
use vstd::prelude::*;

verus! {

/// A sphere, given by its center and radius.
#[derive(Clone, Copy, Debug, PartialEq, Eq)]
pub struct Sphere {
    pub radius: i64,
    pub origin: Point3,
    pub color: Color,
}

impl Sphere {
    /// The sphere of the given radius around `origin`.
    pub fn new(radius: i64, origin: Point3, color: Color) -> (s: Sphere)
        requires
            0 <= radius <= COORD_MAX,
            origin.wf(),
            color.wf(),
        ensures
            s.radius == radius,
            s.origin == origin,
            s.color == color,
            s.wf(),
    {
        Sphere { radius, origin, color }
    }

    /// The vector from the origin of `ray` to the center.
    pub open spec fn to_center(&self, ray: &Ray) -> V3 {
        self.origin@.minus(ray.origin@)
    }

    /// The dot product of the vector to the center and the direction of
    /// `ray`: negative when the center lies behind the origin.
    pub open spec fn projection(&self, ray: &Ray) -> int {
        self.to_center(ray).dot(ray.direction@)
    }

    /// The distance from the origin of `ray` to the point of the ray
    /// nearest to the center, rounded down.
    pub open spec fn tca(&self, ray: &Ray) -> int {
        self.projection(ray) / (ONE as int)
    }

    /// The squared distance from the center to the line of `ray`, at
    /// the doubled scale, rounded up: the squared length of the vector
    /// to the center, less the square of its projection on the line.
    pub open spec fn d2(&self, ray: &Ray) -> int {
        self.to_center(ray).norm2() - (self.projection(ray) * self.projection(ray))
            / ray.direction@.norm2()
    }

    /// Half the length of the chord that `ray` cuts from the sphere.
    pub open spec fn thc(&self, ray: &Ray) -> int {
        sqrt_floor(self.radius * self.radius - self.d2(ray))
    }
}

impl WellFormed for Sphere {
    /// The radius is not negative, and radius, center and colour lie in
    /// their ranges.
    open spec fn wf(&self) -> bool {
        &&& 0 <= self.radius <= COORD_MAX
        &&& self.origin.wf()
        &&& self.color.wf()
    }
}

impl HasBoundingBox for Sphere {
    /// The center, less and plus the radius along every axis.
    open spec fn bounding_box(&self) -> BoundingBox {
        BoundingBox {
            min: Point3 {
                x: (self.origin.x - self.radius) as i64,
                y: (self.origin.y - self.radius) as i64,
                z: (self.origin.z - self.radius) as i64,
            },
            max: Point3 {
                x: (self.origin.x + self.radius) as i64,
                y: (self.origin.y + self.radius) as i64,
                z: (self.origin.z + self.radius) as i64,
            },
        }
    }

    fn get_bounding_box(&self) -> (b: BoundingBox) {
        BoundingBox {
            min: Point3::new(
                self.origin.x - self.radius,
                self.origin.y - self.radius,
                self.origin.z - self.radius,
            ),
            max: Point3::new(
                self.origin.x + self.radius,
                self.origin.y + self.radius,
                self.origin.z + self.radius,
            ),
        }
    }
}

impl HasColor for Sphere {
    open spec fn color(&self) -> Color {
        self.color
    }

    fn get_color(&self) -> (c: Color) {
        Color::new_copy(&self.color)
    }
}

impl Intersectable for Sphere {
    /// Nothing when the direction is zero, when the center lies behind
    /// the origin of the ray, or when the line of the ray passes the
    /// center at more than the radius. Otherwise the nearer of the two
    /// crossings, or the farther one when the nearer lies behind the
    /// origin.
    open spec fn hit(&self, ray: &Ray) -> Option<int> {
        if ray.direction@.is_zero() || self.projection(ray) < 0 || self.d2(ray) > self.radius
            * self.radius {
            None
        } else if self.tca(ray) - self.thc(ray) < 0 {
            Some(self.tca(ray) + self.thc(ray))
        } else {
            Some(self.tca(ray) - self.thc(ray))
        }
    }

    fn intersect(&self, ray: &Ray) -> (t: Option<i64>) {
        proof {
            lemma_direction_within(ray.direction@);
        }
        let l: Vector3 = self.origin.minus(&ray.origin);
        let b: i128 = l.dot(&ray.direction);
        if ray.direction.is_zero() || b < 0 {
            return None;
        }
        proof {
            lemma_mul_within(l.x as int, ray.direction.x as int, EDGE_MAX as int, ONE as int);
            lemma_mul_within(l.y as int, ray.direction.y as int, EDGE_MAX as int, ONE as int);
            lemma_mul_within(l.z as int, ray.direction.z as int, EDGE_MAX as int, ONE as int);
        }
        let tca: i128 = floor_div(b, ONE as i128);
        let a: i128 = ray.direction.dot(&ray.direction);
        proof {
            let d = ray.direction@;
            assert(a > 0) by (nonlinear_arith)
                requires
                    a == d.x * d.x + d.y * d.y + d.z * d.z,
                    !(d.x == 0 && d.y == 0 && d.z == 0),
            ;
            vstd::arithmetic::div_mod::lemma_div_pos_is_pos(b as int, ONE as int);
            vstd::arithmetic::div_mod::lemma_div_is_ordered(b as int, 3 * (EDGE_MAX * ONE), ONE as int);
            lemma_mul_within(b as int, b as int, 3 * (EDGE_MAX * ONE), 3 * (EDGE_MAX * ONE));
            lemma_mul_within(l.x as int, l.x as int, EDGE_MAX as int, EDGE_MAX as int);
            lemma_mul_within(l.y as int, l.y as int, EDGE_MAX as int, EDGE_MAX as int);
            lemma_mul_within(l.z as int, l.z as int, EDGE_MAX as int, EDGE_MAX as int);
            lemma_mul_within(self.radius as int, self.radius as int, COORD_MAX as int, COORD_MAX as int);
            assert(0 <= b * b) by (nonlinear_arith);
        }
        let ll: i128 = l.dot(&l);
        let along: i128 = floor_div(b * b, a);
        let d2: i128 = ll - along;
        let r2: i128 = (self.radius as i128) * (self.radius as i128);
        if d2 > r2 {
            return None;
        }
        let thc: i128 = isqrt((r2 - d2) as u128) as i128;
        proof {
            assert(ll >= 0) by (nonlinear_arith)
                requires
                    ll == l.x * l.x + l.y * l.y + l.z * l.z,
            ;
            vstd::arithmetic::div_mod::lemma_div_pos_is_pos(b * b, a as int);
            lemma_sqrt_bound((r2 - d2) as int, 1152921504606846976);
        }
        let t0: i128 = tca - thc;
        let t1: i128 = tca + thc;
        if t0 < 0 {
            Some(t1 as i64)
        } else {
            Some(t0 as i64)
        }
    }
}

impl HasCenter for Sphere {
    open spec fn center(&self) -> V3 {
        self.origin@
    }

    fn get_center(&self) -> (p: Point3) {
        self.origin
    }
}

impl HasNormal for Sphere {
    /// The unit vector from the center to `p`.
    open spec fn normal_at(&self, p: Point3) -> V3 {
        normalized(p@.minus(self.origin@))
    }

    fn get_normal(&self, p: Point3) -> (n: Vector3) {
        p.minus(&self.origin).widen().normalize()
    }
}

/// A ray that starts outside a sphere and does not point toward its
/// center misses the sphere.
pub proof fn lemma_ray_pointing_away_misses(s: Sphere, ray: Ray)
    requires
        s.to_center(&ray).norm2() > s.radius * s.radius,
        s.to_center(&ray).dot(ray.direction@) <= 0,
    ensures
        s.hit(&ray) is None,
{
    let b = s.projection(&ray);
    if b == 0 && !ray.direction@.is_zero() {
        lemma_zero_projection(s, ray);
    }
}

/// A ray at right angles to the vector to the center passes the center
/// at the length of that vector.
proof fn lemma_zero_projection(s: Sphere, ray: Ray)
    requires
        s.projection(&ray) == 0,
        !ray.direction@.is_zero(),
    ensures
        s.tca(&ray) == 0,
        s.d2(&ray) == s.to_center(&ray).norm2(),
{
    let d = ray.direction@;
    let a = d.norm2();
    assert(a > 0) by (nonlinear_arith)
        requires
            a == d.x * d.x + d.y * d.y + d.z * d.z,
            !(d.x == 0 && d.y == 0 && d.z == 0),
    ;
    assert(s.projection(&ray) * s.projection(&ray) == 0);
    assert(0int / a == 0) by (nonlinear_arith)
        requires
            a > 0,
    ;
}

/// A ray that starts at the center of a sphere, along any direction but
/// the zero vector, leaves the sphere at the distance of the radius.
pub proof fn lemma_ray_from_center_hits_at_radius(s: Sphere, ray: Ray)
    requires
        0 <= s.radius,
        ray.origin == s.origin,
        !ray.direction@.is_zero(),
    ensures
        s.hit(&ray) == Some(s.radius as int),
{
    let l = s.to_center(&ray);
    assert(l.x == 0 && l.y == 0 && l.z == 0);
    assert(l.dot(ray.direction@) == 0) by (nonlinear_arith)
        requires
            l.x == 0 && l.y == 0 && l.z == 0,
            l.dot(ray.direction@) == l.x * ray.direction@.x + l.y * ray.direction@.y + l.z
                * ray.direction@.z,
    ;
    assert(l.norm2() == 0) by (nonlinear_arith)
        requires
            l.x == 0 && l.y == 0 && l.z == 0,
            l.norm2() == l.x * l.x + l.y * l.y + l.z * l.z,
    ;
    lemma_zero_projection(s, ray);
    assert(s.d2(&ray) == 0);
    lemma_sqrt_of_square(s.radius as int);
    assert(0 <= s.radius * s.radius) by (nonlinear_arith);
    assert(s.thc(&ray) == s.radius);
}

/// `(a * l - b * d)^2`, written out.
proof fn lemma_offset_square(a: int, b: int, l: int, d: int)
    ensures
        (a * l - b * d) * (a * l - b * d) == (a * a) * (l * l) - 2 * ((a * b) * (l * d)) + (b * b)
            * (d * d),
{
    let p = a * l;
    let q = b * d;
    assert((p - q) * (p - q) == p * p - 2 * (p * q) + q * q) by (nonlinear_arith);
    lemma_swap_factors(a, l, a, l);
    lemma_swap_factors(a, l, b, d);
    lemma_swap_factors(b, d, b, d);
}

/// A number whose square is at most the square of a bound that is not
/// negative lies within the bound.
proof fn lemma_square_within(w: int, m: int)
    requires
        0 <= m,
        w * w <= m * m,
    ensures
        -m <= w <= m,
{
    if w > m {
        assert(w * w > m * m) by (nonlinear_arith)
            requires
                w > m,
                m >= 0,
        ;
    }
    if w < -m {
        assert(w * w > m * m) by (nonlinear_arith)
            requires
                w < -m,
                m >= 0,
        ;
    }
}

/// Along a ray that hits a sphere, the point nearest to the center lies
/// in the sphere: in every coordinate it is no farther from the center
/// than the radius. With `a` the squared length of the direction and
/// `b` the dot product of the direction and the vector to the center,
/// that point is `origin + (b / a) * direction`.
proof fn lemma_nearest_point_in_sphere(s: Sphere, ray: Ray)
    requires
        s.wf(),
        ray.wf(),
        s.hit(&ray) is Some,
    ensures
        ({
            let l = s.to_center(&ray);
            let d = ray.direction@;
            let a = d.norm2();
            let b = l.dot(d);
            let r = s.radius as int;
            &&& a > 0
            &&& b >= 0
            &&& -(r * a) <= a * l.x - b * d.x <= r * a
            &&& -(r * a) <= a * l.y - b * d.y <= r * a
            &&& -(r * a) <= a * l.z - b * d.z <= r * a
        }),
{
    let l = s.to_center(&ray);
    let d = ray.direction@;
    let a = d.norm2();
    let b = l.dot(d);
    let r = s.radius as int;
    let ll = l.norm2();
    assert(a > 0) by (nonlinear_arith)
        requires
            a == d.x * d.x + d.y * d.y + d.z * d.z,
            !(d.x == 0 && d.y == 0 && d.z == 0),
    ;
    // the projection, squared and divided by a, times a is at most b * b
    let bb = b * b;
    let along = bb / a;
    vstd::arithmetic::div_mod::lemma_fundamental_div_mod(bb, a);
    vstd::arithmetic::div_mod::lemma_mod_bound(bb, a);
    let r2 = r * r;
    assert(ll - along <= r2);
    assert(a * (ll - r2) <= a * along) by (nonlinear_arith)
        requires
            ll - r2 <= along,
            a > 0,
    ;
    assert(a * (ll - r2) == a * ll - a * r2) by (nonlinear_arith);
    let gap = a * ll - b * b;
    assert(gap <= a * r2);
    // the squares of the three offsets sum to a * gap
    let wx = a * l.x - b * d.x;
    let wy = a * l.y - b * d.y;
    let wz = a * l.z - b * d.z;
    lemma_offset_square(a, b, l.x, d.x);
    lemma_offset_square(a, b, l.y, d.y);
    lemma_offset_square(a, b, l.z, d.z);
    let aa = a * a;
    let ab = a * b;
    let bb = b * b;
    assert(aa * (l.x * l.x) + aa * (l.y * l.y) + aa * (l.z * l.z) == aa * ll) by (nonlinear_arith)
        requires
            ll == l.x * l.x + l.y * l.y + l.z * l.z,
    ;
    assert(ab * (l.x * d.x) + ab * (l.y * d.y) + ab * (l.z * d.z) == ab * b) by (nonlinear_arith)
        requires
            b == l.x * d.x + l.y * d.y + l.z * d.z,
    ;
    assert(bb * (d.x * d.x) + bb * (d.y * d.y) + bb * (d.z * d.z) == bb * a) by (nonlinear_arith)
        requires
            a == d.x * d.x + d.y * d.y + d.z * d.z,
    ;
    assert(ab * b == a * bb) by (nonlinear_arith)
        requires
            ab == a * b,
            bb == b * b,
    ;
    assert(bb * a == a * bb) by (nonlinear_arith);
    assert(aa * ll == a * (a * ll)) by (nonlinear_arith)
        requires
            aa == a * a,
    ;
    assert(a * gap == a * (a * ll) - a * bb) by (nonlinear_arith)
        requires
            gap == a * ll - bb,
    ;
    assert(wx * wx + wy * wy + wz * wz == a * gap);
    let m = r * a;
    assert(a * gap <= a * (a * r2)) by (nonlinear_arith)
        requires
            gap <= a * r2,
            a > 0,
    ;
    assert(a * (a * r2) == m * m) by (nonlinear_arith)
        requires
            m == r * a,
            r2 == r * r,
    ;
    assert(0 <= wx * wx && 0 <= wy * wy && 0 <= wz * wz) by (nonlinear_arith);
    assert(0 <= m) by (nonlinear_arith)
        requires
            m == r * a,
            0 <= r,
            0 < a,
    ;
    lemma_square_within(wx, m);
    lemma_square_within(wy, m);
    lemma_square_within(wz, m);
}

/// One coordinate of the nearest point, put as a place in a slab of the
/// bounding box.
proof fn lemma_offset_in_slab(c: int, r: int, o: int, d: int, a: int, b: int)
    requires
        -(r * a) <= a * (c - o) - b * d <= r * a,
    ensures
        in_slab(c - r, c + r, o, d, b * ONE, a),
{
    let one = ONE as int;
    let l = c - o;
    assert(((c - r) - o) * one * a == (a * l - r * a) * one) by (nonlinear_arith)
        requires
            l == c - o,
    ;
    assert(((c + r) - o) * one * a == (a * l + r * a) * one) by (nonlinear_arith)
        requires
            l == c - o,
    ;
    assert((b * one) * d == (b * d) * one) by (nonlinear_arith);
    assert((a * l - r * a) * one <= (b * d) * one <= (a * l + r * a) * one) by (nonlinear_arith)
        requires
            -(r * a) <= a * l - b * d <= r * a,
            one > 0,
    ;
}

/// A ray that hits a sphere ahead of its origin hits the bounding box of
/// the sphere.
pub proof fn lemma_sphere_hit_in_box(s: Sphere, ray: Ray)
    requires
        s.wf(),
        ray.wf(),
        s.hit(&ray) matches Some(x) && x > 0,
    ensures
        s.bounding_box().hit(&ray) is Some,
{
    let l = s.to_center(&ray);
    let d = ray.direction@;
    let a = d.norm2();
    let b = l.dot(d);
    let r = s.radius as int;
    let bx = s.bounding_box();
    lemma_nearest_point_in_sphere(s, ray);
    if b == 0 {
        lemma_zero_projection(s, ray);
        let ll = l.norm2();
        let room = r * r - ll;
        assert(0 <= room);
        lemma_sqrt_floor(room);
        let thc = s.thc(&ray);
        assert(thc > 0);
        assert(room >= 1) by (nonlinear_arith)
            requires
                thc * thc <= room,
                thc >= 1,
        ;
        assert(l.x * l.x <= ll && l.y * l.y <= ll && l.z * l.z <= ll) by (nonlinear_arith)
            requires
                ll == l.x * l.x + l.y * l.y + l.z * l.z,
        ;
        lemma_strictly_within(l.x, r);
        lemma_strictly_within(l.y, r);
        lemma_strictly_within(l.z, r);
        assert(bx.strictly_contains(ray.origin@));
    } else {
        lemma_offset_in_slab(s.origin.x as int, r, ray.origin.x as int, d.x, a, b);
        lemma_offset_in_slab(s.origin.y as int, r, ray.origin.y as int, d.y, a, b);
        lemma_offset_in_slab(s.origin.z as int, r, ray.origin.z as int, d.z, a, b);
        assert(b * ONE > 0) by (nonlinear_arith)
            requires
                b > 0,
                ONE > 0,
        ;
        lemma_point_in_box_is_hit(bx, ray, b * ONE, a);
    }
}

/// A number whose square is less than the square of a bound that is not
/// negative lies strictly within the bound.
proof fn lemma_strictly_within(w: int, m: int)
    requires
        0 <= m,
        w * w < m * m,
    ensures
        -m < w < m,
{
    if w >= m {
        assert(w * w >= m * m) by (nonlinear_arith)
            requires
                w >= m,
                m >= 0,
        ;
    }
    if w <= -m {
        assert(w * w >= m * m) by (nonlinear_arith)
            requires
                w <= -m,
                m >= 0,
        ;
    }
}

} // verus!
