//! Triangles.

use crate::cramer::lemma_cramer;
use crate::primitives::bounding_box::{
    in_slab, lemma_point_in_box_is_hit, max_int, min_int, BoundingBox,
};
use crate::primitives::{HasBoundingBox, HasCenter, HasColor, HasNormal, Intersectable, WellFormed};
use crate::scalar::{lemma_mul_within, scaled_quotient, scaled_ratio, DISTANCE_MAX, ONE};
use crate::utils::color::Color;
use crate::utils::ray::Ray;
use crate::vector::{
    lemma_commutes, lemma_direction_within, lemma_negated_product, lemma_sum_times,
    lemma_three_factors, lemma_times_difference, lemma_times_sum, lemma_triple_product,
    normalized, Point3, Vector3, Wide3, EDGE_MAX, V3,
};
use vstd::prelude::*;

verus! {

/// A ray whose determinant against a triangle is smaller than this in
/// magnitude counts as parallel to the triangle's plane. The determinant
/// carries three factors of `ONE`; this is 1e-7 at that scale, rounded up.
pub const PARALLEL_EPSILON: i128 = 28147498;

/// A triangle, given by its three vertices.
#[derive(Clone, Copy, Debug, PartialEq, Eq)]
pub struct Triangle {
    pub v0: Point3,
    pub v1: Point3,
    pub v2: Point3,
    pub color: Color,
    pub normal: Vector3,
    pub e1: Vector3,
    pub e2: Vector3,
}

/// The smaller of two scalars.
pub fn min_scalar(v0: i64, v1: i64) -> (m: i64)
    ensures
        m == min_int(v0 as int, v1 as int),
{
    if v0 < v1 {
        v0
    } else {
        v1
    }
}

/// The larger of two scalars.
pub fn max_scalar(v0: i64, v1: i64) -> (m: i64)
    ensures
        m == max_int(v0 as int, v1 as int),
{
    if v0 < v1 {
        v1
    } else {
        v0
    }
}

impl Triangle {
    /// The triangle on three vertices, with its edges from `v0` and its
    /// face normal.
    pub fn new(v0: Point3, v1: Point3, v2: Point3, color: Color) -> (t: Triangle)
        requires
            v0.wf(),
            v1.wf(),
            v2.wf(),
            color.wf(),
        ensures
            t.v0 == v0,
            t.v1 == v1,
            t.v2 == v2,
            t.color == color,
            t.wf(),
    {
        let e1: Vector3 = v1.minus(&v0);
        let e2: Vector3 = v2.minus(&v0);
        Triangle { v0, v1, v2, color, normal: e1.cross(&e2).normalize(), e1, e2 }
    }

    /// The cross product of the direction of `ray` and the second edge.
    pub open spec fn pvec(&self, ray: &Ray) -> V3 {
        ray.direction@.cross(self.e2@)
    }

    /// The determinant of the system that places the hit in the plane.
    pub open spec fn det(&self, ray: &Ray) -> int {
        self.e1@.dot(self.pvec(ray))
    }

    /// The vector from the first vertex to the origin of `ray`.
    pub open spec fn tvec(&self, ray: &Ray) -> V3 {
        ray.origin@.minus(self.v0@)
    }

    /// The cross product of `tvec` and the first edge.
    pub open spec fn qvec(&self, ray: &Ray) -> V3 {
        self.tvec(ray).cross(self.e1@)
    }

    /// The first barycentric coordinate of the hit, times the determinant.
    pub open spec fn u_scaled(&self, ray: &Ray) -> int {
        self.tvec(ray).dot(self.pvec(ray))
    }

    /// The second barycentric coordinate of the hit, times the determinant.
    pub open spec fn v_scaled(&self, ray: &Ray) -> int {
        ray.direction@.dot(self.qvec(ray))
    }

    /// The distance of the hit along the ray, times the determinant.
    pub open spec fn t_scaled(&self, ray: &Ray) -> int {
        self.e2@.dot(self.qvec(ray))
    }

    /// Whether the line of `ray` crosses the plane inside the triangle:
    /// the determinant is not within `PARALLEL_EPSILON` of zero and both
    /// barycentric coordinates and their sum lie in `[0, 1]`.
    pub open spec fn crosses(&self, ray: &Ray) -> bool {
        let det = self.det(ray);
        let u = self.u_scaled(ray);
        let v = self.v_scaled(ray);
        if det >= PARALLEL_EPSILON {
            0 <= u && 0 <= v && u + v <= det
        } else if det <= -PARALLEL_EPSILON {
            u <= 0 && v <= 0 && u + v >= det
        } else {
            false
        }
    }
}

impl WellFormed for Triangle {
    /// The vertices and the colour lie in their ranges, and the edges and
    /// the normal are the ones of the vertices.
    open spec fn wf(&self) -> bool {
        &&& self.v0.wf()
        &&& self.v1.wf()
        &&& self.v2.wf()
        &&& self.color.wf()
        &&& self.e1@ == self.v1@.minus(self.v0@)
        &&& self.e2@ == self.v2@.minus(self.v0@)
        &&& self.normal@ == normalized(self.e1@.cross(self.e2@))
    }
}

impl HasBoundingBox for Triangle {
    /// The component-wise minimum and maximum of the three vertices.
    open spec fn bounding_box(&self) -> BoundingBox {
        BoundingBox {
            min: Point3 {
                x: min_int(min_int(self.v0.x as int, self.v1.x as int), self.v2.x as int) as i64,
                y: min_int(min_int(self.v0.y as int, self.v1.y as int), self.v2.y as int) as i64,
                z: min_int(min_int(self.v0.z as int, self.v1.z as int), self.v2.z as int) as i64,
            },
            max: Point3 {
                x: max_int(max_int(self.v0.x as int, self.v1.x as int), self.v2.x as int) as i64,
                y: max_int(max_int(self.v0.y as int, self.v1.y as int), self.v2.y as int) as i64,
                z: max_int(max_int(self.v0.z as int, self.v1.z as int), self.v2.z as int) as i64,
            },
        }
    }

    fn get_bounding_box(&self) -> (b: BoundingBox) {
        BoundingBox {
            min: Point3::new(
                min_scalar(min_scalar(self.v0.x, self.v1.x), self.v2.x),
                min_scalar(min_scalar(self.v0.y, self.v1.y), self.v2.y),
                min_scalar(min_scalar(self.v0.z, self.v1.z), self.v2.z),
            ),
            max: Point3::new(
                max_scalar(max_scalar(self.v0.x, self.v1.x), self.v2.x),
                max_scalar(max_scalar(self.v0.y, self.v1.y), self.v2.y),
                max_scalar(max_scalar(self.v0.z, self.v1.z), self.v2.z),
            ),
        }
    }
}

impl HasColor for Triangle {
    open spec fn color(&self) -> Color {
        self.color
    }

    fn get_color(&self) -> (c: Color) {
        Color::new_copy(&self.color)
    }
}

impl Intersectable for Triangle {
    /// Nothing unless the line of the ray crosses the plane inside the
    /// triangle; then the signed distance along the ray to that crossing,
    /// rounded down and kept within `DISTANCE_MAX`.
    open spec fn hit(&self, ray: &Ray) -> Option<int> {
        if !self.crosses(ray) {
            None
        } else if self.det(ray) > 0 {
            Some(scaled_ratio(self.t_scaled(ray), self.det(ray)))
        } else {
            Some(scaled_ratio(-self.t_scaled(ray), -self.det(ray)))
        }
    }

    fn intersect(&self, ray: &Ray) -> (t: Option<i64>) {
        proof {
            lemma_direction_within(ray.direction@);
            let d = ray.direction@;
            let e1 = self.e1@;
            let e2 = self.e2@;
            let m: int = EDGE_MAX as int;
            let o: int = ONE as int;
            lemma_mul_within(d.y, e2.z, o, m);
            lemma_mul_within(d.z, e2.y, o, m);
            lemma_mul_within(d.z, e2.x, o, m);
            lemma_mul_within(d.x, e2.z, o, m);
            lemma_mul_within(d.x, e2.y, o, m);
            lemma_mul_within(d.y, e2.x, o, m);
            let p = self.pvec(ray);
            assert(p.within(2 * (o * m)));
            lemma_mul_within(e1.x, p.x, m, 2 * (o * m));
            lemma_mul_within(e1.y, p.y, m, 2 * (o * m));
            lemma_mul_within(e1.z, p.z, m, 2 * (o * m));
            let tv = self.tvec(ray);
            lemma_mul_within(tv.x, p.x, m, 2 * (o * m));
            lemma_mul_within(tv.y, p.y, m, 2 * (o * m));
            lemma_mul_within(tv.z, p.z, m, 2 * (o * m));
            let q = self.qvec(ray);
            lemma_mul_within(tv.y, e1.z, m, m);
            lemma_mul_within(tv.z, e1.y, m, m);
            lemma_mul_within(tv.z, e1.x, m, m);
            lemma_mul_within(tv.x, e1.z, m, m);
            lemma_mul_within(tv.x, e1.y, m, m);
            lemma_mul_within(tv.y, e1.x, m, m);
            assert(q.within(2 * (m * m)));
            lemma_mul_within(d.x, q.x, o, 2 * (m * m));
            lemma_mul_within(d.y, q.y, o, 2 * (m * m));
            lemma_mul_within(d.z, q.z, o, 2 * (m * m));
            lemma_mul_within(e2.x, q.x, m, 2 * (m * m));
            lemma_mul_within(e2.y, q.y, m, 2 * (m * m));
            lemma_mul_within(e2.z, q.z, m, 2 * (m * m));
        }
        let pvec: Wide3 = ray.direction.cross(&self.e2);
        let det: i128 = self.e1.dot_wide(&pvec);
        if det < PARALLEL_EPSILON && det > -PARALLEL_EPSILON {
            return None;
        }
        let tvec: Vector3 = ray.origin.minus(&self.v0);
        let u: i128 = tvec.dot_wide(&pvec);
        let qvec: Wide3 = tvec.cross(&self.e1);
        let v: i128 = ray.direction.dot_wide(&qvec);
        let t: i128 = self.e2.dot_wide(&qvec);
        if det > 0 {
            if u < 0 || u > det {
                return None;
            }
            if v < 0 || u + v > det {
                return None;
            }
            Some(scaled_quotient(t, det))
        } else {
            if u > 0 || u < det {
                return None;
            }
            if v > 0 || u + v < det {
                return None;
            }
            Some(scaled_quotient(-t, -det))
        }
    }
}

impl HasCenter for Triangle {
    /// The centroid of the bounding box.
    open spec fn center(&self) -> V3 {
        self.bounding_box().center()
    }

    fn get_center(&self) -> (p: Point3) {
        let bbox: BoundingBox = self.get_bounding_box();
        bbox.get_center()
    }
}

impl HasNormal for Triangle {
    /// The face normal, the same at every point.
    open spec fn normal_at(&self, p: Point3) -> V3 {
        self.normal@
    }

    fn get_normal(&self, p: Point3) -> (n: Vector3) {
        proof {
            crate::vector::lemma_normalized_is_direction(self.e1@.cross(self.e2@));
        }
        self.normal
    }
}

/// A place that is a weighted mean of three values lies in every slab
/// that holds the three. The weights `w - u - v`, `u` and `v` are not
/// negative, and the place is where the ray from `o` along `d` is at the
/// parameter `ts / w`.
proof fn lemma_weighted_in_slab(
    w: int,
    u: int,
    v: int,
    ts: int,
    va: int,
    vb: int,
    vc: int,
    o: int,
    d: int,
    lo: int,
    hi: int,
)
    requires
        w > 0,
        u >= 0,
        v >= 0,
        u + v <= w,
        w * (o - va) == u * (vb - va) + v * (vc - va) - ts * d,
        lo <= va <= hi,
        lo <= vb <= hi,
        lo <= vc <= hi,
    ensures
        in_slab(lo, hi, o, d, ts * ONE, w),
{
    let one = ONE as int;
    let rest = w - u - v;
    lemma_times_difference(w, o, va);
    lemma_times_difference(u, vb, va);
    lemma_times_difference(v, vc, va);
    lemma_sum_times(w, -u, -v, va);
    lemma_negated_product(u, va);
    lemma_negated_product(v, va);
    assert(ts * d + w * o == rest * va + u * vb + v * vc);
    assert(rest * lo + u * lo + v * lo <= rest * va + u * vb + v * vc) by (nonlinear_arith)
        requires
            rest >= 0,
            u >= 0,
            v >= 0,
            lo <= va,
            lo <= vb,
            lo <= vc,
    ;
    assert(rest * va + u * vb + v * vc <= rest * hi + u * hi + v * hi) by (nonlinear_arith)
        requires
            rest >= 0,
            u >= 0,
            v >= 0,
            va <= hi,
            vb <= hi,
            vc <= hi,
    ;
    assert(rest * lo + u * lo + v * lo == w * lo) by (nonlinear_arith)
        requires
            rest == w - u - v,
    ;
    assert(rest * hi + u * hi + v * hi == w * hi) by (nonlinear_arith)
        requires
            rest == w - u - v,
    ;
    let mid = ts * d;
    assert(w * lo - w * o <= mid <= w * hi - w * o);
    assert((lo - o) * one * w == (w * lo - w * o) * one) by (nonlinear_arith);
    assert((hi - o) * one * w == (w * hi - w * o) * one) by (nonlinear_arith);
    assert((ts * one) * d == mid * one) by (nonlinear_arith)
        requires
            mid == ts * d,
    ;
    assert((w * lo - w * o) * one <= mid * one <= (w * hi - w * o) * one) by (nonlinear_arith)
        requires
            w * lo - w * o <= mid <= w * hi - w * o,
            one > 0,
    ;
}

/// The same rule with every weight negated.
proof fn lemma_negated_rule(det: int, u: int, v: int, ts: int, tv: int, e1: int, e2: int, d: int)
    requires
        det * tv == u * e1 + v * e2 - ts * d,
    ensures
        (-det) * tv == (-u) * e1 + (-v) * e2 - (-ts) * d,
{
    lemma_negated_product(det, tv);
    lemma_negated_product(u, e1);
    lemma_negated_product(v, e2);
    lemma_negated_product(ts, d);
}

/// A ray that hits a triangle ahead of its origin hits the bounding box
/// of the triangle.
pub proof fn lemma_triangle_hit_in_box(t: Triangle, ray: Ray)
    requires
        t.wf(),
        ray.wf(),
        t.hit(&ray) matches Some(x) && x > 0,
    ensures
        t.bounding_box().hit(&ray) is Some,
{
    let det = t.det(&ray);
    let u = t.u_scaled(&ray);
    let v = t.v_scaled(&ray);
    let ts = t.t_scaled(&ray);
    let tv = t.tvec(&ray);
    let d = ray.direction@;
    let e1 = t.e1@;
    let e2 = t.e2@;
    let bx = t.bounding_box();
    let o = ray.origin@;
    lemma_cramer(e1, e2, d, tv);
    let one = ONE as int;
    if det > 0 {
        if ts * one <= 0 {
            vstd::arithmetic::div_mod::lemma_div_is_ordered(ts * one, 0, det);
        }
        assert(ts * one > 0);
        lemma_weighted_in_slab(det, u, v, ts, t.v0.x as int, t.v1.x as int, t.v2.x as int, o.x, d.x, bx.min.x as int, bx.max.x as int);
        lemma_weighted_in_slab(det, u, v, ts, t.v0.y as int, t.v1.y as int, t.v2.y as int, o.y, d.y, bx.min.y as int, bx.max.y as int);
        lemma_weighted_in_slab(det, u, v, ts, t.v0.z as int, t.v1.z as int, t.v2.z as int, o.z, d.z, bx.min.z as int, bx.max.z as int);
        lemma_point_in_box_is_hit(bx, ray, ts * one, det);
    } else {
        if (-ts) * one <= 0 {
            vstd::arithmetic::div_mod::lemma_div_is_ordered((-ts) * one, 0, -det);
        }
        assert((-ts) * one > 0);
        lemma_negated_rule(det, u, v, ts, tv.x, e1.x, e2.x, d.x);
        lemma_negated_rule(det, u, v, ts, tv.y, e1.y, e2.y, d.y);
        lemma_negated_rule(det, u, v, ts, tv.z, e1.z, e2.z, d.z);
        lemma_weighted_in_slab(-det, -u, -v, -ts, t.v0.x as int, t.v1.x as int, t.v2.x as int, o.x, d.x, bx.min.x as int, bx.max.x as int);
        lemma_weighted_in_slab(-det, -u, -v, -ts, t.v0.y as int, t.v1.y as int, t.v2.y as int, o.y, d.y, bx.min.y as int, bx.max.y as int);
        lemma_weighted_in_slab(-det, -u, -v, -ts, t.v0.z as int, t.v1.z as int, t.v2.z as int, o.z, d.z, bx.min.z as int, bx.max.z as int);
        lemma_point_in_box_is_hit(bx, ray, (-ts) * one, -det);
    }
}

/// Whether the ray is at the centroid of the triangle at the distance
/// `k`: whether three times the place `origin + k * direction / ONE` is
/// the sum of the vertices, coordinate by coordinate.
pub open spec fn at_centroid(t: Triangle, ray: Ray, k: int) -> bool {
    &&& 3 * (ONE * ray.origin.x + k * ray.direction.x) == ONE * (t.v0.x + t.v1.x + t.v2.x)
    &&& 3 * (ONE * ray.origin.y + k * ray.direction.y) == ONE * (t.v0.y + t.v1.y + t.v2.y)
    &&& 3 * (ONE * ray.origin.z + k * ray.direction.z) == ONE * (t.v0.z + t.v1.z + t.v2.z)
}

/// One coordinate of the cross product with `e1` of a vector that is
/// known `m` times over, as `one * (e1 + e2) - j * d`.
proof fn lemma_scaled_cross(
    m: int,
    one: int,
    j: int,
    ty: int,
    tz: int,
    ay: int,
    az: int,
    by: int,
    bz: int,
    dy: int,
    dz: int,
)
    requires
        m * ty == one * (ay + by) - j * dy,
        m * tz == one * (az + bz) - j * dz,
    ensures
        m * (ty * az - tz * ay) == one * (by * az - bz * ay) - j * (dy * az - dz * ay),
{
    let sy = m * ty;
    let sz = m * tz;
    lemma_times_difference(m, ty * az, tz * ay);
    lemma_three_factors(m, ty, az);
    lemma_three_factors(m, tz, ay);
    assert(m * (ty * az - tz * ay) == az * sy - ay * sz);
    lemma_scaled_term(az, one, j, ay, by, dy);
    lemma_scaled_term(ay, one, j, az, bz, dz);
    lemma_commutes(az, ay);
    lemma_times_difference(one, by * az, bz * ay);
    lemma_times_difference(j, dy * az, dz * ay);
}

/// `c * (one * (a + b) - j * d)`, multiplied out.
proof fn lemma_scaled_term(c: int, one: int, j: int, a: int, b: int, d: int)
    ensures
        c * (one * (a + b) - j * d) == one * (a * c) + one * (b * c) - j * (d * c),
{
    lemma_times_difference(c, one * (a + b), j * d);
    lemma_three_factors(c, one, a + b);
    lemma_times_sum(c, a, b);
    lemma_times_sum(one, c * a, c * b);
    lemma_three_factors(c, j, d);
    lemma_commutes(c, a);
    lemma_commutes(c, b);
}

/// A dot product with a vector that is known `m` times over, as
/// `one * a - j * b`.
proof fn lemma_scaled_dot(m: int, one: int, j: int, w: V3, q: V3, a: V3, b: V3)
    requires
        m * q.x == one * a.x - j * b.x,
        m * q.y == one * a.y - j * b.y,
        m * q.z == one * a.z - j * b.z,
    ensures
        m * w.dot(q) == one * w.dot(a) - j * w.dot(b),
{
    let sx = m * q.x;
    let sy = m * q.y;
    let sz = m * q.z;
    let qx = w.x * q.x;
    let qy = w.y * q.y;
    let qz = w.z * q.z;
    assert(m * (qx + qy + qz) == m * qx + m * qy + m * qz) by (nonlinear_arith);
    lemma_three_factors(m, w.x, q.x);
    lemma_three_factors(m, w.y, q.y);
    lemma_three_factors(m, w.z, q.z);
    assert(m * w.dot(q) == w.x * sx + w.y * sy + w.z * sz);
    lemma_times_difference(w.x, one * a.x, j * b.x);
    lemma_times_difference(w.y, one * a.y, j * b.y);
    lemma_times_difference(w.z, one * a.z, j * b.z);
    lemma_three_factors(w.x, one, a.x);
    lemma_three_factors(w.y, one, a.y);
    lemma_three_factors(w.z, one, a.z);
    lemma_three_factors(w.x, j, b.x);
    lemma_three_factors(w.y, j, b.y);
    lemma_three_factors(w.z, j, b.z);
    let ax = w.x * a.x;
    let ay = w.y * a.y;
    let az = w.z * a.z;
    let bx = w.x * b.x;
    let by = w.y * b.y;
    let bz = w.z * b.z;
    assert(one * (ax + ay + az) == one * ax + one * ay + one * az) by (nonlinear_arith);
    assert(j * (bx + by + bz) == j * bx + j * by + j * bz) by (nonlinear_arith);
}

/// A ray along the negated normal of a triangle that is at the centroid
/// at the distance `k` hits the triangle, at that distance and with both
/// barycentric coordinates and their sum in `[0, 1]`, unless the
/// triangle is so small that the ray counts as parallel to it.
pub proof fn lemma_ray_through_centroid_hits(t: Triangle, ray: Ray, k: int)
    requires
        t.wf(),
        ray.direction@ == (V3 { x: -t.normal.x, y: -t.normal.y, z: -t.normal.z }),
        0 < k <= DISTANCE_MAX,
        at_centroid(t, ray, k),
        t.normal@.dot(t.e1@.cross(t.e2@)) >= PARALLEL_EPSILON,
    ensures
        t.crosses(&ray),
        t.hit(&ray) == Some(k),
{
    let one = ONE as int;
    let d = ray.direction@;
    let n = t.normal@;
    let e1 = t.e1@;
    let e2 = t.e2@;
    let tv = t.tvec(&ray);
    let p = t.pvec(&ray);
    let q = t.qvec(&ray);
    let det = t.det(&ray);
    let u = t.u_scaled(&ray);
    let v = t.v_scaled(&ray);
    let ts = t.t_scaled(&ray);
    let zero = V3 { x: 0, y: 0, z: 0 };
    // three times ONE times tvec is ONE * (e1 + e2) - 3 * k * d
    let m = 3 * one;
    let j = 3 * k;
    let sum = e1.plus(e2);
    lemma_centroid_offset(one, k, ray.origin.x as int, d.x, t.v0.x as int, t.v1.x as int, t.v2.x as int);
    lemma_centroid_offset(one, k, ray.origin.y as int, d.y, t.v0.y as int, t.v1.y as int, t.v2.y as int);
    lemma_centroid_offset(one, k, ray.origin.z as int, d.z, t.v0.z as int, t.v1.z as int, t.v2.z as int);
    assert(m * tv.x == one * sum.x - j * d.x);
    assert(m * tv.y == one * sum.y - j * d.y);
    assert(m * tv.z == one * sum.z - j * d.z);
    // u
    lemma_scaled_dot(m, one, j, p, tv, sum, d);
    lemma_dot_commutes(p, tv);
    lemma_dot_commutes(p, d);
    lemma_dot_commutes(p, sum);
    lemma_triple_product(d, e2, e1);
    assert(sum.dot(p) == e1.dot(p) + e2.dot(p)) by (nonlinear_arith)
        requires
            sum.dot(p) == (e1.x + e2.x) * p.x + (e1.y + e2.y) * p.y + (e1.z + e2.z) * p.z,
            e1.dot(p) == e1.x * p.x + e1.y * p.y + e1.z * p.z,
            e2.dot(p) == e2.x * p.x + e2.y * p.y + e2.z * p.z,
    ;
    assert(d.dot(p) == 0 && e2.dot(p) == 0);
    assert(j * 0 == 0);
    assert(m * u == one * det);
    // m * qvec is ONE * (e2 x e1) - j * (d x e1)
    let a = e2.cross(e1);
    let b = d.cross(e1);
    lemma_scaled_cross(m, one, j, tv.y, tv.z, e1.y, e1.z, e2.y, e2.z, d.y, d.z);
    lemma_scaled_cross(m, one, j, tv.z, tv.x, e1.z, e1.x, e2.z, e2.x, d.z, d.x);
    lemma_scaled_cross(m, one, j, tv.x, tv.y, e1.x, e1.y, e2.x, e2.y, d.x, d.y);
    // v
    lemma_scaled_dot(m, one, j, d, q, a, b);
    lemma_triple_product(e1, d, e2);
    lemma_triple_product(d, e1, e2);
    assert(d.dot(a) == det);
    assert(d.dot(b) == 0);
    assert(m * v == one * det);
    // t
    lemma_scaled_dot(m, one, j, e2, q, a, b);
    lemma_triple_product(e2, e1, d);
    lemma_triple_product(e2, d, e1);
    assert(e2.dot(a) == 0);
    let c = e1.cross(e2);
    lemma_cross_reversed(e1, e2);
    lemma_dot_negated(d, c, a);
    assert(e2.dot(b) == d.dot(c));
    assert(one * 0 == 0);
    assert(j * (-det) == -(j * det)) by (nonlinear_arith);
    assert(m * ts == j * det);
    // the determinant is the dot product of the normal and e1 x e2
    lemma_dot_commutes(n, c);
    lemma_dot_commutes(d, c);
    lemma_dot_negated(c, n, d);
    assert(det == n.dot(c));
    assert(det >= PARALLEL_EPSILON);
    assert(3 * u == det && 3 * v == det) by (nonlinear_arith)
        requires
            m * u == one * det,
            m * v == one * det,
            m == 3 * one,
            one == 65536,
    ;
    assert(ts * one == k * det) by (nonlinear_arith)
        requires
            m * ts == j * det,
            m == 3 * one,
            j == 3 * k,
    ;
    vstd::arithmetic::div_mod::lemma_div_multiples_vanish(k, det);
}

/// One coordinate of the offset from the first vertex to the origin of
/// a ray that is at the centroid at the distance `k`.
proof fn lemma_centroid_offset(one: int, k: int, o: int, d: int, va: int, vb: int, vc: int)
    by (nonlinear_arith)
    requires
        3 * (one * o + k * d) == one * (va + vb + vc),
    ensures
        (3 * one) * (o - va) == one * ((vb - va) + (vc - va)) - (3 * k) * d,
{
}

/// The cross product changes sign when the two vectors change places.
proof fn lemma_cross_reversed(a: V3, b: V3)
    by (nonlinear_arith)
    ensures
        a.cross(b).x == -b.cross(a).x,
        a.cross(b).y == -b.cross(a).y,
        a.cross(b).z == -b.cross(a).z,
{
}

/// The dot product changes sign with one of the two vectors.
proof fn lemma_dot_negated(w: V3, c: V3, a: V3)
    by (nonlinear_arith)
    requires
        c.x == -a.x,
        c.y == -a.y,
        c.z == -a.z,
    ensures
        w.dot(c) == -w.dot(a),
{
}

/// The dot product does not depend on the order of the two vectors.
proof fn lemma_dot_commutes(a: V3, b: V3)
    by (nonlinear_arith)
    ensures
        a.dot(b) == b.dot(a),
{
}

} // verus!
