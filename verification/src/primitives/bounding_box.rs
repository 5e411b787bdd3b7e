//! Axis-aligned bounding boxes.

use crate::primitives::{HasBoundingBox, HasCenter, Intersectable, Primitive, WellFormed};
use crate::scalar::{
    ceil_div, div_ceil, floor_div, lemma_div_ceil_ordered, lemma_floor_le_ceil,
    DISTANCE_MAX, ONE,
};
use crate::utils::ray::Ray;
use crate::vector::{lemma_direction_within, Point3, EDGE_MAX, V3};
use vstd::prelude::*;

verus! {

/// Stands for an unbounded ray parameter; larger than any finite one.
pub const T_INFINITY: i64 = DISTANCE_MAX;

/// An axis-aligned box, given by its smallest and largest corner.
#[derive(Clone, Copy, Debug, PartialEq, Eq)]
pub struct BoundingBox {
    pub min: Point3,
    pub max: Point3,
}

/// The smaller of two integers.
pub open spec fn min_int(a: int, b: int) -> int {
    if a < b {
        a
    } else {
        b
    }
}

/// The larger of two integers.
pub open spec fn max_int(a: int, b: int) -> int {
    if a > b {
        a
    } else {
        b
    }
}

/// The union of two boxes: the component-wise minimum of the smallest
/// corners and maximum of the largest.
pub open spec fn merged(a: BoundingBox, b: BoundingBox) -> BoundingBox {
    BoundingBox {
        min: Point3 {
            x: if a.min.x < b.min.x { a.min.x } else { b.min.x },
            y: if a.min.y < b.min.y { a.min.y } else { b.min.y },
            z: if a.min.z < b.min.z { a.min.z } else { b.min.z },
        },
        max: Point3 {
            x: if a.max.x > b.max.x { a.max.x } else { b.max.x },
            y: if a.max.y > b.max.y { a.max.y } else { b.max.y },
            z: if a.max.z > b.max.z { a.max.z } else { b.max.z },
        },
    }
}

/// The parameter at which a ray from `o` along `d` enters the slab
/// `[lo, hi]` of one axis, rounded down. Along a zero component the ray
/// is in the slab always or never.
pub open spec fn slab_enter(lo: int, hi: int, o: int, d: int) -> int {
    if d > 0 {
        ((lo - o) * ONE) / d
    } else if d < 0 {
        ((o - hi) * ONE) / (-d)
    } else if o >= lo {
        -T_INFINITY
    } else {
        T_INFINITY as int
    }
}

/// The parameter at which a ray from `o` along `d` leaves the slab
/// `[lo, hi]` of one axis, rounded up.
pub open spec fn slab_exit(lo: int, hi: int, o: int, d: int) -> int {
    if d > 0 {
        div_ceil((hi - o) * ONE, d)
    } else if d < 0 {
        div_ceil((o - lo) * ONE, -d)
    } else if o <= hi {
        T_INFINITY as int
    } else {
        -T_INFINITY
    }
}

impl BoundingBox {
    /// Whether `p` lies strictly inside the box.
    pub open spec fn strictly_contains(&self, p: V3) -> bool {
        &&& self.min.x < p.x < self.max.x
        &&& self.min.y < p.y < self.max.y
        &&& self.min.z < p.z < self.max.z
    }

    /// Whether `p` lies in the box or on its boundary.
    pub open spec fn contains(&self, p: V3) -> bool {
        &&& self.min.x <= p.x <= self.max.x
        &&& self.min.y <= p.y <= self.max.y
        &&& self.min.z <= p.z <= self.max.z
    }

    /// Whether `other` lies in the box.
    pub open spec fn encloses(&self, other: &BoundingBox) -> bool {
        &&& self.min.x <= other.min.x && other.max.x <= self.max.x
        &&& self.min.y <= other.min.y && other.max.y <= self.max.y
        &&& self.min.z <= other.min.z && other.max.z <= self.max.z
    }

    /// The largest entry parameter over the three axes.
    pub open spec fn enter(&self, ray: &Ray) -> int {
        max_int(
            slab_enter(self.min.x as int, self.max.x as int, ray.origin.x as int, ray.direction.x as int),
            max_int(
                slab_enter(self.min.y as int, self.max.y as int, ray.origin.y as int, ray.direction.y as int),
                slab_enter(self.min.z as int, self.max.z as int, ray.origin.z as int, ray.direction.z as int),
            ),
        )
    }

    /// The smallest exit parameter over the three axes.
    pub open spec fn exit(&self, ray: &Ray) -> int {
        min_int(
            slab_exit(self.min.x as int, self.max.x as int, ray.origin.x as int, ray.direction.x as int),
            min_int(
                slab_exit(self.min.y as int, self.max.y as int, ray.origin.y as int, ray.direction.y as int),
                slab_exit(self.min.z as int, self.max.z as int, ray.origin.z as int, ray.direction.z as int),
            ),
        )
    }

    /// The box around one primitive.
    pub fn new(primitive: &Primitive) -> (b: BoundingBox)
        requires
            primitive.wf(),
        ensures
            b == primitive.bounding_box(),
            b.wf(),
    {
        primitive.get_bounding_box()
    }

    /// The union of two boxes.
    pub fn new_from(left: &BoundingBox, right: &BoundingBox) -> (b: BoundingBox)
        ensures
            b == merged(*left, *right),
    {
        let min_x: i64 = if left.min.x < right.min.x { left.min.x } else { right.min.x };
        let min_y: i64 = if left.min.y < right.min.y { left.min.y } else { right.min.y };
        let min_z: i64 = if left.min.z < right.min.z { left.min.z } else { right.min.z };
        let max_x: i64 = if left.max.x > right.max.x { left.max.x } else { right.max.x };
        let max_y: i64 = if left.max.y > right.max.y { left.max.y } else { right.max.y };
        let max_z: i64 = if left.max.z > right.max.z { left.max.z } else { right.max.z };
        BoundingBox { min: Point3::new(min_x, min_y, min_z), max: Point3::new(max_x, max_y, max_z) }
    }
}

impl WellFormed for BoundingBox {
    /// The corners lie within `EDGE_MAX` and the smallest is no larger
    /// than the largest in any coordinate.
    open spec fn wf(&self) -> bool {
        &&& self.min@.within(EDGE_MAX as int)
        &&& self.max@.within(EDGE_MAX as int)
        &&& self.min.x <= self.max.x
        &&& self.min.y <= self.max.y
        &&& self.min.z <= self.max.z
    }
}

/// Along every axis the ray enters the slab no later than it leaves it.
pub proof fn lemma_slab_ordered(lo: int, hi: int, o: int, d: int)
    requires
        lo <= hi,
    ensures
        slab_enter(lo, hi, o, d) <= slab_exit(lo, hi, o, d),
{
    if d > 0 {
        assert((lo - o) * ONE <= (hi - o) * ONE) by (nonlinear_arith)
            requires
                lo <= hi,
                ONE > 0,
        ;
        vstd::arithmetic::div_mod::lemma_div_is_ordered((lo - o) * ONE, (hi - o) * ONE, d);
        lemma_floor_le_ceil((hi - o) * ONE, d);
    } else if d < 0 {
        assert((o - hi) * ONE <= (o - lo) * ONE) by (nonlinear_arith)
            requires
                lo <= hi,
                ONE > 0,
        ;
        vstd::arithmetic::div_mod::lemma_div_is_ordered((o - hi) * ONE, (o - lo) * ONE, -d);
        lemma_floor_le_ceil((o - lo) * ONE, -d);
    }
}

fn scaled_difference(a: i64, b: i64) -> (n: i128)
    requires
        -EDGE_MAX <= a <= EDGE_MAX,
        -EDGE_MAX <= b <= EDGE_MAX,
    ensures
        n == (a - b) * ONE,
        -T_INFINITY < n < T_INFINITY,
{
    let diff: i128 = (a as i128) - (b as i128);
    assert(-T_INFINITY < diff * 65536 < T_INFINITY);
    assert(diff * ONE == diff * 65536);
    diff * 65536
}

fn enter_axis(lo: i64, hi: i64, o: i64, d: i64) -> (t: i64)
    requires
        -EDGE_MAX <= lo <= EDGE_MAX,
        -EDGE_MAX <= hi <= EDGE_MAX,
        -EDGE_MAX <= o <= EDGE_MAX,
        -ONE <= d <= ONE,
    ensures
        t == slab_enter(lo as int, hi as int, o as int, d as int),
        -T_INFINITY <= t <= T_INFINITY,
{
    if d > 0 {
        floor_div(scaled_difference(lo, o), d as i128) as i64
    } else if d < 0 {
        floor_div(scaled_difference(o, hi), -(d as i128)) as i64
    } else if o >= lo {
        -T_INFINITY
    } else {
        T_INFINITY
    }
}

fn exit_axis(lo: i64, hi: i64, o: i64, d: i64) -> (t: i64)
    requires
        -EDGE_MAX <= lo <= EDGE_MAX,
        -EDGE_MAX <= hi <= EDGE_MAX,
        -EDGE_MAX <= o <= EDGE_MAX,
        -ONE <= d <= ONE,
    ensures
        t == slab_exit(lo as int, hi as int, o as int, d as int),
        -T_INFINITY <= t <= T_INFINITY,
{
    if d > 0 {
        ceil_div(scaled_difference(hi, o), d as i128) as i64
    } else if d < 0 {
        ceil_div(scaled_difference(o, lo), -(d as i128)) as i64
    } else if o <= hi {
        T_INFINITY
    } else {
        -T_INFINITY
    }
}

impl Intersectable for BoundingBox {
    /// Zero when the ray starts strictly inside the box. Otherwise the
    /// largest entry parameter, when it does not exceed the smallest exit
    /// parameter, is finite, and the exit lies ahead of the origin.
    open spec fn hit(&self, ray: &Ray) -> Option<int> {
        if self.strictly_contains(ray.origin@) {
            Some(0)
        } else if self.enter(ray) <= self.exit(ray) && self.enter(ray) < T_INFINITY && self.exit(ray) > 0 {
            Some(self.enter(ray))
        } else {
            None
        }
    }

    fn intersect(&self, ray: &Ray) -> (t: Option<i64>) {
        if ray.origin.x > self.min.x && ray.origin.x < self.max.x && ray.origin.y > self.min.y
            && ray.origin.y < self.max.y && ray.origin.z > self.min.z && ray.origin.z < self.max.z {
            return Some(0);
        }
        proof {
            lemma_direction_within(ray.direction@);
            lemma_slab_ordered(self.min.x as int, self.max.x as int, ray.origin.x as int, ray.direction.x as int);
            lemma_slab_ordered(self.min.y as int, self.max.y as int, ray.origin.y as int, ray.direction.y as int);
            lemma_slab_ordered(self.min.z as int, self.max.z as int, ray.origin.z as int, ray.direction.z as int);
        }
        let mut tmin: i64 = enter_axis(self.min.x, self.max.x, ray.origin.x, ray.direction.x);
        let mut tmax: i64 = exit_axis(self.min.x, self.max.x, ray.origin.x, ray.direction.x);
        let tymin: i64 = enter_axis(self.min.y, self.max.y, ray.origin.y, ray.direction.y);
        let tymax: i64 = exit_axis(self.min.y, self.max.y, ray.origin.y, ray.direction.y);
        if tmin > tymax || tymin > tmax {
            return None;
        }
        if tymin > tmin {
            tmin = tymin;
        }
        if tymax < tmax {
            tmax = tymax;
        }
        let tzmin: i64 = enter_axis(self.min.z, self.max.z, ray.origin.z, ray.direction.z);
        let tzmax: i64 = exit_axis(self.min.z, self.max.z, ray.origin.z, ray.direction.z);
        if tmin > tzmax || tzmin > tmax {
            return None;
        }
        if tzmin > tmin {
            tmin = tzmin;
        }
        if tzmax < tmax {
            tmax = tzmax;
        }
        if tmin < T_INFINITY && tmax > 0 {
            Some(tmin)
        } else {
            None
        }
    }
}

impl HasCenter for BoundingBox {
    /// The centroid: half the sum of the corners, rounded down.
    open spec fn center(&self) -> V3 {
        V3 {
            x: (self.min.x + self.max.x) / 2,
            y: (self.min.y + self.max.y) / 2,
            z: (self.min.z + self.max.z) / 2,
        }
    }

    fn get_center(&self) -> (p: Point3) {
        Point3 {
            x: floor_div((self.min.x as i128) + (self.max.x as i128), 2) as i64,
            y: floor_div((self.min.y as i128) + (self.max.y as i128), 2) as i64,
            z: floor_div((self.min.z as i128) + (self.max.z as i128), 2) as i64,
        }
    }
}

/// Merging two boxes gives the same box in either order.
pub proof fn lemma_merge_commutative(a: BoundingBox, b: BoundingBox)
    ensures
        merged(a, b) == merged(b, a),
{
}

/// Merging three boxes gives the same box however they are grouped.
pub proof fn lemma_merge_associative(a: BoundingBox, b: BoundingBox, c: BoundingBox)
    ensures
        merged(merged(a, b), c) == merged(a, merged(b, c)),
{
}

/// The union of two boxes encloses both, and is well formed if they are.
pub proof fn lemma_merge_encloses(a: BoundingBox, b: BoundingBox)
    ensures
        merged(a, b).encloses(&a),
        merged(a, b).encloses(&b),
        a.wf() && b.wf() ==> merged(a, b).wf(),
{
}

/// A wider slab is entered no later and left no earlier.
pub proof fn lemma_slab_widens(lo: int, hi: int, wide_lo: int, wide_hi: int, o: int, d: int)
    requires
        wide_lo <= lo,
        hi <= wide_hi,
    ensures
        slab_enter(wide_lo, wide_hi, o, d) <= slab_enter(lo, hi, o, d),
        slab_exit(lo, hi, o, d) <= slab_exit(wide_lo, wide_hi, o, d),
{
    if d > 0 {
        assert((wide_lo - o) * ONE <= (lo - o) * ONE && (hi - o) * ONE <= (wide_hi - o) * ONE)
            by (nonlinear_arith)
            requires
                wide_lo <= lo,
                hi <= wide_hi,
                ONE > 0,
        ;
        vstd::arithmetic::div_mod::lemma_div_is_ordered((wide_lo - o) * ONE, (lo - o) * ONE, d);
        lemma_div_ceil_ordered((hi - o) * ONE, (wide_hi - o) * ONE, d);
    } else if d < 0 {
        assert((o - wide_hi) * ONE <= (o - hi) * ONE && (o - lo) * ONE <= (o - wide_lo) * ONE)
            by (nonlinear_arith)
            requires
                wide_lo <= lo,
                hi <= wide_hi,
                ONE > 0,
        ;
        vstd::arithmetic::div_mod::lemma_div_is_ordered((o - wide_hi) * ONE, (o - hi) * ONE, -d);
        lemma_div_ceil_ordered((o - lo) * ONE, (o - wide_lo) * ONE, -d);
    }
}

/// A ray that hits a box hits every box around it.
pub proof fn lemma_enclosed_hit(inner: BoundingBox, outer: BoundingBox, ray: Ray)
    requires
        inner.wf(),
        outer.encloses(&inner),
        inner.hit(&ray) is Some,
    ensures
        outer.hit(&ray) is Some,
{
    let o = ray.origin@;
    let d = ray.direction@;
    lemma_slab_widens(inner.min.x as int, inner.max.x as int, outer.min.x as int, outer.max.x as int, o.x, d.x);
    lemma_slab_widens(inner.min.y as int, inner.max.y as int, outer.min.y as int, outer.max.y as int, o.y, d.y);
    lemma_slab_widens(inner.min.z as int, inner.max.z as int, outer.min.z as int, outer.max.z as int, o.z, d.z);
    lemma_slab_ordered(inner.min.x as int, inner.max.x as int, o.x, d.x);
    lemma_slab_ordered(inner.min.y as int, inner.max.y as int, o.y, d.y);
    lemma_slab_ordered(inner.min.z as int, inner.max.z as int, o.z, d.z);
}

/// The place `o + (tn / td) * d / ONE` lies in the slab `[lo, hi]`.
pub open spec fn in_slab(lo: int, hi: int, o: int, d: int, tn: int, td: int) -> bool {
    (lo - o) * ONE * td <= tn * d <= (hi - o) * ONE * td
}

/// A ray that is in a slab at the parameter `tn / td` has entered it by
/// then and has not left it before.
pub proof fn lemma_slab_holds(lo: int, hi: int, o: int, d: int, tn: int, td: int)
    requires
        td > 0,
        tn > 0,
        in_slab(lo, hi, o, d, tn, td),
        -EDGE_MAX <= lo <= EDGE_MAX,
        -EDGE_MAX <= hi <= EDGE_MAX,
        -EDGE_MAX <= o <= EDGE_MAX,
    ensures
        slab_enter(lo, hi, o, d) * td <= tn,
        slab_exit(lo, hi, o, d) == T_INFINITY || tn <= slab_exit(lo, hi, o, d) * td,
        slab_enter(lo, hi, o, d) < T_INFINITY,
        slab_exit(lo, hi, o, d) > 0,
{
    let one = ONE as int;
    if d > 0 {
        let n = (lo - o) * one;
        let m = (hi - o) * one;
        let e = n / d;
        let x = div_ceil(m, d);
        vstd::arithmetic::div_mod::lemma_fundamental_div_mod(n, d);
        vstd::arithmetic::div_mod::lemma_mod_bound(n, d);
        vstd::arithmetic::div_mod::lemma_fundamental_div_mod(-m, d);
        vstd::arithmetic::div_mod::lemma_mod_bound(-m, d);
        assert(e * td <= tn) by (nonlinear_arith)
            requires
                n == d * e + n % d,
                0 <= n % d,
                n * td <= tn * d,
                d > 0,
                td > 0,
        ;
        let q = (-m) / d;
        assert(tn <= x * td) by (nonlinear_arith)
            requires
                x == -q,
                -m == d * q + (-m) % d,
                0 <= (-m) % d,
                tn * d <= m * td,
                d > 0,
                td > 0,
        ;
        assert(x > 0) by (nonlinear_arith)
            requires
                tn <= x * td,
                tn > 0,
                td > 0,
        ;
        lemma_quotient_small(n, d);
    } else if d < 0 {
        let n = (o - hi) * one;
        let m = (o - lo) * one;
        let p = -d;
        let e = n / p;
        let x = div_ceil(m, p);
        vstd::arithmetic::div_mod::lemma_fundamental_div_mod(n, p);
        vstd::arithmetic::div_mod::lemma_mod_bound(n, p);
        vstd::arithmetic::div_mod::lemma_fundamental_div_mod(-m, p);
        vstd::arithmetic::div_mod::lemma_mod_bound(-m, p);
        assert(n * td <= tn * p) by (nonlinear_arith)
            requires
                tn * d <= (hi - o) * one * td,
                n == (o - hi) * one,
                p == -d,
        ;
        assert(tn * p <= m * td) by (nonlinear_arith)
            requires
                (lo - o) * one * td <= tn * d,
                m == (o - lo) * one,
                p == -d,
        ;
        assert(e * td <= tn) by (nonlinear_arith)
            requires
                n == p * e + n % p,
                0 <= n % p,
                n * td <= tn * p,
                p > 0,
                td > 0,
        ;
        let q = (-m) / p;
        assert(tn <= x * td) by (nonlinear_arith)
            requires
                x == -q,
                -m == p * q + (-m) % p,
                0 <= (-m) % p,
                tn * p <= m * td,
                p > 0,
                td > 0,
        ;
        assert(x > 0) by (nonlinear_arith)
            requires
                tn <= x * td,
                tn > 0,
                td > 0,
        ;
        lemma_quotient_small(n, p);
    } else {
        assert(tn * d == 0) by (nonlinear_arith)
            requires
                d == 0,
        ;
        assert(lo <= o) by (nonlinear_arith)
            requires
                (lo - o) * one * td <= 0,
                one > 0,
                td > 0,
        ;
        assert(o <= hi) by (nonlinear_arith)
            requires
                0 <= (hi - o) * one * td,
                one > 0,
                td > 0,
        ;
        assert(-T_INFINITY * td <= tn) by (nonlinear_arith)
            requires
                td > 0,
                tn > 0,
                T_INFINITY > 0,
        ;
    }
}

/// The quotient of a scaled difference of coordinates stays finite.
proof fn lemma_quotient_small(n: int, d: int)
    requires
        d > 0,
        -T_INFINITY < n < T_INFINITY,
    ensures
        n / d < T_INFINITY,
{
    if n >= 0 {
        vstd::arithmetic::div_mod::lemma_div_is_ordered_by_denominator(n, 1, d);
    } else {
        vstd::arithmetic::div_mod::lemma_div_is_ordered(n, 0, d);
    }
}

/// A ray that is inside a box at some positive parameter hits the box.
pub proof fn lemma_point_in_box_is_hit(b: BoundingBox, ray: Ray, tn: int, td: int)
    requires
        b.wf(),
        ray.wf(),
        td > 0,
        tn > 0,
        in_slab(b.min.x as int, b.max.x as int, ray.origin.x as int, ray.direction.x as int, tn, td),
        in_slab(b.min.y as int, b.max.y as int, ray.origin.y as int, ray.direction.y as int, tn, td),
        in_slab(b.min.z as int, b.max.z as int, ray.origin.z as int, ray.direction.z as int, tn, td),
    ensures
        b.hit(&ray) is Some,
{
    let o = ray.origin@;
    let d = ray.direction@;
    lemma_slab_holds(b.min.x as int, b.max.x as int, o.x, d.x, tn, td);
    lemma_slab_holds(b.min.y as int, b.max.y as int, o.y, d.y, tn, td);
    lemma_slab_holds(b.min.z as int, b.max.z as int, o.z, d.z, tn, td);
    let enter = b.enter(&ray);
    let exit = b.exit(&ray);
    assert(enter * td <= tn);
    if exit != T_INFINITY {
        assert(tn <= exit * td);
        assert(enter <= exit) by (nonlinear_arith)
            requires
                enter * td <= tn,
                tn <= exit * td,
                td > 0,
        ;
    }
}

} // verus!
