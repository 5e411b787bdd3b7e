//! Rays.

use crate::scalar::{clamp, floor_div, lemma_mul_within, COORD_MAX, DISTANCE_MAX, ONE};
use crate::vector::{lemma_direction_within, normalized, Point3, Vector3, V3};
use vstd::prelude::*;

verus! {

/// A half-line: the points `origin + t * direction` for `t >= 0`.
#[derive(Clone, Copy, Debug, PartialEq, Eq)]
pub struct Ray {
    pub origin: Point3,
    pub direction: Vector3,
}

impl Ray {
    /// The origin is a well-formed point and the direction is no longer
    /// than one world unit.
    pub open spec fn wf(&self) -> bool {
        self.origin.wf() && self.direction@.is_direction()
    }

    /// The point at distance `t` along the ray, each coordinate rounded
    /// down and kept within `COORD_MAX`.
    pub open spec fn at(&self, t: int) -> V3 {
        V3 {
            x: clamp(self.origin.x + (t * self.direction.x) / (ONE as int), -COORD_MAX, COORD_MAX as int),
            y: clamp(self.origin.y + (t * self.direction.y) / (ONE as int), -COORD_MAX, COORD_MAX as int),
            z: clamp(self.origin.z + (t * self.direction.z) / (ONE as int), -COORD_MAX, COORD_MAX as int),
        }
    }

    /// The ray from `origin` along `direction`, which is normalized.
    pub open spec fn along(origin: Point3, direction: V3) -> Ray {
        Ray { origin, direction: normalized(direction).as_vector() }
    }

    /// The ray from `origin` along `direction`, which is normalized.
    pub fn new(origin: Point3, direction: Vector3) -> (r: Ray)
        ensures
            r == Ray::along(origin, direction@),
            r.direction@ == normalized(direction@),
            direction@.is_zero() ==> r.direction@.is_zero(),
            !direction@.is_zero() ==> r.direction@.is_unit(),
            origin.wf() ==> r.wf(),
    {
        Ray { origin, direction: direction.widen().normalize() }
    }

    /// The point at distance `t` along the ray.
    pub fn point_at(&self, t: i64) -> (p: Point3)
        requires
            self.wf(),
            -DISTANCE_MAX <= t <= DISTANCE_MAX,
        ensures
            p@ == self.at(t as int),
            p.wf(),
    {
        proof {
            lemma_direction_within(self.direction@);
        }
        Point3 {
            x: advance(self.origin.x, t, self.direction.x),
            y: advance(self.origin.y, t, self.direction.y),
            z: advance(self.origin.z, t, self.direction.z),
        }
    }
}

fn advance(o: i64, t: i64, d: i64) -> (c: i64)
    requires
        -COORD_MAX <= o <= COORD_MAX,
        -DISTANCE_MAX <= t <= DISTANCE_MAX,
        -ONE <= d <= ONE,
    ensures
        c == clamp(o + (t * d) / (ONE as int), -COORD_MAX, COORD_MAX as int),
{
    proof {
        lemma_mul_within(t as int, d as int, DISTANCE_MAX as int, ONE as int);
    }
    let step: i128 = floor_div((t as i128) * (d as i128), ONE as i128);
    let c: i128 = (o as i128) + step;
    if c < -(COORD_MAX as i128) {
        -COORD_MAX
    } else if c > COORD_MAX as i128 {
        COORD_MAX
    } else {
        c as i64
    }
}

} // verus!
