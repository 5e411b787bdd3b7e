//! The camera: an eye point and an orthonormal frame.

use crate::scalar::{floor_div, lemma_mul_within, COORD_MAX, ONE};
use crate::utils::ray::Ray;
use crate::vector::{
    lemma_direction_within, lemma_normalized_zero, normalized, Point3, Vector3, EDGE_MAX, V3,
};
use vstd::prelude::*;

verus! {

/// A camera at `eye` that looks at `look_at`. `u` points right, `v` up
/// and `w` back, away from what is looked at; `distance` is the distance
/// from the eye to the image plane.
#[derive(Clone, Copy, Debug, PartialEq, Eq)]
pub struct Camera {
    pub u: Vector3,
    pub v: Vector3,
    pub w: Vector3,
    pub eye: Point3,
    pub look_at: Point3,
    pub up_vector: Vector3,
    pub distance: i64,
}

/// The unit vector from `look_at` back to `eye`.
pub open spec fn basis_w(eye: V3, look_at: V3) -> V3 {
    normalized(eye.minus(look_at))
}

/// The unit vector to the right: along `up × w`.
pub open spec fn basis_u(eye: V3, look_at: V3, up: V3) -> V3 {
    normalized(normalized(up).cross(basis_w(eye, look_at)))
}

/// The unit vector upward in the image: along `u × w`.
pub open spec fn basis_v(eye: V3, look_at: V3, up: V3) -> V3 {
    normalized(basis_u(eye, look_at, up).cross(basis_w(eye, look_at)))
}

/// One component of the direction through a pixel sample: the offsets
/// `a` along `u` and `b` along `v`, less `distance` along `w`.
pub open spec fn through(a: int, u: int, b: int, v: int, distance: int, w: int) -> int {
    (a * u + b * v - distance * w) / (ONE as int)
}

/// The offset of a pixel sample from the middle of the image along one
/// axis: the pixel's place, less half the extent, plus the jitter.
pub open spec fn offset(pixel: int, extent: int, jitter: int) -> int {
    pixel * ONE - extent * (ONE / 2) + jitter
}

impl Camera {
    /// The frame is made of directions, and eye and distance lie in their
    /// ranges.
    pub open spec fn wf(&self) -> bool {
        &&& self.eye.wf()
        &&& self.u@.is_direction()
        &&& self.v@.is_direction()
        &&& self.w@.is_direction()
        &&& -COORD_MAX <= self.distance <= COORD_MAX
    }

    /// Whether `eye`, `look_at` and `up` define a frame: the eye is not
    /// the point looked at, and `up` is not parallel to the line of sight.
    pub open spec fn frame_defined(eye: V3, look_at: V3, up: V3) -> bool {
        !basis_w(eye, look_at).is_zero() && !basis_u(eye, look_at, up).is_zero()
    }

    /// The direction, before it is normalized, of the ray through the
    /// sample at `(pixel_x + jitter_u, pixel_y + jitter_v)` of an image
    /// of `width` by `height` pixels.
    pub open spec fn sample_direction(
        &self,
        pixel_x: u32,
        pixel_y: u32,
        jitter_u: i64,
        jitter_v: i64,
        width: u32,
        height: u32,
    ) -> V3 {
        let a = offset(pixel_x as int, width as int, jitter_u as int);
        let b = offset(pixel_y as int, height as int, jitter_v as int);
        V3 {
            x: through(a, self.u.x as int, b, self.v.x as int, self.distance as int, self.w.x as int),
            y: through(a, self.u.y as int, b, self.v.y as int, self.distance as int, self.w.y as int),
            z: through(a, self.u.z as int, b, self.v.z as int, self.distance as int, self.w.z as int),
        }
    }

    /// Whether `eye`, `look_at` and `up_vector` define a frame.
    pub fn frame_exists(eye: &Point3, look_at: &Point3, up_vector: &Vector3) -> (b: bool)
        requires
            eye.wf(),
            look_at.wf(),
        ensures
            b == Camera::frame_defined(eye@, look_at@, up_vector@),
    {
        let w: Vector3 = eye.minus(look_at).widen().normalize();
        let o: Vector3 = up_vector.widen().normalize();
        proof {
            lemma_one_within_edge();
        }
        let u: Vector3 = o.cross(&w).normalize();
        !w.is_zero() && !u.is_zero()
    }

    /// The camera at `eye` that looks at `look_at`, with `up_vector`
    /// giving the upward sense of the image.
    pub fn new(eye: Point3, look_at: Point3, up_vector: Vector3, distance: i64) -> (c: Camera)
        requires
            eye.wf(),
            look_at.wf(),
            -COORD_MAX <= distance <= COORD_MAX,
            Camera::frame_defined(eye@, look_at@, up_vector@),
        ensures
            c.w@ == basis_w(eye@, look_at@),
            c.u@ == basis_u(eye@, look_at@, up_vector@),
            c.v@ == basis_v(eye@, look_at@, up_vector@),
            c.eye == eye,
            c.look_at == look_at,
            c.up_vector@ == normalized(up_vector@),
            c.distance == distance,
            c.w@.is_unit(),
            c.u@.is_unit(),
            c.wf(),
    {
        proof {
            if eye@.minus(look_at@).is_zero() {
                lemma_normalized_zero(eye@.minus(look_at@));
            }
            if normalized(up_vector@).cross(basis_w(eye@, look_at@)).is_zero() {
                lemma_normalized_zero(normalized(up_vector@).cross(basis_w(eye@, look_at@)));
            }
        }
        let w: Vector3 = eye.minus(&look_at).widen().normalize();
        let o: Vector3 = up_vector.widen().normalize();
        proof {
            lemma_one_within_edge();
        }
        let u: Vector3 = o.cross(&w).normalize();
        let v: Vector3 = u.cross(&w).normalize();
        Camera { u, v, w, eye, look_at, up_vector: o, distance }
    }

    /// The ray from the eye through the sample at
    /// `(pixel_x + jitter_u, pixel_y + jitter_v)`.
    pub fn generate_ray(
        &self,
        pixel_x: u32,
        pixel_y: u32,
        jitter_u: i64,
        jitter_v: i64,
        width: u32,
        height: u32,
    ) -> (r: Ray)
        requires
            self.wf(),
            -COORD_MAX <= jitter_u <= COORD_MAX,
            -COORD_MAX <= jitter_v <= COORD_MAX,
        ensures
            r == Ray::along(
                self.eye,
                self.sample_direction(pixel_x, pixel_y, jitter_u, jitter_v, width, height),
            ),
            r.wf(),
    {
        let a: i128 = (pixel_x as i128) * 65536 - (width as i128) * 32768 + (jitter_u as i128);
        let b: i128 = (pixel_y as i128) * 65536 - (height as i128) * 32768 + (jitter_v as i128);
        proof {
            lemma_direction_within(self.u@);
            lemma_direction_within(self.v@);
            lemma_direction_within(self.w@);
        }
        let direction = Vector3 {
            x: blend(a, self.u.x, b, self.v.x, self.distance, self.w.x),
            y: blend(a, self.u.y, b, self.v.y, self.distance, self.w.y),
            z: blend(a, self.u.z, b, self.v.z, self.distance, self.w.z),
        };
        Ray::new(self.eye, direction)
    }
}

proof fn lemma_one_within_edge()
    ensures
        forall|v: V3| v.within(ONE as int) ==> #[trigger] v.within(EDGE_MAX as int),
{
}

fn blend(a: i128, u: i64, b: i128, v: i64, distance: i64, w: i64) -> (c: i64)
    requires
        -562949953421312 <= a <= 562949953421312,
        -562949953421312 <= b <= 562949953421312,
        -ONE <= u <= ONE,
        -ONE <= v <= ONE,
        -ONE <= w <= ONE,
        -COORD_MAX <= distance <= COORD_MAX,
    ensures
        c == through(a as int, u as int, b as int, v as int, distance as int, w as int),
{
    proof {
        lemma_mul_within(a as int, u as int, 562949953421312, ONE as int);
        lemma_mul_within(b as int, v as int, 562949953421312, ONE as int);
        lemma_mul_within(distance as int, w as int, COORD_MAX as int, ONE as int);
    }
    let sum: i128 = a * (u as i128) + b * (v as i128) - (distance as i128) * (w as i128);
    floor_div(sum, ONE as i128) as i64
}

} // verus!
