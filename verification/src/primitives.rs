//! The shapes a scene is made of, and what every shape can do.

pub mod bounding_box;
pub mod light;
pub mod sphere;
pub mod triangle;


pub use crate::primitives::bounding_box::BoundingBox;
pub use crate::utils::color::Color;
pub use crate::utils::ray::Ray;

use crate::primitives::sphere::Sphere;
use crate::primitives::triangle::Triangle;
use crate::scalar::{as_int, DISTANCE_MAX};
use crate::vector::{Point3, Vector3, V3};
use vstd::prelude::*;

verus! {

/// A value with an invariant that its operations rely on.
pub trait WellFormed {
    /// The invariant.
    spec fn wf(&self) -> bool;
}

/// Shapes that fit in an axis-aligned box.
pub trait HasBoundingBox: WellFormed {
    /// The smallest axis-aligned box around the shape.
    spec fn bounding_box(&self) -> BoundingBox;

    fn get_bounding_box(&self) -> (b: BoundingBox)
        requires
            self.wf(),
        ensures
            b == self.bounding_box(),
            b.wf(),
    ;
}

/// Shapes with a surface colour.
pub trait HasColor {
    /// The surface colour.
    spec fn color(&self) -> Color;

    fn get_color(&self) -> (c: Color)
        ensures
            c == self.color(),
    ;
}

/// Shapes that a ray can meet.
pub trait Intersectable: WellFormed {
    /// The distance along `ray` at which it meets the shape, if it does.
    spec fn hit(&self, ray: &Ray) -> Option<int>;

    fn intersect(&self, ray: &Ray) -> (t: Option<i64>)
        requires
            self.wf(),
            ray.wf(),
        ensures
            as_int(t) == self.hit(ray),
            t matches Some(v) ==> -DISTANCE_MAX <= v <= DISTANCE_MAX,
    ;
}

/// Shapes with a center.
pub trait HasCenter: WellFormed {
    /// The center.
    spec fn center(&self) -> V3;

    fn get_center(&self) -> (p: Point3)
        requires
            self.wf(),
        ensures
            p@ == self.center(),
    ;
}

/// Shapes with a surface normal.
pub trait HasNormal: WellFormed {
    /// The unit normal of the surface at `p`.
    spec fn normal_at(&self, p: Point3) -> V3;

    fn get_normal(&self, p: Point3) -> (n: Vector3)
        requires
            self.wf(),
            p.wf(),
        ensures
            n@ == self.normal_at(p),
            n@.is_direction(),
    ;
}

/// A shape of the scene: one of a closed set of kinds.
#[derive(Clone, Copy, Debug, PartialEq, Eq)]
pub enum Primitive {
    Sphere(Sphere),
    Triangle(Triangle),
}

impl WellFormed for Primitive {
    /// The shape inside is well formed.
    open spec fn wf(&self) -> bool {
        match self {
            Primitive::Sphere(s) => s.wf(),
            Primitive::Triangle(t) => t.wf(),
        }
    }
}

impl HasBoundingBox for Primitive {
    open spec fn bounding_box(&self) -> BoundingBox {
        match self {
            Primitive::Sphere(s) => s.bounding_box(),
            Primitive::Triangle(t) => t.bounding_box(),
        }
    }

    fn get_bounding_box(&self) -> (b: BoundingBox) {
        match self {
            Primitive::Sphere(s) => s.get_bounding_box(),
            Primitive::Triangle(t) => t.get_bounding_box(),
        }
    }
}

impl HasColor for Primitive {
    open spec fn color(&self) -> Color {
        match self {
            Primitive::Sphere(s) => s.color(),
            Primitive::Triangle(t) => t.color(),
        }
    }

    fn get_color(&self) -> (c: Color) {
        match self {
            Primitive::Sphere(s) => s.get_color(),
            Primitive::Triangle(t) => t.get_color(),
        }
    }
}

impl Intersectable for Primitive {
    open spec fn hit(&self, ray: &Ray) -> Option<int> {
        match self {
            Primitive::Sphere(s) => s.hit(ray),
            Primitive::Triangle(t) => t.hit(ray),
        }
    }

    fn intersect(&self, ray: &Ray) -> (t: Option<i64>) {
        match self {
            Primitive::Sphere(s) => s.intersect(ray),
            Primitive::Triangle(t) => t.intersect(ray),
        }
    }
}

impl HasCenter for Primitive {
    open spec fn center(&self) -> V3 {
        match self {
            Primitive::Sphere(s) => s.center(),
            Primitive::Triangle(t) => t.center(),
        }
    }

    fn get_center(&self) -> (p: Point3) {
        match self {
            Primitive::Sphere(s) => s.get_center(),
            Primitive::Triangle(t) => t.get_center(),
        }
    }
}

impl HasNormal for Primitive {
    open spec fn normal_at(&self, p: Point3) -> V3 {
        match self {
            Primitive::Sphere(s) => s.normal_at(p),
            Primitive::Triangle(t) => t.normal_at(p),
        }
    }

    fn get_normal(&self, p: Point3) -> (n: Vector3) {
        match self {
            Primitive::Sphere(s) => s.get_normal(p),
            Primitive::Triangle(t) => t.get_normal(p),
        }
    }
}

} // verus!
