//! A bare record of an intersection.

use crate::utils::color::Color;
use crate::vector::Vector3;
use vstd::prelude::*;

verus! {

/// The colour and the normal of a surface where a ray meets it, and the
/// distance along the ray.
#[derive(Clone, Copy, Debug, PartialEq, Eq)]
pub struct Intersection {
    pub color: Color,
    pub time: i64,
    pub normal: Vector3,
}

} // verus!
