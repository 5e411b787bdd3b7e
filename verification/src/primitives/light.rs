//! Lights.

use crate::primitives::Primitive;
use crate::vector::Point3;
use vstd::prelude::*;

verus! {

/// A light: the point it shines from, and the shapes that give it an extent.
#[derive(Debug)]
pub struct Light {
    pub position: Point3,
    pub primitives: Vec<Primitive>,
}

} // verus!
