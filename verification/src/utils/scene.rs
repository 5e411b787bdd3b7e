//! Scenes.

use crate::primitives::light::Light;
use crate::utils::bounding_volume_hierarchy::BoundingVolumeHierarchy;
use crate::utils::camera::Camera;
use vstd::prelude::*;

verus! {

/// All that a rendering needs: the size of the image, the light, the
/// camera and the hierarchy over the primitives.
#[derive(Debug)]
pub struct Scene {
    pub width: u32,
    pub height: u32,
    pub light: Light,
    pub camera: Camera,
    pub bvh: BoundingVolumeHierarchy,
}

impl Scene {
    /// The light lies within the coordinate range, and the camera and the
    /// hierarchy are well formed.
    pub open spec fn wf(&self) -> bool {
        &&& self.light.position.wf()
        &&& self.camera.wf()
        &&& self.bvh.wf()
    }
}

} // verus!
