//! Rays, colours and the other small values the kernel passes around.

pub mod bounding_volume_hierarchy;
pub mod camera;
pub mod color;
pub mod intersection;
pub mod ray;
pub mod scene;

pub use crate::utils::bounding_volume_hierarchy::BoundingVolumeHierarchy;
pub use crate::utils::bounding_volume_hierarchy::HitInfo;
pub use crate::utils::camera::Camera;
pub use crate::utils::color::Color;
pub use crate::utils::ray::Ray;
pub use crate::utils::scene::Scene;
