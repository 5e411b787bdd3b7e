//! A ray-tracing kernel with machine-checked contracts.
//!
//! A scene of spheres and triangles is rendered by casting rays from a
//! camera through the samples of every pixel, finding the nearest surface
//! that each ray hits, and shading that point by whether the light reaches
//! it. A bounding volume hierarchy keeps the search for the nearest hit
//! short; it is proved to find what a search through every primitive
//! would find.
//!
//! All arithmetic is fixed-point: a scalar is an `i64` that counts units
//! of `1 / ONE`, so that every result is an exact function of its inputs
//! and the contracts can say which. Products are kept exactly, in 128
//! bits, and rounded once.
//!
//! - [`scalar`] and [`vector`]: numbers, points and vectors;
//! - [`primitives`]: spheres, triangles, bounding boxes and the light;
//! - [`utils`]: rays, colours, the camera, the scene and the hierarchy;
//! - [`renderer`]: the colour of a pixel and the filling of an image;
//! - [`imaging`] and [`chance`]: the image that is filled, and what is
//!   drawn at random;
//! - [`cramer`]: the algebra behind the intersection of ray and triangle.

pub mod chance;
pub mod cramer;
pub mod imaging;
pub mod primitives;
pub mod renderer;
pub mod scalar;
pub mod utils;
pub mod vector;

pub use crate::renderer::render;
pub use crate::renderer::render_pixel;
