//! Integer core of a stochastic path tracer: where each pixel sample lands in
//! the image, how the finished pixel grid is written as plain-text PPM, and the
//! shape of the bounding-volume hierarchy built over the scene's primitives.
pub mod bvh;
pub mod image;

pub use bvh::{BvhNode, PrimKey};
pub use image::{encode_ppm, pixel_position, Rgb};
