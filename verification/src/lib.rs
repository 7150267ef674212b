//! Verified planning core of a gravitational-lensing renderer.
//!
//! The numeric shading of a pixel (bending a photon under gravity and probing
//! scene geometry) is left to the caller. This crate decides everything around
//! it: the order in which pixels are visited, how an image is cut into
//! horizontal bands for parallel workers, when a photon trace stops, how band
//! artifacts are named and ordered, and how they are put back together.

pub mod artifact;
pub mod band;
pub mod paint;
pub mod raster;
pub mod screen;
pub mod stitch;
pub mod trace;
