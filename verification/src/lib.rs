//! Core of an offline physically based renderer.
//!
//! The crate verifies the parts of the renderer whose behaviour is exact
//! integer and byte arithmetic: the deterministic PCG random source, the
//! high-dynamic-range image buffer over IEEE 754 bit patterns, the PFM
//! image codec with a proved write/read round trip, and the deterministic
//! random-stream schedule that drives per-pixel sampling.
//!
//! Geometry and radiometry (vectors, transforms, shading) compute with
//! floating point and live with the host around this library.

pub mod color;
pub mod error;
pub mod hdrimage;
pub mod imagetracer;
pub mod misc;
pub mod pfm;
pub mod random;
pub mod scene;
