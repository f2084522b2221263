//! Error-diffusion dithering of grayscale images.
//!
//! Luminance is carried in fixed point: a sample value `v` stands for the
//! real number `v / SCALE`, with `SCALE == 65536`. The catalog kernels, the
//! histogram threshold and the raster-scan diffusion engine are all integer
//! arithmetic over this representation, so every step of the engine is
//! verified exactly.

use vstd::prelude::*;

pub mod algs;
pub mod engine;
pub mod naming;
pub mod srgb;
pub mod vecimg;

verus! {

/// Fixed-point scale: a sample value `v` denotes the real number `v / SCALE`.
pub const SCALE: i64 = 65536;

} // verus!
