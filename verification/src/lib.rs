//! Verified core of the isometric campus pipeline: value types, geometry
//! kernels, artifact contracts, and deterministic raster stages.
use vstd::prelude::*;

pub mod text;
pub mod primitives;
pub mod geometry;
pub mod heap;
pub mod digest;
pub mod mask;
pub mod reference;
pub mod style;
pub mod render;
pub mod raster;
pub mod stylize_image;
pub mod perception;
pub mod source;
pub mod atlas;
pub mod publish;
pub mod scene;
pub mod review;
pub mod overlap;

verus! {

} // verus!
