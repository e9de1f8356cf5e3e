//! Making (or reusing) the voxel of a color and a material.

pub use crate::chunks_generators::utilities::create_voxel;
