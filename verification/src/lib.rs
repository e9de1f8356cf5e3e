//! Voxel world storage structures (octree, flat voxel map, voxel list), the
//! voxel dataset registries and the chunk bookkeeping of the world.

pub mod chunks_generators;
pub mod rc_util;
pub mod structure_tests;
pub mod world;
pub mod noise;
pub mod camera;
pub mod rendering;
