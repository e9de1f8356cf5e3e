//! Structures that hold the voxels of a world region, and the datasets and
//! fill patterns that exercise them.

pub mod octree;
pub mod tester;
pub mod voxel_map;
pub mod voxel_list;
pub mod voxel_hasher;
