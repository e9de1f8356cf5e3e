//! The world: voxel data, chunks and their bookkeeping.

pub mod block;
pub mod chunk;
pub mod ores;
pub mod registry;
pub mod visible_fragment;
pub mod world_chunk;
pub mod world_generator;
pub mod world_holder;
pub mod world_chunk_worker;
pub mod chunk_region_iterator;
