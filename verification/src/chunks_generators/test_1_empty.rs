use vstd::prelude::*;
use std::rc::Rc;

use crate::structure_tests::octree::Octree;
use crate::world::world_generator::WorldGenerative;
use crate::world::world_holder::{Voxel, VoxelDataset};

verus! {

/// Generates empty chunks.
pub struct GeneratorOfTest1Empty {}

impl GeneratorOfTest1Empty {
    pub fn new(_seed: u32) -> (r: Self) {
        Self {}
    }
}

impl WorldGenerative for GeneratorOfTest1Empty {
    /// An empty tree deep enough for `size` cells; `dataset` is not touched.
    fn generate_chunk(&self, _dataset: &mut VoxelDataset, _origin: (i64, i64, i64), size: u8) -> (r: Octree<Voxel>)
        ensures
            forall|x: u32, y: u32, z: u32| #[trigger] r.at(x, y, z) == None::<Rc<Voxel>>,
            *final(_dataset) == *old(_dataset),
    {
        Octree::from_max_size(size as u32)
    }
}

} // verus!
