use vstd::prelude::*;

use crate::structure_tests::octree::Octree;
use crate::world::world_holder::{Voxel, VoxelDataset};

verus! {

/// A source of chunk contents.
pub trait WorldGenerative {
    /// The voxels of the chunk with corner `origin` and edge `size`, filing
    /// the voxels it uses in `dataset`. The tree is as deep as `size` needs.
    fn generate_chunk(&self, dataset: &mut VoxelDataset, origin: (i64, i64, i64), size: u8) -> (r: Octree<Voxel>)
        requires
            size >= 1,
        ensures
            size <= vstd::arithmetic::power2::pow2(r.max_depth()),
            r.max_depth() == 0 || vstd::arithmetic::power2::pow2((r.max_depth() - 1) as nat) < size,
    ;
}

} // verus!
