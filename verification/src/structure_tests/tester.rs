use vstd::prelude::*;
use std::rc::Rc;

use crate::world::registry::Registry;
use crate::world::world_holder::{Color, CommonVoxelData, Material, Voxel};

verus! {

/// Cells of the test world along x.
pub const WORLD_X: u32 = 513;
/// Cells of the test world along y.
pub const WORLD_Y: u32 = 384;
/// Half the cells of the test world along y.
pub const WORLD_HALF_Y: u32 = 192;
/// Cells of the test world along z.
pub const WORLD_Z: u32 = 513;

/// The voxel data that a test fill made, each kind under its name.
pub struct TestDataset {
    pub materials: Registry<Rc<Material>>,
    pub colors: Registry<Rc<Color>>,
    pub common_voxel_dataset: Registry<Rc<CommonVoxelData>>,
    pub voxels: Registry<Rc<Voxel>>,
}

impl TestDataset {
    /// A dataset without any entry.
    pub fn new() -> (r: Self)
        ensures
            r.materials@ == Map::<Seq<char>, Rc<Material>>::empty(),
            r.colors@ == Map::<Seq<char>, Rc<Color>>::empty(),
            r.common_voxel_dataset@ == Map::<Seq<char>, Rc<CommonVoxelData>>::empty(),
            r.voxels@ == Map::<Seq<char>, Rc<Voxel>>::empty(),
    {
        Self {
            colors: Registry::new(),
            materials: Registry::new(),
            common_voxel_dataset: Registry::new(),
            voxels: Registry::new(),
        }
    }

    /// Adds every entry of `dataset`; names that both hold take the entry of
    /// `dataset`.
    pub fn expand(&mut self, dataset: TestDataset)
        ensures
            final(self).materials@ == old(self).materials@.union_prefer_right(dataset.materials@),
            final(self).colors@ == old(self).colors@.union_prefer_right(dataset.colors@),
            final(self).common_voxel_dataset@ == old(self).common_voxel_dataset@.union_prefer_right(
                dataset.common_voxel_dataset@,
            ),
            final(self).voxels@ == old(self).voxels@.union_prefer_right(dataset.voxels@),
    {
        self.materials.extend(dataset.materials);
        self.colors.extend(dataset.colors);
        self.common_voxel_dataset.extend(dataset.common_voxel_dataset);
        self.voxels.extend(dataset.voxels);
    }
}

/// The fill patterns that exercise the voxel stores.
pub struct Tester {}

impl Tester {
    /// The cell of the `n`-th voxel of the test world: `n` counts x fastest,
    /// then y, then z, on a grid `WORLD_Z` cells wide and `WORLD_Y` high.
    pub fn get_3d_indices_from_n(n: u32) -> (r: (u32, u32, u32))
        ensures
            r.0 == n as int % WORLD_Z as int,
            r.1 == (n as int % (WORLD_Y * WORLD_Z)) / WORLD_Z as int,
            r.2 == n as int / (WORLD_Y * WORLD_Z),
            n == r.2 * (WORLD_Y * WORLD_Z) + r.1 * WORLD_Z + r.0,
    {
        let z = n / (WORLD_Y * WORLD_Z);
        let y = (n % (WORLD_Y * WORLD_Z)) / WORLD_Z;
        let x = n % WORLD_Z;
        proof {
            let m = (WORLD_Y * WORLD_Z) as int;
            vstd::arithmetic::div_mod::lemma_fundamental_div_mod(n as int, m);
            vstd::arithmetic::div_mod::lemma_fundamental_div_mod((n as int) % m, WORLD_Z as int);
            vstd::arithmetic::div_mod::lemma_mod_mod(n as int, WORLD_Z as int, WORLD_Y as int);
        }
        (x, y, z)
    }
}

} // verus!
