use vstd::prelude::*;
use std::rc::Rc;

use crate::chunks_generators::utilities::{create_voxel, files_voxel};
use crate::structure_tests::octree::{same_cell, Octree};
use crate::world::world_generator::WorldGenerative;
use crate::world::world_holder::{Color, Material, Voxel, VoxelDataset};

verus! {

/// The name of the one voxel of the generator: "grass".
pub open spec fn grass() -> Seq<char> {
    seq!['g', 'r', 'a', 's', 's']
}

/// Generates one grass voxel at the world origin.
pub struct GeneratorOfTest2Single {
    color: (u8, u8, u8),
}

impl GeneratorOfTest2Single {
    /// The color of the grass.
    pub closed spec fn grass_color(self) -> (u8, u8, u8) {
        self.color
    }

    pub fn new(_seed: u32) -> (r: Self)
        ensures
            r.grass_color() == (25u8, 150u8, 15u8),
    {
        Self { color: (25, 150, 15) }
    }
}

impl WorldGenerative for GeneratorOfTest2Single {
    /// In the chunk at the origin, the cell `(0, 0, 0)` holds the grass voxel
    /// (made or reused through `create_voxel`); every other cell, and every
    /// cell of other chunks, is empty.
    fn generate_chunk(&self, dataset: &mut VoxelDataset, origin: (i64, i64, i64), size: u8) -> (r: Octree<Voxel>)
        ensures
            origin == (0i64, 0i64, 0i64) ==> exists|v: Rc<Voxel>|
                files_voxel(*old(dataset), *final(dataset), grass(), Material { _density: 10 }, grass(),
                    Color { red: self.grass_color().0, green: self.grass_color().1, blue: self.grass_color().2 }, v)
                && forall|x: u32, y: u32, z: u32| #[trigger] r.at(x, y, z)
                    == if same_cell(r.max_depth(), (0, 0, 0), (x, y, z)) { Some(v) } else { None },
            origin != (0i64, 0i64, 0i64) ==> *final(dataset) == *old(dataset)
                && forall|x: u32, y: u32, z: u32| #[trigger] r.at(x, y, z) == None::<Rc<Voxel>>,
    {
        let mut world_holder = Octree::from_max_size(size as u32);

        if origin.0 == 0 && origin.1 == 0 && origin.2 == 0 {
            proof {
                reveal_strlit("grass");
            }
            let material_name = String::from_str("grass");
            let color_name = String::from_str("grass");
            assert(material_name@ =~= grass());
            assert(color_name@ =~= grass());
            let voxel = create_voxel(
                dataset,
                (material_name, Material { _density: 10 }),
                (color_name, Color { red: self.color.0, green: self.color.1, blue: self.color.2 }),
            );
            let ghost before = world_holder;
            world_holder.set_voxel(0, 0, 0, Some(voxel));
            assert(files_voxel(*old(dataset), *dataset, grass(), Material { _density: 10 }, grass(),
                Color { red: self.grass_color().0, green: self.grass_color().1, blue: self.grass_color().2 }, voxel));
        }

        world_holder
    }
}

} // verus!
