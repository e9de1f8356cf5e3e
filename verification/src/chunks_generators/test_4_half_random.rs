use vstd::prelude::*;
use std::rc::Rc;

use crate::chunks_generators::test_2_single::grass;
use crate::chunks_generators::utilities::{create_voxel, files_voxel, generate_unique};
use crate::rc_util::clone_rc;
use crate::structure_tests::octree::{same_cell, Octree};
use crate::world::world_holder::{Color, Material, Voxel, VoxelDataset};

verus! {

/// The magnitude of `v`, which must not be `i64::MIN`.
pub(crate) fn abs_i64(v: i64) -> (r: i64)
    requires
        v != i64::MIN,
    ensures
        r == if v < 0 { -v } else { v as int },
{
    if v < 0 {
        -v
    } else {
        v
    }
}

/// The cell of the chunk of edge `size` that the number `i` picks: x is
/// `i mod size`, y the next digit in base `size`, z the rest.
pub open spec fn picked_cell(i: u32, size: u32) -> (u32, u32, u32) {
    ((i % size) as u32, ((i / size) % size) as u32, (i as int / (size * size)) as u32)
}

/// Some number among `randoms` picks a cell in the unit cell of `q`.
pub open spec fn picked(randoms: Seq<u32>, size: u32, d: nat, q: (u32, u32, u32)) -> bool {
    exists|j: int| 0 <= j < randoms.len() && same_cell(d, #[trigger] picked_cell(randoms[j], size), q)
}

/// Generates chunks half filled with grass at randomly picked cells.
pub struct GeneratorOfTest4HalfRandom {
    color: (u8, u8, u8),
}

impl GeneratorOfTest4HalfRandom {
    /// The color of the grass.
    pub closed spec fn grass_color(self) -> (u8, u8, u8) {
        self.color
    }

    pub fn new(_seed: u32) -> (r: Self)
        ensures
            r.grass_color() == (25u8, 150u8, 15u8),
    {
        Self { color: (25, 150, 15) }
    }

    /// The seed of the random cells of the chunk at `origin`: the magnitudes
    /// of its coordinates, x shifted left by 6 and y by 3, or-ed together.
    pub fn half_random_seed(origin: (i64, i64, i64)) -> (r: u64)
        requires
            origin.0 != i64::MIN && origin.1 != i64::MIN && origin.2 != i64::MIN,
        ensures
            r == ((if origin.0 < 0 { -origin.0 } else { origin.0 as int }) as u64) << 6u64
                | ((if origin.1 < 0 { -origin.1 } else { origin.1 as int }) as u64) << 3u64
                | ((if origin.2 < 0 { -origin.2 } else { origin.2 as int }) as u64),
    {
        (abs_i64(origin.0) as u64) << 6 | (abs_i64(origin.1) as u64) << 3 | (abs_i64(origin.2) as u64)
    }

    /// Number of random cells for a chunk of edge `size`: half its cells.
    pub fn random_cells_count(size: u8) -> (r: usize)
        ensures
            r == (size as int * size as int * size as int) / 2,
    {
        let size = size as usize;
        proof {
            assert(size * size * size <= 255 * 255 * 255) by (nonlinear_arith)
                requires size <= 255;
            assert(size * size <= 255 * 255) by (nonlinear_arith)
                requires size <= 255;
        }
        size * size * size / 2
    }

    /// The chunk at `origin` of edge `size`: distinct numbers drawn with the
    /// seed of `origin`, at most half as many as the chunk has cells, pick the
    /// cells that hold the grass voxel (see `generate_chunk_with_randoms`).
    pub fn generate_chunk_at(&self, dataset: &mut VoxelDataset, origin: (i64, i64, i64), size: u8) -> (r: Octree<Voxel>)
        requires
            size >= 1,
            origin.0 != i64::MIN && origin.1 != i64::MIN && origin.2 != i64::MIN,
        ensures
            r.max_depth() <= 32,
            size <= vstd::arithmetic::power2::pow2(r.max_depth()),
            r.max_depth() == 0 || vstd::arithmetic::power2::pow2((r.max_depth() - 1) as nat) < size,
            exists|randoms: Seq<u32>|
                #![trigger randoms.no_duplicates()]
                randoms.no_duplicates() && randoms.len() <= (size as int * size as int * size as int) / 2
                && exists|v: Rc<Voxel>|
                files_voxel(*old(dataset), *final(dataset), grass(), Material { _density: 10 }, grass(),
                    Color { red: self.grass_color().0, green: self.grass_color().1, blue: self.grass_color().2 }, v)
                && forall|x: u32, y: u32, z: u32| #[trigger] r.at(x, y, z)
                    == if picked(randoms, size as u32, r.max_depth(), (x, y, z)) { Some(v) } else { None },
    {
        let count = Self::random_cells_count(size);
        proof {
            assert(size as int * size as int * size as int <= 255 * 255 * 255) by (nonlinear_arith)
                requires size <= 255;
        }
        let randoms = generate_unique(Self::half_random_seed(origin), count);
        let r = self.generate_chunk_with_randoms(dataset, size, &randoms);
        assert(randoms@.no_duplicates());
        r
    }

    /// The chunk of edge `size` whose cells picked by `randoms` hold the grass
    /// voxel (made or reused through `create_voxel`) and whose other cells are
    /// empty.
    pub fn generate_chunk_with_randoms(&self, dataset: &mut VoxelDataset, size: u8, randoms: &Vec<u32>) -> (r: Octree<Voxel>)
        requires
            size >= 1,
        ensures
            r.max_depth() <= 32,
            size <= vstd::arithmetic::power2::pow2(r.max_depth()),
            r.max_depth() == 0 || vstd::arithmetic::power2::pow2((r.max_depth() - 1) as nat) < size,
            exists|v: Rc<Voxel>|
                files_voxel(*old(dataset), *final(dataset), grass(), Material { _density: 10 }, grass(),
                    Color { red: self.grass_color().0, green: self.grass_color().1, blue: self.grass_color().2 }, v)
                && forall|x: u32, y: u32, z: u32| #[trigger] r.at(x, y, z)
                    == if picked(randoms@, size as u32, r.max_depth(), (x, y, z)) { Some(v) } else { None },
    {
        let mut world_holder = Octree::from_max_size(size as u32);
        let d = Ghost(world_holder.max_depth());
        let size = size as u32;
        proof {
            reveal_strlit("grass");
        }
        let material_name = String::from_str("grass");
        let color_name = String::from_str("grass");
        assert(material_name@ =~= grass());
        assert(color_name@ =~= grass());
        let voxel = create_voxel(
            dataset,
            (material_name, Material { _density: 10 }),
            (color_name, Color { red: self.color.0, green: self.color.1, blue: self.color.2 }),
        );

        let mut k: usize = 0;
        while k < randoms.len()
            invariant
                1 <= size <= 255,
                files_voxel(*old(dataset), *dataset, grass(), Material { _density: 10 }, grass(),
                    Color { red: self.grass_color().0, green: self.grass_color().1, blue: self.grass_color().2 }, voxel),
                world_holder.max_depth() == d@,
                d@ <= 32,
                k <= randoms@.len(),
                forall|x: u32, y: u32, z: u32| #[trigger] world_holder.at(x, y, z)
                    == if picked(randoms@.take(k as int), size, d@, (x, y, z)) { Some(voxel) } else { None },
            decreases randoms@.len() - k,
        {
            let i = randoms[k];
            proof {
                assert(1 <= size * size <= 255 * 255) by (nonlinear_arith)
                    requires 1 <= size <= 255;
            }
            let x = i % size;
            let y = (i / size) % size;
            let z = i / (size * size);
            let ghost before = world_holder;
            world_holder.set_voxel(x, y, z, Some(clone_rc(&voxel)));
            proof {
                let p = (x, y, z);
                assert(p == picked_cell(randoms@[k as int], size));
                assert forall|a: u32, b: u32, c: u32| #[trigger] world_holder.at(a, b, c)
                    == if picked(randoms@.take(k as int + 1), size, d@, (a, b, c)) { Some(voxel) } else { None } by {
                    let q = (a, b, c);
                    let t = randoms@.take(k as int + 1);
                    if same_cell(d@, p, q) {
                        assert(t[k as int] == randoms@[k as int]);
                        assert(same_cell(d@, picked_cell(t[k as int], size), q));
                    } else {
                        if picked(randoms@.take(k as int), size, d@, q) {
                            let j = choose|j: int| 0 <= j < randoms@.take(k as int).len()
                                && same_cell(d@, #[trigger] picked_cell(randoms@.take(k as int)[j], size), q);
                            assert(t[j] == randoms@.take(k as int)[j]);
                        }
                        if picked(t, size, d@, q) {
                            let j = choose|j: int| 0 <= j < t.len() && same_cell(d@, #[trigger] picked_cell(t[j], size), q);
                            if j < k {
                                assert(randoms@.take(k as int)[j] == t[j]);
                            }
                        }
                    }
                }
            }
            k = k + 1;
        }
        assert(randoms@.take(randoms@.len() as int) =~= randoms@);
        world_holder
    }
}

} // verus!
