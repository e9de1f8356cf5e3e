use vstd::prelude::*;
use std::rc::Rc;

use crate::chunks_generators::test_4_half_random::abs_i64;
use crate::chunks_generators::utilities::{create_voxel, files_voxel, generate_unique};
use crate::rc_util::clone_rc;
use crate::structure_tests::octree::{fill_position, in_box, Octree};
use crate::world::world_chunk::CHUNK_SIZE;
use crate::world::world_holder::{Color, Material, Voxel, VoxelDataset};

verus! {

/// The name of the trunk voxel: "log".
pub open spec fn log_name() -> Seq<char> {
    seq!['l', 'o', 'g']
}

/// The name of the crown voxel: "leaves".
pub open spec fn leaves_name() -> Seq<char> {
    seq!['l', 'e', 'a', 'v', 'e', 's']
}

/// The cells a tree at `coords` takes: the trunk from `coords` six cells up
/// (`1`), the crown of five by three by five cells on its top (`2`) and the
/// three by three cells above the crown (`3`); 0 for the other cells.
pub open spec fn tree_part(p: (int, int, int), coords: (u32, u32, u32)) -> int {
    let (x, y, z) = (coords.0 as int, coords.1 as int, coords.2 as int);
    if in_box(p, ((x - 1) as u32, (y + 8) as u32, (z - 1) as u32), ((x + 1) as u32, (y + 8) as u32, (z + 1) as u32)) {
        3
    } else if in_box(p, ((x - 2) as u32, (y + 5) as u32, (z - 2) as u32), ((x + 2) as u32, (y + 7) as u32, (z + 2) as u32)) {
        2
    } else if in_box(p, coords, (coords.0, (y + 5) as u32, coords.2)) {
        1
    } else {
        0
    }
}

/// What planting a tree at `coords` does: the tree keeps its depth; a tree
/// whose foot is less than two cells from the low x or z end, or less than
/// eight cells below the chunk top, leaves dataset and tree as they were;
/// any other fills the dataset with the "log" and then the "leaves" voxel
/// (see `files_voxel`) and puts them in the cells of `tree_part`.
pub open spec fn tree_planted(
    d0: VoxelDataset,
    t0: Octree<Voxel>,
    coords: (u32, u32, u32),
    d1: VoxelDataset,
    t1: Octree<Voxel>,
) -> bool {
    &&& t1.max_depth() == t0.max_depth()
    &&& coords.0 < 2 || coords.1 > CHUNK_SIZE - 8 || coords.2 < 2 ==> d1 == d0 && t1 == t0
    &&& !(coords.0 < 2 || coords.1 > CHUNK_SIZE - 8 || coords.2 < 2) ==> exists|mid: VoxelDataset, log: Rc<Voxel>, leaves: Rc<Voxel>|
        {
            &&& files_voxel(d0, mid, log_name(), Material { _density: 10 }, log_name(),
                Color { red: 175, green: 40, blue: 20 }, log)
            &&& files_voxel(mid, d1, leaves_name(), Material { _density: 10 }, leaves_name(),
                Color { red: 20, green: 100, blue: 20 }, leaves)
            &&& forall|a: u32, b: u32, c: u32| #[trigger] t1.at(a, b, c) == {
                let part = tree_part(fill_position((0, 0, 0), t0.max_depth(), (a, b, c)), coords);
                if part >= 2 {
                    Some(leaves)
                } else if part == 1 {
                    Some(log)
                } else {
                    t0.at(a, b, c)
                }
            }
        }
}

/// Plants a tree with its trunk foot at `coords` of a chunk: a trunk of
/// "log" voxels six cells high, topped by a crown of "leaves" voxels (see
/// `tree_part`), the voxels made or reused through `create_voxel`. A tree
/// whose foot is less than two cells from the low x or z end, or less than
/// eight cells below the chunk top, is not planted.
pub fn plant_tree(dataset: &mut VoxelDataset, world_holder: &mut Octree<Voxel>, coords: (u32, u32, u32))
    requires
        !(coords.0 < 2 || coords.1 > CHUNK_SIZE - 8 || coords.2 < 2) ==> old(world_holder).max_depth() < 32
            && coords.0 + 2 <= u32::MAX && coords.2 + 2 <= u32::MAX,
    ensures
        tree_planted(*old(dataset), *old(world_holder), coords, *final(dataset), *final(world_holder)),
{
    if coords.0 < 2 || coords.1 > CHUNK_SIZE as u32 - 8 || coords.2 < 2 {
        return ;
    }
    proof {
        reveal_strlit("log");
        reveal_strlit("leaves");
    }
    let log_material = String::from_str("log");
    let log_color = String::from_str("log");
    assert(log_material@ =~= log_name());
    assert(log_color@ =~= log_name());
    let log = create_voxel(
        dataset,
        (log_material, Material { _density: 10 }),
        (log_color, Color { red: 175, green: 40, blue: 20 }),
    );
    let ghost mid = *dataset;
    let leaves_material = String::from_str("leaves");
    let leaves_color = String::from_str("leaves");
    assert(leaves_material@ =~= leaves_name());
    assert(leaves_color@ =~= leaves_name());
    let leaves = create_voxel(
        dataset,
        (leaves_material, Material { _density: 10 }),
        (leaves_color, Color { red: 20, green: 100, blue: 20 }),
    );
    let ghost start = *world_holder;
    let ghost log_v = log;
    let ghost leaves_v = leaves;

    world_holder.fill_voxels((coords.0, coords.1, coords.2), (coords.0, coords.1 + 5, coords.2), Some(log));

    world_holder.fill_voxels(
        (coords.0 - 2, coords.1 + 5, coords.2 - 2),
        (coords.0 + 2, coords.1 + 7, coords.2 + 2),
        Some(clone_rc(&leaves)),
    );

    world_holder.fill_voxels(
        (coords.0 - 1, coords.1 + 8, coords.2 - 1),
        (coords.0 + 1, coords.1 + 8, coords.2 + 1),
        Some(clone_rc(&leaves)),
    );
    assert forall|a: u32, b: u32, c: u32| #[trigger] world_holder.at(a, b, c) == {
        let part = tree_part(fill_position((0, 0, 0), start.max_depth(), (a, b, c)), coords);
        if part >= 2 {
            Some(leaves_v)
        } else if part == 1 {
            Some(log_v)
        } else {
            start.at(a, b, c)
        }
    } by {}
    assert(files_voxel(*old(dataset), mid, log_name(), Material { _density: 10 }, log_name(),
        Color { red: 175, green: 40, blue: 20 }, log_v));
}

/// The height that the search for the ground in column `(x, z)` ends at when
/// it stands at height `y` with step `step` (at least 2): the step halves, the
/// height goes up by it above a filled cell and down by it above an empty one,
/// and the search ends once the step is 1.
pub open spec fn ground_search(t: Octree<Voxel>, x: u32, z: u32, y: int, step: int) -> int
    decreases step,
{
    let half = step / 2;
    let next = if t.at(x, y as u32, z) is Some {
        y + half
    } else {
        y - half
    };
    if half <= 1 || step < 2 {
        next
    } else {
        ground_search(t, x, z, next, half)
    }
}

/// The column `(x, z)` that the number `r` picks in a chunk of edge `size`.
pub open spec fn tree_column(r: u32, size: u32) -> (u32, u32) {
    let i = r as int % (size as int * size as int);
    ((i % size as int) as u32, ((i / size as int) % size as int) as u32)
}

/// What one number `r` does to a chunk of edge `size`: one in five (by its
/// last two decimal digits being below 20) plants a tree on the ground found
/// in the column it picks; the others leave dataset and tree as they were.
pub open spec fn tree_step(d0: VoxelDataset, t0: Octree<Voxel>, r: u32, size: u32, d1: VoxelDataset, t1: Octree<Voxel>) -> bool {
    if r % 100 < 20 {
        let (x, z) = tree_column(r, size);
        let y = ground_search(t0, x, z, size as int / 2, size as int / 2);
        if y > 0 {
            tree_planted(d0, t0, (x, y as u32, z), d1, t1)
        } else {
            d1 == d0 && t1 == t0
        }
    } else {
        d1 == d0 && t1 == t0
    }
}

/// The numbers `rs`, one after the other, take dataset and tree from
/// `(d0, t0)` to `(d1, t1)`.
pub open spec fn trees_planted(
    d0: VoxelDataset,
    t0: Octree<Voxel>,
    rs: Seq<u32>,
    size: u32,
    d1: VoxelDataset,
    t1: Octree<Voxel>,
) -> bool
    decreases rs.len(),
{
    if rs.len() == 0 {
        d1 == d0 && t1 == t0
    } else {
        exists|dm: VoxelDataset, tm: Octree<Voxel>|
            trees_planted(d0, t0, rs.drop_last(), size, dm, tm) && #[trigger] tree_step(dm, tm, rs.last(), size, d1, t1)
    }
}

/// The seed of the random numbers that place the trees of the chunk at
/// `origin`: the magnitudes of its coordinates, x shifted left by 32 and y by
/// 16, or-ed together.
pub fn trees_seed(origin: (i64, i64, i64)) -> (r: u64)
    requires
        origin.0 != i64::MIN && origin.1 != i64::MIN && origin.2 != i64::MIN,
    ensures
        r == ((if origin.0 < 0 { -origin.0 } else { origin.0 as int }) as u64) << 32u64
            | ((if origin.1 < 0 { -origin.1 } else { origin.1 as int }) as u64) << 16u64
            | ((if origin.2 < 0 { -origin.2 } else { origin.2 as int }) as u64),
{
    let uint_origin = (abs_i64(origin.0), abs_i64(origin.1), abs_i64(origin.2));
    (uint_origin.0 as u64) << 32 | (uint_origin.1 as u64) << 16 | (uint_origin.2 as u64)
}

/// Plants the trees of the chunk at `origin` of edge `size` (at least 4) at
/// the columns picked by up to 100 distinct numbers drawn with the seed of
/// `origin` (see `plant_trees`); only chunks at height 0 west of the origin
/// get trees, and only they draw.
pub fn plant_random_trees(dataset: &mut VoxelDataset, world_holder: &mut Octree<Voxel>, origin: (i64, i64, i64), size: u8)
    requires
        old(world_holder).max_depth() < 32,
        size >= 4,
        origin.0 != i64::MIN && origin.1 != i64::MIN && origin.2 != i64::MIN,
    ensures
        final(world_holder).max_depth() == old(world_holder).max_depth(),
        !(origin.1 == 0 && origin.0 < 0) ==> *final(dataset) == *old(dataset) && *final(world_holder) == *old(
            world_holder,
        ),
        origin.1 == 0 && origin.0 < 0 ==> exists|randoms: Seq<u32>|
            #![trigger randoms.no_duplicates()]
            randoms.no_duplicates() && randoms.len() <= 100 && trees_planted(
                *old(dataset),
                *old(world_holder),
                randoms,
                size as u32,
                *final(dataset),
                *final(world_holder),
            ),
{
    if origin.1 == 0 && origin.0 < 0 {
        let randoms = generate_unique(trees_seed(origin), 100);
        plant_trees(dataset, world_holder, origin, size, &randoms);
        assert(randoms@.no_duplicates());
    }
}

/// Plants the trees of the chunk at `origin` of edge `size` (at least 4), at
/// the columns that `randoms` pick (see `tree_step`); only chunks at height 0
/// west of the origin get trees.
pub fn plant_trees(
    dataset: &mut VoxelDataset,
    world_holder: &mut Octree<Voxel>,
    origin: (i64, i64, i64),
    size: u8,
    randoms: &Vec<u32>,
)
    requires
        old(world_holder).max_depth() < 32,
        size >= 4,
    ensures
        final(world_holder).max_depth() == old(world_holder).max_depth(),
        !(origin.1 == 0 && origin.0 < 0) ==> *final(dataset) == *old(dataset) && *final(world_holder) == *old(
            world_holder,
        ),
        origin.1 == 0 && origin.0 < 0 ==> trees_planted(
            *old(dataset),
            *old(world_holder),
            randoms@,
            size as u32,
            *final(dataset),
            *final(world_holder),
        ),
{
    if origin.1 == 0 && origin.0 < 0 {
        let size = size as u32;
        let ghost d0 = *dataset;
        let ghost t0 = *world_holder;
        proof {
            assert(randoms@.take(0) =~= Seq::<u32>::empty());
        }
        let mut k: usize = 0;
        while k < randoms.len()
            invariant
                4 <= size <= 255,
                world_holder.max_depth() == t0.max_depth(),
                t0.max_depth() < 32,
                k <= randoms@.len(),
                trees_planted(d0, t0, randoms@.take(k as int), size, *dataset, *world_holder),
            decreases randoms@.len() - k,
        {
            let random = randoms[k];
            let ghost dm = *dataset;
            let ghost tm = *world_holder;
            let random_mod = random % 100;

            if random_mod < 20 {
                proof {
                    assert(1 <= size * size <= 255 * 255) by (nonlinear_arith)
                        requires
                            1 <= size <= 255,
                    ;
                }
                let i = random % (size * size);
                let x = i % size;
                let z = (i / size) % size;

                let mut div_size = size / 2;
                let mut y = div_size;

                loop
                    invariant_except_break
                        2 <= div_size,
                        div_size <= y,
                        y + div_size <= size,
                        ground_search(tm, x, z, size as int / 2, size as int / 2) == ground_search(tm, x, z, y as int, div_size as int),
                    invariant
                        size <= 255,
                        *world_holder == tm,
                        tm.max_depth() < 32,
                    ensures
                        y == ground_search(tm, x, z, size as int / 2, size as int / 2),
                        1 <= y < size,
                    decreases div_size,
                {
                    let ghost (y0, step) = (y as int, div_size as int);
                    div_size /= 2;

                    if world_holder.get(x, y, z).is_some() {
                        y += div_size;
                    } else {
                        y -= div_size;
                    }

                    assert(div_size == 1 ==> ground_search(tm, x, z, y0, step) == y);
                    if div_size == 1 {
                        break ;
                    }
                    assert(ground_search(tm, x, z, y0, step) == ground_search(tm, x, z, y as int, div_size as int));
                }

                if y > 0 {
                    plant_tree(dataset, world_holder, (x, y, z));
                }
                proof {
                    assert(tree_column(random, size) == (x, z));
                    assert(tree_step(dm, tm, random, size, *dataset, *world_holder));
                }
            } else {
                assert(tree_step(dm, tm, random, size, *dataset, *world_holder));
            }
            proof {
                let t = randoms@.take(k as int + 1);
                assert(t.drop_last() =~= randoms@.take(k as int));
                assert(t.last() == random);
                assert(trees_planted(d0, t0, t, size, *dataset, *world_holder));
            }
            k = k + 1;
        }
        proof {
            assert(randoms@.take(randoms@.len() as int) =~= randoms@);
        }
    }
}

} // verus!
