use std::rc::Rc;
use std::sync::Arc;

use praca_magisterska::structure_tests::octree::Octree;
use praca_magisterska::structure_tests::voxel_hasher::VoxelHashMap;
use praca_magisterska::structure_tests::voxel_list::VoxelList;
use praca_magisterska::structure_tests::voxel_map::VoxelMap;
use praca_magisterska::world::world_holder::{Color, CommonVoxelData, Material, Voxel};

fn voxel(red: u8) -> Rc<Voxel> {
    Rc::new(Voxel {
        _individual_data: vec![],
        _common_data: Rc::new(CommonVoxelData {
            _material: Rc::new(Material { _density: 1 }),
            _color: Rc::new(Color { red, green: 0, blue: 0 }),
        }),
    })
}

fn same(a: &Option<Rc<Voxel>>, b: &Rc<Voxel>) -> bool {
    matches!(a, Some(v) if Rc::ptr_eq(v, b))
}

#[test]
fn hash_map_set_get_remove() {
    let mut map: VoxelHashMap<Voxel> = VoxelHashMap::new();
    let a = voxel(1);
    let b = voxel(2);
    assert!(map.get_voxel(1, 2, 3).is_none());
    map.set_voxel(1, 2, 3, Some(a.clone()));
    map.set_voxel(3, 2, 1, Some(b.clone()));
    assert!(same(&map.get_voxel(1, 2, 3), &a));
    assert!(same(&map.get_voxel(3, 2, 1), &b));
    map.set_voxel(1, 2, 3, Some(b.clone()));
    assert!(same(&map.get_voxel(1, 2, 3), &b));
    map.set_voxel(1, 2, 3, None);
    assert!(map.get_voxel(1, 2, 3).is_none());
    assert!(same(&map.get_voxel(3, 2, 1), &b));
}

#[test]
fn hash_map_keeps_far_cells_apart() {
    let mut map: VoxelHashMap<Voxel> = VoxelHashMap::new_with_capacity(4);
    let a = voxel(1);
    let b = voxel(2);
    map.set_voxel(u32::MAX, 0, 0, Some(a.clone()));
    map.set_voxel(0, 1, 0, Some(b.clone()));
    assert!(same(&map.get_voxel(u32::MAX, 0, 0), &a));
    assert!(same(&map.get_voxel(0, 1, 0), &b));
    assert!(map.get_voxel(0, 0, 1).is_none());
    assert!(map.get_voxel(u32::MAX, u32::MAX, u32::MAX).is_none());
}

#[test]
fn hash_map_fill_and_clear_box() {
    let mut map: VoxelHashMap<Voxel> = VoxelHashMap::new();
    let a = voxel(1);
    let b = voxel(2);
    map.set_voxel(9, 9, 9, Some(b.clone()));
    map.fill_voxels((2, 1, 0), (0, 0, 1), Some(a.clone()));
    for x in 0..3 {
        for y in 0..2 {
            for z in 0..2 {
                assert!(same(&map.get_voxel(x, y, z), &a));
            }
        }
    }
    assert!(map.get_voxel(3, 0, 0).is_none());
    assert!(same(&map.get_voxel(9, 9, 9), &b));
    map.fill_voxels((1, 0, 0), (2, 1, 1), None);
    assert!(same(&map.get_voxel(0, 0, 0), &a));
    assert!(map.get_voxel(1, 0, 0).is_none());
    assert!(map.get_voxel(2, 1, 1).is_none());
    assert!(same(&map.get_voxel(9, 9, 9), &b));
}

#[test]
fn list_set_get_fill() {
    let mut list = VoxelList::new();
    let a = voxel(1);
    let b = voxel(2);
    list.set_voxel(1, 1, 1, Some(a.clone()));
    assert!(same(&list.get_voxel(1, 1, 1), &a));
    list.set_voxel(1, 1, 1, Some(b.clone()));
    assert!(same(&list.get_voxel(1, 1, 1), &b));
    assert_eq!(list.data.len(), 1);
    list.fill_voxels((0, 0, 0), (1, 1, 1), Some(a.clone()));
    assert_eq!(list.data.len(), 8);
    assert!(same(&list.get_voxel(1, 1, 1), &a));
    list.fill_voxels((1, 1, 1), (0, 0, 1), None);
    assert_eq!(list.data.len(), 4);
    assert!(list.get_voxel(0, 0, 1).is_none());
    assert!(same(&list.get_voxel(0, 0, 0), &a));
    list.set_voxel(0, 0, 0, None);
    assert!(list.get_voxel(0, 0, 0).is_none());
    assert_eq!(list.data.len(), 3);
}

#[test]
fn map_set_get_fill_counts_filled_cells() {
    let mut map: VoxelMap<u8> = VoxelMap::from_max_sizes(2, 3, 4);
    assert_eq!(map.data.len(), 24);
    assert_eq!(map.filled_cells, 0);
    let a = Arc::new(5u8);
    map.set_voxel(1, 2, 3, Some(a.clone()));
    assert_eq!(map.get_voxel(1, 2, 3), Some(a.clone()));
    assert_eq!(map.data[3 * 3 * 2 + 2 * 2 + 1], Some(a.clone()));
    assert_eq!(map.filled_cells, 1);
    map.fill_voxels((0, 0, 0), (1, 1, 1), Some(a.clone()));
    assert_eq!(map.filled_cells, 9);
    map.fill_voxels((1, 0, 0), (0, 1, 0), None);
    assert_eq!(map.filled_cells, 5);
    assert_eq!(map.get_voxel(0, 0, 0), None);
    assert_eq!(map.get_voxel(0, 0, 1), Some(a));
    let cube: VoxelMap<u8> = VoxelMap::from_max_size(3);
    assert_eq!(cube.data.len(), 27);
    assert_eq!((cube.size_x, cube.size_y, cube.size_z), (3, 3, 3));
}

#[test]
fn octree_sizes() {
    assert_eq!(Octree::<u8>::get_max_depth_for(1), 0);
    assert_eq!(Octree::<u8>::get_max_depth_for(2), 1);
    assert_eq!(Octree::<u8>::get_max_depth_for(5), 3);
    assert_eq!(Octree::<u8>::get_max_depth_for(8), 3);
    assert_eq!(Octree::<u8>::get_max_depth_for(9), 4);
    assert_eq!(Octree::<u8>::get_max_depth_for(513), 10);
    assert_eq!(Octree::<u8>::from_max_size(16).get_size(), 16);
    assert_eq!(Octree::<u8>::from_max_size(17).get_size(), 32);
    assert_eq!(Octree::<u8>::new(3).get_size(), 8);
}

#[test]
fn octree_get_after_insert_keeps_other_cells() {
    let mut tree = Octree::new(3);
    let a = Rc::new(1u8);
    let b = Rc::new(2u8);
    tree.insert(1, 2, 3, a.clone());
    tree.insert(3, 2, 1, b.clone());
    assert_eq!(tree.get(1, 2, 3), Some(a.clone()));
    assert_eq!(tree.get(3, 2, 1), Some(b));
    assert_eq!(tree.get(2, 2, 2), None);
    // Coordinates are read modulo the edge 8.
    assert_eq!(tree.get(9, 10, 11), Some(a));
}

#[test]
fn octree_get_after_remove_reads_nothing() {
    let mut tree = Octree::new(2);
    let a = Rc::new(1u8);
    tree.insert(0, 1, 2, a.clone());
    assert_eq!(tree.remove(0, 1, 2), Some(a));
    assert_eq!(tree.get(0, 1, 2), None);
    assert_eq!(tree.remove(0, 1, 2), None);
}

#[test]
fn octree_set_voxel_and_voxels() {
    let mut tree = Octree::new(1);
    let a = Rc::new(4u8);
    tree.set_voxel(1, 0, 1, Some(a.clone()));
    let voxels = tree.get_voxels();
    assert_eq!(voxels.len(), 1);
    assert_eq!(tree.count_leaves(), 8);
    tree.set_voxel(1, 0, 1, None);
    assert_eq!(tree.get(1, 0, 1), None);
    assert!(tree.get_voxels().is_empty());
}

#[test]
fn octree_fill_swaps_x_and_z() {
    let mut tree = Octree::new(2);
    let a = Rc::new(4u8);
    tree.fill_voxels((0, 0, 0), (0, 0, 3), Some(a.clone()));
    for x in 0..4 {
        assert_eq!(tree.get(x, 0, 0), Some(a.clone()));
    }
    assert_eq!(tree.get(0, 0, 3), None);
    assert_eq!(tree.get(0, 1, 0), None);
}

#[test]
fn octree_fill_whole_cube_compresses() {
    let mut tree = Octree::new(2);
    let a = Rc::new(4u8);
    tree.fill_voxels((0, 0, 0), (3, 3, 3), Some(a.clone()));
    assert_eq!(tree.count_leaves(), 1);
    assert_eq!(tree.get(2, 3, 1), Some(a));
    assert_eq!(tree.get_voxels().len(), 64);
}

use praca_magisterska::structure_tests::octree::{contains_point, get_child_offset, Direction};
use praca_magisterska::world::world_chunk::{ChunkBitmask, WorldChunk, WorldChunkState, CHUNK_SIZE_X2};
use praca_magisterska::world::world_holder::VoxelSide;

fn chunk_with(cells: &[(u32, u32, u32)], state: WorldChunkState, v: &Rc<Voxel>) -> WorldChunk {
    let mut data = Octree::new(6);
    let mut mask = ChunkBitmask::new(3 * CHUNK_SIZE_X2);
    for &(a, b, c) in cells {
        data.insert(a, b, c, v.clone());
        // Along x: column (b, c); along y: column (a, c); along z: column (a, b).
        mask.data[(b + 64 * c) as usize] |= 1u64 << a;
        mask.data[CHUNK_SIZE_X2 + (a + 64 * c) as usize] |= 1u64 << b;
        mask.data[2 * CHUNK_SIZE_X2 + (a + 64 * b) as usize] |= 1u64 << c;
    }
    WorldChunk { state, data, renderables: vec![], solids_mask: mask }
}

#[test]
fn remesh_shows_every_side_of_a_lone_voxel() {
    let v = voxel(9);
    let empty = chunk_with(&[], WorldChunkState::Dirty, &v);
    let mut chunk = chunk_with(&[(1, 2, 3)], WorldChunkState::Dirty, &v);
    assert!(chunk.remesh((1, 0, -1), [&empty; 26]));
    assert!(matches!(chunk.state, WorldChunkState::FullySimulable));
    let sides: Vec<((i64, i64, i64), u8)> = chunk.renderables.iter().map(|s| (s.get_position(), s.get_color().red)).collect();
    assert_eq!(sides, vec![((65, 2, -61), 9); 6]);
    // A fully simulable chunk is not meshed again.
    assert!(!chunk.remesh((0, 0, 0), [&empty; 26]));
    assert_eq!(chunk.renderables.len(), 6);
}

#[test]
fn remesh_hides_sides_against_solid_cells() {
    let v = voxel(3);
    let empty = chunk_with(&[], WorldChunkState::Dirty, &v);
    let mut chunk = chunk_with(&[(1, 0, 0), (2, 0, 0)], WorldChunkState::Calculable, &v);
    assert!(chunk.remesh((0, 0, 0), [&empty; 26]));
    // Along x the pair shows two sides; along y and z each cell shows two.
    let cells: Vec<(i64, i64, i64)> = chunk.renderables.iter().map(|s| s.get_position()).collect();
    assert_eq!(
        cells,
        vec![(1, 0, 0), (2, 0, 0), (1, 0, 0), (2, 0, 0), (1, 0, 0), (2, 0, 0), (1, 0, 0), (2, 0, 0), (1, 0, 0), (2, 0, 0)]
    );
}

#[test]
fn remesh_reads_the_neighbour_past_the_column_end() {
    let v = voxel(3);
    let empty = chunk_with(&[], WorldChunkState::Dirty, &v);
    let ahead = chunk_with(&[(0, 0, 0)], WorldChunkState::Dirty, &v);
    let mut neighbours = [&empty; 26];
    neighbours[13] = &ahead;
    let mut chunk = chunk_with(&[(63, 0, 0)], WorldChunkState::Dirty, &v);
    assert!(chunk.remesh((0, 0, 0), neighbours));
    assert_eq!(chunk.renderables.len(), 5);
}

#[test]
fn chunk_position_rounds_down() {
    assert_eq!(WorldChunk::get_chunk_position_from_world_position((0, 63, 64)), (0, 0, 1));
    assert_eq!(WorldChunk::get_chunk_position_from_world_position((-1, -64, -65)), (-1, -1, -2));
}

#[test]
fn voxel_side_reads_back() {
    let v = voxel(77);
    let side = VoxelSide::from_voxel_rc(1, -2, 3, 4, &v);
    assert_eq!(side.get_position(), (1, -2, 3));
    assert_eq!(side.get_color().red, 77);
    let other = VoxelSide::new((5, 6, 7), Color { red: 1, green: 2, blue: 3 }, 2);
    assert_eq!(other.get_position(), (5, 6, 7));
    assert_eq!(other.get_color().blue, 3);
}

#[test]
fn directions() {
    assert_eq!(Direction::get_opposite(Direction::LEFT), Direction::RIGHT);
    assert_eq!(Direction::get_opposite(Direction::BOTTOM), Direction::TOP);
    assert_eq!(Direction::get_opposite(Direction::BACK), Direction::FRONT);
    assert_eq!(Direction::get_dir_name(Direction::UNSPECIFIED), "UNSPECIFIED");
    assert_eq!(Direction::get_dir_name(Direction::FRONT), "FRONT");
    assert_eq!(Direction::get_octree_node_indices_for_opposite_side(Direction::LEFT), [1, 3, 5, 7]);
    assert_eq!(Direction::get_octree_node_indices_for_opposite_side(Direction::BACK), [4, 5, 6, 7]);
    assert_eq!(Direction::get_sibling_leaf(1, (4, 5, 6), 2), (3, 5, 6));
    assert_eq!(Direction::get_sibling_leaf(2, (4, 5, 6), 2), (6, 5, 6));
    assert_eq!(Direction::get_sibling_leaf(5, (4, 5, 6), 2), (4, 5, 6));
    assert_eq!(
        Direction::split_branch_point_into_chilren_by_direction(3, (1, 2, 3), 4),
        [(1, 2, 3), (5, 2, 3), (1, 2, 7), (5, 2, 7)]
    );
}

#[test]
fn child_offsets_and_containment() {
    assert_eq!(get_child_offset((0, 0, 0), 8, 0), (0, 0, 0));
    assert_eq!(get_child_offset((0, 0, 0), 8, 1), (4, 0, 0));
    assert_eq!(get_child_offset((8, 8, 8), 8, 6), (8, 12, 12));
    assert_eq!(get_child_offset((8, 8, 8), 8, 7), (12, 12, 12));
    assert!(contains_point(&(4, 4, 4), 4, &(7, 4, 5)));
    assert!(!contains_point(&(4, 4, 4), 4, &(8, 4, 5)));
    assert!(!contains_point(&(4, 4, 4), 4, &(3, 4, 5)));
}

fn flood_sides(tree: &Octree<Voxel>, start: (u32, u32, u32)) -> Vec<((i64, i64, i64), u8, u8)> {
    let mut sides: Vec<((i64, i64, i64), u8, u8)> = tree
        .get_visible_with_flood(start)
        .iter()
        .map(|s| (s.get_position(), s.get_direction(), s.get_color().red))
        .collect();
    sides.sort();
    sides
}

#[test]
fn flood_finds_the_sides_facing_the_start() {
    let mut tree: Octree<Voxel> = Octree::new(2);
    tree.insert(1, 1, 1, voxel(9));
    assert_eq!(flood_sides(&tree, (0, 0, 0)), vec![((1, 1, 1), 1, 9), ((1, 1, 1), 4, 9), ((1, 1, 1), 6, 9)]);
}

#[test]
fn flood_from_the_far_corner_reaches_both_voxels() {
    let mut tree: Octree<Voxel> = Octree::new(2);
    tree.insert(1, 1, 1, voxel(1));
    tree.insert(2, 2, 2, voxel(2));
    let expected = vec![
        ((1, 1, 1), 1, 1),
        ((1, 1, 1), 2, 1),
        ((1, 1, 1), 3, 1),
        ((1, 1, 1), 4, 1),
        ((1, 1, 1), 5, 1),
        ((1, 1, 1), 6, 1),
        ((2, 2, 2), 2, 2),
        ((2, 2, 2), 3, 2),
        ((2, 2, 2), 5, 2),
    ];
    assert_eq!(flood_sides(&tree, (3, 3, 3)), expected);
}

#[test]
fn flood_through_a_deeper_tree() {
    let mut tree: Octree<Voxel> = Octree::new(3);
    tree.insert(1, 1, 1, voxel(1));
    tree.insert(5, 2, 6, voxel(2));
    tree.insert(0, 7, 3, voxel(3));
    let mut expected = vec![((0, 7, 3), 2, 3), ((0, 7, 3), 4, 3), ((0, 7, 3), 6, 3)];
    for facing in 1..=6u8 {
        expected.push(((1, 1, 1), facing, 1));
    }
    for facing in 1..=6u8 {
        expected.push(((5, 2, 6), facing, 2));
    }
    assert_eq!(flood_sides(&tree, (7, 0, 0)), expected);
}

#[test]
fn flood_of_an_empty_tree_finds_nothing() {
    let tree: Octree<Voxel> = Octree::new(2);
    assert!(flood_sides(&tree, (0, 0, 0)).is_empty());
}

#[test]
fn flood_started_in_a_filled_cell_finds_nothing() {
    let mut tree: Octree<Voxel> = Octree::new(1);
    tree.insert(0, 0, 0, voxel(4));
    assert!(flood_sides(&tree, (0, 0, 0)).is_empty());
    assert_eq!(flood_sides(&tree, (1, 1, 1)), vec![((0, 0, 0), 2, 4), ((0, 0, 0), 3, 4), ((0, 0, 0), 5, 4)]);
}

#[test]
fn flood_records_the_sides_next_to_the_start() {
    let mut tree: Octree<Voxel> = Octree::new(2);
    tree.insert(1, 1, 1, voxel(1));
    tree.insert(1, 0, 1, voxel(2));
    let expected = vec![((1, 0, 1), 1, 2), ((1, 0, 1), 6, 2), ((1, 1, 1), 1, 1), ((1, 1, 1), 6, 1)];
    assert_eq!(flood_sides(&tree, (1, 1, 0)), expected);
}

#[test]
fn flood_finds_every_open_face_of_a_corner_voxel() {
    let mut tree: Octree<Voxel> = Octree::new(1);
    tree.insert(1, 0, 0, voxel(7));
    assert_eq!(flood_sides(&tree, (0, 0, 0)), vec![((1, 0, 0), 1, 7), ((1, 0, 0), 3, 7), ((1, 0, 0), 5, 7)]);
}

#[test]
fn flood_from_a_big_leaf_records_sides_past_a_small_one() {
    // The side square of a big empty leaf is laid on the small filled leaf
    // that it meets, so sides of empty cells next to it are recorded too.
    let mut tree: Octree<Voxel> = Octree::new(2);
    tree.insert(2, 2, 2, voxel(5));
    let mut expected = vec![];
    for facing in 1..=6u8 {
        expected.push(((2, 2, 2), facing, 5));
    }
    expected.push(((2, 2, 3), 1, 5));
    expected.push(((2, 3, 2), 1, 5));
    expected.push(((2, 3, 3), 1, 5));
    assert_eq!(flood_sides(&tree, (1, 0, 0)), expected);
}

#[test]
fn flood_through_single_cell_leaves_finds_exactly_the_open_faces() {
    // Depth 2 with a voxel in every 2-wide block: every empty leaf is one cell.
    let mut tree: Octree<Voxel> = Octree::new(2);
    let mut cells = vec![];
    for (i, (x, y, z)) in [(0, 0, 0), (3, 0, 0), (0, 3, 1), (2, 2, 0), (1, 0, 3), (3, 1, 2), (0, 2, 3), (2, 3, 2), (1, 1, 1)]
        .iter()
        .enumerate()
    {
        tree.insert(*x, *y, *z, voxel(10 + i as u8));
        cells.push((*x, *y, *z));
    }
    let start = (2, 1, 1);
    let filled = |c: (i64, i64, i64)| {
        (0..4).contains(&c.0) && (0..4).contains(&c.1) && (0..4).contains(&c.2)
            && tree.get(c.0 as u32, c.1 as u32, c.2 as u32).is_some()
    };
    let steps: [(u8, (i64, i64, i64)); 6] =
        [(1, (-1, 0, 0)), (2, (1, 0, 0)), (3, (0, 1, 0)), (4, (0, -1, 0)), (5, (0, 0, 1)), (6, (0, 0, -1))];
    // Empty cells an empty path leads to from the start.
    let mut reached = vec![(2i64, 1i64, 1i64)];
    let mut k = 0;
    while k < reached.len() {
        let c = reached[k];
        for (_, d) in steps.iter() {
            let n = (c.0 + d.0, c.1 + d.1, c.2 + d.2);
            let inside = (0..4).contains(&n.0) && (0..4).contains(&n.1) && (0..4).contains(&n.2);
            if inside && !filled(n) && !reached.contains(&n) {
                reached.push(n);
            }
        }
        k += 1;
    }
    let mut expected = vec![];
    for c in reached.iter() {
        for (dir, d) in steps.iter() {
            let n = (c.0 + d.0, c.1 + d.1, c.2 + d.2);
            if filled(n) {
                let back = if dir % 2 == 1 { dir + 1 } else { dir - 1 };
                let red = tree.get(n.0 as u32, n.1 as u32, n.2 as u32).unwrap()._common_data._color.red;
                expected.push((n, back, red));
            }
        }
    }
    expected.sort();
    let mut found = flood_sides(&tree, start);
    found.sort();
    assert_eq!(found, expected);
    assert!(!found.is_empty());
}
