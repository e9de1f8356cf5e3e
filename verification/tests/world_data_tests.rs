use std::rc::Rc;

use praca_magisterska::chunks_generators::test_1_empty::GeneratorOfTest1Empty;
use praca_magisterska::chunks_generators::test_2_single::GeneratorOfTest2Single;
use praca_magisterska::chunks_generators::test_4_half_random::GeneratorOfTest4HalfRandom;
use praca_magisterska::chunks_generators::test_13_plains_with_floatings::{plant_random_trees, plant_tree, plant_trees, trees_seed};
use praca_magisterska::structure_tests::octree::Octree;
use praca_magisterska::chunks_generators::utilities::{create_voxel, generate_unique, hash_u32, take_unique_draw};
use praca_magisterska::noise::simplex_noise::SimplexNoise;
use praca_magisterska::structure_tests::tester::{TestDataset, Tester, WORLD_Y, WORLD_Z};
use praca_magisterska::world::block::Block;
use praca_magisterska::world::registry::Registry;
use praca_magisterska::world::world_chunk::ChunkBitmask;
use praca_magisterska::world::world_chunk_worker::{update_chunk_loader_chunks, GroupId, GroupIdSource};
use praca_magisterska::world::world_generator::WorldGenerative;
use praca_magisterska::world::world_holder::{Color, Material, VoxelDataset};

#[test]
fn registry_insert_get_replace() {
    let mut registry: Registry<u32> = Registry::new();
    assert_eq!(registry.len(), 0);
    assert_eq!(registry.insert(String::from("stone"), 1), None);
    assert_eq!(registry.insert(String::from("dirt"), 2), None);
    assert_eq!(registry.insert(String::from("stone"), 3), Some(1));
    assert_eq!(registry.len(), 2);
    assert_eq!(registry.get(&String::from("stone")), Some(&3));
    assert_eq!(registry.get(&String::from("grass")), None);
    assert!(registry.contains_key(&String::from("dirt")));
    registry.insert_if_absent(String::from("dirt"), 9);
    registry.insert_if_absent(String::from("grass"), 4);
    assert_eq!(registry.get(&String::from("dirt")), Some(&2));
    assert_eq!(registry.get(&String::from("grass")), Some(&4));
}

#[test]
fn registry_extend_prefers_the_added_values() {
    let mut a: Registry<u32> = Registry::new();
    a.insert(String::from("x"), 1);
    a.insert(String::from("y"), 2);
    let mut b: Registry<u32> = Registry::new();
    b.insert(String::from("y"), 20);
    b.insert(String::from("z"), 30);
    a.extend(b);
    assert_eq!(a.len(), 3);
    assert_eq!(a.get(&String::from("x")), Some(&1));
    assert_eq!(a.get(&String::from("y")), Some(&20));
    assert_eq!(a.get(&String::from("z")), Some(&30));
}

#[test]
fn create_voxel_files_once_and_reuses() {
    let mut dataset = VoxelDataset::new();
    let red = Color { red: 200, green: 0, blue: 0 };
    let first = create_voxel(&mut dataset, (String::from("stone"), Material { _density: 3 }), (String::from("red"), red));
    let second = create_voxel(&mut dataset, (String::from("stone"), Material { _density: 7 }), (String::from("red"), red));
    assert!(Rc::ptr_eq(&first, &second));
    assert_eq!(dataset.voxels.len(), 1);
    assert_eq!(dataset.materials.len(), 1);
    assert_eq!(dataset.colors.len(), 1);
    assert_eq!(dataset.common_voxel_dataset.len(), 1);
    assert!(dataset.voxels.contains_key(&String::from("c:red|m:stone")));
    assert_eq!(first._common_data._material._density, 3);
    assert_eq!(first._common_data._color.red, 200);
    assert!(first._individual_data.is_empty());
    let other = create_voxel(&mut dataset, (String::from("stone"), Material { _density: 9 }), (String::from("blue"), Color { red: 0, green: 0, blue: 200 }));
    assert!(!Rc::ptr_eq(&first, &other));
    assert_eq!(dataset.materials.len(), 1);
    assert_eq!(dataset.colors.len(), 2);
    assert_eq!(dataset.voxels.len(), 2);
    assert_eq!(other._common_data._material._density, 3);
}

#[test]
fn dataset_expand_merges_registries() {
    let mut a = VoxelDataset::new();
    create_voxel(&mut a, (String::from("m"), Material { _density: 1 }), (String::from("c"), Color { red: 1, green: 2, blue: 3 }));
    let mut b = VoxelDataset::new();
    create_voxel(&mut b, (String::from("n"), Material { _density: 1 }), (String::from("c"), Color { red: 1, green: 2, blue: 3 }));
    a.expand(b);
    assert_eq!(a.materials.len(), 2);
    assert_eq!(a.colors.len(), 1);
    assert_eq!(a.voxels.len(), 2);

    let mut t = TestDataset::new();
    let mut u = TestDataset::new();
    u.colors.insert(String::from("c"), Rc::new(Color { red: 0, green: 0, blue: 0 }));
    t.expand(u);
    assert_eq!(t.colors.len(), 1);
    assert_eq!(t.voxels.len(), 0);
}

#[test]
fn hash_values() {
    assert_eq!(hash_u32(0), 0);
    assert_eq!(hash_u32(1), 1_753_845_952);
    assert_eq!(hash_u32(2), 3_507_691_905);
    assert_eq!(hash_u32(42), 388_445_122);
    assert_eq!(hash_u32(u32::MAX), 1_734_902_346);
}

#[test]
fn indices_of_test_world() {
    assert_eq!(Tester::get_3d_indices_from_n(0), (0, 0, 0));
    assert_eq!(Tester::get_3d_indices_from_n(WORLD_Z - 1), (WORLD_Z - 1, 0, 0));
    assert_eq!(Tester::get_3d_indices_from_n(WORLD_Z), (0, 1, 0));
    assert_eq!(Tester::get_3d_indices_from_n(WORLD_Y * WORLD_Z + 2 * WORLD_Z + 3), (3, 2, 1));
}

#[test]
fn empty_generator_gives_empty_chunk() {
    let generator = GeneratorOfTest1Empty::new(0);
    let mut dataset = VoxelDataset::new();
    let chunk = generator.generate_chunk(&mut dataset, (4, 5, 6), 16);
    assert_eq!(chunk.get_size(), 16);
    assert!(chunk.get_voxels().is_empty());
    assert_eq!(dataset.voxels.len(), 0);
}

#[test]
fn single_generator_places_grass_at_origin_only() {
    let generator = GeneratorOfTest2Single::new(0);
    let mut dataset = VoxelDataset::new();
    let chunk = generator.generate_chunk(&mut dataset, (0, 0, 0), 8);
    let voxel = chunk.get(0, 0, 0).expect("the origin holds grass");
    assert_eq!(voxel._common_data._color.green, 150);
    assert!(chunk.get(1, 0, 0).is_none());
    assert_eq!(chunk.get_voxels().len(), 1);
    assert_eq!(dataset.voxels.len(), 1);

    let far = generator.generate_chunk(&mut dataset, (1, 0, 0), 8);
    assert!(far.get_voxels().is_empty());
    assert_eq!(dataset.voxels.len(), 1);
}

#[test]
fn half_random_generator_fills_picked_cells() {
    assert_eq!(GeneratorOfTest4HalfRandom::random_cells_count(4), 32);
    assert_eq!(GeneratorOfTest4HalfRandom::random_cells_count(3), 13);
    assert_eq!(GeneratorOfTest4HalfRandom::half_random_seed((1, -2, 3)), (1 << 6) | (2 << 3) | 3);
    let generator = GeneratorOfTest4HalfRandom::new(0);
    let mut dataset = VoxelDataset::new();
    let chunk = generator.generate_chunk_with_randoms(&mut dataset, 2, &vec![0, 5]);
    assert!(chunk.get(0, 0, 0).is_some());
    assert!(chunk.get(1, 0, 1).is_some());
    assert!(chunk.get(1, 1, 1).is_none());
    assert_eq!(chunk.get_voxels().len(), 2);
    assert_eq!(dataset.voxels.len(), 1);
}

#[test]
fn noise_table_builds() {
    let _noise = SimplexNoise::new(50);
}

#[test]
fn group_ids_count_up() {
    let mut source = GroupIdSource::new();
    assert_eq!(GroupId::new(&mut source).0, 1);
    assert_eq!(GroupId::new(&mut source).0, 2);
    assert_eq!(GroupId::new(&mut source).0, 3);
}

#[test]
fn blocks_and_chunks_know_their_coordinates() {
    assert_eq!(Block::new(1, -2, 3).coordinates(), (1, -2, 3));
    let mask = ChunkBitmask::new(12);
    assert_eq!(mask.data, vec![0u64; 12]);
}

#[test]
fn loader_moving_along_x_takes_in_one_plane() {
    let (simulated, rendered) = update_chunk_loader_chunks(0, (0, 0, 0), (1, 0, 0));
    let mut expected = Vec::new();
    for b in -1..=1 {
        for c in -1..=1 {
            expected.push((-1, b, c));
        }
    }
    assert_eq!(simulated, expected);
    assert_eq!(rendered, vec![(0, 0, 0)]);
}

#[test]
fn loader_moving_back_along_x() {
    let (simulated, rendered) = update_chunk_loader_chunks(1, (0, 0, 0), (-1, 0, 0));
    assert_eq!(simulated.len(), 25);
    assert!(simulated.iter().all(|p| p.0 == 2));
    assert_eq!(rendered.len(), 9);
    assert!(rendered.iter().all(|p| p.0 == 1));
    assert_eq!(rendered[0], (1, -1, -1));
    assert_eq!(rendered[8], (1, 1, 1));
}

#[test]
fn loader_moving_along_y_lists_planes_in_y_order() {
    let (simulated, rendered) = update_chunk_loader_chunks(0, (5, 6, 7), (0, 2, 0));
    let mut expected = Vec::new();
    for a in 5..7 {
        for b in 4..=6 {
            for c in 6..=8 {
                expected.push((b, a, c));
            }
        }
    }
    assert_eq!(simulated, expected);
    assert_eq!(rendered, vec![(5, 6, 7), (5, 7, 7)]);
}

#[test]
fn loader_standing_still_takes_in_nothing() {
    let (simulated, rendered) = update_chunk_loader_chunks(3, (1, 2, 3), (0, 0, 0));
    assert!(simulated.is_empty());
    assert!(rendered.is_empty());
}

#[test]
fn tree_has_trunk_and_crown() {
    let mut dataset = VoxelDataset::new();
    let mut tree = Octree::new(6);
    plant_tree(&mut dataset, &mut tree, (2, 0, 2));
    assert_eq!(dataset.voxels.len(), 2);
    let log = tree.get(2, 0, 2).expect("trunk");
    assert_eq!(log._common_data._color.red, 175);
    assert!(Rc::ptr_eq(&log, &tree.get(2, 4, 2).unwrap()));
    let leaves = tree.get(2, 5, 2).expect("crown");
    assert_eq!(leaves._common_data._color.green, 100);
    assert!(Rc::ptr_eq(&leaves, &tree.get(0, 6, 4).unwrap()));
    assert!(Rc::ptr_eq(&leaves, &tree.get(1, 8, 3).unwrap()));
    assert!(tree.get(0, 8, 0).is_none());
    assert!(tree.get(2, 9, 2).is_none());
    assert!(tree.get(3, 0, 2).is_none());
}

#[test]
fn tree_too_close_to_the_edge_is_not_planted() {
    let mut dataset = VoxelDataset::new();
    let mut tree = Octree::new(6);
    plant_tree(&mut dataset, &mut tree, (1, 0, 5));
    plant_tree(&mut dataset, &mut tree, (5, 57, 5));
    plant_tree(&mut dataset, &mut tree, (5, 3, 0));
    assert_eq!(dataset.voxels.len(), 0);
    assert!(tree.get_voxels().is_empty());
}

fn chunk_with_ground(dataset: &mut VoxelDataset) -> Octree<praca_magisterska::world::world_holder::Voxel> {
    let mut tree = Octree::from_max_size(64);
    let stone = create_voxel(
        dataset,
        (String::from("stone"), Material { _density: 100 }),
        (String::from("stone"), Color { red: 50, green: 50, blue: 50 }),
    );
    tree.fill_voxels((0, 0, 0), (63, 10, 63), Some(stone));
    tree
}

#[test]
fn trees_grow_on_the_ground_of_picked_columns() {
    let mut dataset = VoxelDataset::new();
    let mut tree = chunk_with_ground(&mut dataset);
    // 1010 picks column (50, 15), 55 plants nothing, 7 picks (7, 0): too close to the edge.
    plant_trees(&mut dataset, &mut tree, (-1, 0, 0), 64, &vec![1010, 55, 7]);
    assert_eq!(dataset.voxels.len(), 3);
    // The tree is filled with x and z swapped, like every fill of the octree.
    let log = tree.get(15, 11, 50).expect("trunk foot");
    assert_eq!(log._common_data._color.red, 175);
    assert!(Rc::ptr_eq(&log, &tree.get(15, 15, 50).unwrap()));
    let leaves = tree.get(15, 16, 50).expect("crown");
    assert_eq!(leaves._common_data._color.green, 100);
    assert!(Rc::ptr_eq(&leaves, &tree.get(13, 18, 52).unwrap()));
    assert!(Rc::ptr_eq(&leaves, &tree.get(16, 19, 51).unwrap()));
    assert!(tree.get(15, 20, 50).is_none());
    assert!(tree.get(50, 11, 15).is_none());
    assert!(tree.get(7, 11, 0).is_none());
    assert!(tree.get(0, 11, 7).is_none());
    assert_eq!(tree.get(50, 10, 15).unwrap()._common_data._color.red, 50);
}

#[test]
fn trees_grow_only_west_of_the_origin_at_height_zero() {
    let mut dataset = VoxelDataset::new();
    let mut tree = chunk_with_ground(&mut dataset);
    plant_trees(&mut dataset, &mut tree, (0, 0, 0), 64, &vec![1010]);
    plant_trees(&mut dataset, &mut tree, (-1, 1, 0), 64, &vec![1010]);
    assert_eq!(dataset.voxels.len(), 1);
    assert!(tree.get(15, 11, 50).is_none());
}

#[test]
fn trees_seed_packs_the_coordinates() {
    assert_eq!(trees_seed((-3, 0, 5)), (3u64 << 32) | 5);
    assert_eq!(trees_seed((1, -2, 0)), (1u64 << 32) | (2u64 << 16));
}

#[test]
fn unique_draws_skip_repeats_and_stop_at_the_count() {
    let mut values: Vec<u32> = Vec::new();
    assert!(!take_unique_draw(&mut values, 7, 3));
    assert!(!take_unique_draw(&mut values, 7, 3));
    assert_eq!(values, vec![7]);
    assert!(!take_unique_draw(&mut values, 9, 3));
    assert!(take_unique_draw(&mut values, 1, 3));
    assert_eq!(values, vec![7, 9, 1]);
}

#[test]
fn hash_u32_gives_different_hashes_to_different_inputs() {
    let mut hashes: Vec<u32> = (0u32..2000).map(hash_u32).collect();
    hashes.extend([u32::MAX, u32::MAX - 1, 1 << 31].iter().map(|&x| hash_u32(x)));
    let count = hashes.len();
    hashes.sort();
    hashes.dedup();
    assert_eq!(hashes.len(), count);
}

#[test]
fn generate_unique_draws_the_asked_number_of_distinct_values() {
    let values = generate_unique(42, 1000);
    assert_eq!(values.len(), 1000);
    let mut sorted = values.clone();
    sorted.sort();
    sorted.dedup();
    assert_eq!(sorted.len(), 1000);
    assert_eq!(generate_unique(42, 1000), values);
    assert!(generate_unique(7, 0).is_empty());
}

#[test]
fn half_random_chunk_fills_half_of_its_cells() {
    let generator = GeneratorOfTest4HalfRandom::new(0);
    let mut dataset = VoxelDataset::new();
    let chunk = generator.generate_chunk_at(&mut dataset, (1, -2, 3), 4);
    let randoms = generate_unique(GeneratorOfTest4HalfRandom::half_random_seed((1, -2, 3)), 32);
    let filled = chunk.get_voxels().len();
    let mut expected: Vec<(u32, u32, u32)> = randoms.iter().map(|&i| (i % 4, (i / 4) % 4, i / 16 % 4)).collect();
    expected.sort();
    expected.dedup();
    assert!(filled <= 32);
    for (x, y, z) in expected.iter() {
        assert!(chunk.get(*x, *y, *z).is_some());
    }
    assert_eq!(dataset.voxels.len(), 1);
}

#[test]
fn random_trees_use_the_draws_of_the_chunk_seed() {
    let mut d1 = VoxelDataset::new();
    let mut t1: Octree<praca_magisterska::world::world_holder::Voxel> = Octree::from_max_size(64);
    plant_random_trees(&mut d1, &mut t1, (-1, 0, 0), 64);
    let mut d2 = VoxelDataset::new();
    let mut t2: Octree<praca_magisterska::world::world_holder::Voxel> = Octree::from_max_size(64);
    let randoms = generate_unique(trees_seed((-1, 0, 0)), 100);
    plant_trees(&mut d2, &mut t2, (-1, 0, 0), 64, &randoms);
    assert_eq!(t1.get_voxels().len(), t2.get_voxels().len());
    assert_eq!(t1.count_leaves(), t2.count_leaves());

    let mut d3 = VoxelDataset::new();
    let mut t3: Octree<praca_magisterska::world::world_holder::Voxel> = Octree::from_max_size(64);
    plant_random_trees(&mut d3, &mut t3, (1, 0, 0), 64);
    assert!(t3.get_voxels().is_empty());
    assert_eq!(d3.voxels.len(), 0);
}
