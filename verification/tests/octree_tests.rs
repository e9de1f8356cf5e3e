use std::rc::Rc;

use praca_magisterska::structure_tests::octree::Octree;

#[derive(Debug, PartialEq)]
struct TestVoxel(i32);

#[test]
fn test_insert_and_get() {
    let mut octree = Octree::new(4);
    let voxel = Rc::new(TestVoxel(42));
    octree.insert(3, 2, 1, voxel.clone());

    assert_eq!(octree.get(3, 2, 1), Some(voxel));
}

#[test]
fn test_compression() {
    let mut octree = Octree::new(2);
    let voxel = Rc::new(TestVoxel(7));

    for x in 0..(1 << 2) {
        for y in 0..(1 << 2) {
            for z in 0..(1 << 2) {
                octree.insert(x, y, z, voxel.clone());
            }
        }
    }

    assert_eq!(octree.get(0, 0, 0), Some(voxel));
}

#[test]
fn test_insert_get_remove() {
    let mut octree = Octree::new(3);
    let voxel = Rc::new(TestVoxel(42));

    octree.insert(3, 3, 3, voxel.clone());

    assert_eq!(octree.get(3, 3, 3), Some(voxel.clone()));

    octree.remove(3, 3, 3);

    assert_eq!(octree.get(3, 3, 3), None);
}

#[test]
fn test_count_leaves_after_inserts() {
    let mut octree = Octree::new(2);
    assert_eq!(octree.count_leaves(), 1);

    let voxel1 = Rc::new(TestVoxel(1));
    let voxel2 = Rc::new(TestVoxel(2));

    octree.insert(0, 0, 0, voxel1.clone());
    octree.insert(3, 3, 3, voxel2.clone());

    let leaves = octree.count_leaves();
    assert!(leaves == 22, "Tree should be branched, leaves count is {}", leaves);

    octree.insert(3, 3, 2, voxel2.clone());
    let leaves = octree.count_leaves();
    assert!(leaves == 22, "[1] Tree should be branched into 22, leaves count is {}", leaves);

    octree.insert(0, 0, 1, voxel2.clone());
    octree.insert(0, 1, 1, voxel2.clone());
    octree.insert(1, 1, 1, voxel2.clone());
    let leaves = octree.count_leaves();
    assert!(leaves == 22, "[2] Tree should be branched into 22, leaves count is {}", leaves);

    octree.insert(0, 0, 3, voxel2.clone());
    let leaves = octree.count_leaves();
    assert!(leaves == 29, "[3] Tree should be branched into 29 leaves, leaves count is {}", leaves);

    for x in 0..(1 << 2) {
        for y in 0..(1 << 2) {
            for z in 0..(1 << 2) {
                octree.insert(x, y, z, voxel1.clone());
            }
        }
    }

    assert_eq!(octree.count_leaves(), 1);
}

#[test]
fn emptied_tree_merges_back_to_one_leaf() {
    let mut octree: Octree<TestVoxel> = Octree::new(3);
    octree.insert(1, 2, 3, Rc::new(TestVoxel(1)));
    octree.insert(7, 0, 5, Rc::new(TestVoxel(2)));
    assert_eq!(octree.count_leaves(), 1 + 7 * 5);
    octree.remove(1, 2, 3);
    octree.remove(7, 0, 5);
    assert_eq!(octree.count_leaves(), 1);
    assert!(octree.get_voxels().is_empty());
}

#[test]
fn one_inserted_voxel_is_listed_alone() {
    let mut octree: Octree<TestVoxel> = Octree::new(4);
    let v = Rc::new(TestVoxel(42));
    octree.insert(3, 2, 1, v.clone());
    let listed = octree.get_voxels();
    assert_eq!(listed.len(), 1);
    assert_eq!((listed[0].0, listed[0].1, listed[0].2), (3, 2, 1));
    assert!(Rc::ptr_eq(&listed[0].3, &v));
}

#[test]
fn removing_a_fresh_insert_restores_every_cell() {
    let mut octree: Octree<TestVoxel> = Octree::new(2);
    let a = Rc::new(TestVoxel(1));
    let b = Rc::new(TestVoxel(2));
    octree.insert(0, 0, 0, a.clone());
    octree.insert(2, 1, 3, b.clone());
    let removed = octree.remove(2, 1, 3);
    assert!(Rc::ptr_eq(&removed.unwrap(), &b));
    for x in 0..4 {
        for y in 0..4 {
            for z in 0..4 {
                if (x, y, z) == (0, 0, 0) {
                    assert!(Rc::ptr_eq(&octree.get(x, y, z).unwrap(), &a));
                } else {
                    assert!(octree.get(x, y, z).is_none());
                }
            }
        }
    }
    let listed = octree.get_voxels();
    assert_eq!(listed.len(), 1);
    assert_eq!((listed[0].0, listed[0].1, listed[0].2), (0, 0, 0));
}

#[test]
fn every_filled_cell_is_listed_once() {
    let mut octree: Octree<TestVoxel> = Octree::new(2);
    let v = Rc::new(TestVoxel(5));
    octree.insert(1, 1, 1, v.clone());
    octree.insert(3, 0, 2, v.clone());
    octree.insert(0, 3, 3, v.clone());
    let listed = octree.get_voxels();
    let mut coords: Vec<(u32, u32, u32)> = listed.iter().map(|e| (e.0, e.1, e.2)).collect();
    coords.sort();
    assert_eq!(coords, vec![(0, 3, 3), (1, 1, 1), (3, 0, 2)]);
}

#[test]
fn a_fresh_insert_splits_down_to_a_unit_leaf() {
    let mut octree: Octree<TestVoxel> = Octree::new(3);
    assert_eq!(octree.count_leaves(), 1);
    octree.insert(5, 1, 6, Rc::new(TestVoxel(1)));
    assert_eq!(octree.count_leaves(), 1 + 7 * 3);
    octree.insert(5, 1, 7, Rc::new(TestVoxel(2)));
    assert_eq!(octree.count_leaves(), 1 + 7 * 3);
    octree.insert(0, 0, 0, Rc::new(TestVoxel(3)));
    assert_eq!(octree.count_leaves(), 1 + 7 * 3 + 7 * 2);
}

#[test]
fn a_new_tree_of_any_depth_reads_empty() {
    for depth in [0u8, 1, 31, 32, 33, 40] {
        let octree: Octree<TestVoxel> = Octree::new(depth);
        assert!(octree.get(5, 6, 7).is_none());
        assert!(octree.get_voxels().is_empty());
        assert_eq!(octree.count_leaves(), 1);
    }
}
