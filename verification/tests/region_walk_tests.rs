use praca_magisterska::world::chunk_region_iterator::ChunkRegionIterator;

fn collect(mut walk: ChunkRegionIterator) -> Vec<(i8, i8, i8)> {
    let mut out = Vec::new();
    while let Some(cell) = walk.next() {
        out.push(cell);
    }
    out
}

#[test]
fn walk_lists_centre_then_first_shell() {
    let cells = collect(ChunkRegionIterator::with_range(0..28));
    let expected: Vec<(i8, i8, i8)> = vec![
        (0, 0, 0),
        (-1, 1, -1), (-1, 1, 0), (-1, 1, 1), (0, 1, -1), (0, 1, 0), (0, 1, 1),
        (1, 1, -1), (1, 1, 0), (1, 1, 1), (1, 0, -1), (1, 0, 0), (1, 0, 1),
        (1, -1, -1), (1, -1, 0), (1, -1, 1), (0, -1, -1), (0, -1, 0), (0, -1, 1),
        (-1, -1, -1), (-1, -1, 0), (-1, -1, 1), (-1, 0, -1), (-1, 0, 0), (-1, 0, 1),
        (0, 0, -1), (0, 0, 1),
        (-2, 2, -2),
    ];
    assert_eq!(cells, expected);
}

#[test]
fn walk_takes_exactly_the_range_length() {
    assert_eq!(collect(ChunkRegionIterator::with_range(0..0)).len(), 0);
    assert_eq!(collect(ChunkRegionIterator::with_range(5..5)).len(), 0);
    assert_eq!(collect(ChunkRegionIterator::with_range(3..400)).len(), 397);
}

#[test]
fn walk_from_middle_of_shell_two() {
    let cells = collect(ChunkRegionIterator::with_range(100..106));
    assert_eq!(cells, vec![(-2, 0, 1), (-2, 0, 2), (-2, 1, -2), (-2, 1, -1), (-2, 1, 0), (-2, 1, 1)]);
}

#[test]
fn walk_from_any_start_matches_walk_from_zero() {
    let all = collect(ChunkRegionIterator::with_range(0..1500));
    for start in [1u32, 26, 27, 98, 124, 125, 343, 700, 1000] {
        let part = collect(ChunkRegionIterator::with_range(start..start + 200));
        assert_eq!(&part[..], &all[start as usize..start as usize + 200]);
    }
}

#[test]
fn walk_visits_each_cell_once_shell_by_shell() {
    let all = collect(ChunkRegionIterator::with_range(0..(7 * 7 * 7)));
    let mut seen = std::collections::HashSet::new();
    for (n, cell) in all.iter().enumerate() {
        assert!(seen.insert(*cell));
        let shell = if n == 0 { 0 } else if n < 27 { 1 } else if n < 125 { 2 } else { 3 };
        let norm = cell.0.abs().max(cell.1.abs()).max(cell.2.abs());
        assert_eq!(norm as i32, shell);
    }
    assert_eq!(seen.len(), 343);
}

#[test]
fn pos_from_index_values() {
    assert_eq!(ChunkRegionIterator::get_pos_from_index(0), (0, 0, 0));
    assert_eq!(ChunkRegionIterator::get_pos_from_index(1), (-1, 1, -1));
    assert_eq!(ChunkRegionIterator::get_pos_from_index(26), (0, 0, 1));
    assert_eq!(ChunkRegionIterator::get_pos_from_index(27), (-2, 2, -2));
    assert_eq!(ChunkRegionIterator::get_pos_from_index(124), (1, -1, 2));
    assert_eq!(ChunkRegionIterator::get_pos_from_index(125), (-3, 3, -3));
    assert_eq!(ChunkRegionIterator::get_pos_from_index(1000), (1, -5, 2));
    assert_eq!(ChunkRegionIterator::get_pos_from_index(2047), (-1, -3, -6));
    assert_eq!(ChunkRegionIterator::get_pos_from_index(12345), (-5, 12, -9));
}

#[test]
fn pos_from_index_in_the_outermost_shells() {
    assert_eq!(ChunkRegionIterator::get_pos_from_index(1_953_124), (61, -61, 62));
    assert_eq!(ChunkRegionIterator::get_pos_from_index(1_953_125), (-63, 63, -63));
    assert_eq!(ChunkRegionIterator::get_pos_from_index(2_048_382), (62, -62, 63));
}

#[test]
fn unlimited_walk_from_new_lists_centre_then_shell_two() {
    let mut walk = ChunkRegionIterator::new(0);
    assert_eq!(walk.iterations, None);
    assert_eq!(walk.side, 0);
    assert_eq!(walk.next(), Some((0, 0, 0)));
    assert_eq!(walk.next(), Some((-2, 2, -2)));
    assert_eq!(walk.next(), Some((-2, 2, -1)));
    assert_eq!(walk.next(), Some((-2, 2, 0)));
}

#[test]
fn exhausted_walk_keeps_answering_none() {
    let mut walk = ChunkRegionIterator::with_range(10..11);
    assert!(walk.next().is_some());
    assert_eq!(walk.iterations, Some(0));
    assert_eq!(walk.next(), None);
    assert_eq!(walk.next(), None);
    assert_eq!(walk.iterations, Some(0));
}

#[test]
fn with_range_reports_face_and_steps() {
    let walk = ChunkRegionIterator::with_range(0..9);
    assert_eq!(walk.side, 0);
    assert_eq!(walk.iterations, Some(9));
    // Index 27 + 2 * 25 + 3 = 80 sits on the third face of shell 2.
    let walk = ChunkRegionIterator::with_range(80..81);
    assert_eq!(walk.side, 3);
    // The last cells of shell 2 sit on its sixth face.
    let walk = ChunkRegionIterator::with_range(120..125);
    assert_eq!(walk.side, 6);
}

#[test]
fn layer_edges_and_sizes() {
    assert_eq!(ChunkRegionIterator::get_layer_edge(0), 1);
    assert_eq!(ChunkRegionIterator::get_layer_edge(1), 3);
    assert_eq!(ChunkRegionIterator::get_layer_edge(5), 11);
    assert_eq!(ChunkRegionIterator::get_layer_size(0), 1);
    assert_eq!(ChunkRegionIterator::get_layer_size(1), 26);
    assert_eq!(ChunkRegionIterator::get_layer_size(2), 98);
    assert_eq!(ChunkRegionIterator::get_layer_size(3), 218);
    // A shell holds the cube of its edge less the cube inside it.
    for l in 1..20 {
        let outer = ChunkRegionIterator::get_layer_edge(l);
        let inner = outer - 2;
        assert_eq!(ChunkRegionIterator::get_layer_size(l), outer * outer * outer - inner * inner * inner);
    }
}
