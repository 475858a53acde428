use tile_atlas::gid_map::GidMap;
use tile_atlas::grid::remap_grid;
use tile_atlas::error::LoadError;
use tile_atlas::usage::{collect_gid_usage, SparseGidMap};

#[test]
fn adjacent_ranges_register_in_either_order() {
    let mut a = GidMap::new();
    assert!(a.add_set(0, 16));
    assert!(a.add_set(16, 16));
    let mut b = GidMap::new();
    assert!(b.add_set(16, 16));
    assert!(b.add_set(0, 16));
}

#[test]
fn overlapping_ranges_collide_in_either_order() {
    let mut a = GidMap::new();
    assert!(a.add_set(0, 16));
    assert!(!a.add_set(8, 16));
    assert_eq!(a.ranges().len(), 1);
    let mut b = GidMap::new();
    assert!(b.add_set(8, 16));
    assert!(!b.add_set(0, 16));
    assert_eq!(b.ranges().len(), 1);
}

#[test]
fn stride_depends_on_registration_order() {
    let mut a = GidMap::new();
    a.add_set(0, 16);
    a.add_set(16, 16);
    assert_eq!(a.map(16), Some(16));
    assert_eq!(a.map(0), Some(0));
    let mut b = GidMap::new();
    b.add_set(16, 16);
    b.add_set(0, 16);
    assert_eq!(b.map(16), Some(0));
    assert_eq!(b.map(0), Some(16));
}

#[test]
fn unresolved_outside_all_ranges() {
    let mut m = GidMap::new();
    m.add_set(1, 6);
    m.add_set(20, 4);
    assert_eq!(m.map(0), None);
    assert_eq!(m.map(7), None);
    assert_eq!(m.map(19), None);
    assert_eq!(m.map(24), None);
    assert_eq!(m.map(u32::MAX), None);
}

#[test]
fn range_end_maps_to_last_index_of_its_range() {
    let mut m = GidMap::new();
    m.add_set(1, 6);
    m.add_set(7, 4);
    assert_eq!(m.map(6), Some(5));
    assert_eq!(m.map(7), Some(6));
    assert_eq!(m.map(10), Some(9));
    assert_eq!(m.map(1), Some(0));
}

#[test]
fn empty_range_registers_nothing_to_resolve() {
    let mut m = GidMap::new();
    assert!(m.add_set(5, 0));
    assert_eq!(m.map(5), None);
    assert!(!m.add_set(4, 2));
}

#[test]
fn range_at_top_of_id_space() {
    let mut m = GidMap::new();
    assert!(m.add_set(u32::MAX - 1, u32::MAX));
    assert_eq!(m.map(u32::MAX), Some(1));
    assert!(!m.add_set(u32::MAX, 1));
}

#[test]
fn usage_collects_distinct_non_empty_ids_ascending() {
    let layers = vec![vec![vec![0, 5, 5], vec![9, 0, 12]]];
    assert_eq!(collect_gid_usage(&layers), vec![5, 9, 12]);
}

#[test]
fn usage_spans_layers() {
    let layers = vec![vec![vec![12, 3]], vec![vec![3, 7], vec![0]]];
    assert_eq!(collect_gid_usage(&layers), vec![3, 7, 12]);
}

#[test]
fn usage_of_empty_grid_is_empty() {
    let layers: Vec<Vec<Vec<u32>>> = vec![];
    assert!(collect_gid_usage(&layers).is_empty());
    let blank = vec![vec![vec![0, 0], vec![0, 0]]];
    assert!(collect_gid_usage(&blank).is_empty());
}

#[test]
fn sparse_map_compacts_used_ids() {
    let layers = vec![vec![vec![0, 5, 5], vec![9, 0, 12]]];
    let m = SparseGidMap::from_layers(&layers);
    assert_eq!(m.used(), &vec![5, 9, 12]);
    assert_eq!(m.map(5), Some(1));
    assert_eq!(m.map(9), Some(2));
    assert_eq!(m.map(12), Some(3));
    assert_eq!(m.map(0), None);
    assert_eq!(m.map(6), None);
}

#[test]
fn dense_grid_remap() {
    let mut m = GidMap::new();
    m.add_set(1, 6);
    let layers = vec![vec![vec![1, 2], vec![4, 0]]];
    let grid = remap_grid(&m, &layers).unwrap();
    assert_eq!(grid, vec![vec![vec![0, 1], vec![3, 0]]]);
}

#[test]
fn sparse_grid_remap() {
    let layers = vec![vec![vec![0, 5, 5], vec![9, 0, 12]]];
    let m = SparseGidMap::from_layers(&layers);
    let grid = remap_grid(&m, &layers).unwrap();
    assert_eq!(grid, vec![vec![vec![0, 1, 1], vec![2, 0, 3]]]);
}

#[test]
fn unresolvable_cell_is_corrupt_map_reference() {
    let mut m = GidMap::new();
    m.add_set(1, 6);
    let layers = vec![vec![vec![1, 2]], vec![vec![3, 40]]];
    assert_eq!(remap_grid(&m, &layers), Err(LoadError::CorruptMapReference { gid: 40 }));
}
