use rumoca_lower::indexed::{
    contiguous_param_grid_layout, dense_flat_index, infer_indexed_dims, row_major_strides_of,
    sorted_flat_entries, IndexedBinding, IndexedMeta,
};

fn binding(indices: &[usize], slot: usize) -> IndexedBinding {
    IndexedBinding { indices: indices.to_vec(), slot }
}

#[test]
fn infer_indexed_dims_takes_per_position_maximum() {
    let entries = vec![binding(&[1, 3], 0), binding(&[2, 1], 1), binding(&[4], 2)];
    assert_eq!(infer_indexed_dims(&entries), vec![2, 3]);
}

#[test]
fn infer_indexed_dims_counts_single_subscripts() {
    let entries = vec![binding(&[7], 0), binding(&[2], 1), binding(&[], 2)];
    assert_eq!(infer_indexed_dims(&entries), vec![2]);
}

#[test]
fn infer_indexed_dims_of_scalars_is_empty() {
    let entries = vec![binding(&[], 0)];
    assert!(infer_indexed_dims(&entries).is_empty());
}

#[test]
fn sorted_flat_entries_sorts_full_rank_entries_stably() {
    let entries = vec![
        binding(&[2, 1], 0),
        binding(&[1], 1),
        binding(&[1, 2], 2),
        binding(&[1, 2], 3),
        binding(&[1, 1], 4),
    ];
    let slots: Vec<usize> = sorted_flat_entries(&entries).iter().map(|entry| entry.slot).collect();
    assert_eq!(slots, vec![4, 2, 3, 0]);
}

#[test]
fn row_major_strides_make_last_dimension_contiguous() {
    assert_eq!(row_major_strides_of(&[2, 3, 4]), vec![12, 4, 1]);
}

#[test]
fn dense_flat_index_is_row_major_position() {
    assert_eq!(dense_flat_index(&[2, 3], &[2, 3], &[3, 1]), Some(5));
    assert_eq!(dense_flat_index(&[1, 1], &[2, 3], &[3, 1]), Some(0));
    assert_eq!(dense_flat_index(&[3, 1], &[2, 3], &[3, 1]), None);
    assert_eq!(dense_flat_index(&[0, 1], &[2, 3], &[3, 1]), None);
    assert_eq!(dense_flat_index(&[1], &[2, 3], &[3, 1]), None);
    assert_eq!(dense_flat_index(&[2, 2], &[2, 3], &[3, 1]), Some(4));
}

#[test]
fn dense_flat_index_needs_only_this_offset_to_fit() {
    assert_eq!(dense_flat_index(&[1, 1], &[usize::MAX, 2], &[2, 1]), Some(0));
    assert_eq!(dense_flat_index(&[1, 2], &[usize::MAX, 2], &[2, 1]), Some(1));
    assert_eq!(dense_flat_index(&[3, 1], &[2], &[1, 1]), None);
}

#[test]
fn dense_and_table_lookups_find_the_first_full_rank_entry() {
    let dense = vec![
        binding(&[1, 1], 10),
        binding(&[1, 2], 11),
        binding(&[2, 1], 12),
        binding(&[2, 2], 13),
        binding(&[1, 2], 14),
    ];
    let meta = IndexedMeta::build(&dense);
    assert_eq!(meta.dims(), &[2, 2]);
    assert_eq!(meta.position(&[1, 2]), Some(1));
    assert_eq!(meta.position(&[2, 2]), Some(3));
    assert_eq!(meta.position(&[3, 1]), None);
    assert_eq!(meta.position(&[1]), None);

    let sparse = vec![binding(&[1, 1], 10), binding(&[2, 2], 11), binding(&[2, 2], 12)];
    let meta = IndexedMeta::build(&sparse);
    assert_eq!(meta.dims(), &[2, 2]);
    assert_eq!(meta.position(&[2, 2]), Some(1));
    assert_eq!(meta.position(&[1, 2]), None);
}

#[test]
fn one_dimensional_group_looks_up_by_subscript() {
    let entries = vec![binding(&[3], 0), binding(&[1], 1)];
    let meta = IndexedMeta::build(&entries);
    assert_eq!(meta.dims(), &[2]);
    assert_eq!(meta.position(&[3]), Some(0));
    assert_eq!(meta.position(&[1]), Some(1));
    assert_eq!(meta.position(&[2]), None);
}

#[test]
fn contiguous_grid_reports_base_count_and_strides() {
    let grid = vec![
        (vec![1, 1], 7),
        (vec![1, 2], 8),
        (vec![2, 1], 9),
        (vec![2, 2], 10),
    ];
    assert_eq!(contiguous_param_grid_layout(&grid), Some((7, 4, vec![2, 1])));
}

#[test]
fn non_contiguous_grids_are_declined() {
    let gap = vec![(vec![1], 3), (vec![2], 5)];
    assert_eq!(contiguous_param_grid_layout(&gap), None);
    let sparse = vec![(vec![1, 1], 0), (vec![2, 2], 1)];
    assert_eq!(contiguous_param_grid_layout(&sparse), None);
    let zero = vec![(vec![0], 0)];
    assert_eq!(contiguous_param_grid_layout(&zero), None);
    let empty: Vec<(Vec<usize>, usize)> = Vec::new();
    assert_eq!(contiguous_param_grid_layout(&empty), None);
}
