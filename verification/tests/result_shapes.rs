use rumoca_lower::error::LowerError;
use rumoca_lower::result_dims::{
    binary_elementwise_result_dims, binary_mul_result_dims, copy_i64_dims, copy_result_dims,
    declared_output_concrete_dims, guarded_assignment_without_base, merge_projection_dims, one_based_index_range,
    projected_output_remaining_dims, projected_scalar_slot_contract_error,
    resolve_array_dims_for_value_count,
    scalarized_child_index_from_subscripts, slice_selection_count,
    tensor_product_matches_result_shape, transpose_result_dims,
};
use rumoca_lower::span::{SourceId, Span};

fn source_span(source: u64, start: usize, end: usize) -> Span {
    Span::from_offsets(SourceId::new(source), start, end)
}

#[test]
fn one_based_index_range_counts_from_one() {
    let span = source_span(3, 1, 2);
    assert_eq!(one_based_index_range(4, "range", span).unwrap(), vec![1, 2, 3, 4]);
    assert_eq!(one_based_index_range(0, "range", span).unwrap(), Vec::<usize>::new());
}

#[test]
fn slice_selection_count_multiplies_selection_sizes() {
    let span = source_span(3, 1, 2);
    let selections = vec![vec![1, 2], vec![1, 2, 3], vec![4]];
    assert_eq!(slice_selection_count(&selections, span).unwrap(), 6);
    assert_eq!(slice_selection_count(&[], span).unwrap(), 1);
    assert_eq!(slice_selection_count(&[vec![1], vec![]], span).unwrap(), 0);
}

#[test]
fn copy_result_dims_copies_shapes() {
    let span = source_span(3, 1, 2);
    assert_eq!(copy_result_dims(&[2, 3], "dims", span).unwrap(), vec![2, 3]);
    assert_eq!(copy_result_dims(&[], "dims", span).unwrap(), Vec::<usize>::new());
    assert_eq!(copy_i64_dims(&[0, -1, 4], "dims", span).unwrap(), vec![0, -1, 4]);
}

#[test]
fn projected_output_remaining_dims_drops_indexed_dimensions() {
    let span = source_span(5, 2, 9);
    assert_eq!(projected_output_remaining_dims(&[2, 3, 4], &[], "f", span).unwrap(), vec![2, 3, 4]);
    assert_eq!(projected_output_remaining_dims(&[2, 3, 4], &[2], "f", span).unwrap(), vec![3, 4]);
    assert_eq!(
        projected_output_remaining_dims(&[2, 3, 4], &[1, 3, 4], "f", span).unwrap(),
        Vec::<usize>::new()
    );
}

#[test]
fn projected_output_remaining_dims_rejects_bad_indices() {
    let span = source_span(5, 2, 9);
    let err = projected_output_remaining_dims(&[2], &[1, 1], "y", span).unwrap_err();
    assert_eq!(
        err.reason(),
        "invalid IR contract: projected function output `y` has 2 indices for 1 dimensions"
    );
    assert_eq!(err.source_span(), Some(span));
    let err = projected_output_remaining_dims(&[2, 3], &[1, 4], "y", span).unwrap_err();
    assert_eq!(
        err.reason(),
        "invalid IR contract: projected function output `y` index 4 is outside dimension 3"
    );
    let err = projected_output_remaining_dims(&[2, 3], &[0], "y", Span::dummy()).unwrap_err();
    assert!(matches!(err, LowerError::UnspannedContractViolation { .. }));
    assert_eq!(
        err.reason(),
        "invalid IR contract: projected function output `y` index 0 is outside dimension 2"
    );
}

#[test]
fn declared_output_concrete_dims_rejects_negative_dimension() {
    let span = source_span(6, 0, 4);
    assert_eq!(declared_output_concrete_dims(&[2, 0, 5], "y", "f", span).unwrap(), vec![2, 0, 5]);
    let err = declared_output_concrete_dims(&[2, -1], "y", "f", span).unwrap_err();
    assert_eq!(err.reason(), "invalid function `f`: output `y` has invalid dimension -1");
    assert_eq!(err.source_span(), Some(span));
    let err = declared_output_concrete_dims(&[-3], "y", "f", Span::dummy()).unwrap_err();
    assert!(matches!(err, LowerError::InvalidFunction { .. }));
    assert_eq!(err.source_span(), None);
}

#[test]
fn merge_projection_dims_keeps_first_shape_and_rejects_mismatch() {
    let span = source_span(7, 1, 3);
    let mut merged: Option<Vec<i64>> = None;
    merge_projection_dims("x", &mut merged, None, span).unwrap();
    assert_eq!(merged, None);
    let first = vec![2, 3];
    merge_projection_dims("x", &mut merged, Some(&first), span).unwrap();
    assert_eq!(merged, Some(vec![2, 3]));
    merge_projection_dims("x", &mut merged, Some(&first), span).unwrap();
    let other = vec![3];
    let err = merge_projection_dims("x", &mut merged, Some(&other), span).unwrap_err();
    assert_eq!(
        err.reason(),
        "invalid IR contract: if-statement projection for `x` has mismatched dimensions: [2, 3] and [3]"
    );
    assert_eq!(merged, Some(vec![2, 3]));
}

#[test]
fn binary_elementwise_result_dims_broadcasts_scalars() {
    assert_eq!(binary_elementwise_result_dims(vec![], vec![3]), vec![3]);
    assert_eq!(binary_elementwise_result_dims(vec![2, 2], vec![]), vec![2, 2]);
    assert_eq!(binary_elementwise_result_dims(vec![2, 2], vec![2, 2]), vec![2, 2]);
    assert_eq!(binary_elementwise_result_dims(vec![2], vec![3]), Vec::<usize>::new());
}

#[test]
fn binary_mul_result_dims_follows_product_shapes() {
    let span = source_span(8, 0, 1);
    assert_eq!(binary_mul_result_dims(vec![], vec![3, 4], span).unwrap(), vec![3, 4]);
    assert_eq!(binary_mul_result_dims(vec![3], vec![], span).unwrap(), vec![3]);
    assert_eq!(binary_mul_result_dims(vec![2, 3], vec![3, 4], span).unwrap(), vec![2, 4]);
    assert_eq!(binary_mul_result_dims(vec![2, 3], vec![3], span).unwrap(), vec![2]);
    assert_eq!(binary_mul_result_dims(vec![3], vec![3, 5], span).unwrap(), vec![5]);
    assert_eq!(binary_mul_result_dims(vec![3], vec![3], span).unwrap(), Vec::<usize>::new());
    assert_eq!(binary_mul_result_dims(vec![2, 3, 4], vec![2, 3, 4], span).unwrap(), vec![2, 3, 4]);
    assert_eq!(binary_mul_result_dims(vec![2, 3], vec![4, 5], span).unwrap(), Vec::<usize>::new());
}

#[test]
fn transpose_result_dims_swaps_matrix_dimensions() {
    let span = source_span(9, 3, 8);
    assert_eq!(transpose_result_dims(&[2, 5], span).unwrap(), vec![5, 2]);
    let err = transpose_result_dims(&[2, 5, 1], span).unwrap_err();
    assert_eq!(err.reason(), "transpose() requires a matrix input, got shape [2, 5, 1]");
    assert_eq!(err.source_span(), Some(span));
}

#[test]
fn resolve_array_dims_infers_the_unknown_dimension() {
    let span = source_span(10, 0, 2);
    assert_eq!(resolve_array_dims_for_value_count(&[2, 0], 6, "array", span).unwrap(), vec![2, 3]);
    assert_eq!(resolve_array_dims_for_value_count(&[0], 4, "array", span).unwrap(), vec![4]);
    assert_eq!(resolve_array_dims_for_value_count(&[0, 0], 4, "array", span).unwrap(), vec![0, 0]);
    assert_eq!(resolve_array_dims_for_value_count(&[2, 0], 0, "array", span).unwrap(), vec![2, 0]);
    assert_eq!(resolve_array_dims_for_value_count(&[], 3, "array", span).unwrap(), Vec::<i64>::new());
}

#[test]
fn resolve_array_dims_reports_each_failure() {
    let span = source_span(10, 0, 2);
    let err = resolve_array_dims_for_value_count(&[2, -3, 0], 6, "array", span).unwrap_err();
    assert_eq!(
        err.reason(),
        "invalid IR contract: array has negative dimension in declared shape [2, -3, 0]: -3"
    );
    let err = resolve_array_dims_for_value_count(&[4, 0], 6, "array", span).unwrap_err();
    assert_eq!(
        err.reason(),
        "invalid IR contract: array cannot infer one dynamic dimension from 6 value(s)"
    );
    let err =
        resolve_array_dims_for_value_count(&[i64::MAX, i64::MAX, 0], 6, "array", span).unwrap_err();
    assert_eq!(err.reason(), "invalid IR contract: array known dimension product overflows usize");
    assert_eq!(err.source_span(), Some(span));
}

#[test]
fn scalarized_child_index_requires_positive_subscripts() {
    let span = source_span(11, 0, 2);
    assert_eq!(scalarized_child_index_from_subscripts(&[1, 3], span).unwrap(), Some(vec![1, 3]));
    assert_eq!(scalarized_child_index_from_subscripts(&[1, 0], span).unwrap(), None);
    assert_eq!(scalarized_child_index_from_subscripts(&[-2], span).unwrap(), None);
}

#[test]
fn tensor_product_shapes_match_projected_result() {
    assert!(tensor_product_matches_result_shape(&[2, 3], &[3], &[2]));
    assert!(tensor_product_matches_result_shape(&[3], &[3, 4], &[4]));
    assert!(tensor_product_matches_result_shape(&[2, 3], &[3, 4], &[2, 4]));
    assert!(!tensor_product_matches_result_shape(&[2, 3], &[3, 4], &[4, 2]));
    assert!(!tensor_product_matches_result_shape(&[3], &[3], &[]));
}

#[test]
fn projection_selection_errors_name_the_variable() {
    let span = source_span(15, 1, 4);
    let e = projected_scalar_slot_contract_error("y", 3, span);
    assert_eq!(e.reason(), "invalid IR contract: projected scalar selection for `y` flat index 3 is missing");
    assert_eq!(e.source_span(), Some(span));
    let e = guarded_assignment_without_base("z", span);
    assert_eq!(e.reason(), "if-statement assignment to `z` requires an existing binding or an else assignment");
    assert_eq!(e.source_span(), Some(span));
    let e = guarded_assignment_without_base("z", Span::dummy());
    assert!(matches!(e, LowerError::Unsupported { .. }));
}
