use rumoca_lower::projection_index::{normalize_projection_indices, scope_indices_for_projection};
use rumoca_lower::scope::{bind_singleton_array_actual_to_scalar_formal, Scope};
use rumoca_lower::shape::projection_indices_for_dims;
use rumoca_lower::span::{SourceId, Span};
use rumoca_lower::strings::find_string_special_value;

fn unspanned_function_projection_test_span() -> Span {
    Span::dummy()
}

#[test]
fn find_string_special_value_uses_modelica_one_based_index() {
    let span = Span::from_offsets(SourceId::new(1), 3, 20);
    let value = find_string_special_value(false, "abcdef", "cd", span)
        .expect("literal string find should evaluate");

    assert_eq!(value as f64, 3.0);
}

#[test]
fn find_string_special_value_returns_zero_for_missing_match() {
    let span = Span::from_offsets(SourceId::new(2), 5, 26);
    let value = find_string_special_value(true, "abcdef", "xy", span)
        .expect("literal string findLast should evaluate");

    assert_eq!(value as f64, 0.0);
}

#[test]
fn bind_singleton_array_actual_declines_overflowing_dims() {
    let mut scope = Scope::new();

    assert!(!bind_singleton_array_actual_to_scalar_formal(
        &mut scope,
        "x",
        &[usize::MAX, 2],
        &[0],
    ));
    assert!(scope.get("x").is_none());
}

#[test]
fn projection_indices_for_dims_declines_overflowing_shape_product() {
    assert_eq!(projection_indices_for_dims(&[i64::MAX, 3], 0), None);
}

#[test]
fn normalize_projection_indices_declines_overflowing_shape_product() {
    assert_eq!(
        normalize_projection_indices(&[i64::MAX, 3], &[1, 1], unspanned_function_projection_test_span()),
        Ok(None)
    );
}

#[test]
fn scope_indices_for_projection_declines_zero_linear_index() {
    assert_eq!(
        scope_indices_for_projection(&[3, 3], &[], &[0], unspanned_function_projection_test_span()),
        Ok(None)
    );
}

#[test]
fn checked_usize_dims_to_i64_rejects_overflow_with_span() {
    let Some(dim) = usize::try_from(i64::MAX)
        .ok()
        .and_then(|value| value.checked_add(1))
    else {
        return;
    };
    let span = Span::from_offsets(SourceId::new(45), 2, 10);

    let err = rumoca_lower::builder::checked_usize_dims_to_i64(&[dim], "function input actual shape", span)
        .expect_err("function-call dimensions must fit in Modelica integer range");

    assert_eq!(err.source_span(), Some(span));
    assert_eq!(
        err.reason(),
        format!(
            "invalid IR contract: function input actual shape dimension {dim} exceeds i64 range"
        )
    );
}

#[test]
fn checked_usize_dims_to_i64_keeps_dimensions_in_range() {
    let span = Span::from_offsets(SourceId::new(46), 0, 4);
    assert_eq!(
        rumoca_lower::builder::checked_usize_dims_to_i64(&[2, 3], "function input actual shape", span),
        Ok(vec![2, 3])
    );
}

#[test]
fn lower_error_clone_keeps_reason_and_span() {
    let span = Span::from_offsets(SourceId::new(47), 1, 5);
    let err = rumoca_lower::error::contract_violation("bad".to_string(), span);
    let copy = err.clone();
    assert_eq!(copy, err);
    assert_eq!(copy.reason(), err.reason());
    assert_eq!(copy.source_span(), Some(span));
}
