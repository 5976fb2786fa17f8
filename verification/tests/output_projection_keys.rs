use rumoca_lower::output_projection::{
    base_projection_reg, format_projection_base_scope_key, format_projection_scope_key,
    positional_field_projection_index, positional_field_projection_reg,
    resolve_projected_function_reg, FunctionOutputProjection,
};
use rumoca_lower::rows::{expand_row_values, row_namespace_from_usize, scalar_row_namespace};
use rumoca_lower::root_relations::checked_root_count_add;
use rumoca_lower::scope::Scope;
use rumoca_lower::span::{SourceId, Span};

fn source_span(source: u64, start: usize, end: usize) -> Span {
    Span::from_offsets(SourceId::new(source), start, end)
}

fn projection(field: Option<&str>, scope_indices: Vec<usize>, indices: Vec<usize>) -> FunctionOutputProjection {
    FunctionOutputProjection {
        base_function_name: "Pkg.f".to_string(),
        output_name: "y".to_string(),
        output_field: field.map(|f| f.to_string()),
        scope_indices,
        indices,
        span: source_span(12, 0, 5),
    }
}

#[test]
fn projection_scope_keys_name_the_selected_element() {
    let span = source_span(12, 0, 5);
    assert_eq!(format_projection_base_scope_key(&projection(None, vec![], vec![])), "y");
    assert_eq!(format_projection_base_scope_key(&projection(Some("re"), vec![], vec![])), "y.re");
    assert_eq!(format_projection_scope_key(&projection(Some("re"), vec![], vec![]), span).unwrap(), "y.re");
    assert_eq!(format_projection_scope_key(&projection(None, vec![2, 10], vec![]), span).unwrap(), "y[2,10]");
    assert_eq!(format_projection_scope_key(&projection(Some("im"), vec![3], vec![]), span).unwrap(), "y.im[3]");
}

#[test]
fn positional_field_index_only_for_unindexed_complex_fields() {
    assert_eq!(positional_field_projection_index(&projection(Some("re"), vec![], vec![])), Some(0));
    assert_eq!(positional_field_projection_index(&projection(Some("im"), vec![], vec![])), Some(1));
    assert_eq!(positional_field_projection_index(&projection(Some("im"), vec![], vec![1])), None);
    assert_eq!(positional_field_projection_index(&projection(Some("x"), vec![], vec![])), None);
    assert_eq!(positional_field_projection_index(&projection(None, vec![], vec![])), None);
}

#[test]
fn projected_function_reg_falls_back_in_order() {
    let mut scope = Scope::new();
    scope.insert("y[2]".to_string(), 7);
    scope.insert("y".to_string(), 3);
    scope.insert("y.re".to_string(), 9);

    let im = projection(Some("im"), vec![], vec![]);
    assert_eq!(positional_field_projection_reg(&im, &scope), Some(7));
    assert_eq!(resolve_projected_function_reg(&im, &scope, "y.im"), Some(7));
    assert_eq!(resolve_projected_function_reg(&im, &scope, "y.re"), Some(9));

    let first = projection(None, vec![], vec![1]);
    assert_eq!(base_projection_reg(&first, &scope), Some(3));
    assert_eq!(resolve_projected_function_reg(&first, &scope, "y[1]"), Some(3));
    let second = projection(None, vec![], vec![2]);
    assert_eq!(base_projection_reg(&second, &scope), None);
    assert_eq!(resolve_projected_function_reg(&second, &scope, "z"), None);
}

#[test]
fn scalar_row_namespaces_are_spread_by_a_million() {
    let span = source_span(13, 0, 1);
    assert_eq!(scalar_row_namespace(3, 5, span).unwrap(), 3_000_005);
    assert_eq!(row_namespace_from_usize(42, None).unwrap(), 42);
    let err = scalar_row_namespace(u64::MAX / 1_000_000, usize::MAX, span).unwrap_err();
    assert!(err.reason().starts_with("invalid IR contract: scalar row namespace overflows for namespace"));
    assert_eq!(err.source_span(), Some(span));
}

#[test]
fn expand_row_values_repeats_single_values() {
    let span = source_span(13, 0, 1);
    assert_eq!(expand_row_values(vec![4u64], 3, span).unwrap(), vec![4, 4, 4]);
    assert_eq!(expand_row_values(vec![1u64, 2, 3], 3, span).unwrap(), vec![1, 2, 3]);
    let err = expand_row_values(vec![1u64, 2], 3, span).unwrap_err();
    assert_eq!(
        err.reason(),
        "array expression width 2 does not match equation scalar count 3"
    );
}

#[test]
fn checked_root_count_add_rejects_overflow() {
    let span = source_span(14, 2, 4);
    assert_eq!(checked_root_count_add(2, 3, Some(span), "root count").unwrap(), 5);
    let err = checked_root_count_add(usize::MAX, 1, Some(span), "root count").unwrap_err();
    assert_eq!(err.reason(), "invalid IR contract: root count overflows host index range");
    assert_eq!(err.source_span(), Some(span));
    let err = checked_root_count_add(usize::MAX, 1, None, "root count").unwrap_err();
    assert_eq!(err.source_span(), None);
}
