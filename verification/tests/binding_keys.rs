use rumoca_lower::keys::{
    collect_slice_keys, format_subscript_binding_key, parse_indexed_binding_key,
    parse_scalarized_record_field, scalar_keys_for_dims,
};
use rumoca_lower::span::{SourceId, Span};

#[test]
fn subscript_keys_join_indices_with_commas() {
    assert_eq!(format_subscript_binding_key("x", &[1, 3]), "x[1,3]");
    assert_eq!(format_subscript_binding_key("a.b", &[12]), "a.b[12]");
    assert_eq!(format_subscript_binding_key("x", &[]), "x");
}

#[test]
fn subscript_keys_parse_back() {
    let key = format_subscript_binding_key("a[index.with.dot].x", &[1, 3, 10]);
    assert_eq!(
        parse_indexed_binding_key(&key),
        Some(("a[index.with.dot].x".to_string(), vec![1, 3, 10]))
    );
}

#[test]
fn scalar_name_parser_accepts_spaces_and_plus() {
    assert_eq!(parse_indexed_binding_key("x[ +2 , 4 ]"), Some(("x".to_string(), vec![2, 4])));
    assert_eq!(parse_indexed_binding_key("x[1,]"), None);
    assert_eq!(parse_indexed_binding_key("x[]"), None);
    assert_eq!(parse_indexed_binding_key("x"), None);
    assert_eq!(parse_indexed_binding_key("x[99999999999999999999]"), None);
}

#[test]
fn scalar_keys_follow_row_major_order() {
    let span = Span::from_offsets(SourceId::new(3), 0, 1);
    assert_eq!(
        scalar_keys_for_dims("x", &[2, 2], span).unwrap(),
        vec!["x[1,1]", "x[1,2]", "x[2,1]", "x[2,2]"]
    );
    assert_eq!(scalar_keys_for_dims("x", &[], span).unwrap(), vec!["x"]);
    assert!(scalar_keys_for_dims("x", &[0, 3], span).unwrap().is_empty());
}

#[test]
fn slice_keys_enumerate_selections_depth_first() {
    let span = Span::from_offsets(SourceId::new(4), 0, 1);
    let selections = vec![vec![2, 1], vec![3]];
    let mut current = Vec::new();
    let mut keys = vec!["first".to_string()];
    collect_slice_keys("y", &selections, span, 0, &mut current, &mut keys).unwrap();
    assert!(current.is_empty());
    assert_eq!(keys, vec!["first", "y[2,3]", "y[1,3]"]);
}

#[test]
fn record_field_suffix_splits_into_component_and_indices() {
    let field = parse_scalarized_record_field("re[2]", 4);
    assert_eq!(field.suffix, "re[2]");
    assert_eq!(field.component, "re");
    assert_eq!(field.indices, vec![2]);
    assert_eq!(field.field_index, 4);

    let scalar = parse_scalarized_record_field("im", 1);
    assert_eq!(scalar.component, "im");
    assert!(scalar.indices.is_empty());
}
