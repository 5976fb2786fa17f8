use rumoca_lower::indexed::{dense_flat_index, row_major_strides_of};
use rumoca_lower::scope::{
    projection_scope_has_full, projection_scope_has_scalars, projection_scope_names,
    FunctionProjectionScope,
};
use rumoca_lower::shape::projection_indices_for_dims;
use rumoca_lower::span::Span;

#[test]
fn projection_indices_flatten_back_through_dense_flat_index() {
    let dims: Vec<i64> = vec![2, 3, 4];
    let du: Vec<usize> = vec![2, 3, 4];
    let strides = row_major_strides_of(&du);
    for flat in 0..24 {
        let ix = projection_indices_for_dims(&dims, flat).expect("inside the box");
        assert_eq!(dense_flat_index(&ix, &du, &strides), Some(flat));
    }
    assert_eq!(projection_indices_for_dims(&dims, 24), None);
}

#[test]
fn names_a_projection_scope_has_are_merged() {
    let mut entry = FunctionProjectionScope::new();
    entry.scalars.insert("a".to_string(), ());
    let mut branch = FunctionProjectionScope::new();
    branch.full.insert("b".to_string(), ());
    let else_scope = FunctionProjectionScope::new();
    let branches = vec![branch];
    let names = projection_scope_names(&entry, &branches, &else_scope, Span::dummy()).unwrap();
    assert!(projection_scope_has_scalars("a", &entry, &branches, &else_scope));
    assert!(names.contains(&"a".to_string()));
    assert!(projection_scope_has_full("b", &entry, &branches, &else_scope));
    assert!(names.contains(&"b".to_string()));
    assert!(!projection_scope_has_full("c", &entry, &branches, &else_scope));
}
