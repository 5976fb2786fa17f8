use rumoca_lower::builder::{FunctionParamSignature, FunctionSignature, LowerBuilder};
use rumoca_lower::collections::name_set_new;
use rumoca_lower::scope::{collect_scope_names, projection_scope_names, FunctionProjectionScope, Scope};
use rumoca_lower::span::{SourceId, Span};

fn param(name: &str, declared_type: &str, rank: usize) -> FunctionParamSignature {
    FunctionParamSignature {
        name: name.to_string(),
        declared_type: declared_type.to_string(),
        rank,
        has_default: false,
    }
}

fn constructor_like(outputs: Vec<FunctionParamSignature>) -> FunctionSignature {
    FunctionSignature {
        inputs: vec![param("re", "Real", 0)],
        outputs,
        has_locals: false,
        body: Vec::new(),
        is_external: false,
        is_pure: true,
    }
}

#[test]
fn record_constructor_calls_are_recognized() {
    let mut builder = LowerBuilder::new();
    builder.add_function("Pkg.Complex".to_string(), constructor_like(vec![param("res", "Pkg.Complex", 0)]));
    builder.add_function("Pkg.Point".to_string(), constructor_like(Vec::new()));
    builder.add_function("Pkg.lower".to_string(), constructor_like(Vec::new()));
    builder.add_function("Pkg.f".to_string(), constructor_like(vec![param("y", "Pkg.f", 0)]));

    assert!(builder.is_record_constructor_call_key("Pkg.Complex", false));
    assert!(builder.is_record_constructor_call_key("Pkg.Point", false));
    assert!(!builder.is_record_constructor_call_key("Pkg.lower", false));
    assert!(!builder.is_record_constructor_call_key("Pkg.f", false));
    assert!(!builder.is_record_constructor_call_key("Pkg.Missing", false));
    assert!(builder.is_record_constructor_call_key("Pkg.Missing", true));
}

#[test]
fn known_empty_arrays_are_tracked_per_key() {
    let mut builder = LowerBuilder::new();
    builder.update_known_empty_local_array("a", true);
    builder.update_known_empty_local_array("b", true);
    builder.update_known_empty_local_array("a", true);
    assert!(builder.is_known_empty_local_array("a"));
    builder.update_known_empty_local_array("a", false);
    assert!(!builder.is_known_empty_local_array("a"));
    assert!(builder.is_known_empty_local_array("b"));
}

#[test]
fn run_time_assignment_forgets_local_constant() {
    let mut builder = LowerBuilder::new();
    builder.bind_local_const("n".to_string(), 3.0f64.to_bits());
    builder.bind_local_const("m".to_string(), 4.0f64.to_bits());
    builder.clear_local_const_assignment("n");
    assert_eq!(builder.local_const("n"), None);
    assert_eq!(builder.local_const("m").map(f64::from_bits), Some(4.0));
}

#[test]
fn flattened_record_positional_advances_after_last_field() {
    let builder = LowerBuilder::new();
    let inputs = vec![param("r.re", "Real", 0), param("r.im", "Real", 0), param("k", "Real", 0)];
    let mut positional_idx = 0;
    builder.advance_flattened_record_positional(&inputs, 0, &mut positional_idx, "r");
    assert_eq!(positional_idx, 0);
    builder.advance_flattened_record_positional(&inputs, 1, &mut positional_idx, "r");
    assert_eq!(positional_idx, 1);
}

#[test]
fn branch_merge_names_keep_entry_names_first() {
    let span = Span::from_offsets(SourceId::new(5), 0, 1);
    let mut entry = Scope::new();
    entry.insert("a".to_string(), 1);
    let mut branch = Scope::new();
    branch.insert("b".to_string(), 2);
    branch.insert("a".to_string(), 3);
    let mut else_scope = Scope::new();
    else_scope.insert("c".to_string(), 4);
    else_scope.insert("b".to_string(), 5);
    let names = collect_scope_names(&entry, &[branch], &else_scope, span).unwrap();
    assert_eq!(names, vec!["a", "b", "c", "b"]);
}

#[test]
fn projection_scope_names_are_distinct_in_first_seen_order() {
    let span = Span::from_offsets(SourceId::new(6), 0, 1);
    let mut entry = FunctionProjectionScope::new();
    entry.scalars = name_set_with(&["x", "y"]);
    let mut branch = FunctionProjectionScope::new();
    branch.full = name_set_with(&["z", "x"]);
    let else_scope = FunctionProjectionScope::new();
    let names = projection_scope_names(&entry, &[branch], &else_scope, span).unwrap();
    assert_eq!(names, vec!["x", "y", "z"]);
}

fn name_set_with(names: &[&str]) -> indexmap::IndexMap<String, ()> {
    let mut set = name_set_new();
    for name in names {
        set.insert(name.to_string(), ());
    }
    set
}

#[test]
fn scope_reads_back_the_latest_binding() {
    let mut scope = Scope::new();
    scope.insert("x".to_string(), 1);
    scope.insert("y".to_string(), 2);
    scope.insert("x".to_string(), 7);
    assert_eq!(scope.get("x"), Some(7));
    assert_eq!(scope.get("y"), Some(2));
    assert_eq!(scope.get("z"), None);
    assert_eq!(scope.len(), 2);
}
