use rumoca_lower::builder::{FunctionParamSignature, InputSource, LowerBuilder};
use rumoca_lower::error::LowerError;
use rumoca_lower::input_binding::{
    record_constructor_field_bindings, InputRecordFacts, RecordActual, RecordFieldBinding,
};
use rumoca_lower::ir::Expression;
use rumoca_lower::span::{SourceId, Span};

fn param(name: &str, has_default: bool) -> FunctionParamSignature {
    FunctionParamSignature { name: name.to_string(), declared_type: "Real".to_string(), rank: 0, has_default }
}

fn facts() -> InputRecordFacts {
    InputRecordFacts {
        flattened_positional_bound: false,
        has_record_fields: false,
        flattened_fields_bound: false,
        cursor_after_record: 0,
        size_actual_run: 0,
        can_synthesize_field: false,
    }
}

fn var(name: &str) -> Expression {
    Expression::VarRef { name: name.to_string(), subscripts: Vec::new() }
}

fn strings(list: &[&str]) -> Vec<String> {
    list.iter().map(|s| s.to_string()).collect()
}

fn view(bindings: &[RecordFieldBinding]) -> Vec<(String, RecordActual, Option<usize>)> {
    bindings.iter().map(|b| (b.local_name.clone(), b.actual, b.field)).collect()
}

#[test]
fn inputs_bind_positionally_then_by_default() {
    let builder = LowerBuilder::new();
    let span = Span::from_offsets(SourceId::new(21), 0, 3);
    let inputs = vec![param("x", false), param("y", true)];
    let plan = builder
        .function_input_binding_plan("f", &inputs, &[], &[var("a")], None, &[facts(), facts()], span)
        .unwrap();
    assert_eq!(plan, vec![(0, InputSource::Positional { arg: 0 }), (1, InputSource::Default)]);
}

#[test]
fn input_without_actual_or_default_is_missing() {
    let builder = LowerBuilder::new();
    let span = Span::from_offsets(SourceId::new(22), 4, 9);
    let inputs = vec![param("x", false), param("z", false)];
    let err = builder
        .function_input_binding_plan("f", &inputs, &[], &[var("a")], None, &[facts(), facts()], span)
        .unwrap_err();
    assert_eq!(
        err,
        LowerError::MissingActualArgument {
            function: "f".to_string(),
            what: "required input",
            input: "z".to_string(),
            span,
        }
    );
    assert_eq!(err.reason(), "invalid function `f`: required input `z` has no actual argument or default binding");
}

#[test]
fn named_actual_binds_without_moving_the_cursor() {
    let builder = LowerBuilder::new();
    let span = Span::dummy();
    let inputs = vec![param("x", false), param("y", false)];
    let plan = builder
        .function_input_binding_plan("f", &inputs, &strings(&["x"]), &[var("a")], None, &[facts(), facts()], span)
        .unwrap();
    assert_eq!(plan, vec![(0, InputSource::Named), (1, InputSource::Positional { arg: 0 })]);
}

#[test]
fn unused_flattened_field_after_the_used_ones_passes_over_its_actual() {
    let builder = LowerBuilder::new();
    let inputs = vec![param("r.a", false), param("r.b", false)];
    let used = strings(&["r.a"]);
    let plan = builder
        .function_input_binding_plan(
            "f",
            &inputs,
            &[],
            &[var("s.a"), var("s.b")],
            Some(&used),
            &[facts(), facts()],
            Span::dummy(),
        )
        .unwrap();
    assert_eq!(plan, vec![(0, InputSource::Positional { arg: 0 })]);
}

#[test]
fn unused_flattened_field_before_a_used_one_keeps_the_cursor_unless_the_actual_is_its_field() {
    let builder = LowerBuilder::new();
    let inputs = vec![param("r.a", false), param("r.b", false)];
    let used = strings(&["r.b"]);
    let plan = builder
        .function_input_binding_plan("f", &inputs, &[], &[var("s.b")], Some(&used), &[facts(), facts()], Span::dummy())
        .unwrap();
    assert_eq!(plan, vec![(1, InputSource::Positional { arg: 0 })]);
    let plan = builder
        .function_input_binding_plan(
            "f",
            &inputs,
            &[],
            &[var("s.a"), var("s.b")],
            Some(&used),
            &[facts(), facts()],
            Span::dummy(),
        )
        .unwrap();
    assert_eq!(plan, vec![(1, InputSource::Positional { arg: 1 })]);
}

#[test]
fn record_constructor_binds_named_fields_then_positional_ones() {
    let fields = strings(&["a", "b"]);
    let bindings =
        record_constructor_field_bindings("u", "R", &strings(&["b"]), &[false], &[false, true], Some(&fields))
            .unwrap();
    assert_eq!(
        view(&bindings),
        vec![
            ("u.b".to_string(), RecordActual::Named { index: 0 }, Some(1)),
            ("u.a".to_string(), RecordActual::Positional { index: 0 }, Some(0)),
        ]
    );
    let bindings =
        record_constructor_field_bindings("u", "R", &strings(&["c", "d"]), &[false, true], &[], None).unwrap();
    assert_eq!(view(&bindings), vec![("u.c".to_string(), RecordActual::Named { index: 0 }, None)]);
}

#[test]
fn record_constructor_without_field_list_is_refused() {
    let err = record_constructor_field_bindings("u", "R", &[], &[], &[false], None).unwrap_err();
    assert_eq!(
        err,
        LowerError::InvalidFunction {
            name: "R".to_string(),
            reason: "record constructor has no registered field list".to_string(),
        }
    );
    let err = record_constructor_field_bindings("u", "R", &strings(&["a"]), &[false], &[false], None).unwrap_err();
    assert_eq!(
        err,
        LowerError::InvalidFunction {
            name: "R".to_string(),
            reason: "positional record constructor requires a registered field list".to_string(),
        }
    );
}
