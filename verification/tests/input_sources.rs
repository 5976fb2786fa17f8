use rumoca_lower::builder::{
    FunctionParamSignature, InputBindRequest, InputSource, LowerBuilder, RecordScalarArgument,
};

fn param(name: &str, rank: usize, has_default: bool) -> FunctionParamSignature {
    FunctionParamSignature { name: name.to_string(), declared_type: "Real".to_string(), rank, has_default }
}

fn request(positional_count: usize) -> InputBindRequest {
    InputBindRequest {
        has_named_arg: false,
        flattened_positional_bound: false,
        has_record_fields: false,
        flattened_fields_bound: false,
        cursor_after_record: 0,
        input_count: 2,
        positional_count,
        size_actual_run: 0,
        can_synthesize_field: false,
    }
}

#[test]
fn named_actual_wins_and_keeps_the_cursor() {
    let builder = LowerBuilder::new();
    let mut cursor = 1;
    let req = InputBindRequest { has_named_arg: true, ..request(3) };
    assert_eq!(builder.try_bind_function_input(&param("x", 0, false), &req, &mut cursor), Some(InputSource::Named));
    assert_eq!(cursor, 1);
}

#[test]
fn positional_actual_moves_past_array_size_actuals() {
    let builder = LowerBuilder::new();
    let mut cursor = 0;
    let req = InputBindRequest { size_actual_run: 5, ..request(4) };
    assert_eq!(
        builder.try_bind_function_input(&param("a", 2, false), &req, &mut cursor),
        Some(InputSource::Positional { arg: 0 })
    );
    assert_eq!(cursor, 3);
    let mut cursor = 2;
    assert_eq!(
        builder.try_bind_simple_function_input(&param("a", 2, false), &req, &mut cursor),
        Some(InputSource::Positional { arg: 2 })
    );
    assert_eq!(cursor, 4);
}

#[test]
fn default_then_synthesized_field_then_nothing() {
    let builder = LowerBuilder::new();
    let mut cursor = 2;
    assert_eq!(
        builder.try_bind_function_input(&param("d", 0, true), &request(2), &mut cursor),
        Some(InputSource::Default)
    );
    let req = InputBindRequest { can_synthesize_field: true, ..request(2) };
    assert_eq!(
        builder.try_bind_function_input(&param("f", 0, false), &req, &mut cursor),
        Some(InputSource::SynthesizedField)
    );
    assert_eq!(builder.try_bind_function_input(&param("m", 0, false), &request(2), &mut cursor), None);
    assert_eq!(cursor, 2);
}

#[test]
fn record_attempts_come_before_positional_actuals() {
    let builder = LowerBuilder::new();
    let mut cursor = 0;
    let req = InputBindRequest { flattened_positional_bound: true, cursor_after_record: 1, ..request(3) };
    assert_eq!(
        builder.try_bind_non_named_function_input(&param("r.x", 0, false), &req, &mut cursor),
        Some(InputSource::FlattenedRecordPositional)
    );
    assert_eq!(cursor, 1);
    let mut cursor = 0;
    let req = InputBindRequest {
        has_record_fields: true,
        flattened_fields_bound: true,
        cursor_after_record: 3,
        ..request(3)
    };
    assert_eq!(
        builder.try_bind_function_input(&param("r", 0, false), &req, &mut cursor),
        Some(InputSource::FlattenedRecordFields)
    );
    assert_eq!(cursor, 3);
    let mut cursor = 0;
    let req = InputBindRequest { has_record_fields: true, flattened_fields_bound: true, ..request(2) };
    assert_eq!(
        builder.try_bind_function_input(&param("r", 0, false), &req, &mut cursor),
        Some(InputSource::Positional { arg: 0 })
    );
}

fn constructor(first: &str, has_default: bool) -> rumoca_lower::builder::FunctionSignature {
    rumoca_lower::builder::FunctionSignature {
        inputs: vec![param(first, 0, has_default), param("im", 0, false)],
        outputs: vec![param("res", 0, false)],
        has_locals: false,
        body: Vec::new(),
        is_external: false,
        is_pure: true,
    }
}

fn names(list: &[&str]) -> Vec<String> {
    list.iter().map(|n| n.to_string()).collect()
}

#[test]
fn record_scalar_use_reads_the_first_field() {
    let mut builder = LowerBuilder::new();
    builder.add_function("Complex".to_string(), constructor("re", false));
    builder.add_function("Wrapped".to_string(), constructor("value", true));
    assert_eq!(
        builder.record_constructor_scalar_argument("Complex", &names(&["im", "re"]), 0),
        Ok(RecordScalarArgument::Named { index: 1 })
    );
    assert_eq!(
        builder.record_constructor_scalar_argument("Complex", &names(&[]), 2),
        Ok(RecordScalarArgument::FirstPositional)
    );
    assert_eq!(
        builder.record_constructor_scalar_argument("Wrapped", &names(&["start"]), 1),
        Ok(RecordScalarArgument::FirstFieldDefault)
    );
    assert_eq!(
        builder.record_constructor_scalar_argument("Unknown", &names(&["x", "start"]), 1),
        Ok(RecordScalarArgument::Named { index: 1 })
    );
    let err = builder.record_constructor_scalar_argument("Complex", &names(&["im"]), 0).unwrap_err();
    assert_eq!(
        err,
        rumoca_lower::error::LowerError::InvalidFunction {
            name: "Complex".to_string(),
            reason: "record constructor scalar projection requires a first field argument or default binding"
                .to_string(),
        }
    );
}
