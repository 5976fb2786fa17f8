use rumoca_lower::builder::{FunctionParamSignature, FunctionSignature, LowerBuilder, RecordScalarArgument};
use rumoca_lower::call_dispatch::{
    expr_contains_size_builtin, is_projected_scalar_function_candidate, CallAction, CallStage,
};
use rumoca_lower::error::LowerError;
use rumoca_lower::ir::{BuiltinFunction, Expression, Statement};
use rumoca_lower::span::{SourceId, Span};

fn param(name: &str) -> FunctionParamSignature {
    FunctionParamSignature { name: name.to_string(), declared_type: "Real".to_string(), rank: 0, has_default: false }
}

fn var(name: &str) -> Expression {
    Expression::VarRef { name: name.to_string(), subscripts: Vec::new() }
}

fn function(body: Vec<Statement>, is_external: bool, is_pure: bool) -> FunctionSignature {
    FunctionSignature {
        inputs: vec![param("u")],
        outputs: vec![param("y")],
        has_locals: false,
        body,
        is_external,
        is_pure,
    }
}

fn builder() -> LowerBuilder {
    let mut b = LowerBuilder::new();
    let simple = vec![Statement::Assignment { target: "y".to_string(), value: var("u") }, Statement::Return];
    let sized = vec![Statement::Assignment {
        target: "y".to_string(),
        value: Expression::BuiltinCall { function: BuiltinFunction::Size, args: vec![var("u")] },
    }];
    b.add_function("simple".to_string(), function(simple, false, true));
    b.add_function("sized".to_string(), function(sized, false, true));
    b.add_function("ext".to_string(), function(Vec::new(), true, true));
    b.add_function(
        "Rec".to_string(),
        FunctionSignature {
            inputs: vec![param("re")],
            outputs: Vec::new(),
            has_locals: false,
            body: Vec::new(),
            is_external: false,
            is_pure: true,
        },
    );
    b
}

fn step(b: &LowerBuilder, name: &str, depth: usize, stage: CallStage, hit: bool) -> (CallStage, CallAction) {
    let span = Span::from_offsets(SourceId::new(31), 2, 8);
    b.function_call_step(name, false, &[], 1, depth, 10, span, stage, hit)
}

#[test]
fn size_calls_are_found_anywhere() {
    let size = Expression::BuiltinCall { function: BuiltinFunction::Size, args: vec![var("a")] };
    assert!(expr_contains_size_builtin(&size));
    let nested = Expression::Binary { lhs: Box::new(var("x")), rhs: Box::new(size) };
    assert!(expr_contains_size_builtin(&nested));
    assert!(!expr_contains_size_builtin(&var("x")));
    assert!(is_projected_scalar_function_candidate(&[Statement::Empty, Statement::Return]));
    assert!(!is_projected_scalar_function_candidate(&[Statement::Break]));
}

#[test]
fn record_constructor_call_reads_its_first_field() {
    let b = builder();
    assert_eq!(
        step(&b, "Rec", 0, CallStage::Start, false),
        (CallStage::Start, CallAction::LowerRecordArgument { argument: RecordScalarArgument::FirstPositional })
    );
}

#[test]
fn known_functions_inline_project_or_go_to_intrinsics() {
    let b = builder();
    assert_eq!(step(&b, "simple", 0, CallStage::Start, false), (CallStage::NumericIntrinsicTried, CallAction::TryNumericIntrinsic));
    assert_eq!(step(&b, "simple", 0, CallStage::NumericIntrinsicTried, true), (CallStage::NumericIntrinsicTried, CallAction::Finish));
    assert_eq!(
        step(&b, "simple", 0, CallStage::NumericIntrinsicTried, false),
        (CallStage::ProjectedScalarTried, CallAction::TryProjectedScalar)
    );
    assert_eq!(step(&b, "simple", 0, CallStage::ProjectedScalarTried, false), (CallStage::ProjectedScalarTried, CallAction::Inline));
    assert_eq!(step(&b, "sized", 0, CallStage::NumericIntrinsicTried, false), (CallStage::NumericIntrinsicTried, CallAction::Inline));
    assert_eq!(step(&b, "ext", 0, CallStage::NumericIntrinsicTried, false), (CallStage::ExternalIntrinsicTried, CallAction::TryIntrinsic));
    let (_, action) = step(&b, "ext", 0, CallStage::ExternalIntrinsicTried, false);
    match action {
        CallAction::Fail { error } => assert_eq!(error.reason(), "external function call `ext` cannot be inlined"),
        other => panic!("unexpected {other:?}"),
    }
}

#[test]
fn depth_limit_leaves_only_intrinsics() {
    let b = builder();
    assert_eq!(step(&b, "simple", 10, CallStage::NumericIntrinsicTried, false), (CallStage::DepthIntrinsicTried, CallAction::TryIntrinsic));
    assert_eq!(
        step(&b, "simple", 10, CallStage::DepthIntrinsicTried, false),
        (
            CallStage::DepthIntrinsicTried,
            CallAction::Fail {
                error: LowerError::InvalidFunction {
                    name: "simple".to_string(),
                    reason: "recursion depth exceeded (10)".to_string(),
                },
            },
        )
    );
}

#[test]
fn unknown_names_try_projection_closure_then_intrinsic() {
    let b = builder();
    assert_eq!(step(&b, "nope", 0, CallStage::NumericIntrinsicTried, false), (CallStage::OutputProjectionLookedUp, CallAction::LookUpOutputProjection));
    assert_eq!(step(&b, "nope", 0, CallStage::OutputProjectionLookedUp, true), (CallStage::OutputProjectionLookedUp, CallAction::LowerOutputProjection));
    assert_eq!(step(&b, "nope", 0, CallStage::OutputProjectionLookedUp, false), (CallStage::ClosureLookedUp, CallAction::LookUpClosure));
    assert_eq!(step(&b, "nope", 0, CallStage::ClosureLookedUp, false), (CallStage::IntrinsicTried, CallAction::TryIntrinsic));
    assert_eq!(
        step(&b, "nope", 0, CallStage::IntrinsicTried, false),
        (CallStage::IntrinsicTried, CallAction::Fail { error: LowerError::MissingFunction { name: "nope".to_string() } })
    );
}
