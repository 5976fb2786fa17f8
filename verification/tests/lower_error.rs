use rumoca_lower::error::{contract_violation, LowerError};
use rumoca_lower::span::{SourceId, Span};

fn unspanned_lower_error_test_span() -> Span {
    Span::dummy()
}

#[test]
fn contract_violation_preserves_real_span() {
    let span = Span::from_offsets(SourceId::new(3), 4, 9);
    let err = contract_violation("metadata mismatch".to_string(), span);

    assert_eq!(err.source_span(), Some(span));
    assert_eq!(err.reason(), "invalid IR contract: metadata mismatch");
}

#[test]
fn contract_violation_does_not_fabricate_dummy_span() {
    let err = contract_violation("metadata mismatch".to_string(), unspanned_lower_error_test_span());

    assert_eq!(err.source_span(), None);
    assert_eq!(err.reason(), "invalid IR contract: metadata mismatch");
}

#[test]
fn fallback_span_preserves_invalid_function_context() {
    let span = Span::from_offsets(SourceId::new(7), 11, 19);
    let err = LowerError::InvalidFunction {
        name: "Pkg.f".to_string(),
        reason: "required input `x` has no actual argument".to_string(),
    }
    .with_fallback_span(span);

    assert_eq!(err.source_span(), Some(span));
    assert_eq!(
        err.reason(),
        "invalid function `Pkg.f`: required input `x` has no actual argument"
    );
}
