use rumoca_lower::error::LowerError;
use rumoca_lower::keys::parse_indexed_binding_key;
use rumoca_lower::span::Span;
use rumoca_lower::subscripts::positive_i64_index;

#[test]
fn indexed_binding_key_uses_structured_scalar_name_parser() {
    assert_eq!(
        parse_indexed_binding_key("x[2]"),
        Some(("x".to_string(), vec![2]))
    );
    assert_eq!(
        parse_indexed_binding_key("a[index.with.dot].x[1, 3]"),
        Some(("a[index.with.dot].x".to_string(), vec![1, 3]))
    );
    assert_eq!(parse_indexed_binding_key("x[0]"), None);
    assert_eq!(parse_indexed_binding_key("x[-1]"), None);
    assert_eq!(parse_indexed_binding_key("x[1"), None);
    assert_eq!(parse_indexed_binding_key("[1]"), None);
}

#[test]
fn positive_i64_index_rejects_negative_without_fabricating_span() {
    let err = positive_i64_index(-1, Span::dummy()).expect_err("negative subscript index must fail");

    assert_eq!(err.source_span(), None);
    assert!(matches!(err, LowerError::UnspannedContractViolation { .. }));
    assert!(err.reason().contains("exceeds host index range"));
}
