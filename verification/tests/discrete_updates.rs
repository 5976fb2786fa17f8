use rumoca_lower::capacity::vec_with_capacity;
use rumoca_lower::discrete_relations::{checked_relation_offset_end, checked_relation_subscript};
use rumoca_lower::error::{contract_violation, LowerError};
use rumoca_lower::span::{SourceId, Span};

fn unspanned_discrete_update_test_span() -> Span {
    Span::dummy()
}

#[test]
fn discrete_vec_with_capacity_reports_capacity_overflow() -> Result<(), LowerError> {
    let span = Span::from_offsets(SourceId::new(95), 4, 12);

    let err = match vec_with_capacity::<u8>(usize::MAX, "discrete test vector", span) {
        Ok(_) => {
            return Err(contract_violation(
                "oversized discrete test vector should fail before allocating".to_string(),
                span,
            ));
        }
        Err(err) => err,
    };

    assert_eq!(err.source_span(), Some(span));
    assert!(
        err.reason()
            .contains("discrete test vector capacity exceeds host memory limits"),
        "unexpected error: {}",
        err.to_string()
    );
    Ok(())
}

#[test]
fn discrete_vec_with_capacity_reports_capacity_overflow_without_fabricating_span() {
    let err = vec_with_capacity::<u8>(
        usize::MAX,
        "discrete test vector",
        unspanned_discrete_update_test_span(),
    )
    .expect_err("oversized discrete test vector must fail before allocating");

    assert_eq!(err.source_span(), None);
    assert!(matches!(err, LowerError::UnspannedContractViolation { .. }));
    assert!(
        err.reason()
            .contains("discrete test vector capacity exceeds host memory limits"),
        "unexpected error: {}",
        err.to_string()
    );
}

#[test]
fn discrete_updates_checked_relation_offset_end_rejects_overflow_with_span() {
    let span = Span::from_offsets(SourceId::new(42), 5, 13);
    let err = checked_relation_offset_end(usize::MAX, 1, span)
        .expect_err("relation offset overflow must fail");

    assert_eq!(err.source_span(), Some(span));
    assert_eq!(
        err.reason(),
        "invalid IR contract: discrete relation scalar offset overflows host index range"
    );
}

#[test]
fn checked_relation_offset_end_rejects_overflow_without_fabricating_span() {
    let err = checked_relation_offset_end(usize::MAX, 1, unspanned_discrete_update_test_span())
        .expect_err("relation offset overflow must fail");

    assert_eq!(err.source_span(), None);
    assert!(matches!(err, LowerError::UnspannedContractViolation { .. }));
    assert_eq!(
        err.reason(),
        "invalid IR contract: discrete relation scalar offset overflows host index range"
    );
}

#[test]
fn discrete_updates_checked_relation_subscript_rejects_i64_overflow_with_span() {
    let Some(index) = usize::try_from(i64::MAX)
        .ok()
        .and_then(|value| value.checked_add(1))
    else {
        return;
    };
    let span = Span::from_offsets(SourceId::new(44), 9, 19);

    let err = checked_relation_subscript(index, span)
        .expect_err("relation subscript must fit in Modelica integer range");

    assert_eq!(err.source_span(), Some(span));
    assert_eq!(
        err.reason(),
        format!("invalid IR contract: discrete relation subscript index {index} exceeds i64 range")
    );
}

#[test]
fn checked_relation_subscript_rejects_i64_overflow_without_fabricating_span() {
    let Some(index) = usize::try_from(i64::MAX)
        .ok()
        .and_then(|value| value.checked_add(1))
    else {
        return;
    };

    let err = checked_relation_subscript(index, unspanned_discrete_update_test_span())
        .expect_err("relation subscript must fit in Modelica integer range");

    assert_eq!(err.source_span(), None);
    assert!(matches!(err, LowerError::UnspannedContractViolation { .. }));
    assert_eq!(
        err.reason(),
        format!("invalid IR contract: discrete relation subscript index {index} exceeds i64 range")
    );
}
