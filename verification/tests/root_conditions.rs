use rumoca_lower::root_relations::{
    checked_relation_offset_end, checked_relation_subscript, root_vec_with_capacity,
};
use rumoca_lower::span::{SourceId, Span};

fn unspanned_root_condition_test_span() -> Span {
    Span::dummy()
}

#[test]
fn root_conditions_checked_relation_offset_end_rejects_overflow_with_span() {
    let span = Span::from_offsets(SourceId::new(41), 3, 9);
    let err = checked_relation_offset_end(usize::MAX, 1, span)
        .expect_err("relation offset overflow must fail");

    assert_eq!(err.source_span(), Some(span));
    assert_eq!(
        err.reason(),
        "invalid IR contract: condition relation scalar offset overflows host index range"
    );
}

#[test]
fn checked_relation_offset_end_rejects_overflow_without_dummy_span() {
    let err = checked_relation_offset_end(usize::MAX, 1, unspanned_root_condition_test_span())
        .expect_err("relation offset overflow must fail");

    assert_eq!(err.source_span(), None);
    assert_eq!(
        err.reason(),
        "invalid IR contract: condition relation scalar offset overflows host index range"
    );
}

#[test]
fn root_vec_with_capacity_rejects_impossible_capacity_without_dummy_span() {
    let err = root_vec_with_capacity::<u64>(
        usize::MAX,
        "root condition row count",
        Some(unspanned_root_condition_test_span()),
    )
    .expect_err("impossible root vector capacity must fail");

    assert_eq!(err.source_span(), None);
    assert_eq!(
        err.reason(),
        "invalid IR contract: root condition row count capacity exceeds host memory limits"
    );
}

#[test]
fn root_conditions_checked_relation_subscript_rejects_i64_overflow_with_span() {
    let Some(index) = usize::try_from(i64::MAX)
        .ok()
        .and_then(|value| value.checked_add(1))
    else {
        return;
    };
    let span = Span::from_offsets(SourceId::new(43), 7, 15);

    let err = checked_relation_subscript(index, span)
        .expect_err("relation subscript must fit in Modelica integer range");

    assert_eq!(err.source_span(), Some(span));
    assert_eq!(
        err.reason(),
        format!("invalid IR contract: condition relation subscript index {index} exceeds i64 range")
    );
}
