use rumoca_lower::capacity::{reserve_capacity, vec_with_capacity};
use rumoca_lower::dims::{checked_projection_offset, checked_usize_scalar_count};
use rumoca_lower::error::{contract_violation, LowerError};
use rumoca_lower::collections::name_set_new;
use rumoca_lower::keys::scalar_keys_for_dims;
use rumoca_lower::scope::reserve_projection_name_capacity;
use rumoca_lower::ranges::{next_range_value, positive_range_indices, range_would_overshoot_i64};
use rumoca_lower::span::{SourceId, Span};

fn source_span(source: u64, start: usize, end: usize) -> Span {
    Span::from_offsets(SourceId::new(source), start, end)
}

#[test]
fn checked_projection_offset_rejects_host_index_overflow_with_span() -> Result<(), String> {
    let span = source_span(21, 4, 12);

    let Err(mul_err) =
        checked_projection_offset(usize::MAX, 2, 0, "derivative projection flat index", span)
    else {
        return Err("overflowing derivative projection multiplication succeeded".to_string());
    };
    assert_eq!(mul_err.source_span(), Some(span));
    assert_eq!(
        mul_err.reason(),
        "invalid IR contract: derivative projection flat index multiplication overflows host index range"
            .to_string()
    );

    let Err(add_err) =
        checked_projection_offset(usize::MAX, 1, 1, "derivative projection flat index", span)
    else {
        return Err("overflowing derivative projection addition succeeded".to_string());
    };
    assert_eq!(add_err.source_span(), Some(span));
    assert_eq!(
        add_err.reason(),
        "invalid IR contract: derivative projection flat index addition overflows host index range"
            .to_string()
    );

    Ok(())
}

#[test]
fn checked_projection_offset_dummy_span_stays_unspanned() {
    let err = checked_projection_offset(
        usize::MAX,
        2,
        0,
        "derivative projection flat index",
        Span::dummy(),
    )
    .expect_err("overflowing derivative projection multiplication must fail");

    assert!(
        matches!(err, LowerError::UnspannedContractViolation { .. }),
        "dummy projection offset span should not be fabricated into a source span: {err:?}"
    );
    assert!(err.reason().contains("multiplication overflows"));
}

#[test]
fn checked_usize_scalar_count_dummy_span_stays_unspanned() {
    let err = checked_usize_scalar_count(&[usize::MAX, 2], "derivative projection shape", Span::dummy())
        .expect_err("overflowing derivative scalar count must fail");

    assert!(
        matches!(err, LowerError::UnspannedContractViolation { .. }),
        "dummy scalar-count span should not be fabricated into a source span: {err:?}"
    );
    assert!(err.reason().contains("scalar count overflows"));
}

#[test]
fn next_range_value_preserves_range_span_on_overflow() -> Result<(), String> {
    let span = source_span(22, 2, 18);

    let Err(err) = next_range_value(i64::MAX, 1, span) else {
        return Err("overflowing derivative slice range step succeeded".to_string());
    };
    assert_eq!(err.source_span(), Some(span));
    assert_eq!(
        err.reason(),
        "invalid IR contract: derivative slice range step overflows after index 9223372036854775807 with step 1"
            .to_string()
    );

    Ok(())
}

#[test]
fn next_range_value_dummy_span_stays_unspanned() {
    let err = next_range_value(i64::MAX, 1, Span::dummy())
        .expect_err("overflowing derivative slice range step must fail");

    assert!(
        matches!(err, LowerError::UnspannedContractViolation { .. }),
        "dummy range-step span should not be fabricated into a source span: {err:?}"
    );
    assert!(err.reason().contains("range step overflows"));
}

#[test]
fn derivative_slice_range_step_detects_final_overshoot() {
    assert!(range_would_overshoot_i64(i64::MAX - 1, i64::MAX, 2));
    assert!(range_would_overshoot_i64(i64::MIN + 1, i64::MIN, -2));
    assert!(!range_would_overshoot_i64(1, 5, 2));
}

#[test]
fn compile_time_positive_range_rejects_large_ranges() {
    let span = source_span(31, 4, 9);
    let err = positive_range_indices(1, 1, 100_002, span)
        .expect_err("oversized derivative slice range should fail");

    assert!(err.reason().contains("derivative slice range is too large"));
}

#[test]
fn scalar_keys_for_dims_rejects_scalar_count_overflow() {
    let span = source_span(25, 1, 4);
    let err = scalar_keys_for_dims("x", &[usize::MAX, 2], span)
        .expect_err("scalarized key enumeration must not overflow");

    assert_eq!(err.source_span(), Some(span));
    assert!(matches!(err, LowerError::ContractViolation { .. }));
    assert!(
        err.reason().contains("exceeds i64 range")
            || err
                .reason()
                .contains("scalarized binding dimensions scalar count overflows"),
        "got: {}",
        err.reason()
    );
}

#[test]
fn derivative_vec_with_capacity_reports_capacity_overflow() -> Result<(), LowerError> {
    let span = source_span(94, 2, 8);

    let err = match vec_with_capacity::<u8>(usize::MAX, "derivative test vector", span) {
        Ok(_) => {
            return Err(contract_violation(
                "oversized derivative test vector should fail before allocating".to_string(),
                span,
            ));
        }
        Err(err) => err,
    };

    assert_eq!(err.source_span(), Some(span));
    assert!(
        err.reason()
            .contains("derivative test vector capacity exceeds host memory limits"),
        "unexpected error: {}",
        err.to_string()
    );
    Ok(())
}

#[test]
fn derivative_vec_with_capacity_dummy_span_stays_unspanned() {
    let err = vec_with_capacity::<u8>(usize::MAX, "derivative test vector", Span::dummy())
        .expect_err("oversized derivative test vector should fail before allocating");

    assert!(
        matches!(err, LowerError::UnspannedContractViolation { .. }),
        "dummy derivative vector capacity span should stay unspanned: {err:?}"
    );
    assert!(
        err.reason()
            .contains("derivative test vector capacity exceeds host memory limits"),
        "unexpected error: {}",
        err.to_string()
    );
}

#[test]
fn reserve_projection_capacity_dummy_span_stays_unspanned() {
    let mut values = Vec::<u64>::new();
    let err = reserve_capacity(&mut values, usize::MAX, "projection values", Span::dummy())
        .expect_err("impossible capacity must be rejected");

    assert!(
        matches!(err, LowerError::UnspannedContractViolation { .. }),
        "dummy capacity span should not be fabricated into a source span: {err:?}"
    );
    assert!(
        err.to_string()
            .contains("projection values capacity exceeds host memory limits"),
        "unexpected error: {}",
        err.to_string()
    );
}

#[test]
fn reserve_projection_name_capacity_real_span_is_preserved() {
    let real_span = Span::from_offsets(SourceId::new(513), 4, 12);
    let mut names = name_set_new();
    let err = reserve_projection_name_capacity(&mut names, usize::MAX, real_span)
        .expect_err("impossible name capacity must be rejected");

    assert!(
        matches!(err, LowerError::ContractViolation { span: err_span, .. } if err_span == real_span),
        "real projection name span should be preserved: {err:?}"
    );
}
