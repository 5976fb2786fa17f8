use rumoca_lower::rows::{
    lower_residual_rows_from_equations_core, residual_row_plan, validate_equation_row_count,
    LoweredResidualRows, ResidualEquation, ResidualRowPlan,
};
use rumoca_lower::span::{SourceId, Span};

fn equation(origin: &str, scalar_count: usize, projected: Option<usize>, start: usize) -> ResidualEquation {
    ResidualEquation {
        origin: origin.to_string(),
        scalar_count,
        projected_row_count: projected,
        span: Span::from_offsets(SourceId::new(11), start, start + 1),
    }
}

fn lowered(rows: &[u32]) -> LoweredResidualRows<u32> {
    LoweredResidualRows { rows: rows.to_vec(), from_record_fields: false }
}

#[test]
fn residual_rows_concatenate_in_equation_order_and_skip_empty_equations() {
    let eqs = vec![equation("a", 2, None, 0), equation("b", 0, None, 2), equation("c", 1, None, 4)];
    let (rows, counts) =
        lower_residual_rows_from_equations_core(&eqs, vec![lowered(&[1, 2]), lowered(&[9]), lowered(&[3])])
            .expect("row counts match");
    assert_eq!(rows, vec![1, 2, 3]);
    assert_eq!(counts, vec![2, 0, 1]);
}

#[test]
fn residual_rows_follow_projected_row_count() {
    let eqs = vec![equation("t", 1, Some(3), 0)];
    let (rows, counts) =
        lower_residual_rows_from_equations_core(&eqs, vec![lowered(&[4, 5, 6])]).expect("projected count");
    assert_eq!(rows, vec![4, 5, 6]);
    assert_eq!(counts, vec![3]);
}

#[test]
fn residual_rows_report_first_row_count_mismatch() {
    let eqs = vec![equation("x = y", 2, None, 7), equation("z", 5, None, 9)];
    let err = lower_residual_rows_from_equations_core(&eqs, vec![lowered(&[1]), lowered(&[2])])
        .expect_err("first equation lowered to one row");
    assert_eq!(
        err.reason(),
        "invalid IR contract: equation `x = y` declares scalar_count 2 but lowered to 1 residual rows"
    );
    assert_eq!(err.source_span(), Some(eqs[0].span));
    assert!(validate_equation_row_count(&eqs[1], 5).is_ok());
}

#[test]
fn residual_rows_of_no_equations_are_empty() {
    let (rows, counts) = lower_residual_rows_from_equations_core::<u32>(&[], Vec::new()).unwrap();
    assert!(rows.is_empty());
    assert!(counts.is_empty());
}

#[test]
fn residual_row_plan_negates_state_rows_and_differences_explicit_algebraic_rows() {
    let eq = equation("e", 0, None, 0);
    assert_eq!(
        residual_row_plan(&eq, true, 0, 2),
        ResidualRowPlan { explicit_difference: false, scalar_count: 1, negate: true }
    );
    let eq = equation("e", 3, None, 0);
    assert_eq!(
        residual_row_plan(&eq, true, 2, 2),
        ResidualRowPlan { explicit_difference: true, scalar_count: 3, negate: false }
    );
    let eq = equation("e", 3, Some(4), 0);
    assert_eq!(
        residual_row_plan(&eq, false, 5, 2),
        ResidualRowPlan { explicit_difference: false, scalar_count: 4, negate: false }
    );
}
