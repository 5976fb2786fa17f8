use vstd::prelude::*;

use crate::capacity::{reserve_capacity, spec_capacity_error, spec_contract_error, vec_with_capacity};
use crate::error::{contract_violation, spec_contract_reason, LowerError};
use crate::root_relations::spec_root_location;
use crate::span::Span;
use crate::text::{decimal, u64_to_decimal, usize_to_decimal};

verus! {

/// An expression-row contract violation, located at `span` when it is
/// present and has source provenance.
pub fn expression_contract_violation(reason: String, span: Option<Span>) -> (e: LowerError)
    ensures
        e.spec_reason() == spec_contract_reason(reason@),
        e.spec_source_span() == spec_root_location(span),
        spec_root_location(span) is None ==> e is UnspannedContractViolation,
{
    match span {
        Some(s) => if s.is_dummy() {
            LowerError::UnspannedContractViolation { reason }
        } else {
            LowerError::ContractViolation { reason, span: s }
        },
        None => LowerError::UnspannedContractViolation { reason },
    }
}

/// How many scalar rows one equation row may spread over: the row
/// namespace is scaled by this factor and the scalar's flat index added.
pub const ROW_NAMESPACE_STRIDE: u64 = 1_000_000;

pub open spec fn spec_row_namespace_overflow_reason(namespace: nat, flat_index: nat) -> Seq<
    char,
> {
    "scalar row namespace overflows for namespace "@ + decimal(namespace) + " and flat index "@
        + decimal(flat_index)
}

/// The namespace of scalar `flat_index` of the equation row with namespace
/// `row_namespace`.
pub fn scalar_row_namespace(row_namespace: u64, flat_index: usize, span: Span) -> (r: Result<
    u64,
    LowerError,
>)
    ensures
        match r {
            Ok(v) => v == row_namespace * ROW_NAMESPACE_STRIDE + flat_index,
            Err(e) => row_namespace * ROW_NAMESPACE_STRIDE + flat_index > u64::MAX
                && spec_contract_error(
                e,
                spec_row_namespace_overflow_reason(row_namespace as nat, flat_index as nat),
                span,
            ),
        },
{
    let flat = flat_index as u64;
    let total = match row_namespace.checked_mul(ROW_NAMESPACE_STRIDE) {
        Some(base) => base.checked_add(flat),
        None => None,
    };
    match total {
        Some(v) => Ok(v),
        None => {
            let mut reason = String::from_str("scalar row namespace overflows for namespace ");
            let namespace = u64_to_decimal(row_namespace);
            reason.append(namespace.as_str());
            reason.append(" and flat index ");
            let digits = usize_to_decimal(flat_index);
            reason.append(digits.as_str());
            Err(contract_violation(reason, span))
        },
    }
}

/// The namespace of equation row `row_idx`: the row index itself.
pub fn row_namespace_from_usize(row_idx: usize, span: Option<Span>) -> (r: Result<
    u64,
    LowerError,
>)
    ensures
        r == Ok::<u64, LowerError>(row_idx as u64),
{
    Ok(row_idx as u64)
}

pub open spec fn spec_row_width_reason(width: nat, scalar_count: nat) -> Seq<char> {
    "array expression width "@ + decimal(width) + " does not match equation scalar count "@
        + decimal(scalar_count)
}

/// The values of an equation row spread over `scalar_count` scalars: a
/// single value is repeated, a full-width row is kept, any other width is
/// unsupported.
pub fn expand_row_values<T: Copy>(values: Vec<T>, scalar_count: usize, span: Span) -> (r: Result<
    Vec<T>,
    LowerError,
>)
    ensures
        match r {
            Ok(v) => if values@.len() == 1 {
                v@.len() == scalar_count && forall|i: int|
                    0 <= i < scalar_count ==> #[trigger] v@[i] == values@[0]
            } else {
                values@.len() == scalar_count && v@ == values@
            },
            Err(e) => if values@.len() == 1 {
                spec_capacity_error(e, "expanded expression value count"@, span)
            } else {
                values@.len() != scalar_count && e is Unsupported && e.spec_reason() == spec_row_width_reason(
                    values@.len() as nat,
                    scalar_count as nat,
                )
            },
        },
{
    let width = values.len();
    if width == 1 {
        let value = values[0];
        let mut expanded: Vec<T> = vec_with_capacity(
            scalar_count,
            "expanded expression value count",
            span,
        )?;
        let mut i: usize = 0;
        while i < scalar_count
            invariant
                i <= scalar_count,
                expanded@.len() == i,
                value == values@[0],
                forall|j: int| 0 <= j < i ==> #[trigger] expanded@[j] == value,
            decreases scalar_count - i,
        {
            expanded.push(value);
            i = i + 1;
        }
        Ok(expanded)
    } else if width == scalar_count {
        Ok(values)
    } else {
        let mut reason = String::from_str("array expression width ");
        let digits = usize_to_decimal(width);
        reason.append(digits.as_str());
        reason.append(" does not match equation scalar count ");
        let count = usize_to_decimal(scalar_count);
        reason.append(count.as_str());
        Err(LowerError::Unsupported { reason })
    }
}

/// An equation as residual-row assembly reads it: the origin it reports,
/// the scalar count it declares, the row count that the bindings of a
/// tuple residual project to (when it is one), and its span.
pub struct ResidualEquation {
    pub origin: String,
    pub scalar_count: usize,
    pub projected_row_count: Option<usize>,
    pub span: Span,
}

/// The residual rows lowered for one equation, and whether they came
/// from the scalarized fields of a record equation.
pub struct LoweredResidualRows<R> {
    pub rows: Vec<R>,
    pub from_record_fields: bool,
}

/// The number of residual rows an equation must lower to: the projected
/// row count of a tuple residual, or else its declared scalar count.
pub open spec fn spec_expected_row_count(eq: ResidualEquation) -> nat {
    match eq.projected_row_count {
        Some(n) => n as nat,
        None => eq.scalar_count as nat,
    }
}

pub fn expected_residual_row_count(eq: &ResidualEquation) -> (n: usize)
    ensures
        n == spec_expected_row_count(*eq),
{
    match eq.projected_row_count {
        Some(n) => n,
        None => eq.scalar_count,
    }
}

pub open spec fn spec_row_count_reason(origin: Seq<char>, expected: nat, actual: nat) -> Seq<char> {
    "equation `"@ + origin + "` declares scalar_count "@ + decimal(expected) + " but lowered to "@
        + decimal(actual) + " residual rows"@
}

/// Accept `actual` rows for an equation exactly when it must lower to
/// that many.
pub fn validate_equation_row_count(eq: &ResidualEquation, actual: usize) -> (r: Result<(), LowerError>)
    ensures
        r is Ok <==> actual == spec_expected_row_count(*eq),
        r matches Err(e) ==> spec_contract_error(
            e,
            spec_row_count_reason(eq.origin@, spec_expected_row_count(*eq), actual as nat),
            eq.span,
        ),
{
    let expected = expected_residual_row_count(eq);
    if actual == expected {
        return Ok(());
    }
    let mut reason = String::from_str("equation `");
    reason.append(eq.origin.as_str());
    reason.append("` declares scalar_count ");
    let e_digits = usize_to_decimal(expected);
    reason.append(e_digits.as_str());
    reason.append(" but lowered to ");
    let a_digits = usize_to_decimal(actual);
    reason.append(a_digits.as_str());
    reason.append(" residual rows");
    Err(contract_violation(reason, eq.span))
}

/// How one equation is lowered to residual rows: whether its residual is
/// the explicit difference `lhs - rhs` (an algebraic row of an equation
/// with an explicit left side) or its right side alone, how many scalar
/// values it spreads over, and whether its values are negated (a state
/// row, whose right side is a derivative).
#[derive(Clone, Copy, Debug, PartialEq, Eq, Structural)]
pub struct ResidualRowPlan {
    pub explicit_difference: bool,
    pub scalar_count: usize,
    pub negate: bool,
}

/// The plan for lowering equation row `row_idx`, where the first
/// `state_scalar_count` rows are state rows.
pub fn residual_row_plan(
    eq: &ResidualEquation,
    has_explicit_lhs: bool,
    row_idx: usize,
    state_scalar_count: usize,
) -> (p: ResidualRowPlan)
    ensures
        p.explicit_difference == (row_idx >= state_scalar_count && has_explicit_lhs),
        p.scalar_count == (if spec_expected_row_count(*eq) == 0 {
            1
        } else {
            spec_expected_row_count(*eq)
        }),
        p.negate == (row_idx < state_scalar_count),
{
    let count = expected_residual_row_count(eq);
    ResidualRowPlan {
        explicit_difference: row_idx >= state_scalar_count && has_explicit_lhs,
        scalar_count: if count == 0 {
            1
        } else {
            count
        },
        negate: row_idx < state_scalar_count,
    }
}

/// The rows that an equation contributes: none when it declares no
/// scalars, else the rows lowered for it.
pub open spec fn spec_contributed_rows<R>(eq: ResidualEquation, lowered: LoweredResidualRows<R>) -> Seq<R> {
    if eq.scalar_count == 0 {
        Seq::empty()
    } else {
        lowered.rows@
    }
}

/// The rows of the first `k` equations, in order.
pub open spec fn spec_assembled_rows<R>(
    eqs: Seq<ResidualEquation>,
    lowered: Seq<LoweredResidualRows<R>>,
    k: int,
) -> Seq<R>
    decreases k,
{
    if k <= 0 {
        Seq::empty()
    } else {
        spec_assembled_rows(eqs, lowered, k - 1) + spec_contributed_rows(eqs[k - 1], lowered[k - 1])
    }
}

/// Equation `i` declares scalars and lowered to a row count other than
/// the one it must have.
pub open spec fn spec_row_count_mismatch<R>(eq: ResidualEquation, lowered: LoweredResidualRows<R>) -> bool {
    eq.scalar_count > 0 && lowered.rows@.len() != spec_expected_row_count(eq)
}

/// The capacity failures that assembling residual rows can report.
pub open spec fn residual_rows_capacity_error(e: LowerError, span: Span) -> bool {
    ||| spec_capacity_error(e, "residual row count"@, span)
    ||| spec_capacity_error(e, "equation residual row count"@, span)
    ||| spec_capacity_error(e, "scalarized record residual row count"@, span)
}

/// Concatenate the residual rows lowered for successive equations, in
/// equation order. An equation that declares no scalars contributes
/// nothing; every other one must have lowered to exactly its expected
/// row count, and the first that did not is reported. On success the row
/// count that each equation contributed comes back beside the rows.
pub fn lower_residual_rows_from_equations_core<R>(
    equations: &[ResidualEquation],
    lowered: Vec<LoweredResidualRows<R>>,
) -> (r: Result<(Vec<R>, Vec<usize>), LowerError>)
    requires
        equations@.len() == lowered@.len(),
    ensures
        match r {
            Ok((rows, counts)) => {
                &&& forall|i: int|
                    0 <= i < equations@.len() ==> !spec_row_count_mismatch(
                        #[trigger] equations@[i],
                        lowered@[i],
                    )
                &&& rows@ == spec_assembled_rows(equations@, lowered@, equations@.len() as int)
                &&& counts@.len() == equations@.len()
                &&& forall|i: int|
                    0 <= i < equations@.len() ==> #[trigger] counts@[i] == spec_contributed_rows(
                        equations@[i],
                        lowered@[i],
                    ).len()
            },
            Err(e) => {
                ||| exists|i: int|
                    0 <= i < equations@.len() && residual_rows_capacity_error(
                        e,
                        (#[trigger] equations@[i]).span,
                    )
                ||| exists|i: int|
                    0 <= i < equations@.len() && spec_row_count_mismatch(
                        #[trigger] equations@[i],
                        lowered@[i],
                    ) && (forall|j: int|
                        0 <= j < i ==> !spec_row_count_mismatch(#[trigger] equations@[j], lowered@[j]))
                        && spec_contract_error(
                        e,
                        spec_row_count_reason(
                            equations@[i].origin@,
                            spec_expected_row_count(equations@[i]),
                            lowered@[i].rows@.len() as nat,
                        ),
                        equations@[i].span,
                    )
            },
        },
{
    let n = equations.len();
    if n == 0 {
        return Ok((Vec::new(), Vec::new()));
    }
    let first_span = equations[0].span;
    let ghost orig = lowered@;
    let mut pending = lowered;
    let mut rows: Vec<R> = match vec_with_capacity(n, "residual row count", first_span) {
        Ok(v) => v,
        Err(e) => {
            assert(residual_rows_capacity_error(e, equations@[0].span));
            return Err(e);
        },
    };
    let mut counts: Vec<usize> = Vec::new();
    let mut i: usize = 0;
    while i < n
        invariant
            n == equations@.len(),
            orig.len() == n,
            lowered@ == orig,
            pending@.len() == n,
            i <= n,
            forall|j: int| i <= j < n ==> #[trigger] pending@[j] == orig[j],
            forall|j: int| 0 <= j < i ==> !spec_row_count_mismatch(#[trigger] equations@[j], orig[j]),
            rows@ == spec_assembled_rows(equations@, orig, i as int),
            counts@.len() == i,
            forall|j: int|
                0 <= j < i ==> #[trigger] counts@[j] == spec_contributed_rows(equations@[j], orig[j]).len(),
        decreases n - i,
    {
        let eq = &equations[i];
        if eq.scalar_count == 0 {
            proof {
                assert(spec_assembled_rows(equations@, orig, i + 1) =~= rows@);
            }
            counts.push(0);
            i = i + 1;
            continue;
        }
        let mut taken = LoweredResidualRows { rows: Vec::new(), from_record_fields: false };
        pending.set_and_swap(i, &mut taken);
        let count = taken.rows.len();
        let context = if taken.from_record_fields {
            "scalarized record residual row count"
        } else {
            "equation residual row count"
        };
        match reserve_capacity(&mut rows, count, context, eq.span) {
            Ok(()) => {},
            Err(e) => {
                proof {
                    reveal_strlit("scalarized record residual row count");
                    reveal_strlit("equation residual row count");
                    assert(residual_rows_capacity_error(e, equations@[i as int].span));
                }
                return Err(e);
            },
        }
        match validate_equation_row_count(eq, count) {
            Ok(()) => {},
            Err(e) => {
                proof {
                    let k = i as int;
                    assert(taken == orig[k]);
                    assert(spec_row_count_mismatch(equations@[k], orig[k]));
                    assert(spec_contract_error(
                        e,
                        spec_row_count_reason(
                            equations@[k].origin@,
                            spec_expected_row_count(equations@[k]),
                            orig[k].rows@.len() as nat,
                        ),
                        equations@[k].span,
                    ));
                }
                return Err(e);
            },
        }
        let ghost before = rows@;
        rows.append(&mut taken.rows);
        proof {
            assert(spec_contributed_rows(equations@[i as int], orig[i as int]) == orig[i as int].rows@);
            assert(rows@ == before + orig[i as int].rows@);
        }
        counts.push(count);
        i = i + 1;
    }
    Ok((rows, counts))
}

} // verus!
