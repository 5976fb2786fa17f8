use vstd::prelude::*;

use crate::capacity::{spec_contract_error, spec_located};
use crate::dims::checked_projection_offset;
use crate::error::{contract_violation, unsupported_at, LowerError};
use crate::span::Span;
use crate::text::{decimal, format_usize_dims, spec_format_usize_dims, usize_to_decimal};

verus! {

pub open spec fn spec_transpose_arity_reason(count: nat) -> Seq<char> {
    "transpose() in derivative projection requires one argument, found "@ + decimal(count)
}

pub open spec fn spec_transpose_shape_reason(dims: Seq<usize>) -> Seq<char> {
    "transpose() requires a matrix input, got shape "@ + spec_format_usize_dims(dims)
}

/// The error of `checked_projection_offset(base, stride, offset, context, span)`.
pub open spec fn spec_offset_error(e: LowerError, context: Seq<char>, base: int, stride: int, offset: int, span: Span) -> bool {
    if base * stride > usize::MAX {
        spec_contract_error(e, context + " multiplication overflows host index range"@, span)
    } else {
        base * stride + offset > usize::MAX && spec_contract_error(
            e,
            context + " addition overflows host index range"@,
            span,
        )
    }
}

/// The position in `a` (shape `rows x cols`) of element `f` of
/// `transpose(a)` (shape `cols x rows`).
pub open spec fn transpose_index(rows: int, cols: int, f: int) -> int {
    (f % rows) * cols + f / rows
}

/// Element `flat_index` (row-major) of `transpose(a)`, with `a` of shape
/// `arg_dims` and the result expected of shape `result_dims`, is element
/// `(flat_index % rows) * cols + flat_index / rows` of `a`: the result's
/// row `flat_index / rows` and column `flat_index % rows` are `a`'s column
/// and row. `None` when the shapes do not fit or the position lies
/// outside; errors for a call without exactly one argument or a
/// non-matrix argument.
pub fn transpose_source_index(
    arg_count: usize,
    arg_dims: &[usize],
    result_dims: &[usize],
    flat_index: usize,
    span: Span,
) -> (r: Result<Option<usize>, LowerError>)
    ensures
        arg_count != 1 ==> (r matches Err(e) && spec_contract_error(
            e,
            spec_transpose_arity_reason(arg_count as nat),
            span,
        )),
        arg_count == 1 && arg_dims@.len() != 2 ==> (r matches Err(e) && e.spec_reason()
            == spec_transpose_shape_reason(arg_dims@) && e.spec_source_span() == spec_located(span)),
        arg_count == 1 && arg_dims@.len() == 2 ==> ({
            let rows = arg_dims@[0] as int;
            let cols = arg_dims@[1] as int;
            let f = flat_index as int;
            if result_dims@ != seq![arg_dims@[1], arg_dims@[0]] || rows == 0 || f / rows >= cols {
                r == Ok::<Option<usize>, LowerError>(None)
            } else {
                match r {
                    Ok(Some(i)) => i == transpose_index(rows, cols, f),
                    Ok(None) => false,
                    Err(e) => spec_offset_error(
                        e,
                        "transpose derivative projection source flat index"@,
                        f % rows,
                        cols,
                        f / rows,
                        span,
                    ),
                }
            }
        }),
{
    if arg_count != 1 {
        let mut reason = String::from_str(
            "transpose() in derivative projection requires one argument, found ",
        );
        let digits = usize_to_decimal(arg_count);
        reason.append(digits.as_str());
        return Err(contract_violation(reason, span));
    }
    if arg_dims.len() != 2 {
        let mut reason = String::from_str("transpose() requires a matrix input, got shape ");
        let shape = format_usize_dims(arg_dims);
        reason.append(shape.as_str());
        return Err(unsupported_at(reason, span));
    }
    let rows = arg_dims[0];
    let cols = arg_dims[1];
    if result_dims.len() != 2 || result_dims[0] != cols || result_dims[1] != rows {
        proof {
            if result_dims@.len() == 2 {
                assert(result_dims@ != seq![arg_dims@[1], arg_dims@[0]]);
            } else {
                assert(result_dims@.len() != seq![arg_dims@[1], arg_dims@[0]].len());
            }
        }
        return Ok(None);
    }
    proof {
        assert(result_dims@ =~= seq![arg_dims@[1], arg_dims@[0]]);
    }
    if rows == 0 {
        return Ok(None);
    }
    let out_row = flat_index / rows;
    let out_col = flat_index % rows;
    if out_row >= cols {
        return Ok(None);
    }
    match checked_projection_offset(
        out_col,
        cols,
        out_row,
        "transpose derivative projection source flat index",
        span,
    ) {
        Ok(i) => Ok(Some(i)),
        Err(e) => Err(e),
    }
}

/// Transposing twice comes back: element `f` of `transpose(transpose(a))`
/// is element `f` of `a`, for every position inside the `rows x cols`
/// shape.
pub proof fn law_transpose_twice(rows: int, cols: int, f: int)
    requires
        rows > 0,
        cols > 0,
        0 <= f < rows * cols,
    ensures
        transpose_index(cols, rows, transpose_index(rows, cols, f)) == f,
        0 <= transpose_index(rows, cols, f) < rows * cols,
{
    let q = f / rows;
    let m = f % rows;
    vstd::arithmetic::div_mod::lemma_fundamental_div_mod(f, rows);
    assert(0 <= m < rows);
    assert(0 <= q < cols) by (nonlinear_arith)
        requires
            f == rows * q + m,
            0 <= m < rows,
            0 <= f < rows * cols,
            rows > 0,
    ;
    let t = m * cols + q;
    assert(0 <= t < rows * cols) by (nonlinear_arith)
        requires
            t == m * cols + q,
            0 <= m < rows,
            0 <= q < cols,
    ;
    vstd::arithmetic::div_mod::lemma_fundamental_div_mod_converse(t, cols, m, q);
    assert(t % cols == q && t / cols == m);
    assert(q * rows + m == f) by (nonlinear_arith)
        requires
            f == rows * q + m,
    ;
}

pub open spec fn spec_cross_reason() -> Seq<char> {
    "cross() derivative projection requires two vector arguments"@
}

/// Component `flat_index` of `cross(a, b)` for 3-vectors is
/// `a[i] * b[j] - a[j] * b[i]` with `i = (flat_index + 1) % 3` and
/// `j = (flat_index + 2) % 3`; this gives the positions `(i, j, j, i)` of
/// the factors. `None` unless the result is a 3-vector, the component
/// exists and both operands are 3-vectors; an error for a call without
/// two arguments.
pub fn cross_component_indices(
    result_dims: &[usize],
    flat_index: usize,
    arg_count: usize,
    lhs_dims: &[usize],
    rhs_dims: &[usize],
    span: Span,
) -> (r: Result<Option<(usize, usize, usize, usize)>, LowerError>)
    ensures
        if result_dims@ != seq![3usize] || flat_index >= 3 {
            r == Ok::<Option<(usize, usize, usize, usize)>, LowerError>(None)
        } else if arg_count != 2 {
            r matches Err(e) && e.spec_reason() == spec_cross_reason() && e.spec_source_span()
                == spec_located(span)
        } else if lhs_dims@ != seq![3usize] || rhs_dims@ != seq![3usize] {
            r == Ok::<Option<(usize, usize, usize, usize)>, LowerError>(None)
        } else {
            r == Ok::<Option<(usize, usize, usize, usize)>, LowerError>(
                Some(
                    (
                        ((flat_index + 1) % 3) as usize,
                        ((flat_index + 2) % 3) as usize,
                        ((flat_index + 2) % 3) as usize,
                        ((flat_index + 1) % 3) as usize,
                    ),
                ),
            )
        },
{
    if result_dims.len() != 1 || result_dims[0] != 3 || flat_index >= 3 {
        proof {
            if result_dims@.len() == 1 && result_dims@[0] != 3 {
                assert(result_dims@ != seq![3usize]);
            }
            if result_dims@.len() != 1 {
                assert(result_dims@.len() != seq![3usize].len());
            }
        }
        return Ok(None);
    }
    proof {
        assert(result_dims@ =~= seq![3usize]);
    }
    if arg_count != 2 {
        return Err(unsupported_at(
            String::from_str("cross() derivative projection requires two vector arguments"),
            span,
        ));
    }
    let lhs_ok = lhs_dims.len() == 1 && lhs_dims[0] == 3;
    let rhs_ok = rhs_dims.len() == 1 && rhs_dims[0] == 3;
    proof {
        if lhs_ok {
            assert(lhs_dims@ =~= seq![3usize]);
        } else if lhs_dims@.len() == 1 {
            assert(lhs_dims@ != seq![3usize]);
        } else {
            assert(lhs_dims@.len() != seq![3usize].len());
        }
        if rhs_ok {
            assert(rhs_dims@ =~= seq![3usize]);
        } else if rhs_dims@.len() == 1 {
            assert(rhs_dims@ != seq![3usize]);
        } else {
            assert(rhs_dims@.len() != seq![3usize].len());
        }
    }
    if !lhs_ok || !rhs_ok {
        return Ok(None);
    }
    let terms = if flat_index == 0 {
        (1, 2, 2, 1)
    } else if flat_index == 1 {
        (2, 0, 0, 2)
    } else {
        (0, 1, 1, 0)
    };
    Ok(Some(terms))
}

} // verus!
