use vstd::prelude::*;

use crate::capacity::{contract_error, spec_capacity_error, spec_contract_error, vec_with_capacity};
use crate::dims::{checked_product, i64_ints, lemma_checked_product_none_extends, product};
use crate::error::{contract_violation, spec_invalid_function_reason, unsupported_at, LowerError};
use crate::span::Span;
use crate::text::{
    decimal, format_i64_dims, format_usize_dims, i64_to_decimal, signed_decimal, spec_format_i64_dims,
    spec_format_usize_dims, usize_to_decimal,
};

verus! {

/// The one-based positions `1, 2, ..., dim` of a full slice.
pub fn one_based_index_range(dim: usize, context: &str, span: Span) -> (r: Result<
    Vec<usize>,
    LowerError,
>)
    ensures
        match r {
            Ok(v) => v@.len() == dim && forall|i: int| 0 <= i < dim ==> v@[i] == i + 1,
            Err(e) => spec_capacity_error(e, context@, span),
        },
{
    let mut values: Vec<usize> = vec_with_capacity(dim, context, span)?;
    let mut index: usize = 0;
    while index < dim
        invariant
            index <= dim,
            values@.len() == index,
            forall|i: int| 0 <= i < index ==> values@[i] == i + 1,
        decreases dim - index,
    {
        index = index + 1;
        values.push(index);
    }
    Ok(values)
}

/// The sizes of the per-dimension selections of a slice.
pub open spec fn selection_lens(selections: Seq<Vec<usize>>) -> Seq<int> {
    selections.map_values(|s: Vec<usize>| s@.len() as int)
}

/// The number of elements a slice selects: the product of the selection
/// sizes, taken left to right with checked `usize` multiplication.
pub fn slice_selection_count(selections: &[Vec<usize>], span: Span) -> (r: Result<
    usize,
    LowerError,
>)
    ensures
        match r {
            Ok(n) => checked_product(selection_lens(selections@)) == Some(n as int),
            Err(e) => checked_product(selection_lens(selections@)) is None && spec_contract_error(
                e,
                "derivative slice selection count overflows host index range"@,
                span,
            ),
        },
{
    let ghost lens = selection_lens(selections@);
    let mut count: usize = 1;
    let mut i: usize = 0;
    while i < selections.len()
        invariant
            i <= selections.len(),
            lens == selection_lens(selections@),
            checked_product(lens.take(i as int)) == Some(count as int),
        decreases selections.len() - i,
    {
        proof {
            assert(lens.take(i + 1).drop_last() =~= lens.take(i as int));
            assert(lens.take(i + 1).last() == selections@[i as int]@.len() as int);
            assert(0 <= count as int * selections@[i as int]@.len()) by (nonlinear_arith)
                requires
                    0 <= count,
            ;
        }
        match count.checked_mul(selections[i].len()) {
            Some(next) => {
                count = next;
            },
            None => {
                proof {
                    lemma_checked_product_none_extends(lens, i as int + 1);
                }
                return Err(
                    contract_violation(
                        String::from_str(
                            "derivative slice selection count overflows host index range",
                        ),
                        span,
                    ),
                );
            },
        }
        i = i + 1;
    }
    proof {
        assert(lens.take(selections.len() as int) =~= lens);
    }
    Ok(count)
}

/// A copy of a result shape; an empty shape is copied without allocating.
pub fn copy_result_dims(dims: &[usize], context: &str, span: Span) -> (r: Result<
    Vec<usize>,
    LowerError,
>)
    ensures
        match r {
            Ok(v) => v@ == dims@,
            Err(e) => dims@.len() > 0 && spec_capacity_error(e, context@, span),
        },
{
    if dims.len() == 0 {
        return Ok(Vec::new());
    }
    let mut copied: Vec<usize> = vec_with_capacity(dims.len(), context, span)?;
    let mut i: usize = 0;
    while i < dims.len()
        invariant
            i <= dims.len(),
            copied@ == dims@.take(i as int),
        decreases dims.len() - i,
    {
        copied.push(dims[i]);
        proof {
            assert(copied@ =~= dims@.take(i + 1));
        }
        i = i + 1;
    }
    proof {
        assert(dims@.take(dims.len() as int) =~= dims@);
    }
    Ok(copied)
}

/// A copy of a declared shape; an empty shape is copied without allocating.
pub fn copy_i64_dims(dims: &[i64], context: &str, span: Span) -> (r: Result<
    Vec<i64>,
    LowerError,
>)
    ensures
        match r {
            Ok(v) => v@ == dims@,
            Err(e) => dims@.len() > 0 && spec_capacity_error(e, context@, span),
        },
{
    if dims.len() == 0 {
        return Ok(Vec::new());
    }
    let mut copied: Vec<i64> = vec_with_capacity(dims.len(), context, span)?;
    let mut i: usize = 0;
    while i < dims.len()
        invariant
            i <= dims.len(),
            copied@ == dims@.take(i as int),
        decreases dims.len() - i,
    {
        copied.push(dims[i]);
        proof {
            assert(copied@ =~= dims@.take(i + 1));
        }
        i = i + 1;
    }
    proof {
        assert(dims@.take(dims.len() as int) =~= dims@);
    }
    Ok(copied)
}

/// Every leading index selects an existing element of its dimension.
pub open spec fn leading_indices_in_bounds(dims: Seq<usize>, indices: Seq<usize>) -> bool {
    &&& indices.len() <= dims.len()
    &&& forall|k: int| 0 <= k < indices.len() ==> 1 <= #[trigger] indices[k] <= dims[k]
}

/// `k` is the first leading index outside its dimension.
pub open spec fn first_index_outside(dims: Seq<usize>, indices: Seq<usize>, k: int) -> bool {
    &&& 0 <= k < indices.len()
    &&& k < dims.len()
    &&& !(1 <= indices[k] <= dims[k])
    &&& forall|j: int| 0 <= j < k ==> 1 <= #[trigger] indices[j] <= dims[j]
}

pub open spec fn spec_index_count_reason(name: Seq<char>, count: nat, rank: nat) -> Seq<char> {
    "projected function output `"@ + name + "` has "@ + decimal(count) + " indices for "@
        + decimal(rank) + " dimensions"@
}

pub open spec fn spec_index_outside_reason(name: Seq<char>, index: nat, dim: nat) -> Seq<char> {
    "projected function output `"@ + name + "` index "@ + decimal(index)
        + " is outside dimension "@ + decimal(dim)
}

/// The shape that remains of a projected function output once its leading
/// dimensions are fixed by one-based `indices`.
pub fn projected_output_remaining_dims(
    dims: &[usize],
    indices: &[usize],
    output_name: &str,
    span: Span,
) -> (r: Result<Vec<usize>, LowerError>)
    ensures
        match r {
            Ok(v) => leading_indices_in_bounds(dims@, indices@) && v@ == dims@.skip(
                indices@.len() as int,
            ),
            Err(e) => if indices@.len() == 0 {
                spec_capacity_error(e, "projected function output rank"@, span)
            } else if indices@.len() > dims@.len() {
                spec_contract_error(
                    e,
                    spec_index_count_reason(
                        output_name@,
                        indices@.len() as nat,
                        dims@.len() as nat,
                    ),
                    span,
                )
            } else if leading_indices_in_bounds(dims@, indices@) {
                spec_capacity_error(e, "projected function output remaining rank"@, span)
            } else {
                exists|k: int|
                    first_index_outside(dims@, indices@, k) && spec_contract_error(
                        e,
                        spec_index_outside_reason(
                            output_name@,
                            indices@[k] as nat,
                            dims@[k] as nat,
                        ),
                        span,
                    )
            },
        },
{
    if indices.len() == 0 {
        let mut copied: Vec<usize> = vec_with_capacity(
            dims.len(),
            "projected function output rank",
            span,
        )?;
        let mut i: usize = 0;
        while i < dims.len()
            invariant
                i <= dims.len(),
                copied@ == dims@.take(i as int),
            decreases dims.len() - i,
        {
            copied.push(dims[i]);
            proof {
                assert(copied@ =~= dims@.take(i + 1));
            }
            i = i + 1;
        }
        proof {
            assert(dims@.take(dims.len() as int) =~= dims@.skip(0));
        }
        return Ok(copied);
    }
    if indices.len() > dims.len() {
        let mut reason = String::from_str("projected function output `");
        reason.append(output_name);
        reason.append("` has ");
        let count = usize_to_decimal(indices.len());
        reason.append(count.as_str());
        reason.append(" indices for ");
        let rank = usize_to_decimal(dims.len());
        reason.append(rank.as_str());
        reason.append(" dimensions");
        return Err(contract_violation(reason, span));
    }
    let mut k: usize = 0;
    while k < indices.len()
        invariant
            indices.len() <= dims.len(),
            k <= indices.len(),
            forall|j: int| 0 <= j < k ==> 1 <= #[trigger] indices@[j] <= dims@[j],
        decreases indices.len() - k,
    {
        if indices[k] == 0 || indices[k] > dims[k] {
            let mut reason = String::from_str("projected function output `");
            reason.append(output_name);
            reason.append("` index ");
            let index = usize_to_decimal(indices[k]);
            reason.append(index.as_str());
            reason.append(" is outside dimension ");
            let dim = usize_to_decimal(dims[k]);
            reason.append(dim.as_str());
            let e = contract_violation(reason, span);
            proof {
                assert(first_index_outside(dims@, indices@, k as int));
            }
            return Err(e);
        }
        k = k + 1;
    }
    let mut remaining: Vec<usize> = vec_with_capacity(
        dims.len() - indices.len(),
        "projected function output remaining rank",
        span,
    )?;
    let mut i: usize = indices.len();
    while i < dims.len()
        invariant
            indices.len() <= i <= dims.len(),
            remaining@ == dims@.subrange(indices.len() as int, i as int),
        decreases dims.len() - i,
    {
        remaining.push(dims[i]);
        proof {
            assert(remaining@ =~= dims@.subrange(indices.len() as int, i + 1));
        }
        i = i + 1;
    }
    Ok(remaining)
}

/// The placement of an error raised by an invalid declaration: `span`
/// is attached when the error has no location and `span` has source
/// provenance.
pub open spec fn spec_fallback_location(span: Span) -> Option<Span> {
    if span.spec_is_dummy() {
        None
    } else {
        Some(span)
    }
}

pub open spec fn spec_invalid_output_dim_reason(
    output_name: Seq<char>,
    param_name: Seq<char>,
    dim: int,
) -> Seq<char> {
    spec_invalid_function_reason(
        output_name,
        "output `"@ + param_name + "` has invalid dimension "@ + signed_decimal(dim),
    )
}

/// `k` is the first declared dimension that is no host index.
pub open spec fn first_dim_outside_usize(dims: Seq<i64>, k: int) -> bool {
    &&& 0 <= k < dims.len()
    &&& !(0 <= dims[k] <= usize::MAX)
    &&& forall|j: int| 0 <= j < k ==> 0 <= #[trigger] dims[j] <= usize::MAX
}

/// The declared dimensions `dims` of output `param_name` of function
/// `output_name` as host sizes.
pub fn declared_output_concrete_dims(
    dims: &[i64],
    param_name: &str,
    output_name: &str,
    span: Span,
) -> (r: Result<Vec<usize>, LowerError>)
    ensures
        match r {
            Ok(v) => v@.len() == dims@.len() && forall|i: int|
                0 <= i < dims@.len() ==> v@[i] as int == dims@[i] as int,
            Err(e) => spec_capacity_error(e, "projected function output dimension count"@, span)
                || exists|k: int|
                first_dim_outside_usize(dims@, k) && e.spec_reason()
                    == spec_invalid_output_dim_reason(output_name@, param_name@, dims@[k] as int)
                    && e.spec_source_span() == spec_fallback_location(span),
        },
        (forall|i: int| 0 <= i < dims@.len() ==> 0 <= #[trigger] dims@[i] <= usize::MAX) ==> (r is Ok
            || spec_capacity_error(
            r->Err_0,
            "projected function output dimension count"@,
            span,
        )),
{
    let mut concrete: Vec<usize> = vec_with_capacity(
        dims.len(),
        "projected function output dimension count",
        span,
    )?;
    let mut i: usize = 0;
    while i < dims.len()
        invariant
            i <= dims.len(),
            concrete@.len() == i,
            forall|j: int| 0 <= j < i ==> concrete@[j] as int == dims@[j] as int,
            forall|j: int| 0 <= j < i ==> 0 <= #[trigger] dims@[j] <= usize::MAX,
        decreases dims.len() - i,
    {
        let dim = dims[i];
        if dim < 0 || dim as u64 > usize::MAX as u64 {
            let mut reason = String::from_str("output `");
            reason.append(param_name);
            reason.append("` has invalid dimension ");
            let digits = i64_to_decimal(dim);
            reason.append(digits.as_str());
            let name = String::from_str(output_name);
            let e = LowerError::InvalidFunction { name, reason };
            proof {
                assert(first_dim_outside_usize(dims@, i as int));
            }
            return Err(e.with_fallback_span(span));
        }
        concrete.push(dim as usize);
        i = i + 1;
    }
    Ok(concrete)
}

/// The contents of an optional shape.
pub open spec fn optional_dims(dims: Option<Vec<i64>>) -> Option<Seq<i64>> {
    match dims {
        Some(v) => Some(v@),
        None => None,
    }
}

/// Whether two shapes are equal.
pub fn i64_dims_equal(a: &[i64], b: &[i64]) -> (same: bool)
    ensures
        same == (a@ == b@),
{
    if a.len() != b.len() {
        return false;
    }
    let mut i: usize = 0;
    while i < a.len()
        invariant
            a@.len() == b@.len(),
            i <= a.len(),
            forall|j: int| 0 <= j < i ==> a@[j] == b@[j],
        decreases a.len() - i,
    {
        if a[i] != b[i] {
            return false;
        }
        i = i + 1;
    }
    proof {
        assert(a@ =~= b@);
    }
    true
}

pub open spec fn spec_mismatched_dims_reason(
    name: Seq<char>,
    existing: Seq<i64>,
    candidate: Seq<i64>,
) -> Seq<char> {
    "if-statement projection for `"@ + name + "` has mismatched dimensions: "@
        + spec_format_i64_dims(existing) + " and "@ + spec_format_i64_dims(candidate)
}

/// Merge the shape `candidate` that one branch of an if-statement gives
/// `name` into the shape merged so far: the first known shape is taken,
/// later ones must agree with it.
pub fn merge_projection_dims(
    name: &str,
    merged: &mut Option<Vec<i64>>,
    candidate: Option<&Vec<i64>>,
    span: Span,
) -> (r: Result<(), LowerError>)
    ensures
        match candidate {
            None => r is Ok && optional_dims(*final(merged)) == optional_dims(*old(merged)),
            Some(c) => match optional_dims(*old(merged)) {
                None => r is Ok && optional_dims(*final(merged)) == Some(c@),
                Some(existing) => optional_dims(*final(merged)) == Some(existing) && if existing
                    == c@ {
                    r is Ok
                } else {
                    r matches Err(e) && spec_contract_error(
                        e,
                        spec_mismatched_dims_reason(name@, existing, c@),
                        span,
                    )
                },
            },
        },
{
    let candidate = match candidate {
        Some(c) => c,
        None => {
            return Ok(());
        },
    };
    match merged {
        None => {
            let mut copied: Vec<i64> = Vec::new();
            let mut i: usize = 0;
            while i < candidate.len()
                invariant
                    i <= candidate.len(),
                    copied@ == candidate@.take(i as int),
                decreases candidate.len() - i,
            {
                copied.push(candidate[i]);
                proof {
                    assert(copied@ =~= candidate@.take(i + 1));
                }
                i = i + 1;
            }
            proof {
                assert(candidate@.take(candidate.len() as int) =~= candidate@);
            }
            *merged = Some(copied);
            Ok(())
        },
        Some(existing) => {
            if i64_dims_equal(existing.as_slice(), candidate.as_slice()) {
                return Ok(());
            }
            let mut reason = String::from_str("if-statement projection for `");
            reason.append(name);
            reason.append("` has mismatched dimensions: ");
            let first = format_i64_dims(existing.as_slice());
            reason.append(first.as_str());
            reason.append(" and ");
            let second = format_i64_dims(candidate.as_slice());
            reason.append(second.as_str());
            Err(contract_violation(reason, span))
        },
    }
}

/// Whether two result shapes are equal.
pub fn usize_dims_equal(a: &[usize], b: &[usize]) -> (same: bool)
    ensures
        same == (a@ == b@),
{
    if a.len() != b.len() {
        return false;
    }
    let mut i: usize = 0;
    while i < a.len()
        invariant
            a@.len() == b@.len(),
            i <= a.len(),
            forall|j: int| 0 <= j < i ==> a@[j] == b@[j],
        decreases a.len() - i,
    {
        if a[i] != b[i] {
            return false;
        }
        i = i + 1;
    }
    proof {
        assert(a@ =~= b@);
    }
    true
}

/// The shape of an element-wise binary operation: a scalar operand takes
/// the other operand's shape, equal shapes are kept, and anything else is
/// treated as scalar.
pub open spec fn spec_elementwise_dims(lhs: Seq<usize>, rhs: Seq<usize>) -> Seq<usize> {
    if lhs.len() == 0 {
        rhs
    } else if rhs.len() == 0 {
        lhs
    } else if lhs == rhs {
        lhs
    } else {
        Seq::empty()
    }
}

/// The result shape of an element-wise binary operation (`+`, `-`, `/`,
/// element-wise `.*`) with operands of shapes `lhs_dims` and `rhs_dims`.
pub fn binary_elementwise_result_dims(lhs_dims: Vec<usize>, rhs_dims: Vec<usize>) -> (dims: Vec<
    usize,
>)
    ensures
        dims@ == spec_elementwise_dims(lhs_dims@, rhs_dims@),
{
    if lhs_dims.len() == 0 {
        rhs_dims
    } else if rhs_dims.len() == 0 {
        lhs_dims
    } else if usize_dims_equal(lhs_dims.as_slice(), rhs_dims.as_slice()) {
        lhs_dims
    } else {
        Vec::new()
    }
}

/// Element-wise shapes: a scalar operand takes the other's shape, equal
/// shapes of any rank are kept, two different non-scalar shapes give a
/// scalar, and the operands can be swapped.
pub proof fn law_elementwise_dims(lhs: Seq<usize>, rhs: Seq<usize>)
    ensures
        spec_elementwise_dims(lhs, rhs) == spec_elementwise_dims(rhs, lhs),
        spec_elementwise_dims(Seq::empty(), rhs) == rhs,
        spec_elementwise_dims(lhs, Seq::empty()) == lhs,
        spec_elementwise_dims(lhs, lhs) == lhs,
        lhs.len() > 0 && rhs.len() > 0 && lhs != rhs ==> spec_elementwise_dims(lhs, rhs).len() == 0,
        spec_elementwise_dims(lhs, rhs).len() > 0 ==> spec_elementwise_dims(lhs, rhs) == lhs
            || spec_elementwise_dims(lhs, rhs) == rhs,
{
}

/// The shape of a product `lhs * rhs`: scaling by a scalar, matrix-matrix,
/// matrix-vector and vector-matrix products, the scalar dot product of two
/// vectors, equal shapes kept, anything else scalar.
pub open spec fn spec_product_dims(lhs: Seq<usize>, rhs: Seq<usize>) -> Seq<usize> {
    if lhs.len() == 0 && rhs.len() != 0 {
        rhs
    } else if rhs.len() == 0 && lhs.len() != 0 {
        lhs
    } else if lhs.len() == 2 && rhs.len() == 2 && lhs[1] == rhs[0] {
        seq![lhs[0], rhs[1]]
    } else if lhs.len() == 2 && rhs.len() == 1 && lhs[1] == rhs[0] {
        seq![lhs[0]]
    } else if lhs.len() == 1 && rhs.len() == 2 && lhs[0] == rhs[0] {
        seq![rhs[1]]
    } else if lhs.len() == 1 && rhs.len() == 1 && lhs[0] == rhs[0] {
        Seq::empty()
    } else if lhs == rhs {
        lhs
    } else {
        Seq::empty()
    }
}

/// Product shapes follow linear algebra: a scalar factor keeps the other
/// factor's shape, an `m x n` matrix times an `n x p` matrix is `m x p`,
/// times an `n`-vector is an `m`-vector, an `m`-vector times an `m x p`
/// matrix is a `p`-vector, and the product of two `n`-vectors is a scalar.
pub proof fn law_product_dims(m: usize, n: usize, p: usize, shape: Seq<usize>)
    ensures
        shape.len() > 0 ==> spec_product_dims(Seq::empty(), shape) == shape,
        shape.len() > 0 ==> spec_product_dims(shape, Seq::empty()) == shape,
        spec_product_dims(seq![m, n], seq![n, p]) == seq![m, p],
        spec_product_dims(seq![m, n], seq![n]) == seq![m],
        spec_product_dims(seq![m], seq![m, p]) == seq![p],
        spec_product_dims(seq![n], seq![n]).len() == 0,
{
}

/// The allocation that `binary_mul_result_dims` makes for each kind of
/// product, named by its context.
pub open spec fn spec_product_dims_context(lhs: Seq<usize>, rhs: Seq<usize>) -> Seq<char> {
    if lhs.len() == 0 && rhs.len() != 0 {
        "scalar lhs product dimension count"@
    } else if rhs.len() == 0 && lhs.len() != 0 {
        "scalar rhs product dimension count"@
    } else if lhs.len() == 2 && rhs.len() == 2 && lhs[1] == rhs[0] {
        "matrix product dimension count"@
    } else if lhs.len() == 2 && rhs.len() == 1 && lhs[1] == rhs[0] {
        "matrix-vector product dimension count"@
    } else {
        "vector-matrix product dimension count"@
    }
}

/// The result shape of `lhs * rhs` with operands of shapes `lhs_dims` and
/// `rhs_dims` (see `spec_product_dims`).
pub fn binary_mul_result_dims(lhs_dims: Vec<usize>, rhs_dims: Vec<usize>, span: Span) -> (r:
    Result<Vec<usize>, LowerError>)
    ensures
        match r {
            Ok(dims) => dims@ == spec_product_dims(lhs_dims@, rhs_dims@),
            Err(e) => spec_capacity_error(
                e,
                spec_product_dims_context(lhs_dims@, rhs_dims@),
                span,
            ),
        },
{
    let l = lhs_dims.len();
    let n = rhs_dims.len();
    if l == 0 && n != 0 {
        copy_result_dims(rhs_dims.as_slice(), "scalar lhs product dimension count", span)
    } else if n == 0 && l != 0 {
        copy_result_dims(lhs_dims.as_slice(), "scalar rhs product dimension count", span)
    } else if l == 2 && n == 2 && lhs_dims[1] == rhs_dims[0] {
        let shape = [lhs_dims[0], rhs_dims[1]];
        let r = copy_result_dims(&shape, "matrix product dimension count", span);
        proof {
            assert(shape@ =~= seq![lhs_dims@[0], rhs_dims@[1]]);
        }
        r
    } else if l == 2 && n == 1 && lhs_dims[1] == rhs_dims[0] {
        let shape = [lhs_dims[0]];
        let r = copy_result_dims(&shape, "matrix-vector product dimension count", span);
        proof {
            assert(shape@ =~= seq![lhs_dims@[0]]);
        }
        r
    } else if l == 1 && n == 2 && lhs_dims[0] == rhs_dims[0] {
        let shape = [rhs_dims[1]];
        let r = copy_result_dims(&shape, "vector-matrix product dimension count", span);
        proof {
            assert(shape@ =~= seq![rhs_dims@[1]]);
        }
        r
    } else if l == 1 && n == 1 && lhs_dims[0] == rhs_dims[0] {
        Ok(Vec::new())
    } else if usize_dims_equal(lhs_dims.as_slice(), rhs_dims.as_slice()) {
        Ok(lhs_dims)
    } else {
        Ok(Vec::new())
    }
}

/// The result shape of `transpose()` of an argument of shape `arg_dims`:
/// the two dimensions of a matrix swapped.
pub fn transpose_result_dims(arg_dims: &[usize], span: Span) -> (r: Result<Vec<usize>, LowerError>)
    ensures
        match r {
            Ok(dims) => arg_dims@.len() == 2 && dims@ == seq![arg_dims@[1], arg_dims@[0]],
            Err(e) => if arg_dims@.len() == 2 {
                spec_capacity_error(e, "transpose result dimension count"@, span)
            } else {
                e.spec_reason() == "transpose() requires a matrix input, got shape "@
                    + spec_format_usize_dims(arg_dims@) && e.spec_source_span()
                    == spec_fallback_location(span)
            },
        },
{
    if arg_dims.len() == 2 {
        let shape = [arg_dims[1], arg_dims[0]];
        let r = copy_result_dims(&shape, "transpose result dimension count", span);
        proof {
            assert(shape@ =~= seq![arg_dims@[1], arg_dims@[0]]);
        }
        r
    } else {
        let mut reason = String::from_str("transpose() requires a matrix input, got shape ");
        let shape = format_usize_dims(arg_dims);
        reason.append(shape.as_str());
        Err(unsupported_at(reason, span))
    }
}

/// The number of dimensions declared as unknown (`0`).
pub open spec fn unknown_dim_count(dims: Seq<i64>) -> nat
    decreases dims.len(),
{
    if dims.len() == 0 {
        0
    } else {
        unknown_dim_count(dims.drop_last()) + if dims.last() == 0 {
            1nat
        } else {
            0nat
        }
    }
}

/// The product of the known (positive) dimensions, taken left to right
/// with checked `usize` multiplication; unknown dimensions are skipped.
pub open spec fn checked_known_product(dims: Seq<i64>) -> Option<int>
    decreases dims.len(),
{
    if dims.len() == 0 {
        Some(1)
    } else {
        match checked_known_product(dims.drop_last()) {
            None => None,
            Some(p) => if dims.last() > 0 {
                if dims.last() <= usize::MAX && p * dims.last() <= usize::MAX {
                    Some(p * dims.last())
                } else {
                    None
                }
            } else {
                Some(p)
            },
        }
    }
}

/// `k` is the first negative dimension.
pub open spec fn first_negative_dim(dims: Seq<i64>, k: int) -> bool {
    &&& 0 <= k < dims.len()
    &&& dims[k] < 0
    &&& forall|j: int| 0 <= j < k ==> #[trigger] dims[j] >= 0
}

/// The shape with every unknown dimension replaced by `inferred`.
pub open spec fn fill_unknown_dims(dims: Seq<i64>, inferred: int) -> Seq<i64> {
    dims.map_values(|d: i64| if d > 0 { d } else { inferred as i64 })
}

/// Whether a declared shape has one unknown dimension to infer from the
/// number of values it must hold.
pub open spec fn infers_unknown_dim(dims: Seq<i64>, value_count: nat) -> bool {
    dims.len() != 0 && unknown_dim_count(dims) == 1 && value_count != 0
}

pub open spec fn spec_negative_declared_dim_reason(
    context: Seq<char>,
    dims: Seq<i64>,
    dim: int,
) -> Seq<char> {
    context + " has negative dimension in declared shape "@ + spec_format_i64_dims(dims) + ": "@
        + signed_decimal(dim)
}

proof fn lemma_known_product_positive(dims: Seq<i64>)
    requires
        checked_known_product(dims) is Some,
    ensures
        checked_known_product(dims)->0 >= 1,
    decreases dims.len(),
{
    if dims.len() > 0 {
        lemma_known_product_positive(dims.drop_last());
        let p = checked_known_product(dims.drop_last())->0;
        if dims.last() > 0 {
            let d = dims.last() as int;
            assert(p * d >= 1) by (nonlinear_arith)
                requires
                    p >= 1,
                    d >= 1,
            ;
        }
    }
}

proof fn lemma_known_product_none_extends(dims: Seq<i64>, k: int)
    requires
        0 <= k <= dims.len(),
        checked_known_product(dims.take(k)) is None,
    ensures
        checked_known_product(dims) is None,
    decreases dims.len() - k,
{
    if k < dims.len() {
        assert(dims.take(k + 1).drop_last() =~= dims.take(k));
        lemma_known_product_none_extends(dims, k + 1);
    } else {
        assert(dims.take(k) =~= dims);
    }
}

/// A declared shape completed for `value_count` values: with exactly one
/// unknown dimension (and values to hold), that dimension becomes the value
/// count divided by the product of the known ones; any other shape is kept.
pub fn resolve_array_dims_for_value_count(
    dims: &[i64],
    value_count: usize,
    context: &str,
    span: Span,
) -> (r: Result<Vec<i64>, LowerError>)
    ensures
        match r {
            Ok(v) => (forall|k: int| 0 <= k < dims@.len() ==> #[trigger] dims@[k] >= 0) && if infers_unknown_dim(
                dims@,
                value_count as nat,
            ) {
                checked_known_product(dims@) matches Some(p) && p >= 1 && (value_count as int) % p == 0
                    && (value_count as int) / p <= i64::MAX && v@ == fill_unknown_dims(
                    dims@,
                    (value_count as int) / p,
                )
            } else {
                v@ == dims@
            },
            Err(e) => if exists|k: int| first_negative_dim(dims@, k) {
                exists|k: int|
                    first_negative_dim(dims@, k) && spec_contract_error(
                        e,
                        spec_negative_declared_dim_reason(context@, dims@, dims@[k] as int),
                        span,
                    )
            } else if !infers_unknown_dim(dims@, value_count as nat) {
                spec_capacity_error(e, context@, span)
            } else {
                match checked_known_product(dims@) {
                    None => spec_contract_error(
                        e,
                        context@ + " known dimension product overflows usize"@,
                        span,
                    ),
                    Some(p) => if p == 0 || (value_count as int) % p != 0 {
                        spec_contract_error(
                            e,
                            context@ + " cannot infer one dynamic dimension from "@ + decimal(
                                value_count as nat,
                            ) + " value(s)"@,
                            span,
                        )
                    } else if (value_count as int) / p > i64::MAX {
                        spec_contract_error(e, context@ + " inferred dimension exceeds i64"@, span)
                    } else {
                        spec_capacity_error(e, context@, span)
                    },
                }
            },
        },
{
    let mut i: usize = 0;
    let mut unknown: usize = 0;
    while i < dims.len()
        invariant
            i <= dims.len(),
            unknown as nat == unknown_dim_count(dims@.take(i as int)),
            unknown <= i,
            forall|j: int| 0 <= j < i ==> #[trigger] dims@[j] >= 0,
        decreases dims.len() - i,
    {
        proof {
            assert(dims@.take(i + 1).drop_last() =~= dims@.take(i as int));
        }
        if dims[i] < 0 {
            let mut reason = String::from_str(context);
            reason.append(" has negative dimension in declared shape ");
            let shape = format_i64_dims(dims);
            reason.append(shape.as_str());
            reason.append(": ");
            let digits = i64_to_decimal(dims[i]);
            reason.append(digits.as_str());
            proof {
                assert(first_negative_dim(dims@, i as int));
            }
            return Err(contract_violation(reason, span));
        }
        if dims[i] == 0 {
            unknown = unknown + 1;
        }
        i = i + 1;
    }
    proof {
        assert(dims@.take(dims.len() as int) =~= dims@);
        assert(!exists|k: int| first_negative_dim(dims@, k));
        assert(unknown as nat == unknown_dim_count(dims@));
    }
    if dims.len() == 0 || unknown != 1 || value_count == 0 {
        return copy_i64_dims(dims, context, span);
    }
    let mut known: usize = 1;
    let mut j: usize = 0;
    while j < dims.len()
        invariant
            j <= dims.len(),
            checked_known_product(dims@.take(j as int)) == Some(known as int),
            forall|k: int| 0 <= k < dims@.len() ==> #[trigger] dims@[k] >= 0,
            !exists|k: int| first_negative_dim(dims@, k),
            infers_unknown_dim(dims@, value_count as nat),
        decreases dims.len() - j,
    {
        proof {
            assert(dims@.take(j + 1).drop_last() =~= dims@.take(j as int));
            assert(dims@.take(j + 1).last() == dims@[j as int]);
        }
        let dim = dims[j];
        if dim > 0 {
            if dim as u64 > usize::MAX as u64 {
                proof {
                    lemma_known_product_none_extends(dims@, j + 1);
                }
                return Err(contract_error(context, " known dimension product overflows usize", span));
            }
            proof {
                assert(0 <= known as int * dim as int) by (nonlinear_arith)
                    requires
                        known >= 0,
                        dim > 0,
                ;
            }
            match known.checked_mul(dim as usize) {
                Some(next) => {
                    known = next;
                },
                None => {
                    proof {
                        lemma_known_product_none_extends(dims@, j + 1);
                    }
                    return Err(
                        contract_error(context, " known dimension product overflows usize", span),
                    );
                },
            }
        }
        j = j + 1;
    }
    proof {
        assert(dims@.take(dims.len() as int) =~= dims@);
        lemma_known_product_positive(dims@);
    }
    if known == 0 || value_count % known != 0 {
        let mut reason = String::from_str(context);
        reason.append(" cannot infer one dynamic dimension from ");
        let digits = usize_to_decimal(value_count);
        reason.append(digits.as_str());
        reason.append(" value(s)");
        return Err(contract_violation(reason, span));
    }
    let quotient = value_count / known;
    if quotient as u64 > i64::MAX as u64 {
        return Err(contract_error(context, " inferred dimension exceeds i64", span));
    }
    let inferred = quotient as i64;
    let mut resolved: Vec<i64> = vec_with_capacity(dims.len(), context, span)?;
    let mut k: usize = 0;
    while k < dims.len()
        invariant
            k <= dims.len(),
            inferred as int == value_count / known,
            resolved@ == fill_unknown_dims(dims@, (value_count / known) as int).take(k as int),
        decreases dims.len() - k,
    {
        let value = if dims[k] > 0 {
            dims[k]
        } else {
            inferred
        };
        resolved.push(value);
        proof {
            assert(resolved@ =~= fill_unknown_dims(dims@, (value_count / known) as int).take(k + 1));
        }
        k = k + 1;
    }
    proof {
        assert(fill_unknown_dims(dims@, (value_count / known) as int).take(dims.len() as int)
            =~= fill_unknown_dims(dims@, (value_count / known) as int));
    }
    Ok(resolved)
}

/// The one-based child position named by parsed subscripts, or `None` when
/// a subscript is not a positive host index.
pub fn scalarized_child_index_from_subscripts(parsed: &[i64], span: Span) -> (r: Result<
    Option<Vec<usize>>,
    LowerError,
>)
    ensures
        match r {
            Ok(Some(v)) => v@.len() == parsed@.len() && forall|i: int|
                0 <= i < parsed@.len() ==> 1 <= #[trigger] parsed@[i] <= usize::MAX && v@[i] as int
                    == parsed@[i] as int,
            Ok(None) => exists|i: int|
                0 <= i < parsed@.len() && !(1 <= #[trigger] parsed@[i] <= usize::MAX),
            Err(e) => spec_capacity_error(e, "scalarized child subscript count"@, span),
        },
{
    let mut index: Vec<usize> = vec_with_capacity(
        parsed.len(),
        "scalarized child subscript count",
        span,
    )?;
    let mut i: usize = 0;
    while i < parsed.len()
        invariant
            i <= parsed.len(),
            index@.len() == i,
            forall|j: int|
                0 <= j < i ==> 1 <= #[trigger] parsed@[j] <= usize::MAX && index@[j] as int
                    == parsed@[j] as int,
        decreases parsed.len() - i,
    {
        let value = parsed[i];
        if value < 1 || value as u64 > usize::MAX as u64 {
            return Ok(None);
        }
        index.push(value as usize);
        i = i + 1;
    }
    Ok(Some(index))
}

/// Whether a product with operand shapes `lhs` and `rhs` yields a tensor
/// of shape `result`: matrix-vector and vector-matrix products with a
/// vector result, or a matrix-matrix product with the matching matrix
/// result.
pub open spec fn spec_tensor_product_matches(
    lhs: Seq<usize>,
    rhs: Seq<usize>,
    result: Seq<usize>,
) -> bool {
    ||| (lhs.len() == 2 && rhs.len() == 1 && result.len() == 1 && lhs[1] == rhs[0])
    ||| (lhs.len() == 1 && rhs.len() == 2 && result.len() == 1 && lhs[0] == rhs[0])
    ||| (lhs.len() == 2 && rhs.len() == 2 && result.len() == 2 && lhs[1] == rhs[0] && lhs[0]
        == result[0] && rhs[1] == result[1])
}

/// Whether a product of operands with shapes `lhs_dims` and `rhs_dims`
/// matches the projected result shape `result_dims`.
pub fn tensor_product_matches_result_shape(
    lhs_dims: &[usize],
    rhs_dims: &[usize],
    result_dims: &[usize],
) -> (matches: bool)
    ensures
        matches == spec_tensor_product_matches(lhs_dims@, rhs_dims@, result_dims@),
{
    let l = lhs_dims.len();
    let n = rhs_dims.len();
    let o = result_dims.len();
    (l == 2 && n == 1 && o == 1 && lhs_dims[1] == rhs_dims[0]) || (l == 1 && n == 2 && o == 1
        && lhs_dims[0] == rhs_dims[0]) || (l == 2 && n == 2 && o == 2 && lhs_dims[1] == rhs_dims[0]
        && lhs_dims[0] == result_dims[0] && rhs_dims[1] == result_dims[1])
}

proof fn lemma_filled_product(dims: Seq<i64>, q: int)
    requires
        forall|k: int| 0 <= k < dims.len() ==> #[trigger] dims[k] >= 0,
        checked_known_product(dims) is Some,
        unknown_dim_count(dims) <= 1,
        0 <= q <= i64::MAX,
    ensures
        product(i64_ints(fill_unknown_dims(dims, q))) == checked_known_product(dims)->0 * (
        if unknown_dim_count(dims) == 0 {
            1
        } else {
            q
        }),
    decreases dims.len(),
{
    if dims.len() > 0 {
        let prefix = dims.drop_last();
        let d = dims.last();
        assert(forall|k: int| 0 <= k < prefix.len() ==> #[trigger] prefix[k] == dims[k]);
        lemma_filled_product(prefix, q);
        let filled = fill_unknown_dims(dims, q);
        assert(filled.drop_last() =~= fill_unknown_dims(prefix, q));
        assert(i64_ints(filled).drop_last() =~= i64_ints(filled.drop_last()));
        let pp = checked_known_product(prefix)->0;
        let z = if unknown_dim_count(prefix) == 0 {
            1int
        } else {
            q
        };
        let fp = product(i64_ints(fill_unknown_dims(prefix, q)));
        assert(fp == pp * z);
        if d > 0 {
            assert(i64_ints(filled).last() == d as int);
            assert(fp * d == (pp * d) * z) by (nonlinear_arith)
                requires
                    fp == pp * z,
            ;
        } else {
            assert(d == 0);
            assert(i64_ints(filled).last() == q);
            assert(unknown_dim_count(prefix) == 0);
            assert(fp * q == pp * q) by (nonlinear_arith)
                requires
                    fp == pp * 1,
            ;
        }
    }
}

/// A shape completed for `value_count` values holds exactly that many:
/// the product of its dimensions is the value count.
pub proof fn law_resolved_dims_hold_all_values(dims: Seq<i64>, value_count: nat)
    requires
        forall|k: int| 0 <= k < dims.len() ==> #[trigger] dims[k] >= 0,
        infers_unknown_dim(dims, value_count),
        checked_known_product(dims) is Some,
        (value_count as int) % checked_known_product(dims)->0 == 0,
        (value_count as int) / checked_known_product(dims)->0 <= i64::MAX,
    ensures
        product(
            i64_ints(fill_unknown_dims(dims, (value_count as int) / checked_known_product(dims)->0)),
        ) == value_count as int,
{
    let p = checked_known_product(dims)->0;
    lemma_known_product_positive(dims);
    let q = (value_count as int) / p;
    lemma_filled_product(dims, q);
    let v = value_count as int;
    assert(p * q == v) by (nonlinear_arith)
        requires
            p >= 1,
            v % p == 0,
            q == v / p,
    ;
}

/// The contract violation for a projected scalar of `name` that no
/// assignment produced.
pub fn projected_scalar_slot_contract_error(name: &str, flat_index: usize, span: Span) -> (e:
    LowerError)
    ensures
        spec_contract_error(
            e,
            "projected scalar selection for `"@ + name@ + "` flat index "@ + decimal(
                flat_index as nat,
            ) + " is missing"@,
            span,
        ),
{
    let mut reason = String::from_str("projected scalar selection for `");
    reason.append(name);
    reason.append("` flat index ");
    let digits = usize_to_decimal(flat_index);
    reason.append(digits.as_str());
    reason.append(" is missing");
    contract_violation(reason, span)
}

/// The error for an if-statement that assigns `name` in some branches
/// while `name` has no value to fall back on.
pub fn guarded_assignment_without_base(name: &str, span: Span) -> (e: LowerError)
    ensures
        e.spec_reason() == "if-statement assignment to `"@ + name@
            + "` requires an existing binding or an else assignment"@,
        e.spec_source_span() == spec_fallback_location(span),
{
    let mut reason = String::from_str("if-statement assignment to `");
    reason.append(name);
    reason.append("` requires an existing binding or an else assignment");
    unsupported_at(reason, span)
}

} // verus!
