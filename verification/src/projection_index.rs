use vstd::prelude::*;

use crate::capacity::{spec_capacity_error, vec_with_capacity};
use crate::dims::{
    checked_product, i64_ints, lemma_checked_product_bounds, lemma_checked_product_none_extends,
    usize_ints,
};
use crate::error::LowerError;
use crate::shape::{checked_flat, lemma_checked_flat_err_extends, row_major_indices};
use crate::span::Span;

verus! {

/// How a function-output projection subscript list is normalized against
/// the output's declared shape: scalar outputs take no subscripts, an
/// empty list selects the whole output, shapes with unknown (negative)
/// dimensions keep one-based subscripts as given, a single subscript of a
/// vector is kept when in range, and a full subscript tuple becomes the
/// one-based row-major position of the element.
pub open spec fn spec_normalized_projection(dims: Seq<i64>, raw: Seq<usize>) -> Option<Seq<int>> {
    if dims.len() == 0 {
        if raw.len() == 0 {
            Some(Seq::empty())
        } else {
            None
        }
    } else if raw.len() == 0 {
        Some(Seq::empty())
    } else if exists|i: int| 0 <= i < dims.len() && dims[i] < 0 {
        if forall|i: int| 0 <= i < raw.len() ==> raw[i] >= 1 {
            Some(usize_ints(raw))
        } else {
            None
        }
    } else {
        match checked_product(i64_ints(dims)) {
            None => None,
            Some(total) => if raw.len() == 1 && dims.len() == 1 {
                if 1 <= raw[0] <= total {
                    Some(usize_ints(raw))
                } else {
                    None
                }
            } else if raw.len() != dims.len() {
                None
            } else {
                match checked_flat(i64_ints(dims), usize_ints(raw)) {
                    Ok(f) => if f + 1 <= usize::MAX {
                        Some(seq![f + 1])
                    } else {
                        None
                    },
                    Err(_) => None,
                }
            },
        }
    }
}

/// The scope subscripts under which an inlined function body stored the
/// projected element: the raw subscripts, except that a single linear
/// position into a multi-dimensional output of known shape is expanded to
/// the row-major subscript tuple.
pub open spec fn spec_scope_indices(
    dims: Seq<i64>,
    raw: Seq<usize>,
    normalized: Seq<usize>,
) -> Option<Seq<int>> {
    if dims.len() == 0 || raw.len() == dims.len() || normalized.len() == 0 || exists|i: int|
        0 <= i < dims.len() && dims[i] <= 0 {
        Some(usize_ints(raw))
    } else if normalized[0] == 0 {
        None
    } else if exists|i: int| 0 <= i < dims.len() && dims[i] > usize::MAX {
        None
    } else {
        Some(row_major_indices(i64_ints(dims), normalized[0] - 1))
    }
}

/// A copy of projection subscripts.
pub fn copy_projection_indices(raw_indices: &[usize], span: Span) -> (r: Result<
    Vec<usize>,
    LowerError,
>)
    ensures
        match r {
            Ok(v) => v@ == raw_indices@,
            Err(e) => spec_capacity_error(e, "function projection index count"@, span),
        },
{
    let mut indices: Vec<usize> = vec_with_capacity(
        raw_indices.len(),
        "function projection index count",
        span,
    )?;
    let mut i: usize = 0;
    while i < raw_indices.len()
        invariant
            i <= raw_indices.len(),
            indices@ == raw_indices@.take(i as int),
        decreases raw_indices.len() - i,
    {
        indices.push(raw_indices[i]);
        proof {
            assert(raw_indices@.take(i + 1) =~= raw_indices@.take(i as int).push(
                raw_indices@[i as int],
            ));
        }
        i = i + 1;
    }
    proof {
        assert(raw_indices@.take(raw_indices.len() as int) =~= raw_indices@);
    }
    Ok(indices)
}

/// Subscripts of an output whose shape is only known at run time: kept as
/// given when all are one-based.
pub fn normalize_dynamic_projection_indices(raw_indices: &[usize], span: Span) -> (r: Result<
    Option<Vec<usize>>,
    LowerError,
>)
    ensures
        match r {
            Ok(Some(v)) => v@ == raw_indices@ && forall|i: int|
                0 <= i < raw_indices@.len() ==> raw_indices@[i] >= 1,
            Ok(None) => exists|i: int| 0 <= i < raw_indices@.len() && raw_indices@[i] == 0,
            Err(e) => spec_capacity_error(e, "function projection index count"@, span),
        },
{
    if raw_indices.len() == 0 {
        return Ok(Some(Vec::new()));
    }
    let mut i: usize = 0;
    while i < raw_indices.len()
        invariant
            i <= raw_indices.len(),
            forall|j: int| 0 <= j < i ==> raw_indices@[j] >= 1,
        decreases raw_indices.len() - i,
    {
        if raw_indices[i] == 0 {
            return Ok(None);
        }
        i = i + 1;
    }
    Ok(Some(copy_projection_indices(raw_indices, span)?))
}

/// First index of a negative dimension, if any.
fn first_negative(dims: &[i64]) -> (r: Option<usize>)
    ensures
        match r {
            Some(i) => i < dims@.len() && dims@[i as int] < 0,
            None => forall|i: int| 0 <= i < dims@.len() ==> dims@[i] >= 0,
        },
{
    let mut i: usize = 0;
    while i < dims.len()
        invariant
            i <= dims.len(),
            forall|j: int| 0 <= j < i ==> dims@[j] >= 0,
        decreases dims.len() - i,
    {
        if dims[i] < 0 {
            return Some(i);
        }
        i = i + 1;
    }
    None
}

/// The element count of a shape without negative dimensions, when every
/// dimension and partial product fits `usize`.
fn checked_i64_dim_product(dims: &[i64]) -> (r: Option<usize>)
    requires
        forall|i: int| 0 <= i < dims@.len() ==> dims@[i] >= 0,
    ensures
        match r {
            Some(p) => checked_product(i64_ints(dims@)) == Some(p as int),
            None => checked_product(i64_ints(dims@)) is None,
        },
{
    let ghost d = i64_ints(dims@);
    let mut total: usize = 1;
    let mut i: usize = 0;
    while i < dims.len()
        invariant
            i <= dims.len(),
            d == i64_ints(dims@),
            forall|j: int| 0 <= j < dims@.len() ==> dims@[j] >= 0,
            checked_product(d.take(i as int)) == Some(total as int),
        decreases dims.len() - i,
    {
        proof {
            assert(d.take(i + 1).drop_last() =~= d.take(i as int));
            assert(d.take(i + 1).last() == dims@[i as int] as int);
        }
        let dim = dims[i];
        if dim as u64 > usize::MAX as u64 {
            proof {
                lemma_checked_product_none_extends(d, i + 1);
            }
            return None;
        }
        match total.checked_mul(dim as usize) {
            Some(next) => {
                total = next;
            },
            None => {
                proof {
                    lemma_checked_product_none_extends(d, i + 1);
                }
                return None;
            },
        }
        i = i + 1;
    }
    proof {
        assert(d.take(dims.len() as int) =~= d);
    }
    Some(total)
}

/// Checked row-major flattening over a shape without negative dimensions.
fn checked_flat_i64(dims: &[i64], indices: &[usize]) -> (r: Option<usize>)
    requires
        dims@.len() == indices@.len(),
        forall|i: int| 0 <= i < dims@.len() ==> 0 <= #[trigger] dims@[i] <= usize::MAX,
    ensures
        match r {
            Some(f) => checked_flat(i64_ints(dims@), usize_ints(indices@)) == Ok::<int, bool>(
                f as int,
            ),
            None => checked_flat(i64_ints(dims@), usize_ints(indices@)) is Err,
        },
{
    let ghost d = i64_ints(dims@);
    let ghost ix = usize_ints(indices@);
    let mut flat: usize = 0;
    let mut i: usize = 0;
    while i < dims.len()
        invariant
            i <= dims.len(),
            dims@.len() == indices@.len(),
            d == i64_ints(dims@),
            ix == usize_ints(indices@),
            forall|j: int| 0 <= j < dims@.len() ==> 0 <= #[trigger] dims@[j] <= usize::MAX,
            checked_flat(d.take(i as int), ix.take(i as int)) == Ok::<int, bool>(flat as int),
        decreases dims.len() - i,
    {
        proof {
            assert(d.take(i + 1).drop_last() =~= d.take(i as int));
            assert(ix.take(i + 1).drop_last() =~= ix.take(i as int));
            assert(d.take(i + 1).last() == dims@[i as int] as int);
            assert(ix.take(i + 1).last() == indices@[i as int] as int);
        }
        let dim = dims[i];
        let index = indices[i];
        if index == 0 || index as u64 > dim as u64 {
            proof {
                lemma_checked_flat_err_extends(d, ix, i + 1);
            }
            return None;
        }
        let dim_usize = dim as usize;
        let next = match flat.checked_mul(dim_usize) {
            Some(scaled) => scaled.checked_add(index - 1),
            None => None,
        };
        match next {
            Some(v) => {
                flat = v;
            },
            None => {
                proof {
                    assert(flat * dim_usize + (index - 1) > usize::MAX) by (nonlinear_arith)
                        requires
                            flat * dim_usize > usize::MAX || flat * dim_usize + (index - 1)
                                > usize::MAX,
                            index >= 1,
                    ;
                    lemma_checked_flat_err_extends(d, ix, i + 1);
                }
                return None;
            },
        }
        i = i + 1;
    }
    proof {
        assert(d.take(dims.len() as int) =~= d);
        assert(ix.take(dims.len() as int) =~= ix);
    }
    Some(flat)
}

/// Normalize a projection subscript list against the declared output
/// shape (see `spec_normalized_projection`); `None` declines the
/// projection.
pub fn normalize_projection_indices(output_dims: &[i64], raw_indices: &[usize], span: Span) -> (r:
    Result<Option<Vec<usize>>, LowerError>)
    ensures
        match r {
            Ok(Some(v)) => spec_normalized_projection(output_dims@, raw_indices@) == Some(
                usize_ints(v@),
            ),
            Ok(None) => spec_normalized_projection(output_dims@, raw_indices@) is None,
            Err(e) => spec_capacity_error(e, "function projection index count"@, span)
                || spec_capacity_error(e, "function projection flat index"@, span),
        },
{
    if output_dims.len() == 0 {
        if raw_indices.len() == 0 {
            proof {
                assert(usize_ints(Seq::<usize>::empty()) =~= Seq::<int>::empty());
            }
            return Ok(Some(Vec::new()));
        }
        return Ok(None);
    }
    if raw_indices.len() == 0 {
        proof {
            assert(usize_ints(Seq::<usize>::empty()) =~= Seq::<int>::empty());
        }
        return Ok(Some(Vec::new()));
    }
    if let Some(neg) = first_negative(output_dims) {
        proof {
            assert(output_dims@[neg as int] < 0);
        }
        let mut i: usize = 0;
        while i < raw_indices.len()
            invariant
                i <= raw_indices.len(),
                forall|j: int| 0 <= j < i ==> raw_indices@[j] >= 1,
                output_dims@.len() > 0,
                raw_indices@.len() > 0,
                neg < output_dims@.len(),
                output_dims@[neg as int] < 0,
            decreases raw_indices.len() - i,
        {
            if raw_indices[i] == 0 {
                return Ok(None);
            }
            i = i + 1;
        }
        return Ok(Some(copy_projection_indices(raw_indices, span)?));
    }
    let total = match checked_i64_dim_product(output_dims) {
        Some(total) => {
            proof {
                lemma_checked_product_bounds(i64_ints(output_dims@));
                assert forall|i: int| 0 <= i < output_dims@.len() implies 0 <= #[trigger] output_dims@[i]
                    <= usize::MAX by {
                    assert(i64_ints(output_dims@)[i] == output_dims@[i] as int);
                }
            }
            total
        },
        None => {
            return Ok(None);
        },
    };
    if raw_indices.len() == 1 && output_dims.len() == 1 {
        let index = raw_indices[0];
        if index >= 1 && index <= total {
            return Ok(Some(copy_projection_indices(raw_indices, span)?));
        }
        return Ok(None);
    }
    if raw_indices.len() != output_dims.len() {
        return Ok(None);
    }
    let flat = match checked_flat_i64(output_dims, raw_indices) {
        Some(flat) => flat,
        None => {
            return Ok(None);
        },
    };
    if flat == usize::MAX {
        return Ok(None);
    }
    let mut indices: Vec<usize> = vec_with_capacity(1, "function projection flat index", span)?;
    indices.push(flat + 1);
    proof {
        assert(usize_ints(indices@) =~= seq![flat + 1]);
    }
    Ok(Some(indices))
}

/// The scope subscripts of a projected element (see `spec_scope_indices`);
/// `None` declines the projection.
pub fn scope_indices_for_projection(
    output_dims: &[i64],
    raw_indices: &[usize],
    normalized_indices: &[usize],
    span: Span,
) -> (r: Result<Option<Vec<usize>>, LowerError>)
    ensures
        match r {
            Ok(Some(v)) => spec_scope_indices(output_dims@, raw_indices@, normalized_indices@)
                == Some(usize_ints(v@)),
            Ok(None) => spec_scope_indices(output_dims@, raw_indices@, normalized_indices@) is None,
            Err(e) => spec_capacity_error(e, "function projection index count"@, span)
                || spec_capacity_error(e, "function projection scope index count"@, span),
        },
{
    if output_dims.len() == 0 || raw_indices.len() == output_dims.len() || normalized_indices.len()
        == 0 {
        return Ok(Some(copy_projection_indices(raw_indices, span)?));
    }
    let mut k: usize = 0;
    while k < output_dims.len()
        invariant
            k <= output_dims.len(),
            forall|j: int| 0 <= j < k ==> output_dims@[j] > 0,
        decreases output_dims.len() - k,
    {
        if output_dims[k] <= 0 {
            return Ok(Some(copy_projection_indices(raw_indices, span)?));
        }
        k = k + 1;
    }
    proof {
        assert(!(exists|i: int| 0 <= i < output_dims@.len() && output_dims@[i] <= 0));
    }
    let linear_index = normalized_indices[0];
    if linear_index == 0 {
        return Ok(None);
    }
    let n = output_dims.len();
    let mut indices: Vec<usize> = vec_with_capacity(n, "function projection scope index count", span)?;
    let mut j: usize = 0;
    while j < n
        invariant
            j <= n,
            indices@.len() == j,
        decreases n - j,
    {
        indices.push(1);
        j = j + 1;
    }
    let ghost d = i64_ints(output_dims@);
    let ghost f = linear_index - 1;
    let mut remainder: usize = linear_index - 1;
    let mut pos: usize = n;
    proof {
        assert(d.take(n as int) =~= d);
        assert(usize_ints(indices@).subrange(n as int, n as int) =~= Seq::<int>::empty());
        assert(row_major_indices(d, f) =~= row_major_indices(d.take(n as int), f)
            + Seq::<int>::empty());
    }
    while pos > 0
        invariant
            pos <= n,
            n == output_dims.len(),
            d == i64_ints(output_dims@),
            indices@.len() == n,
            forall|t: int| 0 <= t < n ==> output_dims@[t] > 0,
            forall|t: int| pos <= t < n ==> output_dims@[t] <= usize::MAX,
            n > 0,
            raw_indices@.len() != n,
            normalized_indices@.len() > 0,
            normalized_indices@[0] == linear_index,
            linear_index >= 1,
            f == linear_index - 1,
            row_major_indices(d, f) == row_major_indices(d.take(pos as int), remainder as int)
                + usize_ints(indices@).subrange(pos as int, n as int),
        decreases pos,
    {
        let dim_idx = pos - 1;
        let dim_i64 = output_dims[dim_idx];
        if dim_i64 as u64 > usize::MAX as u64 {
            proof {
                assert(output_dims@[dim_idx as int] > usize::MAX);
            }
            return Ok(None);
        }
        let dim = dim_i64 as usize;
        proof {
            assert(d[dim_idx as int] == dim as int);
            assert(d.take(pos as int).drop_last() =~= d.take(dim_idx as int));
            assert(d.take(pos as int).last() == dim as int);
        }
        let ghost old_indices = indices@;
        let ghost old_rem = remainder;
        indices.set(dim_idx, remainder % dim + 1);
        remainder = remainder / dim;
        proof {
            let tail_old = usize_ints(old_indices).subrange(pos as int, n as int);
            let tail_new = usize_ints(indices@).subrange(dim_idx as int, n as int);
            assert(tail_new =~= seq![(old_rem % dim + 1) as int] + tail_old);
            let pre = row_major_indices(d.take(dim_idx as int), remainder as int);
            assert(row_major_indices(d.take(pos as int), old_rem as int) =~= pre.push(
                (old_rem % dim + 1) as int,
            ));
            assert(pre.push((old_rem % dim + 1) as int) + tail_old =~= pre + tail_new);
        }
        pos = dim_idx;
    }
    proof {
        assert(d.take(0) =~= Seq::<int>::empty());
        assert(usize_ints(indices@).subrange(0, n as int) =~= usize_ints(indices@));
        assert(row_major_indices(d, f) =~= usize_ints(indices@));
    }
    Ok(Some(indices))
}

} // verus!
