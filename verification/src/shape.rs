use vstd::prelude::*;

use vstd::arithmetic::div_mod::{
    lemma_div_pos_is_pos, lemma_fundamental_div_mod, lemma_fundamental_div_mod_converse_div,
    lemma_fundamental_div_mod_converse_mod,
};

use crate::capacity::{spec_capacity_error, spec_contract_error, vec_with_capacity};
use crate::dims::{
    checked_product, i64_ints, lemma_checked_product_is_product, lemma_checked_product_none_extends,
    product, usize_ints,
};
use crate::error::{contract_violation, unsupported_at, LowerError};
use crate::span::Span;

verus! {

/// One-based row-major indices of position `flat` in a box of shape `dims`
/// (the last dimension varies fastest).
pub open spec fn row_major_indices(dims: Seq<int>, flat: int) -> Seq<int>
    decreases dims.len(),
{
    if dims.len() == 0 {
        Seq::empty()
    } else {
        row_major_indices(dims.drop_last(), flat / dims.last()).push(flat % dims.last() + 1)
    }
}

/// Row-major position of one-based `indices` in a box of shape `dims`.
pub open spec fn row_major_flat(dims: Seq<int>, indices: Seq<int>) -> int
    decreases dims.len(),
{
    if dims.len() == 0 {
        0
    } else {
        row_major_flat(dims.drop_last(), indices.drop_last()) * dims.last() + (indices.last() - 1)
    }
}

/// One-based `indices` address an element of a box of shape `dims`.
pub open spec fn in_box(dims: Seq<int>, indices: Seq<int>) -> bool {
    &&& indices.len() == dims.len()
    &&& forall|i: int| 0 <= i < dims.len() ==> 1 <= #[trigger] indices[i] <= dims[i]
}

pub open spec fn all_positive(dims: Seq<int>) -> bool {
    forall|i: int| 0 <= i < dims.len() ==> dims[i] >= 1
}

/// Unflattening a position inside the box gives in-box indices that
/// flatten back to the position.
pub proof fn lemma_row_major_roundtrip(dims: Seq<int>, flat: int)
    requires
        all_positive(dims),
        0 <= flat < product(dims),
    ensures
        in_box(dims, row_major_indices(dims, flat)),
        row_major_flat(dims, row_major_indices(dims, flat)) == flat,
    decreases dims.len(),
{
    if dims.len() > 0 {
        let prefix = dims.drop_last();
        let d = dims.last();
        let q = flat / d;
        let p = product(prefix);
        lemma_fundamental_div_mod(flat, d);
        lemma_div_pos_is_pos(flat, d);
        assert(q < p) by (nonlinear_arith)
            requires
                flat == d * q + flat % d,
                0 <= flat % d,
                flat < p * d,
                d >= 1,
        ;
        assert forall|i: int| 0 <= i < prefix.len() implies prefix[i] >= 1 by {
            assert(prefix[i] == dims[i]);
        }
        lemma_row_major_roundtrip(prefix, q);
        let r = row_major_indices(dims, flat);
        assert(r.drop_last() =~= row_major_indices(prefix, q));
        assert(q * d == d * q) by (nonlinear_arith);
    }
}

/// Flattening in-box indices gives a position inside the box from which
/// unflattening recovers the indices.
pub proof fn lemma_row_major_flat_roundtrip(dims: Seq<int>, indices: Seq<int>)
    requires
        in_box(dims, indices),
    ensures
        0 <= row_major_flat(dims, indices) < product(dims),
        row_major_indices(dims, row_major_flat(dims, indices)) == indices,
    decreases dims.len(),
{
    if dims.len() > 0 {
        let prefix = dims.drop_last();
        let iprefix = indices.drop_last();
        let d = dims.last();
        let i = indices.last();
        assert(i == indices[dims.len() - 1]);
        assert(in_box(prefix, iprefix)) by {
            assert forall|k: int| 0 <= k < prefix.len() implies 1 <= #[trigger] iprefix[k]
                <= prefix[k] by {
                assert(iprefix[k] == indices[k]);
                assert(prefix[k] == dims[k]);
            }
        }
        lemma_row_major_flat_roundtrip(prefix, iprefix);
        let q = row_major_flat(prefix, iprefix);
        let p = product(prefix);
        let f = q * d + (i - 1);
        assert(0 <= f < p * d) by (nonlinear_arith)
            requires
                0 <= q < p,
                1 <= i <= d,
                f == q * d + (i - 1),
        ;
        lemma_fundamental_div_mod_converse_div(f, d, q, i - 1);
        lemma_fundamental_div_mod_converse_mod(f, d, q, i - 1);
        assert(row_major_indices(dims, f) =~= indices);
    }
}

/// One-based row-major indices of the element at zero-based position
/// `flat_index` of an array declared with `dims`. A shape with an unknown
/// (negative) dimension addresses elements by a single one-based index;
/// a shape whose element count leaves `usize`, or a position beyond the
/// element count, gives `None`.
pub fn projection_indices_for_dims(dims: &[i64], flat_index: usize) -> (r: Option<Vec<usize>>)
    ensures
        dims@.len() == 0 ==> (r matches Some(v) && v@.len() == 0),
        dims@.len() > 0 && (exists|i: int| 0 <= i < dims@.len() && dims@[i] < 0) ==> match r {
            Some(v) => flat_index < usize::MAX && v@ == seq![(flat_index + 1) as usize],
            None => flat_index == usize::MAX,
        },
        dims@.len() > 0 && (forall|i: int| 0 <= i < dims@.len() ==> dims@[i] >= 0) ==> match r {
            Some(v) => checked_product(i64_ints(dims@)) matches Some(total) && flat_index < total
                && usize_ints(v@) == row_major_indices(i64_ints(dims@), flat_index as int),
            None => match checked_product(i64_ints(dims@)) {
                Some(total) => flat_index >= total,
                None => true,
            },
        },
{
    if dims.len() == 0 {
        return Some(Vec::new());
    }
    let mut k: usize = 0;
    while k < dims.len()
        invariant
            k <= dims.len(),
            forall|i: int| 0 <= i < k ==> dims@[i] >= 0,
        decreases dims.len() - k,
    {
        if dims[k] < 0 {
            if flat_index == usize::MAX {
                return None;
            }
            let mut single: Vec<usize> = Vec::new();
            single.push(flat_index + 1);
            return Some(single);
        }
        k = k + 1;
    }
    let ghost d = i64_ints(dims@);
    let mut total: usize = 1;
    let mut i: usize = 0;
    while i < dims.len()
        invariant
            i <= dims.len(),
            d == i64_ints(dims@),
            forall|j: int| 0 <= j < dims@.len() ==> dims@[j] >= 0,
            checked_product(d.take(i as int)) == Some(total as int),
        decreases dims.len() - i,
    {
        proof {
            assert(d.take(i + 1).drop_last() =~= d.take(i as int));
            assert(d.take(i + 1).last() == dims@[i as int] as int);
        }
        let dim = dims[i];
        if dim as u64 > usize::MAX as u64 {
            proof {
                lemma_checked_product_none_extends(d, i + 1);
            }
            return None;
        }
        match total.checked_mul(dim as usize) {
            Some(next) => {
                total = next;
            },
            None => {
                proof {
                    lemma_checked_product_none_extends(d, i + 1);
                }
                return None;
            },
        }
        i = i + 1;
    }
    proof {
        assert(d.take(dims.len() as int) =~= d);
    }
    if flat_index >= total {
        return None;
    }
    proof {
        lemma_checked_product_is_product(d);
        lemma_product_positive_dims(d);
    }
    let n = dims.len();
    let mut indices: Vec<usize> = Vec::new();
    let mut j: usize = 0;
    while j < n
        invariant
            j <= n,
            n == dims.len(),
            indices@.len() == j,
            forall|t: int| 0 <= t < j ==> indices@[t] == 1,
        decreases n - j,
    {
        indices.push(1);
        j = j + 1;
    }
    let mut remainder: usize = flat_index;
    let mut pos: usize = n;
    while pos > 0
        invariant
            pos <= n,
            n == dims.len(),
            d == i64_ints(dims@),
            indices@.len() == n,
            all_positive(d),
            forall|t: int| 0 <= t < n ==> d[t] <= usize::MAX,
            row_major_indices(d, flat_index as int) == row_major_indices(
                d.take(pos as int),
                remainder as int,
            ) + usize_ints(indices@).subrange(pos as int, n as int),
        decreases pos,
    {
        let dim_idx = pos - 1;
        let dim = dims[dim_idx] as usize;
        proof {
            assert(d[dim_idx as int] == dim as int);
            assert(d.take(pos as int).drop_last() =~= d.take(dim_idx as int));
            assert(d.take(pos as int).last() == dim as int);
        }
        let ghost old_indices = indices@;
        let ghost old_rem = remainder;
        indices.set(dim_idx, remainder % dim + 1);
        remainder = remainder / dim;
        proof {
            let tail_old = usize_ints(old_indices).subrange(pos as int, n as int);
            let tail_new = usize_ints(indices@).subrange(dim_idx as int, n as int);
            assert(tail_new =~= seq![(old_rem % dim + 1) as int] + tail_old);
            let pre = row_major_indices(d.take(dim_idx as int), remainder as int);
            assert(row_major_indices(d.take(pos as int), old_rem as int) =~= pre.push(
                (old_rem % dim + 1) as int,
            ));
            assert(pre.push((old_rem % dim + 1) as int) + tail_old =~= pre + tail_new);
        }
        pos = dim_idx;
    }
    proof {
        assert(d.take(0) =~= Seq::<int>::empty());
        assert(usize_ints(indices@).subrange(0, n as int) =~= usize_ints(indices@));
        assert(row_major_indices(d, flat_index as int) =~= usize_ints(indices@));
    }
    Some(indices)
}

/// A shape whose product is positive has only positive dimensions, each
/// at most the product.
pub proof fn lemma_product_positive_dims(d: Seq<int>)
    requires
        forall|j: int| 0 <= j < d.len() ==> d[j] >= 0,
        product(d) >= 1,
    ensures
        all_positive(d),
        forall|j: int| 0 <= j < d.len() ==> d[j] <= product(d),
    decreases d.len(),
{
    if d.len() > 0 {
        let prefix = d.drop_last();
        let p = product(prefix);
        let l = d.last();
        assert(p >= 1 && l >= 1) by (nonlinear_arith)
            requires
                p * l >= 1,
                l >= 0,
                p >= 0 || p < 0,
                p * l == product(d),
        {
            if p <= 0 {
                assert(p * l <= 0);
            }
            if l == 0 {
                assert(p * l == 0);
            }
        }
        assert(product(prefix) >= 0) by {
            lemma_product_nonneg(prefix);
        }
        lemma_product_positive_dims(prefix);
        assert forall|j: int| 0 <= j < d.len() implies d[j] >= 1 && d[j] <= product(d) by {
            if j < d.len() - 1 {
                assert(d[j] == prefix[j]);
                assert(p * l >= p) by (nonlinear_arith)
                    requires
                        p >= 1,
                        l >= 1,
                ;
            } else {
                assert(p * l >= l) by (nonlinear_arith)
                    requires
                        p >= 1,
                        l >= 1,
                ;
            }
        }
    }
}

pub proof fn lemma_product_nonneg(d: Seq<int>)
    requires
        forall|j: int| 0 <= j < d.len() ==> d[j] >= 0,
    ensures
        product(d) >= 0,
    decreases d.len(),
{
    if d.len() > 0 {
        lemma_product_nonneg(d.drop_last());
        let p = product(d.drop_last());
        let l = d.last();
        assert(p * l >= 0) by (nonlinear_arith)
            requires
                p >= 0,
                l >= 0,
        ;
    }
}


/// Left-to-right checked flattening of one-based `indices`: `Err(true)` at
/// the first index outside its dimension, `Err(false)` when a partial
/// position leaves the `usize` range.
pub open spec fn checked_flat(dims: Seq<int>, indices: Seq<int>) -> Result<int, bool>
    decreases dims.len(),
{
    if dims.len() == 0 {
        Ok(0)
    } else {
        match checked_flat(dims.drop_last(), indices.drop_last()) {
            Err(e) => Err(e),
            Ok(f) => if indices.last() < 1 || indices.last() > dims.last() {
                Err(true)
            } else if f * dims.last() + (indices.last() - 1) > usize::MAX {
                Err(false)
            } else {
                Ok(f * dims.last() + (indices.last() - 1))
            },
        }
    }
}

/// A successful checked flattening addresses an element and is the
/// row-major position.
pub proof fn lemma_checked_flat_ok(dims: Seq<int>, indices: Seq<int>)
    requires
        indices.len() == dims.len(),
        checked_flat(dims, indices) is Ok,
    ensures
        in_box(dims, indices),
        checked_flat(dims, indices) == Ok::<int, bool>(row_major_flat(dims, indices)),
    decreases dims.len(),
{
    if dims.len() > 0 {
        let prefix = dims.drop_last();
        let ip = indices.drop_last();
        lemma_checked_flat_ok(prefix, ip);
        assert forall|k: int| 0 <= k < dims.len() implies 1 <= #[trigger] indices[k] <= dims[k] by {
            if k < dims.len() - 1 {
                assert(ip[k] == indices[k]);
                assert(prefix[k] == dims[k]);
            }
        }
    }
}

/// In-box indices of a box whose element count fits `usize` flatten
/// without failure.
pub proof fn lemma_checked_flat_in_box(dims: Seq<int>, indices: Seq<int>)
    requires
        in_box(dims, indices),
        product(dims) <= usize::MAX,
    ensures
        checked_flat(dims, indices) == Ok::<int, bool>(row_major_flat(dims, indices)),
    decreases dims.len(),
{
    if dims.len() > 0 {
        let prefix = dims.drop_last();
        let ip = indices.drop_last();
        assert(in_box(prefix, ip)) by {
            assert forall|k: int| 0 <= k < prefix.len() implies 1 <= #[trigger] ip[k]
                <= prefix[k] by {
                assert(ip[k] == indices[k]);
                assert(prefix[k] == dims[k]);
            }
        }
        let d = dims.last();
        assert(d == dims[dims.len() - 1]);
        assert(indices.last() == indices[dims.len() - 1]);
        lemma_row_major_flat_roundtrip(prefix, ip);
        let p = product(prefix);
        assert(p * d >= p) by (nonlinear_arith)
            requires
                p >= 1,
                d >= 1,
        ;
        lemma_checked_flat_in_box(prefix, ip);
        let q = row_major_flat(prefix, ip);
        assert(q * d + (indices.last() - 1) < p * d) by (nonlinear_arith)
            requires
                0 <= q < p,
                1 <= indices.last() <= d,
        ;
    }
}

/// The zero-based row-major position of one-based `indices` in a box of
/// shape `dims`.
pub fn flat_index_from_one_based_indices(dims: &[usize], indices: &[usize], span: Span) -> (r:
    Result<usize, LowerError>)
    ensures
        match r {
            Ok(v) => in_box(usize_ints(dims@), usize_ints(indices@)) && v == row_major_flat(
                usize_ints(dims@),
                usize_ints(indices@),
            ),
            Err(e) => if dims@.len() != indices@.len() {
                e.spec_reason() == "indexed expression projection rank does not match base rank"@
            } else {
                match checked_flat(usize_ints(dims@), usize_ints(indices@)) {
                    Err(true) => e.spec_reason()
                        == "indexed expression projection is outside base bounds"@,
                    Err(false) => spec_contract_error(
                        e,
                        "indexed expression flat index overflows host index range"@,
                        span,
                    ),
                    Ok(_) => false,
                }
            },
        },
{
    if dims.len() != indices.len() {
        return Err(
            unsupported_at(
                String::from_str("indexed expression projection rank does not match base rank"),
                span,
            ),
        );
    }
    let ghost d = usize_ints(dims@);
    let ghost ix = usize_ints(indices@);
    let mut flat: usize = 0;
    let mut i: usize = 0;
    while i < dims.len()
        invariant
            i <= dims.len(),
            dims.len() == indices.len(),
            d == usize_ints(dims@),
            ix == usize_ints(indices@),
            checked_flat(d.take(i as int), ix.take(i as int)) == Ok::<int, bool>(flat as int),
        decreases dims.len() - i,
    {
        proof {
            assert(d.take(i + 1).drop_last() =~= d.take(i as int));
            assert(ix.take(i + 1).drop_last() =~= ix.take(i as int));
            assert(d.take(i + 1).last() == dims@[i as int] as int);
            assert(ix.take(i + 1).last() == indices@[i as int] as int);
        }
        let dim = dims[i];
        let index = indices[i];
        if index == 0 || index > dim {
            proof {
                lemma_checked_flat_err_extends(d, ix, i + 1);
            }
            return Err(
                unsupported_at(
                    String::from_str("indexed expression projection is outside base bounds"),
                    span,
                ),
            );
        }
        let offset = index - 1;
        let next = match flat.checked_mul(dim) {
            Some(scaled) => scaled.checked_add(offset),
            None => None,
        };
        match next {
            Some(v) => {
                flat = v;
            },
            None => {
                proof {
                    assert(flat * dim + offset > usize::MAX) by (nonlinear_arith)
                        requires
                            flat * dim > usize::MAX || flat * dim + offset > usize::MAX,
                            offset >= 0,
                    ;
                    lemma_checked_flat_err_extends(d, ix, i + 1);
                }
                return Err(
                    contract_violation(
                        String::from_str(
                            "indexed expression flat index overflows host index range",
                        ),
                        span,
                    ),
                );
            },
        }
        i = i + 1;
    }
    proof {
        assert(d.take(dims.len() as int) =~= d);
        assert(ix.take(dims.len() as int) =~= ix);
        lemma_checked_flat_ok(d, ix);
    }
    Ok(flat)
}

/// Once a checked flattening of a prefix fails, the whole flattening fails
/// the same way.
pub proof fn lemma_checked_flat_err_extends(dims: Seq<int>, indices: Seq<int>, k: int)
    requires
        0 <= k <= dims.len(),
        dims.len() == indices.len(),
        checked_flat(dims.take(k), indices.take(k)) is Err,
    ensures
        checked_flat(dims, indices) == checked_flat(dims.take(k), indices.take(k)),
    decreases dims.len() - k,
{
    if k < dims.len() {
        assert(dims.take(k + 1).drop_last() =~= dims.take(k));
        assert(indices.take(k + 1).drop_last() =~= indices.take(k));
        lemma_checked_flat_err_extends(dims, indices, k + 1);
    } else {
        assert(dims.take(k) =~= dims);
        assert(indices.take(k) =~= indices);
    }
}

/// Flattening and unflattening are inverse on the elements of a box
/// whose element count fits `usize`: every zero-based position below the
/// element count unflattens to in-box indices that flatten back to it
/// without failure, and every in-box index tuple flattens to such a
/// position, from which unflattening recovers the tuple.
pub proof fn law_row_major_positions_roundtrip(dims: Seq<int>, flat: int, indices: Seq<int>)
    requires
        all_positive(dims),
        product(dims) <= usize::MAX,
    ensures
        0 <= flat < product(dims) ==> checked_flat(dims, row_major_indices(dims, flat)) == Ok::<
            int,
            bool,
        >(flat),
        in_box(dims, indices) ==> (checked_flat(dims, indices) matches Ok(f) && 0 <= f
            < product(dims) && row_major_indices(dims, f) == indices),
{
    if 0 <= flat < product(dims) {
        lemma_row_major_roundtrip(dims, flat);
        lemma_checked_flat_in_box(dims, row_major_indices(dims, flat));
    }
    if in_box(dims, indices) {
        lemma_row_major_flat_roundtrip(dims, indices);
        lemma_checked_flat_in_box(dims, indices);
    }
}

} // verus!
