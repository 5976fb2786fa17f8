use vstd::prelude::*;

use crate::capacity::{contract_error, spec_capacity_error, spec_contract_error, vec_with_capacity};
use crate::error::{contract_violation, LowerError};
use crate::span::Span;
use crate::text::{decimal, i64_to_decimal, signed_decimal, usize_to_decimal};

verus! {

pub open spec fn usize_ints(s: Seq<usize>) -> Seq<int> {
    s.map_values(|v: usize| v as int)
}

pub open spec fn i64_ints(s: Seq<i64>) -> Seq<int> {
    s.map_values(|v: i64| v as int)
}

/// The product of all values.
pub open spec fn product(s: Seq<int>) -> int
    decreases s.len(),
{
    if s.len() == 0 {
        1
    } else {
        product(s.drop_last()) * s.last()
    }
}

/// The product taken left to right with checked `usize` multiplication:
/// `None` as soon as a factor or a partial product leaves the `usize` range.
pub open spec fn checked_product(s: Seq<int>) -> Option<int>
    decreases s.len(),
{
    if s.len() == 0 {
        Some(1)
    } else {
        match checked_product(s.drop_last()) {
            Some(p) => if 0 <= s.last() <= usize::MAX && 0 <= p * s.last() <= usize::MAX {
                Some(p * s.last())
            } else {
                None
            },
            None => None,
        }
    }
}

/// The element count of a declared `i64` shape: the first dimension met
/// left to right that is negative or beyond `usize` (`Err(Some(dim))`), a partial product out of
/// `usize` range (`Err(None)`), or the count.
pub open spec fn checked_i64_count(dims: Seq<i64>) -> Result<int, Option<int>>
    decreases dims.len(),
{
    if dims.len() == 0 {
        Ok(1)
    } else {
        match checked_i64_count(dims.drop_last()) {
            Err(e) => Err(e),
            Ok(p) => if dims.last() < 0 || dims.last() > usize::MAX {
                Err(Some(dims.last() as int))
            } else if p * dims.last() > usize::MAX {
                Err(None)
            } else {
                Ok(p * dims.last())
            },
        }
    }
}

proof fn lemma_mul_nonneg(a: int, b: int)
    requires
        0 <= a,
        0 <= b,
    ensures
        0 <= a * b,
{
    assert(0 <= a * b) by (nonlinear_arith)
        requires
            0 <= a,
            0 <= b,
    ;
}

/// A checked product that succeeds is the product.
pub proof fn lemma_checked_product_is_product(s: Seq<int>)
    requires
        checked_product(s) is Some,
    ensures
        checked_product(s) == Some(product(s)),
    decreases s.len(),
{
    if s.len() > 0 {
        lemma_checked_product_is_product(s.drop_last());
    }
}

/// A checked product that succeeds has every factor in `usize` range.
pub proof fn lemma_checked_product_bounds(s: Seq<int>)
    requires
        checked_product(s) is Some,
    ensures
        forall|i: int| 0 <= i < s.len() ==> 0 <= #[trigger] s[i] <= usize::MAX,
    decreases s.len(),
{
    if s.len() > 0 {
        lemma_checked_product_bounds(s.drop_last());
        assert forall|i: int| 0 <= i < s.len() implies 0 <= #[trigger] s[i] <= usize::MAX by {
            if i < s.len() - 1 {
                assert(s[i] == s.drop_last()[i]);
            }
        }
    }
}

/// For positive dimensions the checked product fails exactly when the
/// product leaves the `usize` range.
pub proof fn lemma_checked_product_positive(s: Seq<int>)
    requires
        forall|i: int| 0 <= i < s.len() ==> s[i] >= 1,
    ensures
        product(s) >= 1,
        checked_product(s) == (if product(s) <= usize::MAX {
            Some(product(s))
        } else {
            None::<int>
        }),
    decreases s.len(),
{
    if s.len() > 0 {
        let prefix = s.drop_last();
        lemma_checked_product_positive(prefix);
        let p = product(prefix);
        let d = s.last();
        assert(p * d >= p && p * d >= d) by (nonlinear_arith)
            requires
                p >= 1,
                d >= 1,
        ;
    }
}

/// The product of the dimensions, when every partial product fits `usize`.
pub fn checked_dim_product(dims: &[usize]) -> (r: Option<usize>)
    ensures
        match r {
            Some(p) => checked_product(usize_ints(dims@)) == Some(p as int),
            None => checked_product(usize_ints(dims@)) is None,
        },
{
    let ghost all = usize_ints(dims@);
    let mut total: usize = 1;
    let mut i: usize = 0;
    while i < dims.len()
        invariant
            i <= dims.len(),
            all == usize_ints(dims@),
            checked_product(all.take(i as int)) == Some(total as int),
        decreases dims.len() - i,
    {
        proof {
            assert(all.take(i + 1).drop_last() =~= all.take(i as int));
            assert(all.take(i + 1).last() == dims@[i as int] as int);
            lemma_mul_nonneg(total as int, dims@[i as int] as int);
        }
        match total.checked_mul(dims[i]) {
            Some(next) => {
                total = next;
            },
            None => {
                proof {
                    assert(checked_product(all.take(i + 1)) is None);
                    lemma_checked_product_none_extends(all, i as int + 1);
                    assert(all.take(dims.len() as int) =~= all);
                }
                return None;
            },
        }
        i = i + 1;
    }
    proof {
        assert(all.take(dims.len() as int) =~= all);
    }
    Some(total)
}

/// Once a checked prefix product fails, every longer prefix fails.
pub proof fn lemma_checked_product_none_extends(s: Seq<int>, k: int)
    requires
        0 <= k <= s.len(),
        checked_product(s.take(k)) is None,
    ensures
        checked_product(s) is None,
    decreases s.len() - k,
{
    if k < s.len() {
        assert(s.take(k + 1).drop_last() =~= s.take(k));
        lemma_checked_product_none_extends(s, k + 1);
    } else {
        assert(s.take(k) =~= s);
    }
}

/// Once a checked `i64` count fails, every longer prefix fails the same way.
pub proof fn lemma_checked_i64_count_err_extends(s: Seq<i64>, k: int)
    requires
        0 <= k <= s.len(),
        checked_i64_count(s.take(k)) is Err,
    ensures
        checked_i64_count(s) == checked_i64_count(s.take(k)),
    decreases s.len() - k,
{
    if k < s.len() {
        assert(s.take(k + 1).drop_last() =~= s.take(k));
        lemma_checked_i64_count_err_extends(s, k + 1);
    } else {
        assert(s.take(k) =~= s);
    }
}

/// The element count of a `usize` shape, or a contract violation
/// `<context> scalar count overflows host index range`.
pub fn checked_usize_scalar_count(dims: &[usize], context: &str, span: Span) -> (r: Result<
    usize,
    LowerError,
>)
    ensures
        match r {
            Ok(n) => checked_product(usize_ints(dims@)) == Some(n as int),
            Err(e) => checked_product(usize_ints(dims@)) is None && spec_contract_error(
                e,
                context@ + " scalar count overflows host index range"@,
                span,
            ),
        },
{
    match checked_dim_product(dims) {
        Some(n) => Ok(n),
        None => Err(contract_error(context, " scalar count overflows host index range", span)),
    }
}

/// The element count of a declared `i64` shape (see `checked_i64_count`).
pub fn dims_scalar_count(dims: &[i64], context: &str, span: Span) -> (r: Result<
    usize,
    LowerError,
>)
    ensures
        match r {
            Ok(n) => checked_i64_count(dims@) == Ok::<int, Option<int>>(n as int),
            Err(e) => match checked_i64_count(dims@) {
                Err(Some(dim)) => spec_contract_error(
                    e,
                    context@ + " has negative dimension `"@ + signed_decimal(dim) + "`"@,
                    span,
                ),
                Err(None) => spec_contract_error(
                    e,
                    context@ + " dimension product overflows usize"@,
                    span,
                ),
                Ok(_) => false,
            },
        },
{
    let mut total: usize = 1;
    let mut i: usize = 0;
    while i < dims.len()
        invariant
            i <= dims.len(),
            checked_i64_count(dims@.take(i as int)) == Ok::<int, Option<int>>(total as int),
        decreases dims.len() - i,
    {
        proof {
            assert(dims@.take(i + 1).drop_last() =~= dims@.take(i as int));
            assert(dims@.take(i + 1).last() == dims@[i as int]);
        }
        let dim = dims[i];
        if dim < 0 || dim as u64 > usize::MAX as u64 {
            let mut reason = String::from_str(context);
            reason.append(" has negative dimension `");
            let digits = i64_to_decimal(dim);
            reason.append(digits.as_str());
            reason.append("`");
            proof {
                lemma_checked_i64_count_err_extends(dims@, i + 1);
            }
            return Err(contract_violation(reason, span));
        }
        proof {
            lemma_mul_nonneg(total as int, dim as int);
        }
        match total.checked_mul(dim as usize) {
            Some(next) => {
                total = next;
            },
            None => {
                proof {
                    lemma_checked_i64_count_err_extends(dims@, i + 1);
                }
                return Err(contract_error(context, " dimension product overflows usize", span));
            },
        }
        i = i + 1;
    }
    proof {
        assert(dims@.take(dims.len() as int) =~= dims@);
    }
    Ok(total)
}

/// `value` as an `i64`, or a contract violation `<context> <value> exceeds i64 range`.
pub fn checked_usize_to_i64(value: usize, context: &str, span: Span) -> (r: Result<
    i64,
    LowerError,
>)
    ensures
        match r {
            Ok(v) => v as int == value as int,
            Err(e) => value > i64::MAX && spec_contract_error(
                e,
                context@ + " "@ + decimal(value as nat) + " exceeds i64 range"@,
                span,
            ),
        },
{
    if value as u64 <= i64::MAX as u64 {
        Ok(value as i64)
    } else {
        let mut reason = String::from_str(context);
        reason.append(" ");
        let digits = usize_to_decimal(value);
        reason.append(digits.as_str());
        reason.append(" exceeds i64 range");
        Err(contract_violation(reason, span))
    }
}

/// Every dimension as an `i64`, or the error of the first one out of range.
pub fn checked_usize_dims_to_i64(dims: &[usize], context: &str, span: Span) -> (r: Result<
    Vec<i64>,
    LowerError,
>)
    ensures
        match r {
            Ok(v) => v@.len() == dims@.len() && forall|i: int|
                0 <= i < dims@.len() ==> v@[i] as int == dims@[i] as int,
            Err(e) => spec_capacity_error(e, context@, span) || exists|i: int|
                0 <= i < dims@.len() && dims@[i] > i64::MAX && (forall|j: int|
                    0 <= j < i ==> dims@[j] <= i64::MAX) && spec_contract_error(
                    e,
                    context@ + " "@ + decimal(dims@[i] as nat) + " exceeds i64 range"@,
                    span,
                ),
        },
{
    let mut converted: Vec<i64> = vec_with_capacity(dims.len(), context, span)?;
    let mut i: usize = 0;
    while i < dims.len()
        invariant
            i <= dims.len(),
            converted@.len() == i,
            forall|j: int| 0 <= j < i ==> converted@[j] as int == dims@[j] as int,
            forall|j: int| 0 <= j < i ==> dims@[j] <= i64::MAX,
        decreases dims.len() - i,
    {
        let v = checked_usize_to_i64(dims[i], context, span)?;
        converted.push(v);
        i = i + 1;
    }
    Ok(converted)
}

/// `base * stride + offset`, or the contract violation of the step that
/// overflows.
pub fn checked_projection_offset(
    base: usize,
    stride: usize,
    offset: usize,
    context: &str,
    span: Span,
) -> (r: Result<usize, LowerError>)
    ensures
        match r {
            Ok(v) => v == base * stride + offset,
            Err(e) => if base * stride > usize::MAX {
                spec_contract_error(
                    e,
                    context@ + " multiplication overflows host index range"@,
                    span,
                )
            } else {
                base * stride + offset > usize::MAX && spec_contract_error(
                    e,
                    context@ + " addition overflows host index range"@,
                    span,
                )
            },
        },
{
    let scaled = match base.checked_mul(stride) {
        Some(v) => v,
        None => {
            return Err(
                contract_error(context, " multiplication overflows host index range", span),
            );
        },
    };
    match scaled.checked_add(offset) {
        Some(v) => Ok(v),
        None => Err(contract_error(context, " addition overflows host index range", span)),
    }
}

/// The one-based Modelica index of a zero-based position, as an `i64`.
pub fn checked_modelica_index_from_zero_based(index: usize, context: &str, span: Span) -> (r:
    Result<i64, LowerError>)
    ensures
        match r {
            Ok(v) => v as int == index as int + 1,
            Err(e) => if index == usize::MAX {
                spec_contract_error(
                    e,
                    context@ + " zero-based index "@ + decimal(index as nat)
                        + " cannot be converted to one-based"@,
                    span,
                )
            } else {
                index + 1 > i64::MAX && spec_contract_error(
                    e,
                    context@ + " "@ + decimal((index + 1) as nat) + " exceeds i64 range"@,
                    span,
                )
            },
        },
{
    if index == usize::MAX {
        let mut reason = String::from_str(context);
        reason.append(" zero-based index ");
        let digits = usize_to_decimal(index);
        reason.append(digits.as_str());
        reason.append(" cannot be converted to one-based");
        return Err(contract_violation(reason, span));
    }
    checked_usize_to_i64(index + 1, context, span)
}

} // verus!
