use vstd::prelude::*;

use crate::capacity::{spec_located, string_try_reserve, try_reserve_exact};
use crate::error::{spec_contract_reason, LowerError};
use crate::span::Span;
use crate::subscripts::{first_subscript_span, spec_first_subscript_span, Subscript};
use crate::text::{decimal, i64_to_decimal, join, signed_decimal, usize_to_decimal};

verus! {

/// Where a root-condition contract error is reported: the span when it
/// is present and has source provenance.
pub open spec fn spec_root_location(span: Option<Span>) -> Option<Span> {
    match span {
        Some(s) => if s.spec_is_dummy() {
            None
        } else {
            Some(s)
        },
        None => None,
    }
}

/// A contract violation of root-condition lowering with the given reason.
pub open spec fn spec_root_error(e: LowerError, reason: Seq<char>, span: Option<Span>) -> bool {
    &&& e.spec_reason() == spec_contract_reason(reason)
    &&& e.spec_source_span() == spec_root_location(span)
    &&& (spec_root_location(span) is None ==> e is UnspannedContractViolation)
}

/// The contract violation for `reason`, located at `span` when it has
/// source provenance.
pub fn root_contract_error(reason: String, span: Option<Span>) -> (e: LowerError)
    ensures
        spec_root_error(e, reason@, span),
{
    match span {
        Some(s) => if s.is_dummy() {
            LowerError::UnspannedContractViolation { reason }
        } else {
            LowerError::ContractViolation { reason, span: s }
        },
        None => LowerError::UnspannedContractViolation { reason },
    }
}

/// `lhs + rhs` for a count of root conditions, or a contract violation
/// `<context> overflows host index range`.
pub fn checked_root_count_add(lhs: usize, rhs: usize, span: Option<Span>, context: &str) -> (r:
    Result<usize, LowerError>)
    ensures
        match r {
            Ok(n) => n == lhs + rhs,
            Err(e) => lhs + rhs > usize::MAX && spec_root_error(
                e,
                context@ + " overflows host index range"@,
                span,
            ),
        },
{
    match lhs.checked_add(rhs) {
        Some(n) => Ok(n),
        None => {
            let mut reason = String::from_str(context);
            reason.append(" overflows host index range");
            Err(root_contract_error(reason, span))
        },
    }
}

/// An empty vector with room for exactly `capacity` values, when the
/// allocator grants it.
pub fn root_vec_with_capacity<T>(capacity: usize, context: &str, span: Option<Span>) -> (r: Result<
    Vec<T>,
    LowerError,
>)
    ensures
        match r {
            Ok(v) => v@.len() == 0,
            Err(e) => spec_root_error(e, context@ + " capacity exceeds host memory limits"@, span),
        },
{
    let mut values: Vec<T> = Vec::new();
    if try_reserve_exact(&mut values, capacity) {
        Ok(values)
    } else {
        let mut reason = String::from_str(context);
        reason.append(" capacity exceeds host memory limits");
        Err(root_contract_error(reason, span))
    }
}

/// The end of a condition relation's scalar block starting at `offset`.
pub fn checked_relation_offset_end(offset: usize, scalar_count: usize, span: Span) -> (r: Result<
    usize,
    LowerError,
>)
    ensures
        match r {
            Ok(v) => v == offset + scalar_count,
            Err(e) => offset + scalar_count > usize::MAX && spec_root_error(
                e,
                "condition relation scalar offset overflows host index range"@,
                Some(span),
            ),
        },
{
    match offset.checked_add(scalar_count) {
        Some(v) => Ok(v),
        None => Err(
            root_contract_error(
                String::from_str("condition relation scalar offset overflows host index range"),
                Some(span),
            ),
        ),
    }
}

/// A one-based relation memory index as a generated subscript at `span`,
/// or a contract violation when it exceeds the `i64` range.
pub fn checked_relation_subscript(index: usize, span: Span) -> (r: Result<Subscript, LowerError>)
    ensures
        match r {
            Ok(s) => index <= i64::MAX && s == (Subscript::Index { value: index as i64, span }),
            Err(e) => index > i64::MAX && spec_root_error(
                e,
                "condition relation subscript index "@ + decimal(index as nat) + " exceeds i64 range"@,
                Some(span),
            ),
        },
{
    if (index as u64) <= (i64::MAX as u64) {
        Ok(Subscript::Index { value: index as i64, span })
    } else {
        let mut reason = String::from_str("condition relation subscript index ");
        let digits = usize_to_decimal(index);
        reason.append(digits.as_str());
        reason.append(" exceeds i64 range");
        Err(root_contract_error(reason, Some(span)))
    }
}

/// The literal index values of generated subscripts.
pub open spec fn index_values(subscripts: Seq<Subscript>) -> Seq<i64> {
    subscripts.map_values(|s: Subscript| match s {
        Subscript::Index { value, .. } => value,
        _ => 0,
    })
}

/// The position of the first subscript that is not a literal index.
pub open spec fn first_non_index(subscripts: Seq<Subscript>) -> Option<int> {
    if exists|i: int| 0 <= i < subscripts.len() && !(subscripts[i] is Index) {
        Some(choose|i: int| 0 <= i < subscripts.len() && !(subscripts[i] is Index) && forall|j: int| 0 <= j < i ==> subscripts[j] is Index)
    } else {
        None
    }
}

/// The literal index values of generated subscripts, or a contract
/// violation at the first subscript that is not a literal index.
pub fn generated_index_subscripts(subscripts: &[Subscript]) -> (r: Result<Vec<i64>, LowerError>)
    ensures
        match r {
            Ok(values) => first_non_index(subscripts@) is None && values@ == index_values(subscripts@),
            Err(e) => spec_root_error(
                e,
                "relation memory generated subscript count"@ + " capacity exceeds host memory limits"@,
                spec_first_subscript_span(subscripts@),
            ) || (first_non_index(subscripts@) matches Some(i) && spec_root_error(
                e,
                "relation memory target contains a non-index generated subscript"@,
                Some(subscripts@[i].spec_span()),
            )),
        },
{
    let span = first_subscript_span(subscripts);
    let mut indices: Vec<i64> = root_vec_with_capacity(
        subscripts.len(),
        "relation memory generated subscript count",
        span,
    )?;
    let mut k: usize = 0;
    while k < subscripts.len()
        invariant
            k <= subscripts@.len(),
            indices@ == index_values(subscripts@).take(k as int),
            forall|j: int| 0 <= j < k ==> subscripts@[j] is Index,
        decreases subscripts@.len() - k,
    {
        match subscripts[k] {
            Subscript::Index { value, .. } => {
                indices.push(value);
                proof {
                    assert(index_values(subscripts@).take(k + 1) =~= index_values(subscripts@).take(k as int).push(value));
                }
            },
            Subscript::Colon { span } => {
                proof {
                    assert(first_non_index(subscripts@) == Some(k as int)) by {
                        let i = choose|i: int| 0 <= i < subscripts@.len() && !(subscripts@[i] is Index) && forall|j: int| 0 <= j < i ==> subscripts@[j] is Index;
                        if i < k {
                        } else if i > k {
                            assert(subscripts@[k as int] is Index);
                        }
                    }
                }
                return Err(root_contract_error(
                    String::from_str("relation memory target contains a non-index generated subscript"),
                    Some(span),
                ));
            },
            Subscript::Expr { span } => {
                proof {
                    assert(first_non_index(subscripts@) == Some(k as int)) by {
                        let i = choose|i: int| 0 <= i < subscripts@.len() && !(subscripts@[i] is Index) && forall|j: int| 0 <= j < i ==> subscripts@[j] is Index;
                        if i < k {
                        } else if i > k {
                            assert(subscripts@[k as int] is Index);
                        }
                    }
                }
                return Err(root_contract_error(
                    String::from_str("relation memory target contains a non-index generated subscript"),
                    Some(span),
                ));
            },
        }
        k = k + 1;
    }
    proof {
        assert(index_values(subscripts@).take(subscripts@.len() as int) =~= index_values(subscripts@));
    }
    Ok(indices)
}

/// The text capacity of one `i64` value.
pub const I64_TEXT_CAPACITY: usize = 20;

/// The decimal texts of index values.
pub open spec fn i64_texts(values: Seq<i64>) -> Seq<Seq<char>> {
    values.map_values(|v: i64| signed_decimal(v as int))
}

/// The layout key of relation memory: the name, followed, when there are
/// subscripts, by their values in brackets separated by commas.
pub open spec fn spec_relation_memory_key(name: Seq<char>, values: Seq<i64>) -> Seq<char> {
    if values.len() == 0 {
        name
    } else {
        name + "["@ + join(i64_texts(values), ","@) + "]"@
    }
}

/// The room a relation memory key is reserved: the name, and with
/// subscripts two brackets and, per subscript, a comma and the widest
/// `i64` text. The key cannot be built when this leaves `usize`.
pub open spec fn spec_key_reserve_overflows(name: &str, subscripts: Seq<Subscript>) -> bool {
    subscripts.len() > 0 && name.len() + 2 + subscripts.len() * (I64_TEXT_CAPACITY + 2)
        > usize::MAX
}

/// The layout key of the relation memory `name[subscripts]`.
pub fn relation_memory_key(name: &str, subscripts: &[Subscript]) -> (r: Result<String, LowerError>)
    ensures
        spec_key_reserve_overflows(name, subscripts@) ==> (r matches Err(e) && spec_root_error(
            e,
            "relation memory key capacity exceeds host limits"@,
            spec_first_subscript_span(subscripts@),
        )),
        match r {
            Ok(key) => first_non_index(subscripts@) is None && key@ == spec_relation_memory_key(
                name@,
                index_values(subscripts@),
            ),
            Err(e) => spec_key_reserve_overflows(name, subscripts@) || spec_root_error(
                e,
                "relation memory key capacity exceeds host memory limits"@,
                spec_first_subscript_span(subscripts@),
            ) || (subscripts@.len() > 0 && spec_root_error(
                e,
                "relation memory generated subscript count"@ + " capacity exceeds host memory limits"@,
                spec_first_subscript_span(subscripts@),
            )) || (first_non_index(subscripts@) matches Some(i) && spec_root_error(
                e,
                "relation memory target contains a non-index generated subscript"@,
                Some(subscripts@[i].spec_span()),
            )),
        },
{
    let span = first_subscript_span(subscripts);
    let mut key = String::new();
    let reserve = if subscripts.len() == 0 {
        name.len()
    } else {
        let base = name.len().checked_add(2);
        let suffix = subscripts.len().checked_mul(I64_TEXT_CAPACITY + 2);
        match (base, suffix) {
            (Some(b), Some(x)) => match b.checked_add(x) {
                Some(t) => t,
                None => {
                    return Err(root_contract_error(
                        String::from_str("relation memory key capacity exceeds host limits"),
                        span,
                    ));
                },
            },
            _ => {
                return Err(root_contract_error(
                    String::from_str("relation memory key capacity exceeds host limits"),
                    span,
                ));
            },
        }
    };
    if !string_try_reserve(&mut key, reserve) {
        return Err(root_contract_error(
            String::from_str("relation memory key capacity exceeds host memory limits"),
            span,
        ));
    }
    key.append(name);
    if subscripts.len() == 0 {
        proof {
            assert(index_values(subscripts@).len() == 0);
            assert(first_non_index(subscripts@) is None);
        }
        return Ok(key);
    }
    let indices = generated_index_subscripts(subscripts)?;
    key.append("[");
    let ghost parts = i64_texts(indices@);
    let mut body = String::new();
    let mut i: usize = 0;
    while i < indices.len()
        invariant
            i <= indices@.len(),
            parts == i64_texts(indices@),
            body@ == join(parts.take(i as int), ","@),
        decreases indices@.len() - i,
    {
        let digits = i64_to_decimal(indices[i]);
        if i > 0 {
            body.append(",");
        }
        body.append(digits.as_str());
        proof {
            assert(parts.take(i + 1).drop_last() =~= parts.take(i as int));
            if i == 0 {
                assert(parts.take(1) =~= seq![parts[0]]);
            }
        }
        i = i + 1;
    }
    proof {
        assert(parts.take(indices@.len() as int) =~= parts);
    }
    key.append(body.as_str());
    key.append("]");
    Ok(key)
}

} // verus!
