use vstd::prelude::*;

use crate::capacity::spec_contract_error;
use crate::error::{contract_violation, LowerError};
use crate::span::Span;
use crate::subscripts::Subscript;
use crate::text::{decimal, usize_to_decimal};

verus! {

/// The end of a discrete relation's scalar block starting at `offset`.
pub fn checked_relation_offset_end(offset: usize, scalar_count: usize, span: Span) -> (r: Result<
    usize,
    LowerError,
>)
    ensures
        match r {
            Ok(v) => v == offset + scalar_count,
            Err(e) => offset + scalar_count > usize::MAX && spec_contract_error(
                e,
                "discrete relation scalar offset overflows host index range"@,
                span,
            ),
        },
{
    match offset.checked_add(scalar_count) {
        Some(v) => Ok(v),
        None => Err(
            contract_violation(
                String::from_str("discrete relation scalar offset overflows host index range"),
                span,
            ),
        ),
    }
}

/// A one-based relation memory index as a generated subscript at `span`,
/// or a contract violation when it exceeds the `i64` range.
pub fn checked_relation_subscript(index: usize, span: Span) -> (r: Result<Subscript, LowerError>)
    ensures
        match r {
            Ok(s) => index <= i64::MAX && s == (Subscript::Index { value: index as i64, span }),
            Err(e) => index > i64::MAX && spec_contract_error(
                e,
                "discrete relation subscript index "@ + decimal(index as nat) + " exceeds i64 range"@,
                span,
            ),
        },
{
    if (index as u64) <= (i64::MAX as u64) {
        Ok(Subscript::Index { value: index as i64, span })
    } else {
        let mut reason = String::from_str("discrete relation subscript index ");
        let digits = usize_to_decimal(index);
        reason.append(digits.as_str());
        reason.append(" exceeds i64 range");
        Err(contract_violation(reason, span))
    }
}

} // verus!
