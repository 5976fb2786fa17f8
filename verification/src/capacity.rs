use vstd::prelude::*;

use crate::error::{contract_violation, spec_contract_reason, LowerError};
use crate::span::Span;

verus! {

/// The source location of an error raised at `span`.
pub open spec fn spec_located(span: Span) -> Option<Span> {
    if span.spec_is_dummy() {
        None
    } else {
        Some(span)
    }
}

/// An invariant violation raised at `span` with the given reason.
pub open spec fn spec_contract_error(e: LowerError, reason: Seq<char>, span: Span) -> bool {
    e.spec_reason() == spec_contract_reason(reason) && e.spec_source_span() == spec_located(span)
}

/// The error of a reservation that the allocator refused.
pub open spec fn spec_capacity_error(e: LowerError, context: Seq<char>, span: Span) -> bool {
    spec_contract_error(e, context + " capacity exceeds host memory limits"@, span)
}

/// A contract violation whose reason is `context` followed by `suffix`.
pub fn contract_error(context: &str, suffix: &str, span: Span) -> (e: LowerError)
    ensures
        spec_contract_error(e, context@ + suffix@, span),
{
    let mut reason = String::from_str(context);
    reason.append(suffix);
    contract_violation(reason, span)
}

/// Reserve room for `additional` more values; the contents never change,
/// and whether the allocator grants the room is not known in advance.
pub fn reserve_capacity<T>(
    values: &mut Vec<T>,
    additional: usize,
    context: &str,
    span: Span,
) -> (r: Result<(), LowerError>)
    ensures
        final(values)@ == old(values)@,
        r matches Err(e) ==> spec_capacity_error(e, context@, span),
{
    if try_reserve_exact(values, additional) {
        Ok(())
    } else {
        Err(contract_error(context, " capacity exceeds host memory limits", span))
    }
}

/// `Vec::try_reserve_exact`: whether the allocator granted room for
/// `additional` more values. The contents never change; whether the room
/// is granted depends on the allocator and is not stated.
#[verifier::external_body]
pub fn try_reserve_exact<T>(values: &mut Vec<T>, additional: usize) -> (granted: bool)
    ensures
        final(values)@ == old(values)@,
{
    values.try_reserve_exact(additional).is_ok()
}

/// `String::try_reserve`: whether the allocator granted room for
/// `additional` more bytes. The text never changes; whether the room is
/// granted depends on the allocator and is not stated.
#[verifier::external_body]
pub fn string_try_reserve(text: &mut String, additional: usize) -> (granted: bool)
    ensures
        final(text)@ == old(text)@,
{
    text.try_reserve(additional).is_ok()
}

/// An empty vector with room for `capacity` values, when the allocator
/// grants it.
pub fn vec_with_capacity<T>(capacity: usize, context: &str, span: Span) -> (r: Result<
    Vec<T>,
    LowerError,
>)
    ensures
        match r {
            Ok(v) => v@.len() == 0,
            Err(e) => spec_capacity_error(e, context@, span),
        },
{
    let mut values: Vec<T> = Vec::new();
    reserve_capacity(&mut values, capacity, context, span)?;
    Ok(values)
}

} // verus!
