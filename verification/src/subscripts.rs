use vstd::prelude::*;

use crate::capacity::spec_located;
use crate::error::{contract_violation, spec_contract_reason, LowerError};
use crate::span::Span;
use crate::text::{i64_to_decimal, signed_decimal};

verus! {

/// A subscript of a component reference as lowering reads it: a literal
/// index, a `:` slice, or an index expression (of which only its span
/// matters here).
#[derive(Clone, Copy, Debug, PartialEq, Eq, Structural)]
pub enum Subscript {
    Index { value: i64, span: Span },
    Colon { span: Span },
    Expr { span: Span },
}

impl Subscript {
    pub open spec fn spec_span(&self) -> Span {
        match *self {
            Subscript::Index { span, .. } => span,
            Subscript::Colon { span } => span,
            Subscript::Expr { span } => span,
        }
    }

    /// The source span of the subscript.
    #[verifier::when_used_as_spec(spec_span)]
    pub fn span(&self) -> (s: Span)
        ensures
            s == self.spec_span(),
    {
        match self {
            Subscript::Index { span, .. } => *span,
            Subscript::Colon { span } => *span,
            Subscript::Expr { span } => *span,
        }
    }
}

/// The span of the first subscript that has source provenance.
pub open spec fn spec_first_subscript_span(subscripts: Seq<Subscript>) -> Option<Span>
    decreases subscripts.len(),
{
    if subscripts.len() == 0 {
        None
    } else if !subscripts[0].spec_span().spec_is_dummy() {
        Some(subscripts[0].spec_span())
    } else {
        spec_first_subscript_span(subscripts.drop_first())
    }
}

/// The span of the first subscript that has source provenance, if any.
pub fn first_subscript_span(subscripts: &[Subscript]) -> (r: Option<Span>)
    ensures
        r == spec_first_subscript_span(subscripts@),
{
    let mut i: usize = 0;
    proof {
        assert(subscripts@.skip(0) =~= subscripts@);
    }
    while i < subscripts.len()
        invariant
            i <= subscripts@.len(),
            spec_first_subscript_span(subscripts@) == spec_first_subscript_span(subscripts@.skip(i as int)),
        decreases subscripts@.len() - i,
    {
        proof {
            assert(subscripts@.skip(i as int).drop_first() =~= subscripts@.skip(i + 1));
            assert(subscripts@.skip(i as int)[0] == subscripts@[i as int]);
        }
        let span = subscripts[i].span();
        if !span.is_dummy() {
            return Some(span);
        }
        i = i + 1;
    }
    None
}

/// The span of the first located subscript, or the owner's span.
pub fn subscripts_span_with_owner(subscripts: &[Subscript], owner_span: Span) -> (s: Span)
    ensures
        s == (match spec_first_subscript_span(subscripts@) {
            Some(span) => span,
            None => owner_span,
        }),
{
    match first_subscript_span(subscripts) {
        Some(span) => span,
        None => owner_span,
    }
}

/// The span of the subscripts (or of their owner), which must have source
/// provenance; otherwise an unspanned contract violation
/// `missing source provenance for <context>`.
pub fn required_subscripts_span_with_owner(subscripts: &[Subscript], owner_span: Span, context: &str) -> (r:
    Result<Span, LowerError>)
    ensures
        match r {
            Ok(span) => !span.spec_is_dummy() && span == (match spec_first_subscript_span(subscripts@) {
                Some(s) => s,
                None => owner_span,
            }),
            Err(e) => owner_span.spec_is_dummy() && spec_first_subscript_span(subscripts@) is None
                && e is UnspannedContractViolation
                && e.spec_reason() == spec_contract_reason("missing source provenance for "@ + context@),
        },
{
    let span = subscripts_span_with_owner(subscripts, owner_span);
    if span.is_dummy() {
        proof {
            lemma_first_subscript_span_located(subscripts@);
        }
        let mut reason = String::from_str("missing source provenance for ");
        reason.append(context);
        return Err(LowerError::UnspannedContractViolation { reason });
    }
    Ok(span)
}

proof fn lemma_first_subscript_span_located(subscripts: Seq<Subscript>)
    ensures
        spec_first_subscript_span(subscripts) matches Some(s) ==> !s.spec_is_dummy(),
    decreases subscripts.len(),
{
    if subscripts.len() > 0 {
        lemma_first_subscript_span_located(subscripts.drop_first());
    }
}

/// A subscript value as a host index: any value from zero up, or a
/// contract violation `subscript index <value> exceeds host index range`.
pub fn positive_i64_index(value: i64, span: Span) -> (r: Result<usize, LowerError>)
    ensures
        match r {
            Ok(v) => 0 <= value && v as int == value as int,
            Err(e) => (value < 0 || value > usize::MAX) && e.spec_reason() == spec_contract_reason(
                "subscript index "@ + signed_decimal(value as int) + " exceeds host index range"@,
            ) && e.spec_source_span() == spec_located(span),
        },
{
    if value >= 0 && (value as u64) <= (usize::MAX as u64) {
        return Ok(value as usize);
    }
    let mut reason = String::from_str("subscript index ");
    let digits = i64_to_decimal(value);
    reason.append(digits.as_str());
    reason.append(" exceeds host index range");
    Err(contract_violation(reason, span))
}

} // verus!
