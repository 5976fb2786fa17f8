use vstd::prelude::*;

use crate::span::Span;

verus! {

/// Why lowering a DAE construct into Solve IR failed.
#[derive(Debug, PartialEq, Eq)]
#[allow(inconsistent_fields)]
pub enum LowerError {
    Unsupported { reason: String },
    UnsupportedAt { reason: String, contexts: Vec<String>, span: Span },
    MissingBinding { name: String },
    MissingFunction { name: String },
    InvalidFunction { name: String, reason: String },
    ContractViolation { reason: String, span: Span },
    UnspannedContractViolation { reason: String },
    Scalarization { message: String, span: Option<Span> },
    /// A function projection produced an expression larger than the inline
    /// node budget.
    ProjectionBudgetExceeded { function: String, span: Span },
    /// Function-output projection met a runtime-dependent while loop.
    DynamicWhileProjection { function: String, span: Span },
    /// A runtime-only subscript where a compile-time index is required.
    DynamicSubscript,
    /// `size()` in a for-loop range over a dimension with no structural binding.
    ForRangeUnknownDimension { name: String },
    /// A function or constructor input with neither an actual argument nor a
    /// default binding.
    MissingActualArgument { function: String, what: &'static str, input: String, span: Span },
    /// A dynamic-binding path rooted in an expression form with no binding key.
    DynamicBindingBase { tag: String },
    Spanned { source: Box<LowerError>, span: Span },
    /// Context frames around an error that keeps its typed identity.
    WithContext { source: Box<LowerError>, contexts: Vec<String> },
}

/// A copy of each string, in order.
fn copy_strings(v: &Vec<String>) -> (r: Vec<String>)
    ensures
        r@ == v@,
{
    let mut r: Vec<String> = Vec::new();
    let mut i: usize = 0;
    while i < v.len()
        invariant
            i <= v.len(),
            r@ == v@.take(i as int),
        decreases v.len() - i,
    {
        r.push(v[i].clone());
        proof {
            assert(v@.take(i + 1) =~= v@.take(i as int).push(v@[i as int]));
        }
        i = i + 1;
    }
    proof {
        assert(v@.take(v.len() as int) =~= v@);
    }
    r
}

/// `b` is a copy of `a`: the same variant with equal strings, spans and
/// sources, and context lists holding the same strings in order. (Two
/// distinct `Vec` values with the same contents are not provably equal
/// values, so this is the equality that a copy can be shown to keep.)
pub open spec fn spec_same_error(a: LowerError, b: LowerError) -> bool
    decreases a,
{
    match a {
        LowerError::Unsupported { reason } => b matches LowerError::Unsupported { reason: r2 } && r2 == reason,
        LowerError::UnsupportedAt { reason, contexts, span } => b matches LowerError::UnsupportedAt {
            reason: r2,
            contexts: c2,
            span: s2,
        } && r2 == reason && c2@ == contexts@ && s2 == span,
        LowerError::MissingBinding { name } => b matches LowerError::MissingBinding { name: n2 } && n2 == name,
        LowerError::MissingFunction { name } => b matches LowerError::MissingFunction { name: n2 } && n2 == name,
        LowerError::InvalidFunction { name, reason } => b matches LowerError::InvalidFunction {
            name: n2,
            reason: r2,
        } && n2 == name && r2 == reason,
        LowerError::ContractViolation { reason, span } => b matches LowerError::ContractViolation {
            reason: r2,
            span: s2,
        } && r2 == reason && s2 == span,
        LowerError::UnspannedContractViolation { reason } => b matches LowerError::UnspannedContractViolation {
            reason: r2,
        } && r2 == reason,
        LowerError::Scalarization { message, span } => b matches LowerError::Scalarization {
            message: m2,
            span: s2,
        } && m2 == message && s2 == span,
        LowerError::ProjectionBudgetExceeded { function, span } => b matches LowerError::ProjectionBudgetExceeded {
            function: f2,
            span: s2,
        } && f2 == function && s2 == span,
        LowerError::DynamicWhileProjection { function, span } => b matches LowerError::DynamicWhileProjection {
            function: f2,
            span: s2,
        } && f2 == function && s2 == span,
        LowerError::DynamicSubscript => b is DynamicSubscript,
        LowerError::ForRangeUnknownDimension { name } => b matches LowerError::ForRangeUnknownDimension {
            name: n2,
        } && n2 == name,
        LowerError::MissingActualArgument { function, what, input, span } => b matches LowerError::MissingActualArgument {
            function: f2,
            what: w2,
            input: i2,
            span: s2,
        } && f2 == function && w2 == what && i2 == input && s2 == span,
        LowerError::DynamicBindingBase { tag } => b matches LowerError::DynamicBindingBase { tag: t2 } && t2 == tag,
        LowerError::Spanned { source, span } => b matches LowerError::Spanned { source: o2, span: s2 } && s2
            == span && spec_same_error(*source, *o2),
        LowerError::WithContext { source, contexts } => b matches LowerError::WithContext {
            source: o2,
            contexts: c2,
        } && c2@ == contexts@ && spec_same_error(*source, *o2),
    }
}

/// A copy of an error, its nested sources included.
fn copy_error(e: &LowerError) -> (r: LowerError)
    ensures
        spec_same_error(*e, r),
        r.spec_reason() == e.spec_reason(),
        r.spec_source_span() == e.spec_source_span(),
    decreases e,
{
    match e {
        LowerError::Unsupported { reason } => LowerError::Unsupported { reason: reason.clone() },
        LowerError::UnsupportedAt { reason, contexts, span } => LowerError::UnsupportedAt {
            reason: reason.clone(),
            contexts: copy_strings(contexts),
            span: *span,
        },
        LowerError::MissingBinding { name } => LowerError::MissingBinding { name: name.clone() },
        LowerError::MissingFunction { name } => LowerError::MissingFunction { name: name.clone() },
        LowerError::InvalidFunction { name, reason } => LowerError::InvalidFunction {
            name: name.clone(),
            reason: reason.clone(),
        },
        LowerError::ContractViolation { reason, span } => LowerError::ContractViolation {
            reason: reason.clone(),
            span: *span,
        },
        LowerError::UnspannedContractViolation { reason } => LowerError::UnspannedContractViolation {
            reason: reason.clone(),
        },
        LowerError::Scalarization { message, span } => LowerError::Scalarization {
            message: message.clone(),
            span: *span,
        },
        LowerError::ProjectionBudgetExceeded { function, span } => LowerError::ProjectionBudgetExceeded {
            function: function.clone(),
            span: *span,
        },
        LowerError::DynamicWhileProjection { function, span } => LowerError::DynamicWhileProjection {
            function: function.clone(),
            span: *span,
        },
        LowerError::DynamicSubscript => LowerError::DynamicSubscript,
        LowerError::ForRangeUnknownDimension { name } => LowerError::ForRangeUnknownDimension {
            name: name.clone(),
        },
        LowerError::MissingActualArgument { function, what, input, span } => LowerError::MissingActualArgument {
            function: function.clone(),
            what: *what,
            input: input.clone(),
            span: *span,
        },
        LowerError::DynamicBindingBase { tag } => LowerError::DynamicBindingBase { tag: tag.clone() },
        LowerError::Spanned { source, span } => LowerError::Spanned {
            source: Box::new(copy_error(source)),
            span: *span,
        },
        LowerError::WithContext { source, contexts } => LowerError::WithContext {
            source: Box::new(copy_error(source)),
            contexts: copy_strings(contexts),
        },
    }
}

impl Clone for LowerError {
    fn clone(&self) -> (r: Self)
        ensures
            spec_same_error(*self, r),
            r.spec_reason() == self.spec_reason(),
            r.spec_source_span() == self.spec_source_span(),
    {
        copy_error(self)
    }
}

/// The texts of a list of strings.
pub open spec fn texts(strings: Seq<String>) -> Seq<Seq<char>> {
    strings.map_values(|s: String| s@)
}

/// Context frames, innermost first, prefixed to a reason: the last frame
/// pushed is the outermost and comes first.
pub open spec fn spec_contextual_reason(contexts: Seq<Seq<char>>, reason: Seq<char>) -> Seq<char>
    decreases contexts.len(),
{
    if contexts.len() == 0 {
        reason
    } else {
        contexts.last() + ": "@ + spec_contextual_reason(contexts.drop_last(), reason)
    }
}

pub open spec fn spec_missing_binding_reason(name: Seq<char>) -> Seq<char> {
    "missing variable binding `"@ + name + "`"@
}

pub open spec fn spec_missing_function_reason(name: Seq<char>) -> Seq<char> {
    "missing function definition `"@ + name + "`"@
}

pub open spec fn spec_invalid_function_reason(name: Seq<char>, reason: Seq<char>) -> Seq<char> {
    "invalid function `"@ + name + "`: "@ + reason
}

pub open spec fn spec_contract_reason(reason: Seq<char>) -> Seq<char> {
    "invalid IR contract: "@ + reason
}

pub open spec fn spec_scalarization_reason(message: Seq<char>) -> Seq<char> {
    "Solve-IR scalarization failed: "@ + message
}

pub open spec fn spec_budget_reason(function: Seq<char>) -> Seq<char> {
    "function `"@ + function + "` projection exceeded the inline node budget"@
}

pub open spec fn spec_while_reason(function: Seq<char>) -> Seq<char> {
    "function `"@ + function + "` has a runtime-dependent while loop"@
}

pub open spec fn spec_dynamic_subscript_reason() -> Seq<char> {
    "dynamic subscript expressions are unsupported"@
}

pub open spec fn spec_for_range_reason(name: Seq<char>) -> Seq<char> {
    "size() in for-loop range requires known dimension `"@ + name + "`"@
}

pub open spec fn spec_missing_actual_reason(
    function: Seq<char>,
    what: Seq<char>,
    input: Seq<char>,
) -> Seq<char> {
    "invalid function `"@ + function + "`: "@ + what + " `"@ + input
        + "` has no actual argument or default binding"@
}

pub open spec fn spec_dynamic_base_reason(tag: Seq<char>) -> Seq<char> {
    "unsupported base expression for dynamic binding path: "@ + tag
}

impl LowerError {
    /// The reason text, with context frames in front.
    pub open spec fn spec_reason(self) -> Seq<char>
        decreases self,
    {
        match self {
            LowerError::Unsupported { reason } => reason@,
            LowerError::UnsupportedAt { reason, contexts, .. } => spec_contextual_reason(
                texts(contexts@),
                reason@,
            ),
            LowerError::MissingBinding { name } => spec_missing_binding_reason(name@),
            LowerError::MissingFunction { name } => spec_missing_function_reason(name@),
            LowerError::InvalidFunction { name, reason } => spec_invalid_function_reason(
                name@,
                reason@,
            ),
            LowerError::ContractViolation { reason, .. } => spec_contract_reason(reason@),
            LowerError::UnspannedContractViolation { reason } => spec_contract_reason(reason@),
            LowerError::Scalarization { message, .. } => spec_scalarization_reason(message@),
            LowerError::ProjectionBudgetExceeded { function, .. } => spec_budget_reason(
                function@,
            ),
            LowerError::DynamicWhileProjection { function, .. } => spec_while_reason(function@),
            LowerError::DynamicSubscript => spec_dynamic_subscript_reason(),
            LowerError::ForRangeUnknownDimension { name } => spec_for_range_reason(name@),
            LowerError::MissingActualArgument { function, what, input, .. } =>
                spec_missing_actual_reason(function@, what@, input@),
            LowerError::DynamicBindingBase { tag } => spec_dynamic_base_reason(tag@),
            LowerError::Spanned { source, .. } => source.spec_reason(),
            LowerError::WithContext { source, contexts } => spec_contextual_reason(
                texts(contexts@),
                source.spec_reason(),
            ),
        }
    }

    /// The reason text for a diagnostic label: context frames are left out.
    pub open spec fn spec_label_reason(self) -> Seq<char>
        decreases self,
    {
        match self {
            LowerError::Unsupported { reason } => reason@,
            LowerError::UnsupportedAt { reason, .. } => reason@,
            LowerError::Spanned { source, .. } => source.spec_label_reason(),
            LowerError::WithContext { source, .. } => source.spec_label_reason(),
            _ => self.spec_reason(),
        }
    }

    /// The source location the error points at, if it has a real one.
    pub open spec fn spec_source_span(self) -> Option<Span>
        decreases self,
    {
        match self {
            LowerError::UnsupportedAt { span, .. } => if span.spec_is_dummy() {
                None
            } else {
                Some(span)
            },
            LowerError::ContractViolation { span, .. } => if span.spec_is_dummy() {
                None
            } else {
                Some(span)
            },
            LowerError::Scalarization { span, .. } => span,
            LowerError::ProjectionBudgetExceeded { span, .. } => if span.spec_is_dummy() {
                None
            } else {
                Some(span)
            },
            LowerError::DynamicWhileProjection { span, .. } => if span.spec_is_dummy() {
                None
            } else {
                Some(span)
            },
            LowerError::MissingActualArgument { span, .. } => if span.spec_is_dummy() {
                None
            } else {
                Some(span)
            },
            LowerError::Spanned { source, span } => match source.spec_source_span() {
                Some(inner) => Some(inner),
                None => if span.spec_is_dummy() {
                    None
                } else {
                    Some(span)
                },
            },
            LowerError::WithContext { source, .. } => source.spec_source_span(),
            _ => None,
        }
    }

    /// Function name and span of a projection budget decline, looking
    /// through wrappers.
    pub open spec fn spec_budget_parts(self) -> Option<(Seq<char>, Span)>
        decreases self,
    {
        match self {
            LowerError::ProjectionBudgetExceeded { function, span } => Some((function@, span)),
            LowerError::Spanned { source, .. } => source.spec_budget_parts(),
            LowerError::WithContext { source, .. } => source.spec_budget_parts(),
            _ => None,
        }
    }

    pub open spec fn spec_is_dynamic_while(self) -> bool
        decreases self,
    {
        match self {
            LowerError::DynamicWhileProjection { .. } => true,
            LowerError::Spanned { source, .. } => source.spec_is_dynamic_while(),
            LowerError::WithContext { source, .. } => source.spec_is_dynamic_while(),
            _ => false,
        }
    }

    pub open spec fn spec_is_missing_binding(self) -> bool
        decreases self,
    {
        match self {
            LowerError::MissingBinding { .. } => true,
            LowerError::Spanned { source, .. } => source.spec_is_missing_binding(),
            LowerError::WithContext { source, .. } => source.spec_is_missing_binding(),
            _ => false,
        }
    }

    pub open spec fn spec_is_missing_binding_or_function(self) -> bool
        decreases self,
    {
        match self {
            LowerError::MissingBinding { .. } => true,
            LowerError::MissingFunction { .. } => true,
            LowerError::Spanned { source, .. } => source.spec_is_missing_binding_or_function(),
            LowerError::WithContext { source, .. } => source.spec_is_missing_binding_or_function(),
            _ => false,
        }
    }
}


/// The text that `Display` shows for an error.
pub open spec fn spec_display(e: LowerError) -> Seq<char>
    decreases e,
{
    match e {
        LowerError::Unsupported { .. } => "unsupported expression: "@ + e.spec_reason(),
        LowerError::UnsupportedAt { .. } => "unsupported expression: "@ + e.spec_reason(),
        LowerError::MissingBinding { name } => "missing variable binding: "@ + name@,
        LowerError::MissingFunction { name } => "missing function definition: "@ + name@,
        LowerError::DynamicSubscript => "unsupported expression: "@ + e.spec_reason(),
        LowerError::ForRangeUnknownDimension { .. } => "unsupported expression: "@
            + e.spec_reason(),
        LowerError::DynamicBindingBase { .. } => "unsupported expression: "@ + e.spec_reason(),
        LowerError::Spanned { source, .. } => spec_display(*source),
        _ => e.spec_reason(),
    }
}

/// How `with_context` reshapes an error: messages of unsupported
/// constructs and of contract violations take the context as a prefix,
/// frames are pushed onto existing frame lists, span wrappers pass the
/// context inward, and every other error keeps its identity inside a new
/// frame list.
pub open spec fn spec_with_context(old: LowerError, context: Seq<char>, new: LowerError) -> bool
    decreases old,
{
    match old {
        LowerError::Unsupported { reason } => match new {
            LowerError::Unsupported { reason: r } => r@ == context + ": "@ + reason@,
            _ => false,
        },
        LowerError::UnsupportedAt { reason, contexts, span } => match new {
            LowerError::UnsupportedAt { reason: r, contexts: cs, span: s } => r@ == reason@
                && texts(cs@) == texts(contexts@).push(context) && s == span,
            _ => false,
        },
        LowerError::Spanned { source, span } => match new {
            LowerError::Spanned { source: s2, span: sp2 } => sp2 == span && spec_with_context(
                *source,
                context,
                *s2,
            ),
            _ => false,
        },
        LowerError::ContractViolation { reason, span } => match new {
            LowerError::ContractViolation { reason: r, span: s } => r@ == context + ": "@
                + reason@ && s == span,
            _ => false,
        },
        LowerError::UnspannedContractViolation { reason } => match new {
            LowerError::UnspannedContractViolation { reason: r } => r@ == context + ": "@
                + reason@,
            _ => false,
        },
        LowerError::WithContext { source, contexts } => match new {
            LowerError::WithContext { source: s2, contexts: cs } => *s2 == *source && texts(
                cs@,
            ) == texts(contexts@).push(context),
            _ => false,
        },
        _ => match new {
            LowerError::WithContext { source: s2, contexts: cs } => *s2 == old && texts(cs@)
                == seq![context],
            _ => false,
        },
    }
}

/// An error whose message takes a context prefix inside the
/// `invalid IR contract: ` heading rather than in front of it.
pub open spec fn spec_has_inner_contract(e: LowerError) -> bool
    decreases e,
{
    match e {
        LowerError::ContractViolation { .. } => true,
        LowerError::UnspannedContractViolation { .. } => true,
        LowerError::Spanned { source, .. } => spec_has_inner_contract(*source),
        _ => false,
    }
}

proof fn lemma_texts_push(strings: Seq<String>, s: String)
    ensures
        texts(strings.push(s)) == texts(strings).push(s@),
{
    assert(texts(strings.push(s)) =~= texts(strings).push(s@));
}

proof fn lemma_contextual_push(contexts: Seq<Seq<char>>, c: Seq<char>, reason: Seq<char>)
    ensures
        spec_contextual_reason(contexts.push(c), reason) == c + ": "@ + spec_contextual_reason(
            contexts,
            reason,
        ),
{
    assert(contexts.push(c).drop_last() =~= contexts);
}

/// The classification and location of an error survive `with_context`,
/// and outside contract violations the context becomes the first frame
/// of the message.
pub proof fn lemma_with_context_preserves(old: LowerError, context: Seq<char>, new: LowerError)
    requires
        spec_with_context(old, context, new),
    ensures
        new.spec_source_span() == old.spec_source_span(),
        new.spec_is_missing_binding() == old.spec_is_missing_binding(),
        new.spec_is_missing_binding_or_function() == old.spec_is_missing_binding_or_function(),
        new.spec_is_dynamic_while() == old.spec_is_dynamic_while(),
        new.spec_budget_parts() == old.spec_budget_parts(),
        !spec_has_inner_contract(old) ==> new.spec_reason() == context + ": "@
            + old.spec_reason(),
    decreases old,
{
    match old {
        LowerError::Unsupported { reason } => {},
        LowerError::UnsupportedAt { reason, contexts, span } => {
            if let LowerError::UnsupportedAt { reason: r, contexts: cs, span: s } = new {
                lemma_contextual_push(texts(contexts@), context, reason@);
            }
        },
        LowerError::Spanned { source, span } => {
            if let LowerError::Spanned { source: s2, span: sp2 } = new {
                lemma_with_context_preserves(*source, context, *s2);
            }
        },
        LowerError::ContractViolation { .. } => {},
        LowerError::UnspannedContractViolation { .. } => {},
        LowerError::WithContext { source, contexts } => {
            if let LowerError::WithContext { source: s2, contexts: cs } = new {
                lemma_contextual_push(texts(contexts@), context, source.spec_reason());
            }
        },
        _ => {
            if let LowerError::WithContext { source: s2, contexts: cs } = new {
                let r = s2.spec_reason();
                assert(texts(cs@).drop_last() =~= Seq::<Seq<char>>::empty());
                assert(spec_contextual_reason(texts(cs@).drop_last(), r) == r);
                assert(spec_contextual_reason(texts(cs@), r) == context + ": "@ + r);
            }
        },
    }
}

/// The error for a broken IR invariant: it carries the span only when the
/// span has source provenance.
pub fn contract_violation(reason: String, span: Span) -> (e: LowerError)
    ensures
        span.spec_is_dummy() ==> e == (LowerError::UnspannedContractViolation { reason }),
        !span.spec_is_dummy() ==> e == (LowerError::ContractViolation { reason, span }),
        e.spec_reason() == spec_contract_reason(reason@),
        e.spec_source_span() == (if span.spec_is_dummy() { None } else { Some(span) }),
{
    if span.is_dummy() {
        LowerError::UnspannedContractViolation { reason }
    } else {
        LowerError::ContractViolation { reason, span }
    }
}

/// The error for an unsupported construct: located when the span has
/// source provenance.
pub fn unsupported_at(reason: String, span: Span) -> (e: LowerError)
    ensures
        span.spec_is_dummy() ==> e == (LowerError::Unsupported { reason }),
        !span.spec_is_dummy() ==> (e matches LowerError::UnsupportedAt { reason: r, contexts, span: s }
            && r == reason && contexts@.len() == 0 && s == span),
        e.spec_reason() == reason@,
        e.spec_source_span() == (if span.spec_is_dummy() { None } else { Some(span) }),
{
    if span.is_dummy() {
        LowerError::Unsupported { reason }
    } else {
        let contexts: Vec<String> = Vec::new();
        let e = LowerError::UnsupportedAt { reason, contexts, span };
        proof {
            assert(texts(contexts@) =~= Seq::<Seq<char>>::empty());
        }
        e
    }
}

/// Context frames, outermost first, in front of a reason, joined by `: `.
pub fn contextual_reason(contexts: &[String], reason: &str) -> (s: String)
    ensures
        s@ == spec_contextual_reason(texts(contexts@), reason@),
{
    let mut s = String::from_str(reason);
    let mut i: usize = 0;
    while i < contexts.len()
        invariant
            i <= contexts.len(),
            s@ == spec_contextual_reason(texts(contexts@).take(i as int), reason@),
        decreases contexts.len() - i,
    {
        let mut framed = contexts[i].clone();
        framed.append(": ");
        framed.append(s.as_str());
        proof {
            let all = texts(contexts@);
            assert(all.take(i + 1).drop_last() =~= all.take(i as int));
            assert(all.take(i + 1).last() == contexts@[i as int]@);
        }
        s = framed;
        i = i + 1;
    }
    proof {
        assert(texts(contexts@).take(contexts@.len() as int) =~= texts(contexts@));
    }
    s
}

fn text3(a: &str, b: &str, c: &str) -> (s: String)
    ensures
        s@ == a@ + b@ + c@,
{
    let mut s = String::from_str(a);
    s.append(b);
    s.append(c);
    s
}

fn text5(a: &str, b: &str, c: &str, d: &str, e: &str) -> (s: String)
    ensures
        s@ == a@ + b@ + c@ + d@ + e@,
{
    let mut s = String::from_str(a);
    s.append(b);
    s.append(c);
    s.append(d);
    s.append(e);
    s
}

impl LowerError {
    /// The reason text, with context frames in front.
    pub fn reason(&self) -> (s: String)
        ensures
            s@ == self.spec_reason(),
        decreases self,
    {
        match self {
            LowerError::Unsupported { reason } => reason.clone(),
            LowerError::UnsupportedAt { reason, contexts, .. } => contextual_reason(
                contexts.as_slice(),
                reason.as_str(),
            ),
            LowerError::MissingBinding { name } => text3(
                "missing variable binding `",
                name.as_str(),
                "`",
            ),
            LowerError::MissingFunction { name } => text3(
                "missing function definition `",
                name.as_str(),
                "`",
            ),
            LowerError::InvalidFunction { name, reason } => {
                let mut s = text3("invalid function `", name.as_str(), "`: ");
                s.append(reason.as_str());
                s
            },
            LowerError::ContractViolation { reason, .. } => {
                let mut s = String::from_str("invalid IR contract: ");
                s.append(reason.as_str());
                s
            },
            LowerError::UnspannedContractViolation { reason } => {
                let mut s = String::from_str("invalid IR contract: ");
                s.append(reason.as_str());
                s
            },
            LowerError::Scalarization { message, .. } => {
                let mut s = String::from_str("Solve-IR scalarization failed: ");
                s.append(message.as_str());
                s
            },
            LowerError::ProjectionBudgetExceeded { function, .. } => text3(
                "function `",
                function.as_str(),
                "` projection exceeded the inline node budget",
            ),
            LowerError::DynamicWhileProjection { function, .. } => text3(
                "function `",
                function.as_str(),
                "` has a runtime-dependent while loop",
            ),
            LowerError::DynamicSubscript => String::from_str(
                "dynamic subscript expressions are unsupported",
            ),
            LowerError::ForRangeUnknownDimension { name } => text3(
                "size() in for-loop range requires known dimension `",
                name.as_str(),
                "`",
            ),
            LowerError::MissingActualArgument { function, what, input, .. } => {
                let mut s = text5("invalid function `", function.as_str(), "`: ", what, " `");
                s.append(input.as_str());
                s.append("` has no actual argument or default binding");
                s
            },
            LowerError::DynamicBindingBase { tag } => {
                let mut s = String::from_str(
                    "unsupported base expression for dynamic binding path: ",
                );
                s.append(tag.as_str());
                s
            },
            LowerError::Spanned { source, .. } => source.reason(),
            LowerError::WithContext { source, contexts } => {
                let inner = source.reason();
                contextual_reason(contexts.as_slice(), inner.as_str())
            },
        }
    }

    /// The reason text for a diagnostic label, without context frames.
    pub fn label_reason(&self) -> (s: String)
        ensures
            s@ == self.spec_label_reason(),
        decreases self,
    {
        match self {
            LowerError::Unsupported { reason } => reason.clone(),
            LowerError::UnsupportedAt { reason, .. } => reason.clone(),
            LowerError::Spanned { source, .. } => source.label_reason(),
            LowerError::WithContext { source, .. } => source.label_reason(),
            _ => self.reason(),
        }
    }

    /// The text that `Display` shows for the error.
    pub fn to_string(&self) -> (s: String)
        ensures
            s@ == spec_display(*self),
        decreases self,
    {
        match self {
            LowerError::MissingBinding { name } => {
                let mut s = String::from_str("missing variable binding: ");
                s.append(name.as_str());
                s
            },
            LowerError::MissingFunction { name } => {
                let mut s = String::from_str("missing function definition: ");
                s.append(name.as_str());
                s
            },
            LowerError::Spanned { source, .. } => source.to_string(),
            LowerError::Unsupported { .. } | LowerError::UnsupportedAt { .. }
            | LowerError::DynamicSubscript | LowerError::ForRangeUnknownDimension { .. }
            | LowerError::DynamicBindingBase { .. } => {
                let mut s = String::from_str("unsupported expression: ");
                let r = self.reason();
                s.append(r.as_str());
                s
            },
            _ => self.reason(),
        }
    }

    /// The source location the error points at, if it has a real one.
    pub fn source_span(&self) -> (s: Option<Span>)
        ensures
            s == self.spec_source_span(),
        decreases self,
    {
        match self {
            LowerError::UnsupportedAt { span, .. } if !span.is_dummy() => Some(*span),
            LowerError::ContractViolation { span, .. } if !span.is_dummy() => Some(*span),
            LowerError::Scalarization { span, .. } => *span,
            LowerError::ProjectionBudgetExceeded { span, .. } if !span.is_dummy() => Some(*span),
            LowerError::DynamicWhileProjection { span, .. } if !span.is_dummy() => Some(*span),
            LowerError::MissingActualArgument { span, .. } if !span.is_dummy() => Some(*span),
            LowerError::Spanned { source, span } => match source.source_span() {
                Some(inner) => Some(inner),
                None => if span.is_dummy() {
                    None
                } else {
                    Some(*span)
                },
            },
            LowerError::WithContext { source, .. } => source.source_span(),
            _ => None,
        }
    }

    /// The function name and span of a projection budget decline, looking
    /// through span and context wrappers.
    pub fn projection_budget_exceeded_parts(&self) -> (parts: Option<(&str, Span)>)
        ensures
            match parts {
                Some((f, s)) => self.spec_budget_parts() == Some((f@, s)),
                None => self.spec_budget_parts() is None,
            },
        decreases self,
    {
        match self {
            LowerError::ProjectionBudgetExceeded { function, span } => Some(
                (function.as_str(), *span),
            ),
            LowerError::Spanned { source, .. } => source.projection_budget_exceeded_parts(),
            LowerError::WithContext { source, .. } => source.projection_budget_exceeded_parts(),
            _ => None,
        }
    }

    /// True for a projection budget decline, looking through wrappers.
    pub fn is_projection_budget_exceeded(&self) -> (b: bool)
        ensures
            b == self.spec_budget_parts() is Some,
    {
        self.projection_budget_exceeded_parts().is_some()
    }

    /// True when projection must defer a dynamic while loop to ordinary
    /// function lowering, looking through wrappers.
    pub fn is_dynamic_while_projection(&self) -> (b: bool)
        ensures
            b == self.spec_is_dynamic_while(),
        decreases self,
    {
        match self {
            LowerError::DynamicWhileProjection { .. } => true,
            LowerError::Spanned { source, .. } => source.is_dynamic_while_projection(),
            LowerError::WithContext { source, .. } => source.is_dynamic_while_projection(),
            _ => false,
        }
    }

    pub fn is_missing_binding(&self) -> (b: bool)
        ensures
            b == self.spec_is_missing_binding(),
        decreases self,
    {
        match self {
            LowerError::MissingBinding { .. } => true,
            LowerError::Spanned { source, .. } => source.is_missing_binding(),
            LowerError::WithContext { source, .. } => source.is_missing_binding(),
            _ => false,
        }
    }

    pub fn is_missing_binding_or_function(&self) -> (b: bool)
        ensures
            b == self.spec_is_missing_binding_or_function(),
        decreases self,
    {
        match self {
            LowerError::MissingBinding { .. } => true,
            LowerError::MissingFunction { .. } => true,
            LowerError::Spanned { source, .. } => source.is_missing_binding_or_function(),
            LowerError::WithContext { source, .. } => source.is_missing_binding_or_function(),
            _ => false,
        }
    }

    /// Attach `span` to an error that has no source location yet; an error
    /// that already points somewhere, or a placeholder span, leaves it as is.
    pub fn with_fallback_span(self, span: Span) -> (e: LowerError)
        ensures
            (span.spec_is_dummy() || self.spec_source_span() is Some) ==> e == self,
            !(span.spec_is_dummy() || self.spec_source_span() is Some) ==> (match self {
                LowerError::Unsupported { reason } => e matches LowerError::UnsupportedAt {
                    reason: r,
                    contexts,
                    span: s,
                } && r == reason && contexts@.len() == 0 && s == span,
                _ => e == LowerError::Spanned { source: Box::new(self), span },
            }),
            e.spec_source_span() == (match self.spec_source_span() {
                Some(inner) => Some(inner),
                None => if span.spec_is_dummy() {
                    None
                } else {
                    Some(span)
                },
            }),
            e.spec_reason() == self.spec_reason(),
            e.spec_is_missing_binding() == self.spec_is_missing_binding(),
    {
        if span.is_dummy() || self.source_span().is_some() {
            return self;
        }
        match self {
            LowerError::Unsupported { reason } => {
                let contexts: Vec<String> = Vec::new();
                proof {
                    assert(texts(contexts@) =~= Seq::<Seq<char>>::empty());
                }
                LowerError::UnsupportedAt { reason, contexts, span }
            },
            other => LowerError::Spanned { source: Box::new(other), span },
        }
    }

    /// Add a context frame to the error (see `spec_with_context`).
    pub fn with_context(self, context: &str) -> (e: LowerError)
        ensures
            spec_with_context(self, context@, e),
            e.spec_source_span() == self.spec_source_span(),
            e.spec_is_missing_binding() == self.spec_is_missing_binding(),
            e.spec_is_missing_binding_or_function() == self.spec_is_missing_binding_or_function(),
            e.spec_is_dynamic_while() == self.spec_is_dynamic_while(),
            e.spec_budget_parts() == self.spec_budget_parts(),
            !spec_has_inner_contract(self) ==> e.spec_reason() == context@ + ": "@
                + self.spec_reason(),
        decreases self,
    {
        let ghost old_self = self;
        let e = match self {
            LowerError::Unsupported { reason } => {
                let mut r = String::from_str(context);
                r.append(": ");
                r.append(reason.as_str());
                LowerError::Unsupported { reason: r }
            },
            LowerError::UnsupportedAt { reason, mut contexts, span } => {
                let ghost before = contexts@;
                let c = String::from_str(context);
                contexts.push(c);
                proof {
                    lemma_texts_push(before, c);
                }
                LowerError::UnsupportedAt { reason, contexts, span }
            },
            LowerError::Spanned { source, span } => {
                let inner = (*source).with_context(context);
                LowerError::Spanned { source: Box::new(inner), span }
            },
            LowerError::ContractViolation { reason, span } => {
                let mut r = String::from_str(context);
                r.append(": ");
                r.append(reason.as_str());
                LowerError::ContractViolation { reason: r, span }
            },
            LowerError::UnspannedContractViolation { reason } => {
                let mut r = String::from_str(context);
                r.append(": ");
                r.append(reason.as_str());
                LowerError::UnspannedContractViolation { reason: r }
            },
            LowerError::WithContext { source, mut contexts } => {
                let ghost before = contexts@;
                let c = String::from_str(context);
                contexts.push(c);
                proof {
                    lemma_texts_push(before, c);
                }
                LowerError::WithContext { source, contexts }
            },
            other => {
                let mut contexts: Vec<String> = Vec::new();
                let c = String::from_str(context);
                contexts.push(c);
                proof {
                    assert(texts(contexts@) =~= seq![c@]);
                }
                LowerError::WithContext { source: Box::new(other), contexts }
            },
        };
        proof {
            lemma_with_context_preserves(old_self, context@, e);
        }
        e
    }
}

} // verus!
