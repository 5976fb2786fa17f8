use vstd::prelude::*;

verus! {

/// Identifier of a source file. The identifier `0` is reserved for
/// compiler-generated code that has no source text.
#[derive(Clone, Copy, Debug, PartialEq, Eq, Structural)]
pub struct SourceId {
    pub id: u64,
}

impl SourceId {
    pub fn new(id: u64) -> (s: SourceId)
        ensures
            s.id == id,
    {
        SourceId { id }
    }
}

/// A byte range in a source file.
#[derive(Clone, Copy, Debug, PartialEq, Eq, Structural)]
pub struct Span {
    pub source: SourceId,
    pub start: usize,
    pub end: usize,
}

impl Span {
    /// A span is a placeholder when it belongs to no source file.
    pub open spec fn spec_is_dummy(&self) -> bool {
        self.source.id == 0
    }

    /// The placeholder span of generated code.
    pub fn dummy() -> (s: Span)
        ensures
            s.spec_is_dummy(),
            s.start == 0,
            s.end == 0,
    {
        Span { source: SourceId { id: 0 }, start: 0, end: 0 }
    }

    pub fn from_offsets(source: SourceId, start: usize, end: usize) -> (s: Span)
        ensures
            s.source == source,
            s.start == start,
            s.end == end,
    {
        Span { source, start, end }
    }

    #[verifier::when_used_as_spec(spec_is_dummy)]
    pub fn is_dummy(&self) -> (b: bool)
        ensures
            b == self.spec_is_dummy(),
    {
        self.source.id == 0
    }
}

/// The span itself when it carries source provenance, else the owner's.
pub open spec fn spec_span_or_owner(span: Span, owner_span: Span) -> Span {
    if span.spec_is_dummy() {
        owner_span
    } else {
        span
    }
}

pub fn span_or_owner(span: Span, owner_span: Span) -> (s: Span)
    ensures
        s == spec_span_or_owner(span, owner_span),
{
    if span.is_dummy() {
        owner_span
    } else {
        span
    }
}

/// Projection code inherits the owner's span for generated subexpressions.
pub fn inherited_projection_span(span: Span, owner_span: Span) -> (s: Span)
    ensures
        s == spec_span_or_owner(span, owner_span),
{
    if span.is_dummy() {
        owner_span
    } else {
        span
    }
}

} // verus!
