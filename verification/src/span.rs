use vstd::prelude::*;

verus! {

/// A half-open byte range `[start, end)` in a source text.
#[derive(Debug, Clone, Copy, PartialEq, Eq, Structural)]
pub struct NodeSpan {
    pub start: u32,
    pub end: u32,
}

/// Two half-open spans share at least one byte.
pub open spec fn spec_spans_overlap(left: NodeSpan, right: NodeSpan) -> bool {
    left.start < right.end && right.start < left.end
}

/// Whether two half-open spans share at least one byte.
pub fn spans_overlap(left: NodeSpan, right: NodeSpan) -> (res: bool)
    ensures
        res == spec_spans_overlap(left, right),
{
    left.start < right.end && right.start < left.end
}

/// Length of a span, zero when the span is inverted.
pub open spec fn spec_span_len(span: NodeSpan) -> u32 {
    if span.end >= span.start {
        (span.end - span.start) as u32
    } else {
        0
    }
}

/// Length of a span (`end - start`, saturating at zero).
pub fn span_len(span: NodeSpan) -> (res: u32)
    ensures
        res == spec_span_len(span),
{
    if span.end >= span.start {
        span.end - span.start
    } else {
        0
    }
}

} // verus!
