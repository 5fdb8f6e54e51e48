//! Text rewriting by byte spans: validation, trivia absorption for deletions,
//! diff generation and application.
use vstd::prelude::*;
use vstd::string::StringSliceAdditionalSpecFns;
use crate::order::{
    insert_index, is_index_permutation, lemma_insert_at, lemma_sort_indices_permutation,
    lemma_sort_indices_sorted, sort_indices, sorted_under, strict_order,
};
use crate::span::{spans_overlap, spec_spans_overlap, NodeSpan};
use crate::text::{
    append_decimal, append_text, byte_len, char_index, decimal, char_is_whitespace, is_boundary, lemma_char_index_of_prefix,
    lemma_prefix_mono, lemma_prefix_order, prefix_len, spec_is_whitespace, text_slice, TextIndex,
};

verus! {

/// A request to replace the text of `span` with `replacement`.
#[derive(Debug, Clone, PartialEq, Eq)]
pub struct SpanReplacement {
    pub span: NodeSpan,
    pub replacement: String,
    pub absorb_trivia: bool,
}

impl SpanReplacement {
    /// A replacement that keeps the surrounding whitespace.
    pub fn new(span: NodeSpan, replacement: &str) -> (res: Self)
        ensures
            res.span == span,
            res.replacement@ == replacement@,
            !res.absorb_trivia,
    {
        SpanReplacement { span, replacement: replacement.to_owned(), absorb_trivia: false }
    }

    /// The same replacement, asking that a deletion also remove the
    /// horizontal whitespace around it and one following line break.
    pub fn with_trivia_absorption(self) -> (res: Self)
        ensures
            res.span == self.span,
            res.replacement@ == self.replacement@,
            res.absorb_trivia,
    {
        let mut this = self;
        this.absorb_trivia = true;
        this
    }
}

/// One edit: the text `original` found at `span` becomes `replacement`.
#[derive(Debug, Clone, PartialEq, Eq)]
pub struct TextDiff {
    pub span: NodeSpan,
    pub original: String,
    pub replacement: String,
}

/// Why a set of spans or diffs was refused.
#[derive(Debug, Clone, Copy, PartialEq, Eq, Structural)]
pub enum SpanMutatorError {
    InvalidSpan { start: u32, end: u32 },
    OutOfBounds { span: NodeSpan, text_len: usize },
    InvalidCharBoundary { span: NodeSpan },
    OverlappingSpans { left: NodeSpan, right: NodeSpan },
    SourceMismatch { span: NodeSpan },
}

/// The message describing an error.
pub open spec fn error_message(e: SpanMutatorError) -> Seq<char> {
    match e {
        SpanMutatorError::InvalidSpan { start, end } => "Invalid span range: start ("@ + decimal(start as nat)
            + ") > end ("@ + decimal(end as nat) + ")"@,
        SpanMutatorError::OutOfBounds { span, text_len } => "Span ["@ + decimal(span.start as nat) + ", "@
            + decimal(span.end as nat) + ") is out of bounds for source length "@ + decimal(text_len as nat),
        SpanMutatorError::InvalidCharBoundary { span } => "Span ["@ + decimal(span.start as nat) + ", "@
            + decimal(span.end as nat) + ") does not align to UTF-8 char boundary"@,
        SpanMutatorError::OverlappingSpans { left, right } => "Overlapping spans detected: ["@ + decimal(
            left.start as nat,
        ) + ", "@ + decimal(left.end as nat) + ") and ["@ + decimal(right.start as nat) + ", "@ + decimal(
            right.end as nat,
        ) + ")"@,
        SpanMutatorError::SourceMismatch { span } => "Source text does not match expected original content at span ["@
            + decimal(span.start as nat) + ", "@ + decimal(span.end as nat) + ")"@,
    }
}

impl SpanMutatorError {
    /// The message describing the error, as `error_message` states.
    pub fn message(&self) -> (res: String)
        ensures
            res@ == error_message(*self),
    {
        let mut out = String::new();
        match *self {
            SpanMutatorError::InvalidSpan { start, end } => {
                append_text(&mut out, "Invalid span range: start (");
                append_decimal(&mut out, start as u64);
                append_text(&mut out, ") > end (");
                append_decimal(&mut out, end as u64);
                append_text(&mut out, ")");
            },
            SpanMutatorError::OutOfBounds { span, text_len } => {
                append_text(&mut out, "Span [");
                append_decimal(&mut out, span.start as u64);
                append_text(&mut out, ", ");
                append_decimal(&mut out, span.end as u64);
                append_text(&mut out, ") is out of bounds for source length ");
                append_decimal(&mut out, text_len as u64);
            },
            SpanMutatorError::InvalidCharBoundary { span } => {
                append_text(&mut out, "Span [");
                append_decimal(&mut out, span.start as u64);
                append_text(&mut out, ", ");
                append_decimal(&mut out, span.end as u64);
                append_text(&mut out, ") does not align to UTF-8 char boundary");
            },
            SpanMutatorError::OverlappingSpans { left, right } => {
                append_text(&mut out, "Overlapping spans detected: [");
                append_decimal(&mut out, left.start as u64);
                append_text(&mut out, ", ");
                append_decimal(&mut out, left.end as u64);
                append_text(&mut out, ") and [");
                append_decimal(&mut out, right.start as u64);
                append_text(&mut out, ", ");
                append_decimal(&mut out, right.end as u64);
                append_text(&mut out, ")");
            },
            SpanMutatorError::SourceMismatch { span } => {
                append_text(&mut out, "Source text does not match expected original content at span [");
                append_decimal(&mut out, span.start as u64);
                append_text(&mut out, ", ");
                append_decimal(&mut out, span.end as u64);
                append_text(&mut out, ")");
            },
        }
        assert(out@ =~= error_message(*self));
        out
    }
}

// ---------------------------------------------------------------------------
// Specification
// ---------------------------------------------------------------------------

/// The error of a single span, if any: inverted, past the end, or not on
/// char boundaries.
pub open spec fn span_error(s: Seq<char>, span: NodeSpan) -> Option<SpanMutatorError> {
    if span.start > span.end {
        Some(SpanMutatorError::InvalidSpan { start: span.start, end: span.end })
    } else if span.end > byte_len(s) {
        Some(SpanMutatorError::OutOfBounds { span, text_len: byte_len(s) as usize })
    } else if !is_boundary(s, span.start as int) || !is_boundary(s, span.end as int) {
        Some(SpanMutatorError::InvalidCharBoundary { span })
    } else {
        None
    }
}

/// The error of the first span from index `k` on that has one.
pub open spec fn first_span_error(s: Seq<char>, spans: Seq<NodeSpan>, k: int) -> Option<SpanMutatorError>
    decreases spans.len() - k,
{
    if k < 0 || k >= spans.len() {
        None
    } else {
        match span_error(s, spans[k]) {
            Some(e) => Some(e),
            None => first_span_error(s, spans, k + 1),
        }
    }
}

/// Order of spans by start, then end.
pub open spec fn span_key_lt(a: NodeSpan, b: NodeSpan) -> bool {
    a.start < b.start || (a.start == b.start && a.end < b.end)
}

/// Index comparison: span `i` sorts strictly before span `j`.
pub open spec fn span_before(spans: Seq<NodeSpan>) -> spec_fn(usize, usize) -> bool {
    |i: usize, j: usize| span_key_lt(spans[i as int], spans[j as int])
}

/// Indices of `spans` in stable order of (start, end).
pub open spec fn span_order(spans: Seq<NodeSpan>) -> Seq<usize> {
    sort_indices(spans.len(), span_before(spans))
}

/// The first pair of neighbours in `order`, from position `k`, whose spans overlap.
pub open spec fn first_adjacent_overlap(spans: Seq<NodeSpan>, order: Seq<usize>, k: int) -> Option<SpanMutatorError>
    decreases order.len() - k,
{
    if k < 0 || k + 1 >= order.len() {
        None
    } else if spec_spans_overlap(spans[order[k] as int], spans[order[k + 1] as int]) {
        Some(
            SpanMutatorError::OverlappingSpans {
                left: spans[order[k] as int],
                right: spans[order[k + 1] as int],
            },
        )
    } else {
        first_adjacent_overlap(spans, order, k + 1)
    }
}

/// Outcome of validating `spans` against the text `s`: the first invalid span
/// in input order, else the first overlapping pair in (start, end) order,
/// else no error.
pub open spec fn spans_error(s: Seq<char>, spans: Seq<NodeSpan>) -> Option<SpanMutatorError> {
    match first_span_error(s, spans, 0) {
        Some(e) => Some(e),
        None => first_adjacent_overlap(spans, span_order(spans), 0),
    }
}

/// Char index range of a span whose ends are boundaries.
pub open spec fn char_range(s: Seq<char>, span: NodeSpan) -> (int, int) {
    (char_index(s, span.start as int), char_index(s, span.end as int))
}

/// Horizontal whitespace: whitespace other than `\n` and `\r`.
pub open spec fn spec_is_horizontal_whitespace(c: char) -> bool {
    spec_is_whitespace(c) && !spec_is_newline(c)
}

pub open spec fn spec_is_newline(c: char) -> bool {
    c == '\n' || c == '\r'
}

/// Moves char index `k` left over horizontal whitespace, not past `limit`.
pub open spec fn absorb_left(s: Seq<char>, k: int, limit: int) -> int
    decreases k,
{
    if k > limit && 0 < k <= s.len() && spec_is_horizontal_whitespace(s[k - 1]) {
        absorb_left(s, k - 1, limit)
    } else {
        k
    }
}

/// Moves char index `k` right over horizontal whitespace, not past `limit`.
pub open spec fn absorb_right(s: Seq<char>, k: int, limit: int) -> int
    decreases limit - k,
{
    if 0 <= k < limit && k < s.len() && spec_is_horizontal_whitespace(s[k]) {
        absorb_right(s, k + 1, limit)
    } else {
        k
    }
}

/// Moves char index `k` over one following `\r\n`, `\n` or `\r`, not past `limit`.
pub open spec fn absorb_line_break(s: Seq<char>, k: int, limit: int) -> int {
    if 0 <= k && k + 2 <= limit && k + 2 <= s.len() && s[k] == '\r' && s[k + 1] == '\n' {
        k + 2
    } else if 0 <= k < limit && k < s.len() && spec_is_newline(s[k]) {
        k + 1
    } else {
        k
    }
}

/// A replacement removes its trivia when asked to and when it deletes.
pub open spec fn spec_should_absorb(r: SpanReplacement) -> bool {
    r.absorb_trivia && r.replacement@.len() == 0
}

pub open spec fn rep_spans(reps: Seq<SpanReplacement>) -> Seq<NodeSpan> {
    reps.map_values(|r: SpanReplacement| r.span)
}

pub open spec fn max_int(a: int, b: int) -> int {
    if a >= b {
        a
    } else {
        b
    }
}

pub open spec fn min_int(a: int, b: int) -> int {
    if a <= b {
        a
    } else {
        b
    }
}

/// Resolves the char ranges of the replacements, visiting them in (start,
/// end) order from position `pos`: a deletion that absorbs trivia grows over
/// the whitespace between its neighbours, and every range is clamped so that
/// it starts no earlier than the previous one ended and ends no later than
/// the next one starts.
pub open spec fn resolve_from(
    s: Seq<char>,
    reps: Seq<SpanReplacement>,
    order: Seq<usize>,
    pos: int,
    prev: int,
    acc: Seq<(int, int)>,
) -> Seq<(int, int)>
    decreases order.len() - pos,
{
    if pos < 0 || pos >= order.len() {
        acc
    } else {
        let i = order[pos] as int;
        let r = reps[i];
        let range = char_range(s, r.span);
        let right = if pos + 1 < order.len() {
            char_range(s, reps[order[pos + 1] as int].span).0
        } else {
            s.len() as int
        };
        let cand = if spec_should_absorb(r) {
            (absorb_left(s, range.0, prev), absorb_line_break(s, absorb_right(s, range.1, right), right))
        } else {
            range
        };
        let st = max_int(cand.0, prev);
        let en = min_int(max_int(cand.1, st), right);
        resolve_from(s, reps, order, pos + 1, en, acc.update(i, (st, en)))
    }
}

/// The spans that the replacements cover once trivia is absorbed and
/// neighbours are kept apart.
pub open spec fn resolved_spans(s: Seq<char>, reps: Seq<SpanReplacement>) -> Seq<NodeSpan> {
    let ranges = resolve_from(
        s,
        reps,
        span_order(rep_spans(reps)),
        0,
        0,
        Seq::new(reps.len(), |i: int| (0int, 0int)),
    );
    Seq::new(
        reps.len(),
        |i: int|
            NodeSpan {
                start: prefix_len(s, ranges[i].0) as u32,
                end: prefix_len(s, ranges[i].1) as u32,
            },
    )
}

/// Diff `d` replaces the text of `span` in `s` with `replacement`.
pub open spec fn is_diff_of(d: TextDiff, s: Seq<char>, span: NodeSpan, replacement: Seq<char>) -> bool {
    &&& d.span == span
    &&& d.original@ == text_slice(s, span.start as int, span.end as int)
    &&& d.replacement@ == replacement
}

/// Error of generating diffs: the replacements' spans must be valid, and so
/// must the resolved spans.
pub open spec fn generate_error(s: Seq<char>, reps: Seq<SpanReplacement>) -> Option<SpanMutatorError> {
    match spans_error(s, rep_spans(reps)) {
        Some(e) => Some(e),
        None => spans_error(s, resolved_spans(s, reps)),
    }
}

pub open spec fn diff_spans(diffs: Seq<TextDiff>) -> Seq<NodeSpan> {
    diffs.map_values(|d: TextDiff| d.span)
}

/// The first diff, from index `k`, whose `original` differs from the text at its span.
pub open spec fn first_mismatch(s: Seq<char>, diffs: Seq<TextDiff>, k: int) -> Option<SpanMutatorError>
    decreases diffs.len() - k,
{
    if k < 0 || k >= diffs.len() {
        None
    } else if text_slice(s, diffs[k].span.start as int, diffs[k].span.end as int) != diffs[k].original@ {
        Some(SpanMutatorError::SourceMismatch { span: diffs[k].span })
    } else {
        first_mismatch(s, diffs, k + 1)
    }
}

/// Error of applying diffs: invalid spans first, then a text mismatch.
pub open spec fn apply_error(s: Seq<char>, diffs: Seq<TextDiff>) -> Option<SpanMutatorError> {
    match spans_error(s, diff_spans(diffs)) {
        Some(e) => Some(e),
        None => first_mismatch(s, diffs, 0),
    }
}

/// The edits of a list of diffs: each span with its replacement text.
pub open spec fn diff_edits(diffs: Seq<TextDiff>) -> Seq<(NodeSpan, Seq<char>)> {
    diffs.map_values(|d: TextDiff| (d.span, d.replacement@))
}

pub open spec fn edit_spans(edits: Seq<(NodeSpan, Seq<char>)>) -> Seq<NodeSpan> {
    edits.map_values(|e: (NodeSpan, Seq<char>)| e.0)
}

/// Order of spans by end, then start.
pub open spec fn end_key_lt(a: NodeSpan, b: NodeSpan) -> bool {
    a.end < b.end || (a.end == b.end && a.start < b.start)
}

/// Application order of edits: by (end, start), and later edits first among
/// equal spans (so that of several insertions at one offset the last given
/// ends up leftmost).
pub open spec fn edit_before(edits: Seq<(NodeSpan, Seq<char>)>) -> spec_fn(usize, usize) -> bool {
    |i: usize, j: usize|
        end_key_lt(edits[i as int].0, edits[j as int].0) || (edits[i as int].0 == edits[j as int].0
            && i > j)
}

pub open spec fn edit_order(edits: Seq<(NodeSpan, Seq<char>)>) -> Seq<usize> {
    sort_indices(edits.len(), edit_before(edits))
}

/// The text from char index `from` on, with the edits at positions `p..` of
/// `order` spliced in.
pub open spec fn splice_from(
    s: Seq<char>,
    edits: Seq<(NodeSpan, Seq<char>)>,
    order: Seq<usize>,
    p: int,
    from: int,
) -> Seq<char>
    decreases order.len() - p,
{
    if p < 0 || p >= order.len() {
        s.subrange(from, s.len() as int)
    } else {
        let e = edits[order[p] as int];
        let r = char_range(s, e.0);
        s.subrange(from, r.0) + e.1 + splice_from(s, edits, order, p + 1, r.1)
    }
}

/// The text with the span of every edit replaced by the edit's text.
pub open spec fn applied_text(s: Seq<char>, edits: Seq<(NodeSpan, Seq<char>)>) -> Seq<char> {
    splice_from(s, edits, edit_order(edits), 0, 0)
}

/// The edits that a list of replacements makes: the resolved spans with the
/// replacement texts.
pub open spec fn replacement_edits(s: Seq<char>, reps: Seq<SpanReplacement>) -> Seq<(NodeSpan, Seq<char>)> {
    Seq::new(reps.len(), |i: int| (resolved_spans(s, reps)[i], reps[i].replacement@))
}

/// Outcome of applying replacements to `s`.
pub open spec fn replaced_text(s: Seq<char>, reps: Seq<SpanReplacement>) -> Result<Seq<char>, SpanMutatorError> {
    match generate_error(s, reps) {
        Some(e) => Err(e),
        None => Ok(applied_text(s, replacement_edits(s, reps))),
    }
}

// ---------------------------------------------------------------------------
// Proofs about validated spans
// ---------------------------------------------------------------------------

proof fn lemma_span_before_strict(spans: Seq<NodeSpan>)
    ensures
        strict_order(span_before(spans)),
{
    let b = span_before(spans);
    assert forall|x: usize, y: usize, z: usize| #[trigger] b(x, y) && #[trigger] b(y, z) implies b(x, z) by {}
}

proof fn lemma_edit_before_strict(edits: Seq<(NodeSpan, Seq<char>)>)
    ensures
        strict_order(edit_before(edits)),
{
    let b = edit_before(edits);
    assert forall|x: usize, y: usize, z: usize| #[trigger] b(x, y) && #[trigger] b(y, z) implies b(x, z) by {}
}

proof fn lemma_first_span_error_none(s: Seq<char>, spans: Seq<NodeSpan>, k: int)
    requires
        0 <= k,
        first_span_error(s, spans, k) is None,
    ensures
        forall|i: int| k <= i < spans.len() ==> span_error(s, #[trigger] spans[i]) is None,
    decreases spans.len() - k,
{
    if k < spans.len() {
        lemma_first_span_error_none(s, spans, k + 1);
    }
}

proof fn lemma_adjacent_none(spans: Seq<NodeSpan>, order: Seq<usize>, k: int)
    requires
        0 <= k,
        first_adjacent_overlap(spans, order, k) is None,
    ensures
        forall|p: int|
            k <= p && p + 1 < order.len() ==> !spec_spans_overlap(
                spans[order[p] as int],
                #[trigger] spans[order[p + 1] as int],
            ),
    decreases order.len() - k,
{
    if k + 1 < order.len() {
        lemma_adjacent_none(spans, order, k + 1);
    }
}

/// In (start, end) order with no neighbours overlapping, every span starts at
/// or after the end of every span before it.
proof fn lemma_sorted_chain(spans: Seq<NodeSpan>, order: Seq<usize>)
    requires
        is_index_permutation(order, spans.len()),
        sorted_under(order, span_before(spans)),
        forall|i: int| 0 <= i < spans.len() ==> spans[i].start <= spans[i].end,
        first_adjacent_overlap(spans, order, 0) is None,
    ensures
        forall|p: int, q: int|
            0 <= p < q < order.len() ==> spans[order[q] as int].start >= spans[order[p] as int].end,
{
    lemma_adjacent_none(spans, order, 0);
    assert forall|p: int| 0 <= p && p + 1 < order.len() implies spans[order[p + 1] as int].start
        >= spans[order[p] as int].end by {
        let a = spans[order[p] as int];
        let b = spans[order[p + 1] as int];
        assert(!spec_spans_overlap(a, b));
        assert(!span_before(spans)(order[p + 1], order[p]));
    }
    assert forall|p: int, q: int| 0 <= p < q < order.len() implies spans[order[q] as int].start
        >= spans[order[p] as int].end by {
        lemma_chain_step(spans, order, p, q);
    }
}

proof fn lemma_chain_step(spans: Seq<NodeSpan>, order: Seq<usize>, p: int, q: int)
    requires
        0 <= p < q < order.len(),
        forall|i: int| 0 <= i < order.len() ==> order[i] < spans.len(),
        forall|i: int| 0 <= i < spans.len() ==> spans[i].start <= spans[i].end,
        forall|r: int|
            0 <= r && r + 1 < order.len() ==> spans[order[r + 1] as int].start >= spans[order[r] as int].end,
    ensures
        spans[order[q] as int].start >= spans[order[p] as int].end,
    decreases q - p,
{
    if q > p + 1 {
        lemma_chain_step(spans, order, p, q - 1);
        assert(spans[order[q - 1] as int].start <= spans[order[q - 1] as int].end);
    }
}

/// Valid spans overlap in no pair.
proof fn lemma_valid_spans_disjoint(s: Seq<char>, spans: Seq<NodeSpan>)
    requires
        spans.len() <= usize::MAX,
        spans_error(s, spans) is None,
    ensures
        forall|i: int, j: int|
            0 <= i < spans.len() && 0 <= j < spans.len() && i != j ==> !spec_spans_overlap(
                spans[i],
                spans[j],
            ),
        forall|i: int| 0 <= i < spans.len() ==> span_error(s, #[trigger] spans[i]) is None,
{
    lemma_first_span_error_none(s, spans, 0);
    let order = span_order(spans);
    lemma_sort_indices_permutation(spans.len(), span_before(spans));
    lemma_span_before_strict(spans);
    lemma_sort_indices_sorted(spans.len(), span_before(spans));
    lemma_sorted_chain(spans, order);
    assert forall|i: int, j: int|
        0 <= i < spans.len() && 0 <= j < spans.len() && i != j implies !spec_spans_overlap(
        spans[i],
        spans[j],
    ) by {
        assert(order.contains(i as usize));
        assert(order.contains(j as usize));
        let p = choose|p: int| 0 <= p < order.len() && order[p] == i as usize;
        let q = choose|q: int| 0 <= q < order.len() && order[q] == j as usize;
        assert(span_error(s, spans[i]) is None);
        assert(span_error(s, spans[j]) is None);
        if p < q {
        } else {
            assert(q < p);
        }
    }
}

/// In application order, every edit starts at or after the end of the one
/// before it.
proof fn lemma_edit_order_chain(s: Seq<char>, edits: Seq<(NodeSpan, Seq<char>)>)
    requires
        edits.len() <= usize::MAX,
        spans_error(s, edit_spans(edits)) is None,
    ensures
        forall|p: int|
            0 <= p && p + 1 < edit_order(edits).len() ==> edits[edit_order(edits)[p + 1] as int].0.start
                >= edits[edit_order(edits)[p] as int].0.end,
        is_index_permutation(edit_order(edits), edits.len()),
{
    let spans = edit_spans(edits);
    lemma_valid_spans_disjoint(s, spans);
    let order = edit_order(edits);
    lemma_sort_indices_permutation(edits.len(), edit_before(edits));
    lemma_edit_before_strict(edits);
    lemma_sort_indices_sorted(edits.len(), edit_before(edits));
    assert forall|p: int| 0 <= p && p + 1 < order.len() implies edits[order[p + 1] as int].0.start
        >= edits[order[p] as int].0.end by {
        let a = order[p] as int;
        let b = order[p + 1] as int;
        assert(a != b);
        assert(spans[a] == edits[a].0);
        assert(spans[b] == edits[b].0);
        assert(!spec_spans_overlap(spans[a], spans[b]));
        assert(!edit_before(edits)(order[p + 1], order[p]));
        assert(span_error(s, spans[a]) is None);
        assert(span_error(s, spans[b]) is None);
    }
}

proof fn lemma_first_mismatch_none(s: Seq<char>, diffs: Seq<TextDiff>, k: int)
    requires
        0 <= k,
        forall|i: int|
            0 <= i < diffs.len() ==> text_slice(s, (#[trigger] diffs[i]).span.start as int, diffs[i].span.end as int)
                == diffs[i].original@,
    ensures
        first_mismatch(s, diffs, k) is None,
    decreases diffs.len() - k,
{
    if k < diffs.len() {
        lemma_first_mismatch_none(s, diffs, k + 1);
    }
}

// ---------------------------------------------------------------------------
// Implementation
// ---------------------------------------------------------------------------

/// Whether a char is whitespace other than a line break.
pub fn is_horizontal_whitespace(ch: char) -> (res: bool)
    ensures
        res == spec_is_horizontal_whitespace(ch),
{
    char_is_whitespace(ch) && !is_newline(ch)
}

/// Whether a char is `\n` or `\r`.
pub fn is_newline(ch: char) -> (res: bool)
    ensures
        res == spec_is_newline(ch),
{
    ch == '\n' || ch == '\r'
}

/// Whether a replacement deletes and asks to absorb the trivia around it.
pub fn should_absorb_trivia(replacement: &SpanReplacement) -> (res: bool)
    ensures
        res == spec_should_absorb(*replacement),
{
    replacement.absorb_trivia && replacement.replacement.as_str().is_empty()
}

/// Validates spans against the indexed text; on success yields the char
/// range of every span and the (start, end) order of the spans.
fn check_spans(index: &TextIndex, spans: &Vec<NodeSpan>) -> (res: Result<(Vec<(usize, usize)>, Vec<usize>), SpanMutatorError>)
    requires
        index.wf(),
    ensures
        match res {
            Ok((ranges, order)) => {
                &&& spans_error(index.text(), spans@) is None
                &&& ranges@.len() == spans@.len()
                &&& order@ == span_order(spans@)
                &&& forall|i: int|
                    0 <= i < spans@.len() ==> {
                        &&& (#[trigger] ranges@[i]).0 as int == char_range(index.text(), spans@[i]).0
                        &&& ranges@[i].1 as int == char_range(index.text(), spans@[i]).1
                        &&& ranges@[i].0 <= ranges@[i].1 <= index.text().len()
                    }
            },
            Err(e) => spans_error(index.text(), spans@) == Some(e),
        },
{
    let ghost s = index.text();
    let text_len = index.byte_count();
    let n = spans.len();
    let mut ranges: Vec<(usize, usize)> = Vec::new();
    let mut k: usize = 0;
    while k < n
        invariant
            index.wf(),
            s == index.text(),
            n == spans@.len(),
            text_len as int == byte_len(s),
            0 <= k <= n,
            ranges@.len() == k,
            first_span_error(s, spans@, 0) == first_span_error(s, spans@, k as int),
            forall|i: int|
                0 <= i < k ==> {
                    &&& (#[trigger] ranges@[i]).0 as int == char_range(s, spans@[i]).0
                    &&& ranges@[i].1 as int == char_range(s, spans@[i]).1
                    &&& ranges@[i].0 <= ranges@[i].1 <= s.len()
                },
        decreases n - k,
    {
        let span = spans[k];
        if span.start > span.end {
            return Err(SpanMutatorError::InvalidSpan { start: span.start, end: span.end });
        }
        if span.end as usize > text_len {
            return Err(SpanMutatorError::OutOfBounds { span, text_len });
        }
        let ks = index.find_boundary(span.start as usize);
        let ke = index.find_boundary(span.end as usize);
        match (ks, ke) {
            (Some(a), Some(b)) => {
                proof {
                    lemma_prefix_order(s, a as int, b as int);
                }
                ranges.push((a, b));
            },
            _ => {
                return Err(SpanMutatorError::InvalidCharBoundary { span });
            },
        }
        k = k + 1;
    }
    // Stable insertion sort of the indices by (start, end).
    assert(first_span_error(s, spans@, 0) is None);
    let ghost before = span_before(spans@);
    let mut order: Vec<usize> = Vec::new();
    let mut i: usize = 0;
    while i < n
        invariant
            first_span_error(s, spans@, 0) is None,
            s == index.text(),
            ranges@.len() == n,
            forall|i: int|
                0 <= i < n ==> {
                    &&& (#[trigger] ranges@[i]).0 as int == char_range(s, spans@[i]).0
                    &&& ranges@[i].1 as int == char_range(s, spans@[i]).1
                    &&& ranges@[i].0 <= ranges@[i].1 <= s.len()
                },
            n == spans@.len(),
            before == span_before(spans@),
            0 <= i <= n,
            order@ == sort_indices(i as nat, before),
            order@.len() == i,
            forall|j: int| 0 <= j < order@.len() ==> order@[j] < i,
        decreases n - i,
    {
        proof {
            lemma_sort_indices_permutation(i as nat, before);
        }
        let mut pos: usize = 0;
        while pos < order.len()
            invariant
                n == spans@.len(),
                before == span_before(spans@),
                i < n,
                0 <= pos <= order@.len(),
                forall|j: int| 0 <= j < order@.len() ==> order@[j] < i,
                forall|j: int| 0 <= j < pos ==> !before(i, #[trigger] order@[j]),
            ensures
                0 <= pos <= order@.len(),
                forall|j: int| 0 <= j < pos ==> !before(i, #[trigger] order@[j]),
                pos == order@.len() || before(i, order@[pos as int]),
            decreases order@.len() - pos,
        {
            let o = order[pos];
            let a = spans[i];
            let b = spans[o];
            if a.start < b.start || (a.start == b.start && a.end < b.end) {
                break;
            }
            pos = pos + 1;
        }
        proof {
            lemma_insert_at(order@, i, before, pos as int);
        }
        order.insert(pos, i);
        i = i + 1;
    }
    let mut p: usize = 0;
    while n > 0 && p < n - 1
        invariant
            first_span_error(s, spans@, 0) is None,
            s == index.text(),
            ranges@.len() == n,
            forall|i: int|
                0 <= i < n ==> {
                    &&& (#[trigger] ranges@[i]).0 as int == char_range(s, spans@[i]).0
                    &&& ranges@[i].1 as int == char_range(s, spans@[i]).1
                    &&& ranges@[i].0 <= ranges@[i].1 <= s.len()
                },
            n == spans@.len(),
            order@ == sort_indices(n as nat, before),
            before == span_before(spans@),
            order@.len() == n,
            forall|j: int| 0 <= j < order@.len() ==> order@[j] < n,
            first_adjacent_overlap(spans@, order@, 0) == first_adjacent_overlap(spans@, order@, p as int),
        decreases n - p,
    {
        let left = spans[order[p]];
        let right = spans[order[p + 1]];
        if spans_overlap(left, right) {
            return Err(SpanMutatorError::OverlappingSpans { left, right });
        }
        p = p + 1;
    }
    Ok((ranges, order))
}

/// Checks that every span is valid for `source` and that no two overlap.
pub fn validate_spans(source: &str, spans: &[NodeSpan]) -> (res: Result<(), SpanMutatorError>)
    ensures
        match res {
            Ok(()) => spans_error(source@, spans@) is None,
            Err(e) => spans_error(source@, spans@) == Some(e),
        },
{
    let index = TextIndex::new(source);
    let mut owned: Vec<NodeSpan> = Vec::new();
    let mut k: usize = 0;
    while k < spans.len()
        invariant
            0 <= k <= spans@.len(),
            owned@ == spans@.take(k as int),
        decreases spans@.len() - k,
    {
        owned.push(spans[k]);
        assert(spans@.take(k + 1) =~= spans@.take(k as int).push(spans@[k as int]));
        k = k + 1;
    }
    assert(spans@.take(spans@.len() as int) =~= spans@);
    match check_spans(&index, &owned) {
        Ok(_) => Ok(()),
        Err(e) => Err(e),
    }
}

/// Checks the spans of the replacements.
pub fn validate_replacements(source: &str, replacements: &[SpanReplacement]) -> (res: Result<(), SpanMutatorError>)
    ensures
        match res {
            Ok(()) => spans_error(source@, rep_spans(replacements@)) is None,
            Err(e) => spans_error(source@, rep_spans(replacements@)) == Some(e),
        },
{
    let spans = collect_rep_spans(replacements);
    validate_spans(source, spans.as_slice())
}

fn collect_rep_spans(replacements: &[SpanReplacement]) -> (spans: Vec<NodeSpan>)
    ensures
        spans@ == rep_spans(replacements@),
{
    let mut spans: Vec<NodeSpan> = Vec::new();
    let mut k: usize = 0;
    while k < replacements.len()
        invariant
            0 <= k <= replacements@.len(),
            spans@ == rep_spans(replacements@.take(k as int)),
        decreases replacements@.len() - k,
    {
        spans.push(replacements[k].span);
        assert(rep_spans(replacements@.take(k + 1)) =~= rep_spans(replacements@.take(k as int)).push(replacements@[k as int].span));
        k = k + 1;
    }
    assert(replacements@.take(replacements@.len() as int) =~= replacements@);
    spans
}

fn collect_diff_spans(diffs: &[TextDiff]) -> (spans: Vec<NodeSpan>)
    ensures
        spans@ == diff_spans(diffs@),
{
    let mut spans: Vec<NodeSpan> = Vec::new();
    let mut k: usize = 0;
    while k < diffs.len()
        invariant
            0 <= k <= diffs@.len(),
            spans@ == diff_spans(diffs@.take(k as int)),
        decreases diffs@.len() - k,
    {
        spans.push(diffs[k].span);
        assert(diff_spans(diffs@.take(k + 1)) =~= diff_spans(diffs@.take(k as int)).push(diffs@[k as int].span));
        k = k + 1;
    }
    assert(diffs@.take(diffs@.len() as int) =~= diffs@);
    spans
}

fn absorb_left_exec(index: &TextIndex, k: usize, limit: usize) -> (res: usize)
    requires
        index.wf(),
        k <= index.text().len(),
    ensures
        res as int == absorb_left(index.text(), k as int, limit as int),
        res <= k,
{
    let mut cur = k;
    while cur > limit && is_horizontal_whitespace(index.char_at(cur - 1))
        invariant
            index.wf(),
            cur <= k <= index.text().len(),
            absorb_left(index.text(), cur as int, limit as int) == absorb_left(index.text(), k as int, limit as int),
        decreases cur,
    {
        cur = cur - 1;
    }
    cur
}

fn absorb_right_exec(index: &TextIndex, k: usize, limit: usize) -> (res: usize)
    requires
        index.wf(),
        k <= limit <= index.text().len(),
    ensures
        res as int == absorb_right(index.text(), k as int, limit as int),
        k <= res <= limit,
{
    let mut cur = k;
    while cur < limit && is_horizontal_whitespace(index.char_at(cur))
        invariant
            index.wf(),
            k <= cur <= limit <= index.text().len(),
            absorb_right(index.text(), cur as int, limit as int) == absorb_right(index.text(), k as int, limit as int),
        decreases limit - cur,
    {
        cur = cur + 1;
    }
    cur
}

fn absorb_line_break_exec(index: &TextIndex, k: usize, limit: usize) -> (res: usize)
    requires
        index.wf(),
        k <= limit <= index.text().len(),
    ensures
        res as int == absorb_line_break(index.text(), k as int, limit as int),
        k <= res <= limit,
{
    if k < limit && limit - k >= 2 && index.char_at(k) == '\r' && index.char_at(k + 1) == '\n' {
        k + 2
    } else if k < limit && is_newline(index.char_at(k)) {
        k + 1
    } else {
        k
    }
}

/// Widens a deletion over the horizontal whitespace around `span` (not past
/// the byte limits) and over one line break after it.
pub fn absorb_trivia_around_span(source: &str, span: NodeSpan, left_limit: usize, right_limit: usize) -> (res: Option<NodeSpan>)
    ensures
        res is Some <==> (is_boundary(source@, span.start as int) && is_boundary(source@, span.end as int)
            && is_boundary(source@, left_limit as int) && is_boundary(source@, right_limit as int)
            && left_limit <= span.start <= span.end <= right_limit),
        res matches Some(r) ==> {
            let ks = char_index(source@, span.start as int);
            let ke = char_index(source@, span.end as int);
            let kl = char_index(source@, left_limit as int);
            let kr = char_index(source@, right_limit as int);
            &&& r.start as int == prefix_len(source@, absorb_left(source@, ks, kl)) as u32
            &&& r.end as int == prefix_len(source@, absorb_line_break(source@, absorb_right(source@, ke, kr), kr)) as u32
        },
{
    let index = TextIndex::new(source);
    if span.start > span.end || (span.start as usize) < left_limit || (span.end as usize) > right_limit {
        return None;
    }
    let ks = index.find_boundary(span.start as usize);
    let ke = index.find_boundary(span.end as usize);
    let kl = index.find_boundary(left_limit);
    let kr = index.find_boundary(right_limit);
    match (ks, ke, kl, kr) {
        (Some(ks), Some(ke), Some(kl), Some(kr)) => {
            proof {
                lemma_prefix_order(source@, ke as int, kr as int);
            }
            let a = absorb_left_exec(&index, ks, kl);
            let b0 = absorb_right_exec(&index, ke, kr);
            let b = absorb_line_break_exec(&index, b0, kr);
            let start = index.offset_of(a);
            let end = index.offset_of(b);
            Some(NodeSpan { start: start as u32, end: end as u32 })
        },
        _ => None,
    }
}

/// Resolves the char ranges of the replacements (see `resolve_from`).
fn resolve_ranges(
    index: &TextIndex,
    replacements: &[SpanReplacement],
    ranges: &Vec<(usize, usize)>,
    order: &Vec<usize>,
) -> (res: Vec<(usize, usize)>)
    requires
        index.wf(),
        ranges@.len() == replacements@.len(),
        order@ == span_order(rep_spans(replacements@)),
        is_index_permutation(order@, replacements@.len()),
        forall|i: int|
            0 <= i < replacements@.len() ==> {
                &&& (#[trigger] ranges@[i]).0 as int == char_range(index.text(), replacements@[i].span).0
                &&& ranges@[i].1 as int == char_range(index.text(), replacements@[i].span).1
                &&& ranges@[i].0 <= ranges@[i].1 <= index.text().len()
            },
    ensures
        res@.len() == replacements@.len(),
        forall|i: int|
            0 <= i < res@.len() ==> (#[trigger] res@[i]).0 <= index.text().len() && res@[i].1 <= index.text().len(),
        forall|i: int|
            0 <= i < res@.len() ==> ((#[trigger] res@[i]).0 as int, res@[i].1 as int) == resolve_from(
                index.text(),
                replacements@,
                order@,
                0,
                0,
                Seq::new(replacements@.len(), |i: int| (0int, 0int)),
            )[i],
{
    let ghost s = index.text();
    let ghost reps = replacements@;
    let n = replacements.len();
    let len = index.char_count();
    let mut resolved: Vec<(usize, usize)> = Vec::new();
    let mut k: usize = 0;
    while k < n
        invariant
            0 <= k <= n,
            resolved@.len() == k,
            forall|i: int| 0 <= i < k ==> (#[trigger] resolved@[i]) == (0usize, 0usize),
        decreases n - k,
    {
        resolved.push((0, 0));
        k = k + 1;
    }
    let ghost init = Seq::new(n as nat, |i: int| (0int, 0int));
    assert(Seq::new(n as nat, |i: int| (resolved@[i].0 as int, resolved@[i].1 as int)) =~= init);
    let mut prev: usize = 0;
    let mut pos: usize = 0;
    while pos < n
        invariant
            index.wf(),
            s == index.text(),
            reps == replacements@,
            n == reps.len(),
            len == s.len(),
            order@.len() == n,
            ranges@.len() == n,
            forall|j: int| 0 <= j < n ==> order@[j] < n,
            forall|i: int|
                0 <= i < n ==> {
                    &&& (#[trigger] ranges@[i]).0 as int == char_range(s, reps[i].span).0
                    &&& ranges@[i].1 as int == char_range(s, reps[i].span).1
                    &&& ranges@[i].0 <= ranges@[i].1 <= s.len()
                },
            0 <= pos <= n,
            prev <= len,
            resolved@.len() == n,
            forall|i: int| 0 <= i < n ==> (#[trigger] resolved@[i]).0 <= len && resolved@[i].1 <= len,
            resolve_from(s, reps, order@, 0, 0, init) == resolve_from(
                s,
                reps,
                order@,
                pos as int,
                prev as int,
                Seq::new(n as nat, |i: int| (resolved@[i].0 as int, resolved@[i].1 as int)),
            ),
        decreases n - pos,
    {
        let i = order[pos];
        let r = &replacements[i];
        let (ks, ke) = ranges[i];
        let right = if pos + 1 < n {
            ranges[order[pos + 1]].0
        } else {
            len
        };
        let (cs, ce) = if should_absorb_trivia(r) {
            let a = absorb_left_exec(index, ks, prev);
            let right_ws = if ke <= right {
                absorb_right_exec(index, ke, right)
            } else {
                ke
            };
            let b = if right_ws <= right {
                absorb_line_break_exec(index, right_ws, right)
            } else {
                right_ws
            };
            (a, b)
        } else {
            (ks, ke)
        };
        let st = if cs >= prev {
            cs
        } else {
            prev
        };
        let m = if ce >= st {
            ce
        } else {
            st
        };
        let en = if m <= right {
            m
        } else {
            right
        };
        let ghost before_acc = Seq::new(n as nat, |j: int| (resolved@[j].0 as int, resolved@[j].1 as int));
        resolved[i] = (st, en);
        proof {
            let after_acc = Seq::new(n as nat, |j: int| (resolved@[j].0 as int, resolved@[j].1 as int));
            assert(after_acc =~= before_acc.update(i as int, (st as int, en as int)));
        }
        prev = en;
        pos = pos + 1;
    }
    proof {
        let fin = Seq::new(n as nat, |j: int| (resolved@[j].0 as int, resolved@[j].1 as int));
        assert(resolve_from(s, reps, order@, n as int, prev as int, fin) == fin);
    }
    resolved
}

/// Produces one diff per replacement: its resolved span, the text found
/// there, and the replacement text.
pub fn generate_text_diffs(source: &str, replacements: &[SpanReplacement]) -> (res: Result<Vec<TextDiff>, SpanMutatorError>)
    ensures
        match res {
            Ok(diffs) => {
                &&& generate_error(source@, replacements@) is None
                &&& diffs@.len() == replacements@.len()
                &&& forall|i: int|
                    0 <= i < diffs@.len() ==> is_diff_of(
                        #[trigger] diffs@[i],
                        source@,
                        resolved_spans(source@, replacements@)[i],
                        replacements@[i].replacement@,
                    )
            },
            Err(e) => generate_error(source@, replacements@) == Some(e),
        },
{
    let ghost s = source@;
    let ghost reps = replacements@;
    let index = TextIndex::new(source);
    let spans = collect_rep_spans(replacements);
    let checked = check_spans(&index, &spans);
    let (ranges, order) = match checked {
        Ok(v) => v,
        Err(e) => {
            return Err(e);
        },
    };
    proof {
        lemma_sort_indices_permutation(reps.len(), span_before(rep_spans(reps)));
        assert forall|i: int| 0 <= i < reps.len() implies rep_spans(reps)[i] == reps[i].span by {}
    }
    let resolved = resolve_ranges(&index, replacements, &ranges, &order);
    let n = replacements.len();
    let mut new_spans: Vec<NodeSpan> = Vec::new();
    let mut k: usize = 0;
    while k < n
        invariant
            index.wf(),
            s == index.text(),
            s == source@,
            reps == replacements@,
            n == reps.len(),
            resolved@.len() == n,
            forall|i: int| 0 <= i < n ==> (#[trigger] resolved@[i]).0 <= s.len() && resolved@[i].1 <= s.len(),
            0 <= k <= n,
            new_spans@.len() == k,
            forall|i: int|
                0 <= i < k ==> #[trigger] new_spans@[i] == (NodeSpan {
                    start: prefix_len(s, resolved@[i].0 as int) as u32,
                    end: prefix_len(s, resolved@[i].1 as int) as u32,
                }),
        decreases n - k,
    {
        let (a, b) = resolved[k];
        let start = index.offset_of(a);
        let end = index.offset_of(b);
        new_spans.push(NodeSpan { start: start as u32, end: end as u32 });
        k = k + 1;
    }
    assert(new_spans@ =~= resolved_spans(s, reps));
    let checked2 = check_spans(&index, &new_spans);
    let (ranges2, _order2) = match checked2 {
        Ok(v) => v,
        Err(e) => {
            return Err(e);
        },
    };
    let mut diffs: Vec<TextDiff> = Vec::new();
    let mut j: usize = 0;
    while j < n
        invariant
            index.wf(),
            s == index.text(),
            s == source@,
            reps == replacements@,
            n == reps.len(),
            new_spans@ == resolved_spans(s, reps),
            ranges2@.len() == n,
            forall|i: int|
                0 <= i < n ==> {
                    &&& (#[trigger] ranges2@[i]).0 as int == char_range(s, new_spans@[i]).0
                    &&& ranges2@[i].1 as int == char_range(s, new_spans@[i]).1
                    &&& ranges2@[i].0 <= ranges2@[i].1 <= s.len()
                },
            0 <= j <= n,
            diffs@.len() == j,
            forall|i: int|
                0 <= i < j ==> is_diff_of(#[trigger] diffs@[i], s, new_spans@[i], reps[i].replacement@),
        decreases n - j,
    {
        let (a, b) = ranges2[j];
        let original = index.slice(a, b);
        let replacement = replacements[j].replacement.clone();
        diffs.push(TextDiff { span: new_spans[j], original, replacement });
        j = j + 1;
    }
    Ok(diffs)
}

/// Applies the diffs to `source` after checking their spans and that each
/// `original` is the text at its span.
pub fn apply_text_diffs(source: &str, diffs: &[TextDiff]) -> (res: Result<String, SpanMutatorError>)
    ensures
        match res {
            Ok(t) => apply_error(source@, diffs@) is None && t@ == applied_text(source@, diff_edits(diffs@)),
            Err(e) => apply_error(source@, diffs@) == Some(e),
        },
{
    let ghost s = source@;
    let ghost edits = diff_edits(diffs@);
    let index = TextIndex::new(source);
    let spans = collect_diff_spans(diffs);
    let (ranges, _order) = match check_spans(&index, &spans) {
        Ok(v) => v,
        Err(e) => {
            return Err(e);
        },
    };
    let n = diffs.len();
    let mut k: usize = 0;
    while k < n
        invariant
            index.wf(),
            s == index.text(),
            s == source@,
            n == diffs@.len(),
            spans@ == diff_spans(diffs@),
            ranges@.len() == n,
            forall|i: int|
                0 <= i < n ==> {
                    &&& (#[trigger] ranges@[i]).0 as int == char_range(s, spans@[i]).0
                    &&& ranges@[i].1 as int == char_range(s, spans@[i]).1
                    &&& ranges@[i].0 <= ranges@[i].1 <= s.len()
                },
            0 <= k <= n,
            spans_error(s, diff_spans(diffs@)) is None,
            first_mismatch(s, diffs@, 0) == first_mismatch(s, diffs@, k as int),
        decreases n - k,
    {
        let (a, b) = ranges[k];
        let found = index.slice(a, b);
        assert(spans@[k as int] == diffs@[k as int].span);
        if !(found == diffs[k].original) {
            return Err(SpanMutatorError::SourceMismatch { span: diffs[k].span });
        }
        k = k + 1;
    }
    assert(edit_spans(edits) =~= spans@);
    // Application order: by (end, start), later diffs first among equal spans.
    let ghost before = edit_before(edits);
    let mut order: Vec<usize> = Vec::new();
    let mut i: usize = 0;
    while i < n
        invariant
            n == diffs@.len(),
            edits == diff_edits(diffs@),
            before == edit_before(edits),
            0 <= i <= n,
            order@ == sort_indices(i as nat, before),
            order@.len() == i,
            forall|j: int| 0 <= j < order@.len() ==> order@[j] < i,
        decreases n - i,
    {
        proof {
            lemma_sort_indices_permutation(i as nat, before);
        }
        let mut pos: usize = 0;
        while pos < order.len()
            invariant
                n == diffs@.len(),
                edits == diff_edits(diffs@),
                before == edit_before(edits),
                i < n,
                0 <= pos <= order@.len(),
                forall|j: int| 0 <= j < order@.len() ==> order@[j] < i,
                forall|j: int| 0 <= j < pos ==> !before(i, #[trigger] order@[j]),
            ensures
                0 <= pos <= order@.len(),
                forall|j: int| 0 <= j < pos ==> !before(i, #[trigger] order@[j]),
                pos == order@.len() || before(i, order@[pos as int]),
            decreases order@.len() - pos,
        {
            let o = order[pos];
            let a = diffs[i].span;
            let b = diffs[o].span;
            if a.end < b.end || (a.end == b.end && a.start < b.start) || (a == b && i > o) {
                break;
            }
            pos = pos + 1;
        }
        proof {
            lemma_insert_at(order@, i, before, pos as int);
        }
        order.insert(pos, i);
        i = i + 1;
    }
    proof {
        lemma_edit_order_chain(s, edits);
        lemma_valid_spans_disjoint(s, spans@);
    }
    proof {
        assert forall|q: int| 0 <= q && q + 1 < n implies (#[trigger] ranges@[order@[q] as int]).1
            <= ranges@[order@[q + 1] as int].0 by {
            let a = order@[q] as int;
            let b = order@[q + 1] as int;
            assert(spans@[a] == edits[a].0);
            assert(spans@[b] == edits[b].0);
            assert(span_error(s, spans@[a]) is None);
            assert(span_error(s, spans@[b]) is None);
            lemma_char_index_of_prefix(s, ranges@[a].1 as int);
            lemma_char_index_of_prefix(s, ranges@[b].0 as int);
            lemma_prefix_order(s, ranges@[a].1 as int, ranges@[b].0 as int);
        }
    }
    let out = splice_text(&index, diffs, &ranges, &order);
    Ok(out)
}

/// Builds the text with the diffs spliced in, in the given order.
fn splice_text(index: &TextIndex, diffs: &[TextDiff], ranges: &Vec<(usize, usize)>, order: &Vec<usize>) -> (out: String)
    requires
        index.wf(),
        ranges@.len() == diffs@.len(),
        order@.len() == diffs@.len(),
        forall|q: int| 0 <= q < order@.len() ==> order@[q] < diffs@.len(),
        forall|i: int|
            0 <= i < diffs@.len() ==> {
                &&& (#[trigger] ranges@[i]).0 as int == char_range(index.text(), diffs@[i].span).0
                &&& ranges@[i].1 as int == char_range(index.text(), diffs@[i].span).1
                &&& ranges@[i].0 <= ranges@[i].1 <= index.text().len()
            },
        forall|q: int|
            0 <= q && q + 1 < order@.len() ==> (#[trigger] ranges@[order@[q] as int]).1
                <= ranges@[order@[q + 1] as int].0,
    ensures
        out@ == splice_from(index.text(), diff_edits(diffs@), order@, 0, 0),
{
    let ghost s = index.text();
    let ghost edits = diff_edits(diffs@);
    let n = order.len();
    let len = index.char_count();
    let mut out = String::new();
    let mut from: usize = 0;
    let mut p: usize = 0;
    assert(out@ + splice_from(s, edits, order@, 0, 0) =~= splice_from(s, edits, order@, 0, 0));
    while p < n
        invariant
            index.wf(),
            s == index.text(),
            len == s.len(),
            n == order@.len(),
            n == diffs@.len(),
            edits == diff_edits(diffs@),
            ranges@.len() == n,
            forall|q: int| 0 <= q < n ==> order@[q] < n,
            forall|i: int|
                0 <= i < n ==> {
                    &&& (#[trigger] ranges@[i]).0 as int == char_range(s, diffs@[i].span).0
                    &&& ranges@[i].1 as int == char_range(s, diffs@[i].span).1
                    &&& ranges@[i].0 <= ranges@[i].1 <= s.len()
                },
            forall|q: int|
                0 <= q && q + 1 < n ==> (#[trigger] ranges@[order@[q] as int]).1 <= ranges@[order@[q + 1] as int].0,
            0 <= p <= n,
            from <= len,
            p > 0 ==> from == ranges@[order@[p - 1] as int].1,
            p == 0 ==> from == 0,
            out@ + splice_from(s, edits, order@, p as int, from as int) == splice_from(s, edits, order@, 0, 0),
        decreases n - p,
    {
        let d = order[p];
        let (a, b) = ranges[d];
        proof {
            if p > 0 {
                assert(ranges@[order@[p - 1] as int].1 <= ranges@[order@[p as int] as int].0);
            }
            assert(edits[d as int] == (diffs@[d as int].span, diffs@[d as int].replacement@));
        }
        let ghost old_out = out@;
        index.append_range(&mut out, from, a);
        out.append(diffs[d].replacement.as_str());
        proof {
            assert(splice_from(s, edits, order@, p as int, from as int) == s.subrange(from as int, a as int)
                + edits[d as int].1 + splice_from(s, edits, order@, p + 1, b as int));
            assert(out@ + splice_from(s, edits, order@, p + 1, b as int) =~= old_out + splice_from(
                s,
                edits,
                order@,
                p as int,
                from as int,
            ));
        }
        from = b;
        p = p + 1;
    }
    index.append_range(&mut out, from, len);
    assert(out@ =~= splice_from(s, edits, order@, 0, 0));
    out
}

/// Validates the replacements, resolves their spans and applies them.
pub fn apply_span_replacements(source: &str, replacements: &[SpanReplacement]) -> (res: Result<String, SpanMutatorError>)
    ensures
        match res {
            Ok(t) => replaced_text(source@, replacements@) == Ok::<Seq<char>, SpanMutatorError>(t@),
            Err(e) => replaced_text(source@, replacements@) == Err::<Seq<char>, SpanMutatorError>(e),
        },
{
    let ghost s = source@;
    let ghost reps = replacements@;
    let diffs = match generate_text_diffs(source, replacements) {
        Ok(d) => d,
        Err(e) => {
            return Err(e);
        },
    };
    proof {
        lemma_generated_diffs_apply(s, reps, diffs@);
    }
    apply_text_diffs(source, diffs.as_slice())
}

/// The diffs generated from replacements apply to the same source without
/// error, and give the text that applying the replacements gives.
pub proof fn lemma_generated_diffs_apply(s: Seq<char>, reps: Seq<SpanReplacement>, diffs: Seq<TextDiff>)
    requires
        generate_error(s, reps) is None,
        diffs.len() == reps.len(),
        forall|i: int|
            0 <= i < diffs.len() ==> is_diff_of(#[trigger] diffs[i], s, resolved_spans(s, reps)[i], reps[i].replacement@),
    ensures
        apply_error(s, diffs) is None,
        replaced_text(s, reps) == Ok::<Seq<char>, SpanMutatorError>(applied_text(s, diff_edits(diffs))),
{
    let r = resolved_spans(s, reps);
    assert(diff_spans(diffs) =~= r);
    assert(diff_edits(diffs) =~= replacement_edits(s, reps));
    lemma_first_mismatch_none(s, diffs, 0);
}

/// The ranges resolved so far, along `order` up to `pos`, keep apart:
/// each ends no later than the next one starts and than the next
/// replacement's own range starts.
pub open spec fn ranges_apart(
    s: Seq<char>,
    reps: Seq<SpanReplacement>,
    order: Seq<usize>,
    acc: Seq<(int, int)>,
    pos: int,
) -> bool {
    &&& forall|p: int| 0 <= p && p + 1 < pos ==> acc[order[p] as int].1 <= #[trigger] acc[order[p + 1] as int].0
    &&& forall|p: int|
        0 <= p < pos && p + 1 < order.len() ==> #[trigger] acc[order[p] as int].1 <= char_range(
            s,
            reps[order[p + 1] as int].span,
        ).0
}

proof fn lemma_resolve_from_apart(
    s: Seq<char>,
    reps: Seq<SpanReplacement>,
    order: Seq<usize>,
    pos: int,
    prev: int,
    acc: Seq<(int, int)>,
)
    requires
        is_index_permutation(order, reps.len()),
        0 <= pos <= order.len(),
        acc.len() == reps.len(),
        pos > 0 ==> acc[order[pos - 1] as int].1 == prev,
        ranges_apart(s, reps, order, acc, pos),
    ensures
        resolve_from(s, reps, order, pos, prev, acc).len() == reps.len(),
        ranges_apart(s, reps, order, resolve_from(s, reps, order, pos, prev, acc), order.len() as int),
    decreases order.len() - pos,
{
    if pos < order.len() {
        let i = order[pos] as int;
        let r = reps[i];
        let range = char_range(s, r.span);
        let right = if pos + 1 < order.len() {
            char_range(s, reps[order[pos + 1] as int].span).0
        } else {
            s.len() as int
        };
        let cand = if spec_should_absorb(r) {
            (absorb_left(s, range.0, prev), absorb_line_break(s, absorb_right(s, range.1, right), right))
        } else {
            range
        };
        let st = max_int(cand.0, prev);
        let en = min_int(max_int(cand.1, st), right);
        let next = acc.update(i, (st, en));
        assert forall|p: int| 0 <= p < pos implies order[p] as int != i by {
        }
        assert(ranges_apart(s, reps, order, next, pos + 1)) by {
            assert forall|p: int| 0 <= p && p + 1 < pos + 1 implies next[order[p] as int].1 <= #[trigger] next[order[p
                + 1] as int].0 by {
                if p + 1 < pos {
                    assert(next[order[p] as int] == acc[order[p] as int]);
                    assert(next[order[p + 1] as int] == acc[order[p + 1] as int]);
                } else {
                    assert(next[order[p] as int] == acc[order[p] as int]);
                    assert(next[order[p + 1] as int] == (st, en));
                }
            }
            assert forall|p: int|
                0 <= p < pos + 1 && p + 1 < order.len() implies #[trigger] next[order[p] as int].1 <= char_range(
                s,
                reps[order[p + 1] as int].span,
            ).0 by {
                if p < pos {
                    assert(next[order[p] as int] == acc[order[p] as int]);
                } else {
                    assert(next[order[p] as int] == (st, en));
                }
            }
        }
        lemma_resolve_from_apart(s, reps, order, pos + 1, en, next);
    }
}

/// Visiting the replacements in `order`, each resolved range ends no later
/// than the next one starts, and no later than the next replacement's own
/// range starts.
pub proof fn lemma_resolved_ranges_apart(s: Seq<char>, reps: Seq<SpanReplacement>, order: Seq<usize>)
    requires
        is_index_permutation(order, reps.len()),
    ensures
        ranges_apart(
            s,
            reps,
            order,
            resolve_from(s, reps, order, 0, 0, Seq::new(reps.len(), |i: int| (0int, 0int))),
            order.len() as int,
        ),
{
    lemma_resolve_from_apart(s, reps, order, 0, 0, Seq::new(reps.len(), |i: int| (0int, 0int)));
}

proof fn lemma_absorb_left_bounds(s: Seq<char>, k: int, limit: int)
    ensures
        absorb_left(s, k, limit) <= k,
    decreases k,
{
    if k > limit && 0 < k <= s.len() && spec_is_horizontal_whitespace(s[k - 1]) {
        lemma_absorb_left_bounds(s, k - 1, limit);
    }
}

proof fn lemma_absorb_right_over_blanks(s: Seq<char>, k: int, m: int, limit: int)
    requires
        0 <= k <= m < limit,
        m < s.len(),
        forall|j: int| k <= j < m ==> #[trigger] s[j] == ' ' || s[j] == '\t',
        s[m] == '\r',
    ensures
        absorb_right(s, k, limit) == m,
    decreases m - k,
{
    if k < m {
        assert(s[k] == ' ' || s[k] == '\t');
        assert(spec_is_horizontal_whitespace(s[k]));
        lemma_absorb_right_over_blanks(s, k + 1, m, limit);
    } else {
        assert(!spec_is_horizontal_whitespace(s[k]));
    }
}

/// A deletion that absorbs trivia and is followed by blanks (spaces or
/// tabs) and a `\r\n` line break takes the whole line break with it: the
/// span it resolves to ends right after the `\n`.
pub proof fn lemma_absorbed_deletion_takes_crlf(s: Seq<char>, r: SpanReplacement, a: int, b: int, m: int)
    requires
        r.absorb_trivia,
        r.replacement@.len() == 0,
        0 <= a <= b <= m,
        m + 2 <= s.len(),
        byte_len(s) <= u32::MAX,
        r.span == (NodeSpan { start: prefix_len(s, a) as u32, end: prefix_len(s, b) as u32 }),
        forall|j: int| b <= j < m ==> #[trigger] s[j] == ' ' || s[j] == '\t',
        s[m] == '\r',
        s[m + 1] == '\n',
    ensures
        resolved_spans(s, seq![r])[0].end == prefix_len(s, m + 2) as u32,
{
    let reps = seq![r];
    assert(s.take(s.len() as int) =~= s);
    lemma_prefix_mono(s, a, s.len() as int);
    lemma_prefix_mono(s, b, s.len() as int);
    lemma_prefix_mono(s, 0, a);
    lemma_prefix_mono(s, 0, b);
    lemma_char_index_of_prefix(s, a);
    lemma_char_index_of_prefix(s, b);
    assert(r.span.start as int == prefix_len(s, a));
    assert(r.span.end as int == prefix_len(s, b));
    assert(char_range(s, r.span) == (a, b));
    let before = span_before(rep_spans(reps));
    assert(sort_indices(0, before) =~= Seq::<usize>::empty());
    assert(sort_indices(1, before) == insert_index(sort_indices(0, before), 0, before));
    assert(span_order(rep_spans(reps)) =~= seq![0usize]);
    let len = s.len() as int;
    lemma_absorb_right_over_blanks(s, b, m, len);
    assert(absorb_line_break(s, m, len) == m + 2);
    lemma_absorb_left_bounds(s, a, 0);
    let init = Seq::new(reps.len(), |i: int| (0int, 0int));
    let order = seq![0usize];
    let st = max_int(absorb_left(s, a, 0), 0);
    let en = min_int(max_int(m + 2, st), len);
    assert(en == m + 2);
    assert(resolve_from(s, reps, order, 0, 0, init) == resolve_from(s, reps, order, 1, en, init.update(0, (st, en))));
    let ranges = resolve_from(s, reps, order, 0, 0, init);
    assert(ranges[0] == (st, en));
}

/// A char of horizontal whitespace: whitespace that ends no line.
pub open spec fn blank_char(c: char) -> bool {
    spec_is_whitespace(c) && c != '\n' && c != '\r'
}

proof fn lemma_absorb_left_over_blanks(s: Seq<char>, l: int, k: int)
    requires
        0 <= l <= k <= s.len(),
        forall|j: int| l <= j < k ==> blank_char(#[trigger] s[j]),
        l > 0 ==> !blank_char(s[l - 1]),
    ensures
        absorb_left(s, k, 0) == l,
    decreases k - l,
{
    if l < k {
        assert(blank_char(s[k - 1]));
        lemma_absorb_left_over_blanks(s, l, k - 1);
    }
}

proof fn lemma_absorb_right_over_blank_run(s: Seq<char>, k: int, m: int)
    requires
        0 <= k <= m <= s.len(),
        forall|j: int| k <= j < m ==> blank_char(#[trigger] s[j]),
        m < s.len() ==> !blank_char(s[m]),
    ensures
        absorb_right(s, k, s.len() as int) == m,
    decreases m - k,
{
    if k < m {
        assert(blank_char(s[k]));
        lemma_absorb_right_over_blank_run(s, k + 1, m);
    }
}

/// A deletion that absorbs trivia resolves, alone, to the span from the
/// start of the blanks before it to the end of the blanks after it and of
/// the one line break that follows them: `\r\n` whole, else a single `\n`
/// or `\r`, else none.
pub proof fn lemma_absorbed_deletion_extent(s: Seq<char>, r: SpanReplacement, l: int, a: int, b: int, m: int)
    requires
        r.absorb_trivia,
        r.replacement@.len() == 0,
        0 <= l <= a <= b <= m <= s.len(),
        byte_len(s) <= u32::MAX,
        r.span == (NodeSpan { start: prefix_len(s, a) as u32, end: prefix_len(s, b) as u32 }),
        forall|j: int| l <= j < a ==> blank_char(#[trigger] s[j]),
        l > 0 ==> !blank_char(s[l - 1]),
        forall|j: int| b <= j < m ==> blank_char(#[trigger] s[j]),
        m < s.len() ==> !blank_char(s[m]),
    ensures
        resolved_spans(s, seq![r])[0].start == prefix_len(s, l) as u32,
        (m + 1 < s.len() && s[m] == '\r' && s[m + 1] == '\n') ==> resolved_spans(s, seq![r])[0].end == prefix_len(
            s,
            m + 2,
        ) as u32,
        (m < s.len() && s[m] == '\n') ==> resolved_spans(s, seq![r])[0].end == prefix_len(s, m + 1) as u32,
        (m < s.len() && s[m] == '\r' && !(m + 1 < s.len() && s[m + 1] == '\n')) ==> resolved_spans(s, seq![r])[0].end
            == prefix_len(s, m + 1) as u32,
        (m == s.len() || (s[m] != '\n' && s[m] != '\r')) ==> resolved_spans(s, seq![r])[0].end == prefix_len(s, m)
            as u32,
{
    let reps = seq![r];
    assert(s.take(s.len() as int) =~= s);
    lemma_prefix_mono(s, a, s.len() as int);
    lemma_prefix_mono(s, b, s.len() as int);
    lemma_prefix_mono(s, 0, a);
    lemma_prefix_mono(s, 0, b);
    lemma_char_index_of_prefix(s, a);
    lemma_char_index_of_prefix(s, b);
    assert(r.span.start as int == prefix_len(s, a));
    assert(r.span.end as int == prefix_len(s, b));
    assert(char_range(s, r.span) == (a, b));
    let before = span_before(rep_spans(reps));
    assert(sort_indices(0, before) =~= Seq::<usize>::empty());
    assert(sort_indices(1, before) == insert_index(sort_indices(0, before), 0, before));
    assert(span_order(rep_spans(reps)) =~= seq![0usize]);
    let len = s.len() as int;
    lemma_absorb_left_over_blanks(s, l, a);
    lemma_absorb_right_over_blank_run(s, b, m);
    let lb = if m + 1 < s.len() && s[m] == '\r' && s[m + 1] == '\n' {
        2int
    } else if m < s.len() && (s[m] == '\n' || s[m] == '\r') {
        1int
    } else {
        0int
    };
    assert(absorb_line_break(s, m, len) == m + lb);
    let init = Seq::new(reps.len(), |i: int| (0int, 0int));
    let order = seq![0usize];
    let st = max_int(absorb_left(s, a, 0), 0);
    let en = min_int(max_int(m + lb, st), len);
    assert(st == l);
    assert(en == m + lb);
    assert(resolve_from(s, reps, order, 0, 0, init) == resolve_from(s, reps, order, 1, en, init.update(0, (st, en))));
    let ranges = resolve_from(s, reps, order, 0, 0, init);
    assert(ranges[0] == (st, en));
}

} // verus!
