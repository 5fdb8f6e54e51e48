//! What is reported for a match: the text under a span, and the text bound
//! to each meta-variable; and the plain records that reports are made of.
use vstd::prelude::*;
use crate::capture::{
    lemma_multi_lookup, lemma_single_lookup, multi_keys_unique, multi_map, nodes_view, single_keys_unique,
    single_map, CapturedNodeView, EnvView, MatchEnvironment,
};
use crate::project_graph::{key_views, unique_keys};
use crate::span::NodeSpan;
use crate::overlap_resolution::MatchResult;
use crate::paths::strings_view;
use crate::text::{append_decimal, decimal, append_text, byte_len, is_boundary, text_slice, TextIndex};
use crate::line_index::line_col_of;
use crate::vue_sfc::{spec_relative_to_absolute, ExtractedScriptBlock, VueSfcScriptKind};

verus! {

/// A span in a report.
#[derive(Debug, Clone, Copy, PartialEq, Eq, Structural)]
pub struct SerializableSpan {
    pub start: u32,
    pub end: u32,
}

/// A line and column in a report.
#[derive(Debug, Clone, Copy, PartialEq, Eq, Structural)]
pub struct SerializableLocation {
    pub line: usize,
    pub column: usize,
}

/// The script block of a Vue component in a report: its span and kind.
#[derive(Debug, Clone, PartialEq, Eq)]
pub struct VueSfcScriptPayload {
    pub span: SerializableSpan,
    pub kind: String,
}

/// What a scan found in one file: how many matches, and how many
/// rewrites were made (where rewriting was asked for).
#[derive(Debug, Clone, PartialEq, Eq)]
pub struct ScanResult {
    pub path: String,
    pub matches: usize,
    pub modifications: Option<usize>,
}

/// The text of `source` under `span`, or the message that refuses it.
pub open spec fn span_text_result(source: Seq<char>, span: NodeSpan) -> Result<Seq<char>, Seq<char>> {
    if span.end > byte_len(source) || span.start > span.end {
        Err("Invalid match span"@)
    } else if !(is_boundary(source, span.start as int) && is_boundary(source, span.end as int)) {
        Err("Match span is not UTF-8 boundary"@)
    } else {
        Ok(text_slice(source, span.start as int, span.end as int))
    }
}

/// The view of a result of strings.
pub open spec fn result_view(r: Result<String, String>) -> Result<Seq<char>, Seq<char>> {
    match r {
        Ok(t) => Ok(t@),
        Err(e) => Err(e@),
    }
}

/// The text of `source` under `span`: refused with `Invalid match span`
/// when the span ends past the source or is inverted, and with `Match span
/// is not UTF-8 boundary` when an end is not a char boundary.
pub fn slice_span_text(source: &str, span: NodeSpan) -> (res: Result<String, String>)
    ensures
        (span.end > byte_len(source@) || span.start > span.end) ==> (res matches Err(e) && e@
            == "Invalid match span"@),
        (!(span.end > byte_len(source@) || span.start > span.end) && !(is_boundary(source@, span.start as int)
            && is_boundary(source@, span.end as int))) ==> (res matches Err(e) && e@
            == "Match span is not UTF-8 boundary"@),
        (!(span.end > byte_len(source@) || span.start > span.end) && is_boundary(source@, span.start as int)
            && is_boundary(source@, span.end as int)) ==> (res matches Ok(t) && t@ == text_slice(
            source@,
            span.start as int,
            span.end as int,
        )),
        result_view(res) == span_text_result(source@, span),
{
    let index = TextIndex::new(source);
    let start = span.start as usize;
    let end = span.end as usize;
    if end > index.byte_count() || start > end {
        return Err("Invalid match span".to_owned());
    }
    let from = index.find_boundary(start);
    let to = index.find_boundary(end);
    match (from, to) {
        (Some(a), Some(b)) => {
            proof {
                crate::text::lemma_prefix_order(source@, a as int, b as int);
            }
            Ok(index.slice(a, b))
        },
        _ => Err("Match span is not UTF-8 boundary".to_owned()),
    }
}

/// The texts of a sequence of captures, joined.
pub open spec fn joined_texts(nodes: Seq<CapturedNodeView>) -> Seq<char>
    decreases nodes.len(),
{
    if nodes.len() == 0 {
        Seq::empty()
    } else {
        joined_texts(nodes.drop_last()) + nodes.last().text
    }
}

/// The text reported for the meta-variable `k`: the text of its node, or,
/// for a sequence binding, the texts of its nodes joined.
pub open spec fn metavariable_text(env: EnvView, k: Seq<char>) -> Seq<char> {
    if env.single.contains_key(k) {
        env.single[k].text
    } else {
        joined_texts(env.multi[k])
    }
}

fn joined_text(nodes: &[crate::capture::CapturedNode]) -> (res: String)
    ensures
        res@ == joined_texts(nodes_view(nodes@)),
{
    let mut text = String::new();
    let mut t: usize = 0;
    while t < nodes.len()
        invariant
            0 <= t <= nodes@.len(),
            text@ == joined_texts(nodes_view(nodes@).take(t as int)),
        decreases nodes@.len() - t,
    {
        append_text(&mut text, nodes[t].text.as_str());
        proof {
            let v = nodes_view(nodes@);
            assert(v.take(t + 1).drop_last() =~= v.take(t as int));
            assert(v.take(t + 1).last() == nodes@[t as int]@);
        }
        t = t + 1;
    }
    proof {
        assert(nodes_view(nodes@).take(nodes@.len() as int) =~= nodes_view(nodes@));
    }
    text
}

/// The meta-variables of `env`, each once, with its text
/// (`metavariable_text`).
#[verifier::rlimit(40)]
pub fn env_to_metavariables(env: &MatchEnvironment) -> (res: Vec<(String, String)>)
    ensures
        unique_keys(key_views(res@)),
        forall|i: int|
            0 <= i < res@.len() ==> (env@.single.contains_key(#[trigger] res@[i].0@) || env@.multi.contains_key(
                res@[i].0@,
            )) && res@[i].1@ == metavariable_text(env@, res@[i].0@),
        forall|k: Seq<char>|
            env@.single.contains_key(k) || env@.multi.contains_key(k) ==> exists|i: int|
                0 <= i < res@.len() && #[trigger] res@[i].0@ == k,
        reports_metavariables(res@, env@),
{
    let singles = env.single_entries();
    let multis = env.multi_entries();
    let mut out: Vec<(String, String)> = Vec::new();
    let mut k: usize = 0;
    while k < singles.len()
        invariant
            single_keys_unique(singles@),
            single_map(singles@) == env@.single,
            0 <= k <= singles@.len(),
            out@.len() == k,
            forall|i: int| 0 <= i < k ==> #[trigger] out@[i].0@ == singles@[i].0@,
            forall|i: int| 0 <= i < k ==> #[trigger] out@[i].1@ == metavariable_text(env@, out@[i].0@),
        decreases singles@.len() - k,
    {
        proof {
            lemma_single_lookup(singles@, k as int);
        }
        out.push((singles[k].0.clone(), singles[k].1.text.clone()));
        k = k + 1;
    }
    let ns = singles.len();
    let mut m: usize = 0;
    while m < multis.len()
        invariant
            single_keys_unique(singles@),
            single_map(singles@) == env@.single,
            multi_keys_unique(multis@),
            multi_map(multis@) == env@.multi,
            ns == singles@.len(),
            0 <= m <= multis@.len(),
            ns <= out@.len(),
            forall|i: int| 0 <= i < ns ==> #[trigger] out@[i].0@ == singles@[i].0@,
            forall|i: int|
                ns <= i < out@.len() ==> exists|j: int| 0 <= j < m && #[trigger] out@[i].0@ == multis@[j].0@,
            forall|i: int| ns <= i < out@.len() ==> !env@.single.contains_key(#[trigger] out@[i].0@),
            forall|i: int| 0 <= i < out@.len() ==> #[trigger] out@[i].1@ == metavariable_text(env@, out@[i].0@),
            forall|j: int|
                0 <= j < m && !env@.single.contains_key(#[trigger] multis@[j].0@) ==> exists|i: int|
                    ns <= i < out@.len() && out@[i].0@ == multis@[j].0@,
            unique_keys(key_views(out@)),
        decreases multis@.len() - m,
    {
        let name = &multis[m].0;
        proof {
            lemma_multi_lookup(multis@, m as int);
        }
        if !env.has_single_capture(name.as_str()) {
            let text = joined_text(multis[m].1.as_slice());
            let ghost before = out@;
            out.push((name.clone(), text));
            proof {
                assert forall|a: int, b: int| 0 <= a < b < key_views(out@).len() implies key_views(out@)[a]
                    != key_views(out@)[b] by {
                    assert(key_views(out@)[a] == out@[a].0@);
                    assert(key_views(out@)[b] == out@[b].0@);
                    if b == before.len() {
                        if a < ns {
                            assert(out@[a].0@ == singles@[a].0@);
                            lemma_single_lookup(singles@, a);
                        } else {
                            let j = choose|j: int| 0 <= j < m && #[trigger] before[a].0@ == multis@[j].0@;
                            assert(out@[a] == before[a]);
                        }
                    } else {
                        assert(out@[a] == before[a] && out@[b] == before[b]);
                        assert(key_views(before)[a] == before[a].0@);
                        assert(key_views(before)[b] == before[b].0@);
                    }
                }
                assert forall|i: int| ns <= i < out@.len() implies exists|j: int|
                    0 <= j < m + 1 && #[trigger] out@[i].0@ == multis@[j].0@ by {
                    if i < before.len() {
                        assert(out@[i] == before[i]);
                        let j = choose|j: int| 0 <= j < m && #[trigger] before[i].0@ == multis@[j].0@;
                        assert(out@[i].0@ == multis@[j].0@);
                    } else {
                        assert(out@[i].0@ == multis@[m as int].0@);
                    }
                }
                assert forall|j: int| 0 <= j < m + 1 && !env@.single.contains_key(#[trigger] multis@[j].0@) implies exists|i: int|
                    ns <= i < out@.len() && out@[i].0@ == multis@[j].0@ by {
                    if j < m {
                        let i = choose|i: int| ns <= i < before.len() && before[i].0@ == multis@[j].0@;
                        assert(out@[i] == before[i]);
                    } else {
                        assert(out@[before.len() as int].0@ == multis@[j].0@);
                    }
                }
            }
        } else {
            proof {
                assert forall|i: int| ns <= i < out@.len() implies exists|j: int|
                    0 <= j < m + 1 && #[trigger] out@[i].0@ == multis@[j].0@ by {
                    let j = choose|j: int| 0 <= j < m && #[trigger] out@[i].0@ == multis@[j].0@;
                }
            }
        }
        m = m + 1;
    }
    proof {
        assert forall|i: int| 0 <= i < out@.len() implies (env@.single.contains_key(#[trigger] out@[i].0@)
            || env@.multi.contains_key(out@[i].0@)) by {
            if i < ns {
                lemma_single_lookup(singles@, i);
            } else {
                let j = choose|j: int| 0 <= j < multis@.len() && #[trigger] out@[i].0@ == multis@[j].0@;
                lemma_multi_lookup(multis@, j);
            }
        }
        assert forall|key: Seq<char>| env@.single.contains_key(key) || env@.multi.contains_key(key) implies exists|i: int|
            0 <= i < out@.len() && #[trigger] out@[i].0@ == key by {
            if env@.single.contains_key(key) {
                let j = choose|j: int| 0 <= j < singles@.len() && singles@[j].0@ == key;
                assert(out@[j].0@ == key);
            } else {
                let j = choose|j: int| 0 <= j < multis@.len() && multis@[j].0@ == key;
                assert(!env@.single.contains_key(multis@[j].0@));
            }
        }
    }
    out
}

/// `pairs` reports the meta-variables of `env`: each bound name once, with
/// its text (`metavariable_text`), and no other name.
pub open spec fn reports_metavariables(pairs: Seq<(String, String)>, env: EnvView) -> bool {
    &&& unique_keys(key_views(pairs))
    &&& forall|i: int|
        0 <= i < pairs.len() ==> (env.single.contains_key(#[trigger] pairs[i].0@) || env.multi.contains_key(
            pairs[i].0@,
        )) && pairs[i].1@ == metavariable_text(env, pairs[i].0@)
    &&& forall|k: Seq<char>|
        env.single.contains_key(k) || env.multi.contains_key(k) ==> exists|i: int|
            0 <= i < pairs.len() && #[trigger] pairs[i].0@ == k
}

/// A span as a report gives it.
pub open spec fn serializable(span: NodeSpan) -> SerializableSpan {
    SerializableSpan { start: span.start, end: span.end }
}

fn serializable_span(span: NodeSpan) -> (res: SerializableSpan)
    ensures
        res == serializable(span),
{
    SerializableSpan { start: span.start, end: span.end }
}

/// A match in a report: its span, the text under it, and the text of each
/// of its meta-variables.
#[derive(Debug)]
pub struct PatternMatchPayload {
    pub span: SerializableSpan,
    pub text: String,
    pub metavariables: Vec<(String, String)>,
}

/// The report of `matches` in `source`: refused with the message of the
/// first match whose span cannot be sliced, and otherwise one payload per
/// match, in order, with its span, text and meta-variables.
pub open spec fn pattern_payloads_outcome(
    res: Result<Vec<PatternMatchPayload>, String>,
    source: Seq<char>,
    matches: Seq<MatchResult>,
) -> bool {
    &&& res is Ok <==> forall|i: int| 0 <= i < matches.len() ==> #[trigger] span_text_result(source, matches[i].span) is Ok
    &&& res matches Err(e) ==> exists|i: int|
        0 <= i < matches.len() && #[trigger] span_text_result(source, matches[i].span) == Err::<Seq<char>, Seq<char>>(e@)
            && forall|j: int| 0 <= j < i ==> #[trigger] span_text_result(source, matches[j].span) is Ok
    &&& res matches Ok(v) ==> v@.len() == matches.len() && forall|i: int|
        0 <= i < matches.len() ==> {
            let p = #[trigger] v@[i];
            &&& p.span == serializable(matches[i].span)
            &&& span_text_result(source, matches[i].span) == Ok::<Seq<char>, Seq<char>>(p.text@)
            &&& reports_metavariables(p.metavariables@, matches[i].environment@)
        }
}

/// The reports of the matches in `source`, in order; refused with the
/// message of the first match whose span cannot be sliced.
pub fn pattern_match_payloads(source: &str, matches: &[MatchResult]) -> (res: Result<Vec<PatternMatchPayload>, String>)
    ensures
        pattern_payloads_outcome(res, source@, matches@),
        res is Ok <==> forall|i: int| 0 <= i < matches@.len() ==> #[trigger] span_text_result(source@, matches@[i].span) is Ok,
        res matches Err(e) ==> exists|i: int|
            0 <= i < matches@.len() && #[trigger] span_text_result(source@, matches@[i].span) == Err::<Seq<char>, Seq<char>>(e@)
                && forall|j: int| 0 <= j < i ==> #[trigger] span_text_result(source@, matches@[j].span) is Ok,
        res matches Ok(v) ==> v@.len() == matches@.len() && forall|i: int|
            0 <= i < matches@.len() ==> {
                let p = #[trigger] v@[i];
                &&& p.span == serializable(matches@[i].span)
                &&& span_text_result(source@, matches@[i].span) == Ok::<Seq<char>, Seq<char>>(p.text@)
                &&& reports_metavariables(p.metavariables@, matches@[i].environment@)
            },
{
    let mut out: Vec<PatternMatchPayload> = Vec::new();
    let mut k: usize = 0;
    while k < matches.len()
        invariant
            0 <= k <= matches@.len(),
            out@.len() == k,
            forall|j: int| 0 <= j < k ==> #[trigger] span_text_result(source@, matches@[j].span) is Ok,
            forall|i: int|
                0 <= i < k ==> {
                    let p = #[trigger] out@[i];
                    &&& p.span == serializable(matches@[i].span)
                    &&& span_text_result(source@, matches@[i].span) == Ok::<Seq<char>, Seq<char>>(p.text@)
                    &&& reports_metavariables(p.metavariables@, matches@[i].environment@)
                },
        decreases matches@.len() - k,
    {
        let matched = &matches[k];
        let text = match slice_span_text(source, matched.span) {
            Ok(t) => t,
            Err(e) => {
                return Err(e);
            },
        };
        let metavariables = env_to_metavariables(&matched.environment);
        out.push(PatternMatchPayload { span: serializable_span(matched.span), text, metavariables });
        k = k + 1;
    }
    Ok(out)
}

/// The kind of a script block as a report names it.
pub open spec fn script_kind_text(kind: VueSfcScriptKind) -> Seq<char> {
    match kind {
        VueSfcScriptKind::Script => "script"@,
        VueSfcScriptKind::ScriptSetup => "scriptSetup"@,
    }
}

/// A match in a component in a report: its span in the script block and
/// in the component, the text under it, the text of each meta-variable,
/// and the line and column where it starts in the component.
#[derive(Debug)]
pub struct VueSfcPatternMatchPayload {
    pub relative_span: SerializableSpan,
    pub absolute_span: SerializableSpan,
    pub text: String,
    pub metavariables: Vec<(String, String)>,
    pub location: SerializableLocation,
}

/// The report of a search in a component: its script block, if it has
/// one, and the matches in it.
#[derive(Debug)]
pub struct VueSfcPatternSearchPayload {
    pub script: Option<VueSfcScriptPayload>,
    pub matches: Vec<VueSfcPatternMatchPayload>,
}

/// The span in the component of a span of a block spanning `script_span`.
pub open spec fn absolute_span_of(script_span: NodeSpan, relative: NodeSpan) -> Option<NodeSpan> {
    match (spec_relative_to_absolute(script_span, relative.start), spec_relative_to_absolute(script_span, relative.end)) {
        (Some(start), Some(end)) => Some(NodeSpan { start, end }),
        _ => None,
    }
}

/// The text in the component of a match in its script block, or the
/// message that refuses it.
pub open spec fn vue_match_text(source: Seq<char>, script_span: NodeSpan, relative: NodeSpan) -> Result<Seq<char>, Seq<char>> {
    match absolute_span_of(script_span, relative) {
        Some(abs) => span_text_result(source, abs),
        None => Err("Failed to map relative span to absolute Vue SFC offset"@),
    }
}

/// The report of a search in a component without a script block.
pub fn empty_vue_sfc_search() -> (res: VueSfcPatternSearchPayload)
    ensures
        res.script is None,
        res.matches@.len() == 0,
{
    VueSfcPatternSearchPayload { script: None, matches: Vec::new() }
}

/// The report of `matches`, found in the script block `block` of the
/// component `source`: refused with the message of the first match whose
/// span cannot be placed in the component or sliced there; otherwise the
/// script block and one payload per match, in order.
pub open spec fn vue_payload_outcome(
    res: Result<VueSfcPatternSearchPayload, String>,
    source: Seq<char>,
    block: ExtractedScriptBlock,
    matches: Seq<MatchResult>,
) -> bool {
    &&& (res is Ok <==> forall|i: int|
            0 <= i < matches.len() ==> #[trigger] vue_match_text(source, block.offset_map@.script_span, matches[i].span) is Ok)
    &&& (res matches Err(e) ==> exists|i: int|
            0 <= i < matches.len() && #[trigger] vue_match_text(source, block.offset_map@.script_span, matches[i].span)
                == Err::<Seq<char>, Seq<char>>(e@) && forall|j: int|
                0 <= j < i ==> #[trigger] vue_match_text(source, block.offset_map@.script_span, matches[j].span) is Ok)
    &&& (res matches Ok(p) ==> {
            &&& p.script matches Some(script) && script.span == serializable(block.offset_map@.script_span)
                && script.kind@ == script_kind_text(block.kind)
            &&& p.matches@.len() == matches.len()
            &&& forall|i: int|
                0 <= i < matches.len() ==> {
                    let m = #[trigger] p.matches@[i];
                    let abs = absolute_span_of(block.offset_map@.script_span, matches[i].span);
                    &&& abs is Some
                    &&& m.relative_span == serializable(matches[i].span)
                    &&& m.absolute_span == serializable(abs.unwrap())
                    &&& vue_match_text(source, block.offset_map@.script_span, matches[i].span) == Ok::<
                        Seq<char>,
                        Seq<char>,
                    >(m.text@)
                    &&& reports_metavariables(m.metavariables@, matches[i].environment@)
                    &&& (m.location.line, m.location.column) == line_col_of(
                        abs.unwrap().start as usize,
                        block.offset_map@.line_starts,
                    )
                }
        })
}

/// The report of the matches found in the script block of the component
/// `source`, in order; refused with the message of the first match whose
/// span cannot be placed in the component or sliced there.
pub fn vue_sfc_search_payload(
    source: &str,
    block: &ExtractedScriptBlock,
    matches: &[MatchResult],
) -> (res: Result<VueSfcPatternSearchPayload, String>)
    ensures
        res is Ok <==> forall|i: int|
            0 <= i < matches@.len() ==> #[trigger] vue_match_text(source@, block.offset_map@.script_span, matches@[i].span) is Ok,
        res matches Err(e) ==> exists|i: int|
            0 <= i < matches@.len() && #[trigger] vue_match_text(source@, block.offset_map@.script_span, matches@[i].span)
                == Err::<Seq<char>, Seq<char>>(e@) && forall|j: int|
                0 <= j < i ==> #[trigger] vue_match_text(source@, block.offset_map@.script_span, matches@[j].span) is Ok,
        res matches Ok(p) ==> {
            &&& p.script matches Some(script) && script.span == serializable(block.offset_map@.script_span)
                && script.kind@ == script_kind_text(block.kind)
            &&& p.matches@.len() == matches@.len()
            &&& forall|i: int|
                0 <= i < matches@.len() ==> {
                    let m = #[trigger] p.matches@[i];
                    let abs = absolute_span_of(block.offset_map@.script_span, matches@[i].span);
                    &&& abs is Some
                    &&& m.relative_span == serializable(matches@[i].span)
                    &&& m.absolute_span == serializable(abs.unwrap())
                    &&& vue_match_text(source@, block.offset_map@.script_span, matches@[i].span) == Ok::<
                        Seq<char>,
                        Seq<char>,
                    >(m.text@)
                    &&& reports_metavariables(m.metavariables@, matches@[i].environment@)
                    &&& (m.location.line, m.location.column) == line_col_of(
                        abs.unwrap().start as usize,
                        block.offset_map@.line_starts,
                    )
                }
        },
        vue_payload_outcome(res, source@, *block, matches@),
{
    let script_span = block.offset_map.script_span();
    let kind = match block.kind {
        VueSfcScriptKind::Script => "script".to_owned(),
        VueSfcScriptKind::ScriptSetup => "scriptSetup".to_owned(),
    };
    let script = VueSfcScriptPayload { span: serializable_span(script_span), kind };
    let ghost ss = block.offset_map@.script_span;
    let mut out: Vec<VueSfcPatternMatchPayload> = Vec::new();
    let mut k: usize = 0;
    while k < matches.len()
        invariant
            0 <= k <= matches@.len(),
            ss == block.offset_map@.script_span,
            out@.len() == k,
            forall|j: int| 0 <= j < k ==> #[trigger] vue_match_text(source@, ss, matches@[j].span) is Ok,
            forall|i: int|
                0 <= i < k ==> {
                    let m = #[trigger] out@[i];
                    let abs = absolute_span_of(ss, matches@[i].span);
                    &&& abs is Some
                    &&& m.relative_span == serializable(matches@[i].span)
                    &&& m.absolute_span == serializable(abs.unwrap())
                    &&& vue_match_text(source@, ss, matches@[i].span) == Ok::<Seq<char>, Seq<char>>(m.text@)
                    &&& reports_metavariables(m.metavariables@, matches@[i].environment@)
                    &&& (m.location.line, m.location.column) == line_col_of(
                        abs.unwrap().start as usize,
                        block.offset_map@.line_starts,
                    )
                },
        decreases matches@.len() - k,
    {
        let matched = &matches[k];
        let absolute = match block.offset_map.relative_to_absolute_span(matched.span) {
            Some(a) => a,
            None => {
                let e = "Failed to map relative span to absolute Vue SFC offset".to_owned();
                assert(vue_match_text(source@, ss, matches@[k as int].span) == Err::<Seq<char>, Seq<char>>(e@));
                return Err(e);
            },
        };
        assert(absolute_span_of(ss, matches@[k as int].span) == Some(absolute));
        let (line, column) = block.offset_map.absolute_offset_to_line_col(absolute.start);
        let text = match slice_span_text(source, absolute) {
            Ok(t) => t,
            Err(e) => {
                assert(vue_match_text(source@, ss, matches@[k as int].span) == Err::<Seq<char>, Seq<char>>(e@));
                return Err(e);
            },
        };
        let metavariables = env_to_metavariables(&matched.environment);
        out.push(
            VueSfcPatternMatchPayload {
                relative_span: serializable_span(matched.span),
                absolute_span: serializable_span(absolute),
                text,
                metavariables,
                location: SerializableLocation { line, column },
            },
        );
        k = k + 1;
    }
    Ok(VueSfcPatternSearchPayload { script: Some(script), matches: out })
}

/// What a scan does with one file that a rule matched `matches` times and
/// rewrote `modifications` times into `updated`: whether to write `updated`
/// back (never on a dry run, and only where it changed something), and the
/// result it reports (without a count of rewrites on a dry run).
pub fn scan_outcome(
    path: String,
    original: &str,
    updated: &str,
    matches: usize,
    modifications: usize,
    dry_run: bool,
) -> (res: (bool, ScanResult))
    ensures
        res.0 == (!dry_run && modifications > 0 && updated@ != original@),
        res.1.path@ == path@,
        res.1.matches == matches,
        res.1.modifications == (if dry_run {
            None
        } else {
            Some(modifications)
        }),
{
    let changed = !(original.to_owned() == updated.to_owned());
    let write = !dry_run && modifications > 0 && changed;
    let result = ScanResult { path, matches, modifications: if dry_run {
        None
    } else {
        Some(modifications)
    } };
    (write, result)
}

/// One item of a report as its text form reads it: the path, the number
/// of matches and the number of rewrites, where the item has them.
#[derive(Debug)]
pub struct ReportItem {
    pub path: Option<String>,
    pub matches: Option<u64>,
    pub modifications: Option<u64>,
}

/// The lines of text for one report item.
pub open spec fn item_lines(item: ReportItem) -> Seq<Seq<char>> {
    (match item.path {
        Some(p) => seq!["File: "@ + p@],
        None => Seq::empty(),
    }) + (match item.matches {
        Some(m) => seq!["  Matches: "@ + decimal(m as nat)],
        None => Seq::empty(),
    }) + (match item.modifications {
        Some(m) => seq!["  Modifications: "@ + decimal(m as nat)],
        None => Seq::empty(),
    })
}

/// The lines of text for a list of report items, item after item.
pub open spec fn report_lines(items: Seq<ReportItem>) -> Seq<Seq<char>>
    decreases items.len(),
{
    if items.len() == 0 {
        Seq::empty()
    } else {
        report_lines(items.drop_last()) + item_lines(items.last())
    }
}

fn labelled_number(label: &str, n: u64) -> (res: String)
    ensures
        res@ == label@ + decimal(n as nat),
{
    let mut line = label.to_owned();
    append_decimal(&mut line, n);
    line
}

/// The text form of a report: for each item, `File: <path>`, then
/// `  Matches: <n>`, then `  Modifications: <n>`, each where the item has it.
pub fn text_report_lines(items: &[ReportItem]) -> (res: Vec<String>)
    ensures
        strings_view(res@) == report_lines(items@),
{
    let mut lines: Vec<String> = Vec::new();
    let mut k: usize = 0;
    while k < items.len()
        invariant
            0 <= k <= items@.len(),
            strings_view(lines@) == report_lines(items@.take(k as int)),
        decreases items@.len() - k,
    {
        let item = &items[k];
        let ghost before = strings_view(lines@);
        if let Some(p) = &item.path {
            let mut line = "File: ".to_owned();
            append_text(&mut line, p.as_str());
            lines.push(line);
        }
        let ghost after_path = strings_view(lines@);
        if let Some(m) = item.matches {
            lines.push(labelled_number("  Matches: ", m));
        }
        let ghost after_matches = strings_view(lines@);
        if let Some(m) = item.modifications {
            lines.push(labelled_number("  Modifications: ", m));
        }
        assert(after_path =~= before + match item.path {
            Some(p) => seq!["File: "@ + p@],
            None => Seq::<Seq<char>>::empty(),
        });
        assert(after_matches =~= after_path + match item.matches {
            Some(m) => seq!["  Matches: "@ + decimal(m as nat)],
            None => Seq::<Seq<char>>::empty(),
        });
        assert(strings_view(lines@) =~= after_matches + match item.modifications {
            Some(m) => seq!["  Modifications: "@ + decimal(m as nat)],
            None => Seq::<Seq<char>>::empty(),
        });
        assert(items@.take(k + 1).drop_last() =~= items@.take(k as int));
        assert(strings_view(lines@) =~= before + item_lines(*item));
        k = k + 1;
    }
    assert(items@.take(items@.len() as int) =~= items@);
    lines
}

} // verus!
