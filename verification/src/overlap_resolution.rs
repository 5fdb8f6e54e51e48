//! Finding every match of a pattern in a tree, and choosing among matches
//! whose spans overlap.
use vstd::prelude::*;
use crate::capture::{empty_env, EnvView, MatchEnvironment};
use crate::combinators::Matcher;
use crate::matcher::PatternMatcher;
use crate::order::{
    is_index_permutation, lemma_insert_at, lemma_sort_indices_permutation,
    lemma_sort_indices_sorted, sort_indices, strict_order,
};
use crate::span::{span_len, spans_overlap, spec_span_len, spec_spans_overlap, NodeSpan};
use crate::syntax::SyntaxNode;
use crate::wildcard_parsing::PatternNode;

verus! {

/// Which of two overlapping matches is kept.
#[derive(Debug, Clone, Copy, PartialEq, Eq, Structural)]
pub enum ConflictResolution {
    /// The longer (enclosing) match.
    PreferOuter,
    /// The shorter (enclosed) match.
    PreferInner,
}

impl Default for ConflictResolution {
    fn default() -> (res: Self)
        ensures
            res == ConflictResolution::PreferOuter,
    {
        ConflictResolution::PreferOuter
    }
}

/// A match: the span of the matched node and the bindings made.
#[derive(Debug, PartialEq, Eq)]
pub struct MatchResult {
    pub span: NodeSpan,
    pub environment: MatchEnvironment,
}

/// Mathematical value of a match.
pub struct MatchResultView {
    pub span: NodeSpan,
    pub env: EnvView,
}

impl View for MatchResult {
    type V = MatchResultView;

    open spec fn view(&self) -> MatchResultView {
        MatchResultView { span: self.span, env: self.environment@ }
    }
}

/// Views of a list of matches.
pub open spec fn results_view(s: Seq<MatchResult>) -> Seq<MatchResultView> {
    s.map_values(|r: MatchResult| r@)
}

/// A match found in the walk: where it is, how deep the node is, and how
/// many matches were found before it.
pub struct CandidateView {
    pub span: NodeSpan,
    pub env: EnvView,
    pub depth: nat,
    pub visit: nat,
}

/// The depth of a node's children: one more, saturating at `usize::MAX`.
pub open spec fn next_depth(depth: nat) -> nat {
    if depth < usize::MAX {
        depth + 1
    } else {
        depth
    }
}

/// `acc` followed by the matches of `pattern` in the tree under `node`
/// (at `depth`), in preorder, each numbered by how many came before it.
pub open spec fn collect_from<M: Matcher>(
    m: M,
    pattern: PatternNode,
    node: SyntaxNode,
    depth: nat,
    acc: Seq<CandidateView>,
) -> Seq<CandidateView>
    decreases node, 0int,
{
    let acc1 = match m.match_spec(node, pattern, empty_env()) {
        Some(e) => acc.push(CandidateView { span: node.span, env: e, depth, visit: acc.len() }),
        None => acc,
    };
    collect_children(m, pattern, node.children@, 0, next_depth(depth), acc1)
}

/// `acc` followed by the matches in the subtrees `cs[i..]`, in order.
pub open spec fn collect_children<M: Matcher>(
    m: M,
    pattern: PatternNode,
    cs: Seq<SyntaxNode>,
    i: int,
    depth: nat,
    acc: Seq<CandidateView>,
) -> Seq<CandidateView>
    decreases cs, cs.len() - i,
{
    if i < 0 || i >= cs.len() {
        acc
    } else {
        collect_children(m, pattern, cs, i + 1, depth, collect_from(m, pattern, cs[i], depth, acc))
    }
}

/// The order in which candidates are considered: by length (longest first
/// for `PreferOuter`, shortest first for `PreferInner`), then start, end,
/// depth and discovery.
pub open spec fn considered_before(a: CandidateView, b: CandidateView, r: ConflictResolution) -> bool {
    let la = spec_span_len(a.span);
    let lb = spec_span_len(b.span);
    if la != lb {
        match r {
            ConflictResolution::PreferOuter => la > lb,
            ConflictResolution::PreferInner => la < lb,
        }
    } else if a.span.start != b.span.start {
        a.span.start < b.span.start
    } else if a.span.end != b.span.end {
        a.span.end < b.span.end
    } else if a.depth != b.depth {
        a.depth < b.depth
    } else {
        a.visit < b.visit
    }
}

/// The order of the results: by start, end, depth and discovery.
pub open spec fn reported_before(a: CandidateView, b: CandidateView) -> bool {
    if a.span.start != b.span.start {
        a.span.start < b.span.start
    } else if a.span.end != b.span.end {
        a.span.end < b.span.end
    } else if a.depth != b.depth {
        a.depth < b.depth
    } else {
        a.visit < b.visit
    }
}

/// `considered_before` on candidate indices.
pub open spec fn index_considered_before(c: Seq<CandidateView>, r: ConflictResolution) -> spec_fn(usize, usize) -> bool {
    |i: usize, j: usize| considered_before(c[i as int], c[j as int], r)
}

/// `reported_before` on positions in the list of selected indices `sel`.
pub open spec fn position_reported_before(c: Seq<CandidateView>, sel: Seq<usize>) -> spec_fn(usize, usize) -> bool {
    |p: usize, q: usize| reported_before(c[sel[p as int] as int], c[sel[q as int] as int])
}

/// Candidate `x` overlaps none of the candidates selected in `sel`.
pub open spec fn compatible(c: Seq<CandidateView>, sel: Seq<usize>, x: usize) -> bool {
    forall|j: int| 0 <= j < sel.len() ==> !spec_spans_overlap(c[#[trigger] sel[j] as int].span, c[x as int].span)
}

/// `sel` followed by the candidates of `order[k..]` that overlap none
/// selected before them.
pub open spec fn greedy_from(c: Seq<CandidateView>, order: Seq<usize>, k: int, sel: Seq<usize>) -> Seq<usize>
    decreases order.len() - k,
{
    if k < 0 || k >= order.len() {
        sel
    } else if compatible(c, sel, order[k]) {
        greedy_from(c, order, k + 1, sel.push(order[k]))
    } else {
        greedy_from(c, order, k + 1, sel)
    }
}

/// Two candidates report the same match: same span, same bindings.
pub open spec fn same_result(a: CandidateView, b: CandidateView) -> bool {
    a.span == b.span && a.env == b.env
}

/// The first `n` of `xs`, without those that report the same match as the
/// one before them.
pub open spec fn dedup_upto(c: Seq<CandidateView>, xs: Seq<usize>, n: int) -> Seq<usize>
    decreases n,
{
    if n <= 0 {
        Seq::empty()
    } else if n == 1 || !same_result(c[xs[n - 1] as int], c[xs[n - 2] as int]) {
        dedup_upto(c, xs, n - 1).push(xs[n - 1])
    } else {
        dedup_upto(c, xs, n - 1)
    }
}

/// The candidates of the walk under `target`.
pub open spec fn candidates_of<M: Matcher>(m: M, target: SyntaxNode, pattern: PatternNode) -> Seq<CandidateView> {
    collect_from(m, pattern, target, 0, Seq::empty())
}

/// The selected candidates, as indices in report order without repeats.
pub open spec fn selected_indices<M: Matcher>(
    m: M,
    target: SyntaxNode,
    pattern: PatternNode,
    r: ConflictResolution,
) -> Seq<usize> {
    let c = candidates_of(m, target, pattern);
    let order = sort_indices(c.len(), index_considered_before(c, r));
    let sel = greedy_from(c, order, 0, Seq::empty());
    let positions = sort_indices(sel.len(), position_reported_before(c, sel));
    let reported = positions.map_values(|p: usize| sel[p as int]);
    dedup_upto(c, reported, reported.len() as int)
}

/// The matches of `pattern` in the tree under `target`: each node that
/// matches is a candidate; candidates are taken in `considered_before`
/// order, each kept when it overlaps none kept before it; the kept ones are
/// reported by start, end, depth and discovery, without repeats.
pub open spec fn all_matches<M: Matcher>(
    m: M,
    target: SyntaxNode,
    pattern: PatternNode,
    r: ConflictResolution,
) -> Seq<MatchResultView> {
    let c = candidates_of(m, target, pattern);
    selected_indices(m, target, pattern, r).map_values(
        |i: usize| MatchResultView { span: c[i as int].span, env: c[i as int].env },
    )
}

struct MatchCandidate {
    result: MatchResult,
    depth: usize,
    visit_index: usize,
}

spec fn candidate_view(c: MatchCandidate) -> CandidateView {
    CandidateView {
        span: c.result.span,
        env: c.result.environment@,
        depth: c.depth as nat,
        visit: c.visit_index as nat,
    }
}

spec fn candidates_view(s: Seq<MatchCandidate>) -> Seq<CandidateView> {
    s.map_values(|c: MatchCandidate| candidate_view(c))
}

fn collect_matches<M: Matcher>(
    matcher: &M,
    node: &SyntaxNode,
    pattern: &PatternNode,
    depth: usize,
    candidates: &mut Vec<MatchCandidate>,
)
    ensures
        candidates_view(final(candidates)@) == collect_from(
            *matcher,
            *pattern,
            *node,
            depth as nat,
            candidates_view(old(candidates)@),
        ),
    decreases *node, 0int,
{
    let ghost acc = candidates_view(candidates@);
    match matcher.match_node(node, pattern) {
        Some(environment) => {
            let visit_index = candidates.len();
            candidates.push(
                MatchCandidate { result: MatchResult { span: node.span, environment }, depth, visit_index },
            );
            assert(candidates_view(candidates@) =~= acc.push(
                CandidateView {
                    span: node.span,
                    env: matcher.match_spec(*node, *pattern, empty_env()).unwrap(),
                    depth: depth as nat,
                    visit: acc.len(),
                },
            ));
        },
        None => {},
    }
    let child_depth = if depth < usize::MAX {
        depth + 1
    } else {
        depth
    };
    let ghost acc1 = candidates_view(candidates@);
    let mut k: usize = 0;
    while k < node.children.len()
        invariant
            0 <= k <= node.children@.len(),
            child_depth as nat == next_depth(depth as nat),
            collect_children(*matcher, *pattern, node.children@, k as int, child_depth as nat, candidates_view(candidates@))
                == collect_children(*matcher, *pattern, node.children@, 0, child_depth as nat, acc1),
        decreases node.children@.len() - k,
    {
        collect_matches(matcher, &node.children[k], pattern, child_depth, candidates);
        k = k + 1;
    }
}

fn considered_first(a: &MatchCandidate, b: &MatchCandidate, r: ConflictResolution) -> (res: bool)
    ensures
        res == considered_before(candidate_view(*a), candidate_view(*b), r),
{
    let la = span_len(a.result.span);
    let lb = span_len(b.result.span);
    if la != lb {
        match r {
            ConflictResolution::PreferOuter => la > lb,
            ConflictResolution::PreferInner => la < lb,
        }
    } else if a.result.span.start != b.result.span.start {
        a.result.span.start < b.result.span.start
    } else if a.result.span.end != b.result.span.end {
        a.result.span.end < b.result.span.end
    } else if a.depth != b.depth {
        a.depth < b.depth
    } else {
        a.visit_index < b.visit_index
    }
}

fn reported_first(a: &MatchCandidate, b: &MatchCandidate) -> (res: bool)
    ensures
        res == reported_before(candidate_view(*a), candidate_view(*b)),
{
    if a.result.span.start != b.result.span.start {
        a.result.span.start < b.result.span.start
    } else if a.result.span.end != b.result.span.end {
        a.result.span.end < b.result.span.end
    } else if a.depth != b.depth {
        a.depth < b.depth
    } else {
        a.visit_index < b.visit_index
    }
}

/// Every match of `pattern` in the tree under `target`, overlapping matches
/// resolved by `conflict_resolution`, as `all_matches` states.
pub fn find_all_matches<M: Matcher>(
    matcher: &M,
    target: &SyntaxNode,
    pattern: &PatternNode,
    conflict_resolution: ConflictResolution,
) -> (res: Vec<MatchResult>)
    ensures
        results_view(res@) == all_matches(*matcher, *target, *pattern, conflict_resolution),
{
    let mut candidates: Vec<MatchCandidate> = Vec::new();
    assert(candidates_view(candidates@) =~= Seq::<CandidateView>::empty());
    collect_matches(matcher, target, pattern, 0, &mut candidates);
    let ghost c = candidates_view(candidates@);
    let n = candidates.len();
    // Candidates in the order they are considered.
    let ghost before = index_considered_before(c, conflict_resolution);
    let mut order: Vec<usize> = Vec::new();
    let mut i: usize = 0;
    while i < n
        invariant
            n == candidates@.len(),
            c == candidates_view(candidates@),
            before == index_considered_before(c, conflict_resolution),
            0 <= i <= n,
            order@ == sort_indices(i as nat, before),
            order@.len() == i,
            forall|j: int| 0 <= j < order@.len() ==> order@[j] < i,
        decreases n - i,
    {
        proof {
            lemma_sort_indices_permutation(i as nat, before);
        }
        let mut pos: usize = 0;
        while pos < order.len()
            invariant
                n == candidates@.len(),
                c == candidates_view(candidates@),
                before == index_considered_before(c, conflict_resolution),
                i < n,
                0 <= pos <= order@.len(),
                forall|j: int| 0 <= j < order@.len() ==> order@[j] < i,
                forall|j: int| 0 <= j < pos ==> !before(i, #[trigger] order@[j]),
            ensures
                0 <= pos <= order@.len(),
                forall|j: int| 0 <= j < pos ==> !before(i, #[trigger] order@[j]),
                pos == order@.len() || before(i, order@[pos as int]),
            decreases order@.len() - pos,
        {
            if considered_first(&candidates[i], &candidates[order[pos]], conflict_resolution) {
                break;
            }
            pos = pos + 1;
        }
        proof {
            lemma_insert_at(order@, i, before, pos as int);
        }
        order.insert(pos, i);
        i = i + 1;
    }
    proof {
        lemma_sort_indices_permutation(n as nat, before);
    }
    // Greedy selection of non-overlapping candidates.
    let mut selected: Vec<usize> = Vec::new();
    let mut k: usize = 0;
    while k < n
        invariant
            n == candidates@.len(),
            c == candidates_view(candidates@),
            order@ == sort_indices(n as nat, before),
            is_index_permutation(order@, n as nat),
            0 <= k <= n,
            greedy_from(c, order@, k as int, selected@) == greedy_from(c, order@, 0, Seq::empty()),
            forall|j: int| 0 <= j < selected@.len() ==> selected@[j] < n,
        decreases n - k,
    {
        let x = order[k];
        let mut ok = true;
        let mut j: usize = 0;
        while j < selected.len()
            invariant_except_break
                ok,
            invariant
                n == candidates@.len(),
                c == candidates_view(candidates@),
                x < n,
                0 <= j <= selected@.len(),
                forall|jj: int| 0 <= jj < selected@.len() ==> selected@[jj] < n,
                forall|jj: int| 0 <= jj < j ==> !spec_spans_overlap(c[selected@[jj] as int].span, c[x as int].span),
            ensures
                ok == compatible(c, selected@, x),
            decreases selected@.len() - j,
        {
            if spans_overlap(candidates[selected[j]].result.span, candidates[x].result.span) {
                ok = false;
                break;
            }
            j = j + 1;
        }
        if ok {
            selected.push(x);
        }
        k = k + 1;
    }
    let ghost sel = selected@;
    assert(sel == greedy_from(c, order@, 0, Seq::empty()));
    // Selected candidates in report order.
    let m = selected.len();
    let ghost before2 = position_reported_before(c, sel);
    let mut positions: Vec<usize> = Vec::new();
    let mut i2: usize = 0;
    while i2 < m
        invariant
            n == candidates@.len(),
            c == candidates_view(candidates@),
            sel == selected@,
            m == sel.len(),
            forall|j: int| 0 <= j < sel.len() ==> sel[j] < n,
            before2 == position_reported_before(c, sel),
            0 <= i2 <= m,
            positions@ == sort_indices(i2 as nat, before2),
            positions@.len() == i2,
            forall|j: int| 0 <= j < positions@.len() ==> positions@[j] < i2,
        decreases m - i2,
    {
        proof {
            lemma_sort_indices_permutation(i2 as nat, before2);
        }
        let mut pos: usize = 0;
        while pos < positions.len()
            invariant
                n == candidates@.len(),
                c == candidates_view(candidates@),
                sel == selected@,
                m == sel.len(),
                forall|j: int| 0 <= j < sel.len() ==> sel[j] < n,
                before2 == position_reported_before(c, sel),
                i2 < m,
                0 <= pos <= positions@.len(),
                forall|j: int| 0 <= j < positions@.len() ==> positions@[j] < i2,
                forall|j: int| 0 <= j < pos ==> !before2(i2, #[trigger] positions@[j]),
            ensures
                0 <= pos <= positions@.len(),
                forall|j: int| 0 <= j < pos ==> !before2(i2, #[trigger] positions@[j]),
                pos == positions@.len() || before2(i2, positions@[pos as int]),
            decreases positions@.len() - pos,
        {
            if reported_first(&candidates[selected[i2]], &candidates[selected[positions[pos]]]) {
                break;
            }
            pos = pos + 1;
        }
        proof {
            lemma_insert_at(positions@, i2, before2, pos as int);
        }
        positions.insert(pos, i2);
        i2 = i2 + 1;
    }
    proof {
        lemma_sort_indices_permutation(m as nat, before2);
    }
    let ghost reported_spec = positions@.map_values(|p: usize| sel[p as int]);
    let mut reported: Vec<usize> = Vec::new();
    let mut t: usize = 0;
    while t < m
        invariant
            sel == selected@,
            m == sel.len(),
            positions@.len() == m,
            forall|j: int| 0 <= j < positions@.len() ==> positions@[j] < m,
            reported_spec == positions@.map_values(|p: usize| sel[p as int]),
            0 <= t <= m,
            reported@ == reported_spec.take(t as int),
        decreases m - t,
    {
        reported.push(selected[positions[t]]);
        assert(reported_spec.take(t + 1) =~= reported@);
        t = t + 1;
    }
    assert(reported@ =~= reported_spec);
    // Without repeats, and as results.
    let mut kept: Vec<usize> = Vec::new();
    let mut results: Vec<MatchResult> = Vec::new();
    let mut u: usize = 0;
    while u < m
        invariant
            n == candidates@.len(),
            c == candidates_view(candidates@),
            m == reported@.len(),
            forall|j: int| 0 <= j < reported@.len() ==> reported@[j] < n,
            0 <= u <= m,
            kept@ == dedup_upto(c, reported@, u as int),
            forall|j: int| 0 <= j < kept@.len() ==> kept@[j] < n,
            u > 0 ==> kept@.len() > 0 && same_result(c[kept@.last() as int], c[reported@[u - 1] as int]),
            results_view(results@) == kept@.map_values(
                |i: usize| MatchResultView { span: c[i as int].span, env: c[i as int].env },
            ),
        decreases m - u,
    {
        let x = reported[u];
        let fresh = if u == 0 {
            true
        } else {
            let last = kept[kept.len() - 1];
            let a = &candidates[x].result;
            let b = &candidates[last].result;
            !(a.span == b.span && a.environment.same_bindings(&b.environment))
        };
        proof {
            if u > 0 {
                assert(fresh == !same_result(c[x as int], c[reported@[u - 1] as int]));
            }
        }
        if fresh {
            let ghost before_results = results@;
            let ghost before_kept = kept@;
            kept.push(x);
            let r = MatchResult {
                span: candidates[x].result.span,
                environment: candidates[x].result.environment.duplicate(),
            };
            results.push(r);
            proof {
                assert(results_view(results@) =~= results_view(before_results).push(
                    MatchResultView { span: c[x as int].span, env: c[x as int].env },
                ));
                assert(kept@.map_values(|i: usize| MatchResultView { span: c[i as int].span, env: c[i as int].env })
                    =~= before_kept.map_values(|i: usize| MatchResultView { span: c[i as int].span, env: c[i as int].env }).push(
                    MatchResultView { span: c[x as int].span, env: c[x as int].env },
                ));
            }
        }
        u = u + 1;
    }
    results
}

/// Searching the tree under a node for every match of a pattern, for any
/// matcher.
pub trait FindAllMatches: Matcher + Sized {
    /// Every match of `pattern` in the tree under `target`, as the free
    /// function `find_all_matches` gives it.
    fn find_all_matches(
        &self,
        target: &SyntaxNode,
        pattern: &PatternNode,
        conflict_resolution: ConflictResolution,
    ) -> (res: Vec<MatchResult>)
        ensures
            results_view(res@) == all_matches(*self, *target, *pattern, conflict_resolution),
    ;
}

impl<T: Matcher> FindAllMatches for T {
    fn find_all_matches(
        &self,
        target: &SyntaxNode,
        pattern: &PatternNode,
        conflict_resolution: ConflictResolution,
    ) -> (res: Vec<MatchResult>) {
        find_all_matches(self, target, pattern, conflict_resolution)
    }
}

/// Every match of `pattern` in the tree under `target`, as
/// `find_all_matches` gives it.
#[allow(non_snake_case)]
pub fn FindAllMatches<M: Matcher>(
    matcher: &M,
    target: &SyntaxNode,
    pattern: &PatternNode,
    conflict_resolution: ConflictResolution,
) -> (res: Vec<MatchResult>)
    ensures
        results_view(res@) == all_matches(*matcher, *target, *pattern, conflict_resolution),
{
    find_all_matches(matcher, target, pattern, conflict_resolution)
}

// ---------------------------------------------------------------------------
// What every result list satisfies
// ---------------------------------------------------------------------------

/// Candidate `x` is apart from `y` and starts no later.
pub open spec fn ordered_apart(c: Seq<CandidateView>, x: usize, y: usize) -> bool {
    !spec_spans_overlap(c[x as int].span, c[y as int].span) && c[x as int].span.start <= c[y as int].span.start
}

/// Each candidate of `xs` is apart from and starts no later than those after it.
pub open spec fn pairwise_ordered_apart(c: Seq<CandidateView>, xs: Seq<usize>) -> bool {
    forall|i: int, j: int| 0 <= i < j < xs.len() ==> ordered_apart(c, #[trigger] xs[i], #[trigger] xs[j])
}

/// No two candidates of `xs` overlap.
pub open spec fn pairwise_apart(c: Seq<CandidateView>, xs: Seq<usize>) -> bool {
    forall|i: int, j: int|
        0 <= i < j < xs.len() ==> !spec_spans_overlap(c[#[trigger] xs[i] as int].span, c[#[trigger] xs[j] as int].span)
}

proof fn lemma_greedy_apart(c: Seq<CandidateView>, order: Seq<usize>, k: int, sel: Seq<usize>)
    requires
        pairwise_apart(c, sel),
    ensures
        pairwise_apart(c, greedy_from(c, order, k, sel)),
    decreases order.len() - k,
{
    if 0 <= k < order.len() {
        if compatible(c, sel, order[k]) {
            let s2 = sel.push(order[k]);
            assert forall|i: int, j: int| 0 <= i < j < s2.len() implies !spec_spans_overlap(
                c[#[trigger] s2[i] as int].span,
                c[#[trigger] s2[j] as int].span,
            ) by {
                if j == sel.len() {
                    assert(s2[i] == sel[i]);
                    assert(!spec_spans_overlap(c[sel[i] as int].span, c[order[k] as int].span));
                } else {
                    assert(s2[i] == sel[i] && s2[j] == sel[j]);
                }
            }
            lemma_greedy_apart(c, order, k + 1, s2);
        } else {
            lemma_greedy_apart(c, order, k + 1, sel);
        }
    }
}

proof fn lemma_greedy_len(c: Seq<CandidateView>, order: Seq<usize>, k: int, sel: Seq<usize>)
    requires
        0 <= k <= order.len(),
    ensures
        greedy_from(c, order, k, sel).len() <= sel.len() + order.len() - k,
    decreases order.len() - k,
{
    if k < order.len() {
        if compatible(c, sel, order[k]) {
            lemma_greedy_len(c, order, k + 1, sel.push(order[k]));
        } else {
            lemma_greedy_len(c, order, k + 1, sel);
        }
    }
}

proof fn lemma_dedup_members(c: Seq<CandidateView>, xs: Seq<usize>, n: int)
    requires
        0 <= n <= xs.len(),
    ensures
        forall|a: int|
            0 <= a < dedup_upto(c, xs, n).len() ==> exists|k: int| 0 <= k < n && #[trigger] dedup_upto(c, xs, n)[a] == xs[k],
    decreases n,
{
    if n > 0 {
        lemma_dedup_members(c, xs, n - 1);
        let prev = dedup_upto(c, xs, n - 1);
        let cur = dedup_upto(c, xs, n);
        assert forall|a: int| 0 <= a < cur.len() implies exists|k: int| 0 <= k < n && #[trigger] cur[a] == xs[k] by {
            if a < prev.len() {
                assert(cur[a] == prev[a]);
                let k = choose|k: int| 0 <= k < n - 1 && prev[a] == xs[k];
                assert(cur[a] == xs[k]);
            } else {
                assert(cur[a] == xs[n - 1]);
            }
        }
    }
}

proof fn lemma_dedup_ordered_apart(c: Seq<CandidateView>, xs: Seq<usize>, n: int)
    requires
        0 <= n <= xs.len(),
        pairwise_ordered_apart(c, xs),
    ensures
        pairwise_ordered_apart(c, dedup_upto(c, xs, n)),
    decreases n,
{
    if n > 0 {
        lemma_dedup_ordered_apart(c, xs, n - 1);
        lemma_dedup_members(c, xs, n - 1);
        let prev = dedup_upto(c, xs, n - 1);
        let cur = dedup_upto(c, xs, n);
        if cur.len() > prev.len() {
            assert forall|i: int, j: int| 0 <= i < j < cur.len() implies ordered_apart(
                c,
                #[trigger] cur[i],
                #[trigger] cur[j],
            ) by {
                assert(cur[i] == prev[i]);
                if j == prev.len() {
                    let k = choose|k: int| 0 <= k < n - 1 && prev[i] == xs[k];
                    assert(cur[j] == xs[n - 1]);
                    assert(ordered_apart(c, xs[k], xs[n - 1]));
                } else {
                    assert(cur[j] == prev[j]);
                }
            }
        }
    }
}

/// The reported matches do not overlap one another, and come in order of
/// their starts.
pub proof fn lemma_all_matches_apart_and_ordered<M: Matcher>(
    m: M,
    target: SyntaxNode,
    pattern: PatternNode,
    r: ConflictResolution,
)
    requires
        candidates_of(m, target, pattern).len() <= usize::MAX,
    ensures
        ({
            let res = all_matches(m, target, pattern, r);
            forall|i: int, j: int|
                0 <= i < j < res.len() ==> !spec_spans_overlap(#[trigger] res[i].span, #[trigger] res[j].span)
                    && res[i].span.start <= res[j].span.start
        }),
{
    let c = candidates_of(m, target, pattern);
    let order = sort_indices(c.len(), index_considered_before(c, r));
    let sel = greedy_from(c, order, 0, Seq::empty());
    lemma_greedy_apart(c, order, 0, Seq::empty());
    lemma_sort_indices_permutation(c.len(), index_considered_before(c, r));
    lemma_greedy_len(c, order, 0, Seq::empty());
    let before2 = position_reported_before(c, sel);
    assert(strict_order(before2));
    let positions = sort_indices(sel.len(), before2);
    lemma_sort_indices_permutation(sel.len(), before2);
    lemma_sort_indices_sorted(sel.len(), before2);
    let reported = positions.map_values(|p: usize| sel[p as int]);
    assert forall|i: int, j: int| 0 <= i < j < reported.len() implies ordered_apart(
        c,
        #[trigger] reported[i],
        #[trigger] reported[j],
    ) by {
        let pi = positions[i];
        let pj = positions[j];
        assert(pi != pj);
        assert(!before2(pj, pi));
        if pi < pj {
            assert(!spec_spans_overlap(c[sel[pi as int] as int].span, c[sel[pj as int] as int].span));
        } else {
            assert(!spec_spans_overlap(c[sel[pj as int] as int].span, c[sel[pi as int] as int].span));
        }
    }
    lemma_dedup_ordered_apart(c, reported, reported.len() as int);
    let kept = dedup_upto(c, reported, reported.len() as int);
    let res = all_matches(m, target, pattern, r);
    assert forall|i: int, j: int| 0 <= i < j < res.len() implies !spec_spans_overlap(
        #[trigger] res[i].span,
        #[trigger] res[j].span,
    ) && res[i].span.start <= res[j].span.start by {
        assert(ordered_apart(c, kept[i], kept[j]));
    }
}

} // verus!
