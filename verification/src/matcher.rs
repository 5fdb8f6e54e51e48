//! Structural matching of syntax trees against pattern trees, with
//! meta-variable capture and backtracking over sequence wildcards.
use vstd::prelude::*;
use crate::capture::{
    empty_env, nodes_view, CapturedNode, CapturedNodeView, EnvView, MatchEnvironment, MatchOutcome,
    MatchStrictness,
};
use crate::syntax::{capture_of, SyntaxNode};
use crate::text::{chars_of, char_is_whitespace, push_char, spec_is_whitespace, string_from_chars};
use crate::wildcard_parsing::{PatternNode, PatternNodeKind, WildcardNode};

verus! {

// ---------------------------------------------------------------------------
// Text normalisation
// ---------------------------------------------------------------------------

/// Where a scan of source text stands: in code, in a `//` comment, or in a
/// `/* */` comment.
#[derive(Debug, Clone, Copy, PartialEq, Eq, Structural)]
pub enum ScanMode {
    Code,
    LineComment,
    BlockComment,
}

/// The text from index `i` on, with comments and whitespace removed, when
/// the scan is in `mode` at `i`; in a block comment, `prev` is the char
/// before `i` (`'\0'` right after the opening `/*`).
pub open spec fn normalize_scan(s: Seq<char>, i: int, mode: ScanMode, prev: char) -> Seq<char>
    decreases s.len() - i,
{
    if i < 0 || i >= s.len() {
        Seq::empty()
    } else {
        match mode {
            ScanMode::Code => {
                if s[i] == '/' {
                    if i + 1 < s.len() && s[i + 1] == '/' {
                        normalize_scan(s, i + 2, ScanMode::LineComment, '\0')
                    } else if i + 1 < s.len() && s[i + 1] == '*' {
                        normalize_scan(s, i + 2, ScanMode::BlockComment, '\0')
                    } else {
                        seq!['/'] + normalize_scan(s, i + 1, ScanMode::Code, '\0')
                    }
                } else if spec_is_whitespace(s[i]) {
                    normalize_scan(s, i + 1, ScanMode::Code, '\0')
                } else {
                    seq![s[i]] + normalize_scan(s, i + 1, ScanMode::Code, '\0')
                }
            },
            ScanMode::LineComment => {
                if s[i] == '\n' {
                    normalize_scan(s, i + 1, ScanMode::Code, '\0')
                } else {
                    normalize_scan(s, i + 1, ScanMode::LineComment, '\0')
                }
            },
            ScanMode::BlockComment => {
                if prev == '*' && s[i] == '/' {
                    normalize_scan(s, i + 1, ScanMode::Code, '\0')
                } else {
                    normalize_scan(s, i + 1, ScanMode::BlockComment, s[i])
                }
            },
        }
    }
}

/// `s` with its `//` and `/* */` comments and its whitespace removed.
pub open spec fn normalize(s: Seq<char>) -> Seq<char> {
    normalize_scan(s, 0, ScanMode::Code, '\0')
}

/// `s` from index `i` on, up to its first `{`.
pub open spec fn before_brace_from(s: Seq<char>, i: int) -> Seq<char>
    decreases s.len() - i,
{
    if i < 0 || i >= s.len() {
        s
    } else if s[i] == '{' {
        s.take(i)
    } else {
        before_brace_from(s, i + 1)
    }
}

/// The normalised text up to its first `{`: a declaration's signature.
pub open spec fn signature(s: Seq<char>) -> Seq<char> {
    before_brace_from(normalize(s), 0)
}

/// Whether two node texts agree under `st`: exactly for `Cst`, by
/// signature for `Signature`, and after normalisation otherwise.
pub open spec fn texts_equal(st: MatchStrictness, a: Seq<char>, b: Seq<char>) -> bool {
    match st {
        MatchStrictness::Cst => a == b,
        MatchStrictness::Signature => signature(a) == signature(b),
        _ => normalize(a) == normalize(b),
    }
}

/// Trivia is skipped at every strictness but `Cst`.
pub open spec fn skips_trivia(st: MatchStrictness) -> bool {
    st != MatchStrictness::Cst
}

/// Text that is only comments and whitespace.
pub open spec fn ignorable(s: Seq<char>) -> bool {
    normalize(s).len() == 0
}

/// A target child that takes part in matching.
pub open spec fn keeps_target(st: MatchStrictness, node: SyntaxNode) -> bool {
    !skips_trivia(st) || !ignorable(node.text@)
}

/// A pattern child that is skipped: a plain node of trivia when trivia is skipped.
pub open spec fn skips_pattern(st: MatchStrictness, p: PatternNode) -> bool {
    skips_trivia(st) && p.kind is Node && ignorable(p.text@)
}

/// The target children that take part in matching, in order.
pub open spec fn kept_targets(st: MatchStrictness, ts: Seq<SyntaxNode>) -> Seq<SyntaxNode>
    decreases ts.len(),
{
    if ts.len() == 0 {
        Seq::empty()
    } else if keeps_target(st, ts.last()) {
        kept_targets(st, ts.drop_last()).push(ts.last())
    } else {
        kept_targets(st, ts.drop_last())
    }
}

/// Every pattern child from index `i` on is skipped.
pub open spec fn all_skipped_from(st: MatchStrictness, ps: Seq<PatternNode>, i: int) -> bool {
    forall|j: int| i <= j < ps.len() ==> skips_pattern(st, #[trigger] ps[j])
}

/// Two captures agree under `st`: same kind, agreeing text.
pub open spec fn captures_equal(st: MatchStrictness, a: CapturedNodeView, b: CapturedNodeView) -> bool {
    a.kind == b.kind && texts_equal(st, a.text, b.text)
}

/// Binding `name` to `node` in `env`: refused where `name` is bound to a
/// sequence, or bound to a node that does not agree; otherwise the
/// environment, with the binding added where it was new.
pub open spec fn bind_single(
    st: MatchStrictness,
    env: EnvView,
    name: Seq<char>,
    node: SyntaxNode,
) -> Option<EnvView> {
    if env.multi.contains_key(name) {
        None
    } else if env.single.contains_key(name) {
        if captures_equal(st, env.single[name], capture_of(node)) {
            Some(env)
        } else {
            None
        }
    } else {
        Some(EnvView { single: env.single.insert(name, capture_of(node)), multi: env.multi })
    }
}

/// The captures of a sequence of nodes.
pub open spec fn captures_of(nodes: Seq<SyntaxNode>) -> Seq<CapturedNodeView> {
    nodes.map_values(|n: SyntaxNode| capture_of(n))
}

/// Two capture sequences agree element by element.
pub open spec fn capture_seqs_equal(
    st: MatchStrictness,
    a: Seq<CapturedNodeView>,
    b: Seq<CapturedNodeView>,
) -> bool {
    a.len() == b.len() && forall|i: int| 0 <= i < a.len() ==> captures_equal(st, #[trigger] a[i], b[i])
}

/// Binding `name` to the sequence `nodes` in `env`, as `capture_single` does
/// for one node.
pub open spec fn bind_multi(
    st: MatchStrictness,
    env: EnvView,
    name: Seq<char>,
    nodes: Seq<SyntaxNode>,
) -> Option<EnvView> {
    if env.single.contains_key(name) {
        None
    } else if env.multi.contains_key(name) {
        if capture_seqs_equal(st, env.multi[name], captures_of(nodes)) {
            Some(env)
        } else {
            None
        }
    } else {
        Some(EnvView { single: env.single, multi: env.multi.insert(name, captures_of(nodes)) })
    }
}

/// Matching `target` against `pattern` from the bindings `env`: the
/// bindings after a match, or `None` where it does not match.
pub open spec fn node_match(
    st: MatchStrictness,
    target: SyntaxNode,
    pattern: PatternNode,
    env: EnvView,
) -> Option<EnvView>
    decreases pattern, 0int, 0int,
{
    match pattern.kind {
        PatternNodeKind::Node { kind } => {
            if kind@ != target.kind@ {
                None
            } else if st == MatchStrictness::Cst && pattern.text@ != target.text@ {
                None
            } else {
                let ts = kept_targets(st, target.children@);
                if ts.len() == 0 && all_skipped_from(st, pattern.children@, 0) {
                    if texts_equal(st, pattern.text@, target.text@) {
                        Some(env)
                    } else {
                        None
                    }
                } else {
                    sequence_match(st, ts, pattern.children@, 0, 0, env)
                }
            }
        },
        PatternNodeKind::MetaVar(w) => bind_single(st, env, w.name@, target),
        _ => None,
    }
}

/// Matching the targets from `ti` on against the patterns from `pi` on.
pub open spec fn sequence_match(
    st: MatchStrictness,
    ts: Seq<SyntaxNode>,
    ps: Seq<PatternNode>,
    ti: int,
    pi: int,
    env: EnvView,
) -> Option<EnvView>
    decreases ps, ps.len() - pi, ts.len() + 2 - ti,
{
    if pi < 0 || ti < 0 || ti > ts.len() {
        None
    } else if pi >= ps.len() {
        if ti == ts.len() {
            Some(env)
        } else {
            None
        }
    } else if skips_pattern(st, ps[pi]) {
        sequence_match(st, ts, ps, ti, pi + 1, env)
    } else {
        match ps[pi].kind {
            PatternNodeKind::MultiWildcard => spread_match(st, ts, ps, ti, pi, ti, None, env),
            PatternNodeKind::MultiMetaVar(w) => spread_match(st, ts, ps, ti, pi, ti, Some(w.name@), env),
            _ => {
                if ti >= ts.len() {
                    None
                } else {
                    match node_match(st, ts[ti], ps[pi], env) {
                        None => None,
                        Some(e) => sequence_match(st, ts, ps, ti + 1, pi + 1, e),
                    }
                }
            },
        }
    }
}

/// A sequence wildcard at pattern `pi` tried on the targets `ti..next`,
/// `ti..next + 1` and so on, the first that lets the rest match winning;
/// `name` is the meta-variable the sequence is bound to, if any.
pub open spec fn spread_match(
    st: MatchStrictness,
    ts: Seq<SyntaxNode>,
    ps: Seq<PatternNode>,
    ti: int,
    pi: int,
    next: int,
    name: Option<Seq<char>>,
    env: EnvView,
) -> Option<EnvView>
    decreases ps, ps.len() - pi, ts.len() + 1 - next,
{
    if next < ti || next > ts.len() || pi < 0 || pi >= ps.len() {
        None
    } else {
        let bound = match name {
            None => Some(env),
            Some(n) => bind_multi(st, env, n, ts.subrange(ti, next)),
        };
        match bound {
            None => spread_match(st, ts, ps, ti, pi, next + 1, name, env),
            Some(e1) => match sequence_match(st, ts, ps, next, pi + 1, e1) {
                Some(e) => Some(e),
                None => spread_match(st, ts, ps, ti, pi, next + 1, name, env),
            },
        }
    }
}

/// `text` with its `//` and `/* */` comments and its whitespace removed.
pub fn normalize_text(text: &str) -> (res: String)
    ensures
        res@ == normalize(text@),
{
    let chars = chars_of(text);
    let ghost s = chars@;
    let n = chars.len();
    let mut out = String::new();
    let mut mode = ScanMode::Code;
    let mut prev: char = '\0';
    let mut i: usize = 0;
    while i < n
        invariant
            n == s.len(),
            s == chars@,
            s == text@,
            i <= n,
            out@ + normalize_scan(s, i as int, mode, prev) == normalize(s),
            mode != ScanMode::BlockComment ==> prev == '\0',
        decreases n - i,
    {
        let c = chars[i];
        let ghost before = out@;
        let ghost rest0 = normalize_scan(s, i as int, mode, prev);
        match mode {
            ScanMode::Code => {
                if c == '/' {
                    if i + 1 < n && chars[i + 1] == '/' {
                        mode = ScanMode::LineComment;
                        i = i + 2;
                    } else if i + 1 < n && chars[i + 1] == '*' {
                        mode = ScanMode::BlockComment;
                        i = i + 2;
                    } else {
                        push_char(&mut out, '/');
                        proof {
                            assert(before.push('/') + normalize_scan(s, i + 1, ScanMode::Code, '\0')
                                =~= before + (seq!['/'] + normalize_scan(s, i + 1, ScanMode::Code, '\0')));
                        }
                        i = i + 1;
                    }
                } else if char_is_whitespace(c) {
                    i = i + 1;
                } else {
                    push_char(&mut out, c);
                    proof {
                        assert(before.push(c) + normalize_scan(s, i + 1, ScanMode::Code, '\0')
                            =~= before + (seq![c] + normalize_scan(s, i + 1, ScanMode::Code, '\0')));
                    }
                    i = i + 1;
                }
                prev = '\0';
            },
            ScanMode::LineComment => {
                if c == '\n' {
                    mode = ScanMode::Code;
                }
                i = i + 1;
            },
            ScanMode::BlockComment => {
                if prev == '*' && c == '/' {
                    mode = ScanMode::Code;
                    prev = '\0';
                } else {
                    prev = c;
                }
                i = i + 1;
            },
        }
        assert(before + rest0 == out@ + normalize_scan(s, i as int, mode, prev));
    }
    assert(normalize_scan(s, n as int, mode, prev) =~= Seq::<char>::empty());
    assert(out@ =~= normalize(s));
    out
}

/// The normalised `text` up to its first `{`.
pub fn normalize_signature_text(text: &str) -> (res: String)
    ensures
        res@ == signature(text@),
{
    let normalized = normalize_text(text);
    let chars = chars_of(normalized.as_str());
    let ghost s = chars@;
    let n = chars.len();
    let mut k: usize = 0;
    while k < n
        invariant
            s == chars@,
            s == normalized@,
            n == s.len(),
            k <= n,
            before_brace_from(s, k as int) == before_brace_from(s, 0),
            s == normalize(text@),
        decreases n - k,
    {
        if chars[k] == '{' {
            let cut = string_from_chars(chars.as_slice(), 0, k);
            assert(cut@ =~= s.take(k as int));

            return cut;
        }
        k = k + 1;
    }
    normalized
}

// ---------------------------------------------------------------------------
// The matcher
// ---------------------------------------------------------------------------

/// The nodes behind a sequence of references.
pub open spec fn derefs(v: Seq<&SyntaxNode>) -> Seq<SyntaxNode> {
    v.map_values(|r: &SyntaxNode| *r)
}

/// The bindings after a match attempt: the new ones where it matched, the
/// old ones where it did not.
pub open spec fn after_attempt(result: Option<EnvView>, before: EnvView) -> EnvView {
    match result {
        Some(e) => e,
        None => before,
    }
}

/// Matches syntax trees against pattern trees at a given strictness.
#[derive(Debug, Clone, Copy, PartialEq, Eq, Structural)]
pub struct PatternMatcher {
    strictness: MatchStrictness,
}

impl Default for PatternMatcher {
    fn default() -> (res: Self)
        ensures
            res.level() == MatchStrictness::Ast,
    {
        PatternMatcher { strictness: MatchStrictness::Ast }
    }
}

impl PatternMatcher {
    /// The strictness this matcher applies.
    pub closed spec fn level(&self) -> MatchStrictness {
        self.strictness
    }

    /// A matcher at `strictness`.
    pub fn new(strictness: MatchStrictness) -> (res: Self)
        ensures
            res.level() == strictness,
    {
        PatternMatcher { strictness }
    }

    /// The strictness this matcher applies.
    pub fn strictness(&self) -> (res: MatchStrictness)
        ensures
            res == self.level(),
    {
        self.strictness
    }

    fn should_skip_trivia(&self) -> (res: bool)
        ensures
            res == skips_trivia(self.level()),
    {
        !matches!(self.strictness, MatchStrictness::Cst)
    }

    fn should_require_exact_text(&self) -> (res: bool)
        ensures
            res == (self.level() == MatchStrictness::Cst),
    {
        matches!(self.strictness, MatchStrictness::Cst)
    }

    fn node_text_equal(&self, left: &String, right: &String) -> (res: bool)
        ensures
            res == texts_equal(self.level(), left@, right@),
    {
        match self.strictness {
            MatchStrictness::Cst => *left == *right,
            MatchStrictness::Signature => {
                normalize_signature_text(left.as_str()) == normalize_signature_text(right.as_str())
            },
            _ => normalize_text(left.as_str()) == normalize_text(right.as_str()),
        }
    }

    fn captured_node_equal(&self, left: &CapturedNode, right: &CapturedNode) -> (res: bool)
        ensures
            res == captures_equal(self.level(), left@, right@),
    {
        left.kind == right.kind && self.node_text_equal(&left.text, &right.text)
    }

    fn is_ignorable_text(&self, text: &String) -> (res: bool)
        ensures
            res == ignorable(text@),
    {
        normalize_text(text.as_str()).as_str().is_empty()
    }

    fn should_skip_pattern_child(&self, node: &PatternNode) -> (res: bool)
        ensures
            res == skips_pattern(self.level(), *node),
    {
        if !self.should_skip_trivia() {
            return false;
        }
        matches!(node.kind, PatternNodeKind::Node { .. }) && self.is_ignorable_text(&node.text)
    }

    fn capture_single(&self, env: &mut MatchEnvironment, name: &String, node: &SyntaxNode) -> (res: bool)
        ensures
            res == bind_single(self.level(), old(env)@, name@, *node) is Some,
            final(env)@ == after_attempt(bind_single(self.level(), old(env)@, name@, *node), old(env)@),
    {
        if env.has_multi_capture(name.as_str()) {
            return false;
        }
        let captured = node.captured();
        match env.get_single_capture(name.as_str()) {
            Some(existing) => self.captured_node_equal(existing, &captured),
            None => {
                env.insert_single_capture(name.clone(), captured);
                true
            },
        }
    }

    fn capture_multi(
        &self,
        env: &mut MatchEnvironment,
        name: &String,
        nodes: &Vec<&SyntaxNode>,
        from: usize,
        to: usize,
    ) -> (res: bool)
        requires
            from <= to <= nodes@.len(),
        ensures
            res == bind_multi(self.level(), old(env)@, name@, derefs(nodes@).subrange(from as int, to as int)) is Some,
            final(env)@ == after_attempt(
                bind_multi(self.level(), old(env)@, name@, derefs(nodes@).subrange(from as int, to as int)),
                old(env)@,
            ),
    {
        let ghost targets = derefs(nodes@).subrange(from as int, to as int);
        if env.has_single_capture(name.as_str()) {
            return false;
        }
        let mut captured: Vec<CapturedNode> = Vec::new();
        let mut k = from;
        while k < to
            invariant
                from <= k <= to <= nodes@.len(),
                targets == derefs(nodes@).subrange(from as int, to as int),
                nodes_view(captured@) == captures_of(derefs(nodes@).subrange(from as int, k as int)),
            decreases to - k,
        {
            let c = nodes[k].captured();
            let ghost before = captured@;
            captured.push(c);
            proof {
                assert(nodes_view(captured@) =~= nodes_view(before).push(c@));
                assert(derefs(nodes@).subrange(from as int, k + 1) =~= derefs(nodes@).subrange(
                    from as int,
                    k as int,
                ).push(*nodes@[k as int]));
                assert(captures_of(derefs(nodes@).subrange(from as int, k + 1)) =~= captures_of(
                    derefs(nodes@).subrange(from as int, k as int),
                ).push(capture_of(*nodes@[k as int])));
            }
            k = k + 1;
        }
        match env.get_multi_capture(name.as_str()) {
            Some(existing) => {
                if existing.len() != captured.len() {
                    return false;
                }
                let mut i: usize = 0;
                while i < captured.len()
                    invariant
                        existing@.len() == captured@.len(),
                        0 <= i <= captured@.len(),
                        nodes_view(captured@) == captures_of(targets),
                        targets == derefs(nodes@).subrange(from as int, to as int),
                        nodes_view(existing@) == old(env)@.multi[name@],
                        old(env)@.multi.contains_key(name@),
                        !old(env)@.single.contains_key(name@),
                        env@ == old(env)@,
                        forall|j: int|
                            0 <= j < i ==> captures_equal(
                                self.level(),
                                #[trigger] nodes_view(existing@)[j],
                                nodes_view(captured@)[j],
                            ),
                    decreases captured@.len() - i,
                {
                    if !self.captured_node_equal(&existing[i], &captured[i]) {
                        assert(nodes_view(existing@)[i as int] == existing@[i as int]@);
                        assert(nodes_view(captured@)[i as int] == captured@[i as int]@);
                        assert(!captures_equal(self.level(), nodes_view(existing@)[i as int], captures_of(targets)[i as int]));
                        assert(!capture_seqs_equal(self.level(), old(env)@.multi[name@], captures_of(targets)));
                        return false;
                    }
                    i = i + 1;
                }
                true
            },
            None => {
                env.insert_multi_capture(name.clone(), captured);
                true
            },
        }
    }

    /// The children of `target` that take part in matching.
    fn kept_children<'t>(&self, target: &'t SyntaxNode) -> (res: Vec<&'t SyntaxNode>)
        ensures
            derefs(res@) == kept_targets(self.level(), target.children@),
    {
        let mut out: Vec<&'t SyntaxNode> = Vec::new();
        let mut k: usize = 0;
        while k < target.children.len()
            invariant
                0 <= k <= target.children@.len(),
                derefs(out@) == kept_targets(self.level(), target.children@.take(k as int)),
            decreases target.children@.len() - k,
        {
            let child = &target.children[k];
            let ghost before = out@;
            proof {
                assert(target.children@.take(k + 1).drop_last() =~= target.children@.take(k as int));
            }
            if !self.should_skip_trivia() || !self.is_ignorable_text(&child.text) {
                out.push(child);
                assert(derefs(out@) =~= derefs(before).push(*child));
            }
            k = k + 1;
        }
        assert(target.children@.take(target.children@.len() as int) =~= target.children@);
        out
    }

    /// Whether every pattern child is skipped.
    fn all_children_skipped(&self, pattern: &PatternNode) -> (res: bool)
        ensures
            res == all_skipped_from(self.level(), pattern.children@, 0),
    {
        let mut k: usize = 0;
        while k < pattern.children.len()
            invariant
                0 <= k <= pattern.children@.len(),
                forall|j: int| 0 <= j < k ==> skips_pattern(self.level(), #[trigger] pattern.children@[j]),
            decreases pattern.children@.len() - k,
        {
            if !self.should_skip_pattern_child(&pattern.children[k]) {
                return false;
            }
            k = k + 1;
        }
        true
    }
    fn match_regular_node(
        &self,
        target: &SyntaxNode,
        kind: &String,
        pattern: &PatternNode,
        env: &mut MatchEnvironment,
    ) -> (res: bool)
        requires
            pattern.kind == (PatternNodeKind::Node { kind: *kind }),
        ensures
            res == node_match(self.level(), *target, *pattern, old(env)@) is Some,
            final(env)@ == after_attempt(node_match(self.level(), *target, *pattern, old(env)@), old(env)@),
        decreases *pattern, 0int, 0int,
    {
        if *kind != target.kind {
            return false;
        }
        if self.should_require_exact_text() && pattern.text != target.text {
            return false;
        }
        let target_children = self.kept_children(target);
        if target_children.len() == 0 && self.all_children_skipped(pattern) {
            return self.node_text_equal(&pattern.text, &target.text);
        }
        self.match_sequence(&target_children, &pattern.children, 0, 0, env)
    }

    fn match_sequence(
        &self,
        targets: &Vec<&SyntaxNode>,
        patterns: &Vec<PatternNode>,
        target_index: usize,
        pattern_index: usize,
        env: &mut MatchEnvironment,
    ) -> (res: bool)
        requires
            target_index <= targets@.len(),
            pattern_index <= patterns@.len(),
        ensures
            res == sequence_match(
                self.level(),
                derefs(targets@),
                patterns@,
                target_index as int,
                pattern_index as int,
                old(env)@,
            ) is Some,
            final(env)@ == after_attempt(
                sequence_match(
                    self.level(),
                    derefs(targets@),
                    patterns@,
                    target_index as int,
                    pattern_index as int,
                    old(env)@,
                ),
                old(env)@,
            ),
        decreases patterns@, patterns@.len() - pattern_index, targets@.len() + 2 - target_index,
    {
        let ghost ts = derefs(targets@);
        let ghost ps = patterns@;
        let ghost st = self.level();
        let ghost env0 = env@;
        if pattern_index == patterns.len() {
            return target_index == targets.len();
        }
        let current = &patterns[pattern_index];
        let next_pattern = pattern_index + 1;
        if self.should_skip_pattern_child(current) {
            return self.match_sequence(targets, patterns, target_index, next_pattern, env);
        }
        match &current.kind {
            PatternNodeKind::MultiWildcard => {
                let mut next_target = target_index;
                loop
                    invariant
                        target_index <= next_target <= targets@.len(),
                        pattern_index < patterns@.len(),
                        next_pattern == pattern_index + 1,
                        ts == derefs(targets@),
                        ps == patterns@,
                        st == self.level(),
                        env@ == env0,
                        env0 == old(env)@,
                        !skips_pattern(st, ps[pattern_index as int]),
                        ps[pattern_index as int].kind is MultiWildcard,
                        spread_match(st, ts, ps, target_index as int, pattern_index as int, next_target as int, None, env0)
                            == spread_match(st, ts, ps, target_index as int, pattern_index as int, target_index as int, None, env0),
                    decreases targets@.len() - next_target,
                {
                    let mut next_env = env.duplicate();
                    if self.match_sequence(targets, patterns, next_target, next_pattern, &mut next_env) {
                        *env = next_env;
                        return true;
                    }
                    if next_target == targets.len() {
                        assert(spread_match(st, ts, ps, target_index as int, pattern_index as int, next_target + 1, None, env0) is None);
                        return false;
                    }
                    next_target = next_target + 1;
                }
            },
            PatternNodeKind::MultiMetaVar(meta) => {
                let mut next_target = target_index;
                loop
                    invariant
                        target_index <= next_target <= targets@.len(),
                        pattern_index < patterns@.len(),
                        next_pattern == pattern_index + 1,
                        ts == derefs(targets@),
                        ps == patterns@,
                        st == self.level(),
                        env@ == env0,
                        env0 == old(env)@,
                        !skips_pattern(st, ps[pattern_index as int]),
                        ps[pattern_index as int].kind == PatternNodeKind::MultiMetaVar(*meta),
                        spread_match(st, ts, ps, target_index as int, pattern_index as int, next_target as int, Some(meta.name@), env0)
                            == spread_match(st, ts, ps, target_index as int, pattern_index as int, target_index as int, Some(meta.name@), env0),
                    decreases targets@.len() - next_target,
                {
                    let mut next_env = env.duplicate();
                    if self.capture_multi(&mut next_env, &meta.name, targets, target_index, next_target)
                        && self.match_sequence(targets, patterns, next_target, next_pattern, &mut next_env)
                    {
                        *env = next_env;
                        return true;
                    }
                    if next_target == targets.len() {
                        assert(spread_match(st, ts, ps, target_index as int, pattern_index as int, next_target + 1, Some(meta.name@), env0) is None);
                        return false;
                    }
                    next_target = next_target + 1;
                }
            },
            _ => {
                if target_index >= targets.len() {
                    return false;
                }
                let mut next_env = env.duplicate();
                if self.match_node_with_env(targets[target_index], current, &mut next_env)
                    && self.match_sequence(targets, patterns, target_index + 1, next_pattern, &mut next_env)
                {
                    *env = next_env;
                    true
                } else {
                    false
                }
            },
        }
    }

    /// Matches `target` against `pattern`, extending the bindings `env`: where
    /// it matches, `env` holds the bindings made; where it does not, `env` is
    /// left as it was.
    pub fn match_node_with_env(
        &self,
        target: &SyntaxNode,
        pattern: &PatternNode,
        env: &mut MatchEnvironment,
    ) -> (res: bool)
        ensures
            res == node_match(self.level(), *target, *pattern, old(env)@) is Some,
            final(env)@ == after_attempt(node_match(self.level(), *target, *pattern, old(env)@), old(env)@),
        decreases *pattern, 0int, 1int,
    {
        match &pattern.kind {
            PatternNodeKind::Node { kind } => self.match_regular_node(target, kind, pattern, env),
            PatternNodeKind::MetaVar(meta) => self.capture_single(env, &meta.name, target),
            PatternNodeKind::MultiMetaVar(_) => false,
            PatternNodeKind::MultiWildcard => false,
        }
    }
    /// The same as `match_node_with_env`.
    pub fn match_node_with_env_and_capture(
        &self,
        target: &SyntaxNode,
        pattern: &PatternNode,
        env: &mut MatchEnvironment,
    ) -> (res: bool)
        ensures
            res == node_match(self.level(), *target, *pattern, old(env)@) is Some,
            final(env)@ == after_attempt(node_match(self.level(), *target, *pattern, old(env)@), old(env)@),
    {
        self.match_node_with_env(target, pattern, env)
    }

    /// Matches `target` against `pattern` from no bindings: whether it
    /// matched, and the bindings made (none where it did not match).
    pub fn match_result(&self, target: &SyntaxNode, pattern: &PatternNode) -> (res: MatchOutcome)
        ensures
            res.matched == node_match(self.level(), *target, *pattern, empty_env()) is Some,
            res.environment@ == after_attempt(node_match(self.level(), *target, *pattern, empty_env()), empty_env()),
    {
        let mut env = MatchEnvironment::new();
        let matched = self.match_node_with_env_and_capture(target, pattern, &mut env);
        MatchOutcome { matched, environment: env }
    }

    /// The bindings of a match of `target` against `pattern` from no
    /// bindings, or `None` where it does not match.
    pub fn match_node(&self, target: &SyntaxNode, pattern: &PatternNode) -> (res: Option<MatchEnvironment>)
        ensures
            res is Some <==> node_match(self.level(), *target, *pattern, empty_env()) is Some,
            res matches Some(env) ==> Some(env@) == node_match(self.level(), *target, *pattern, empty_env()),
    {
        let result = self.match_result(target, pattern);
        if result.matched {
            Some(result.environment)
        } else {
            None
        }
    }
}

/// A pattern that is one meta-variable `$NAME` matches every node from no
/// bindings, binding `NAME` to the node.
pub proof fn lemma_meta_variable_matches_any(st: MatchStrictness, target: SyntaxNode, pattern: PatternNode)
    requires
        pattern.kind is MetaVar,
    ensures
        node_match(st, target, pattern, empty_env()) == Some(
            EnvView {
                single: Map::<Seq<char>, CapturedNodeView>::empty().insert(
                    pattern.kind->MetaVar_0.name@,
                    capture_of(target),
                ),
                multi: Map::<Seq<char>, Seq<CapturedNodeView>>::empty(),
            },
        ),
{
}

/// A pattern that is a sequence wildcard matches no single node.
pub proof fn lemma_sequence_wildcard_alone_never_matches(
    st: MatchStrictness,
    target: SyntaxNode,
    pattern: PatternNode,
    env: EnvView,
)
    requires
        pattern.kind is MultiWildcard || pattern.kind is MultiMetaVar,
    ensures
        node_match(st, target, pattern, env) is None,
{
}

/// Every binding of `before` is in `after`, unchanged.
pub open spec fn keeps_bindings(before: EnvView, after: EnvView) -> bool {
    &&& forall|k: Seq<char>|
        #[trigger] before.single.contains_key(k) ==> after.single.contains_key(k) && after.single[k] == before.single[k]
    &&& forall|k: Seq<char>|
        #[trigger] before.multi.contains_key(k) ==> after.multi.contains_key(k) && after.multi[k] == before.multi[k]
}

/// A successful match only adds bindings: every meta-variable bound before
/// it stays bound to the same node or nodes.
pub proof fn lemma_match_keeps_bindings(st: MatchStrictness, target: SyntaxNode, pattern: PatternNode, env: EnvView)
    ensures
        node_match(st, target, pattern, env) matches Some(e) ==> keeps_bindings(env, e),
    decreases pattern, 0int, 0int,
{
    match pattern.kind {
        PatternNodeKind::Node { kind } => {
            if kind@ == target.kind@ && !(st == MatchStrictness::Cst && pattern.text@ != target.text@) {
                let ts = kept_targets(st, target.children@);
                lemma_sequence_keeps_bindings(st, ts, pattern.children@, 0, 0, env);
            }
        },
        _ => {},
    }
}

proof fn lemma_sequence_keeps_bindings(
    st: MatchStrictness,
    ts: Seq<SyntaxNode>,
    ps: Seq<PatternNode>,
    ti: int,
    pi: int,
    env: EnvView,
)
    ensures
        sequence_match(st, ts, ps, ti, pi, env) matches Some(e) ==> keeps_bindings(env, e),
    decreases ps, ps.len() - pi, ts.len() + 2 - ti,
{
    if pi < 0 || ti < 0 || ti > ts.len() || pi >= ps.len() {
    } else if skips_pattern(st, ps[pi]) {
        lemma_sequence_keeps_bindings(st, ts, ps, ti, pi + 1, env);
    } else {
        match ps[pi].kind {
            PatternNodeKind::MultiWildcard => {
                lemma_spread_keeps_bindings(st, ts, ps, ti, pi, ti, None, env);
            },
            PatternNodeKind::MultiMetaVar(w) => {
                lemma_spread_keeps_bindings(st, ts, ps, ti, pi, ti, Some(w.name@), env);
            },
            _ => {
                if ti < ts.len() {
                    lemma_match_keeps_bindings(st, ts[ti], ps[pi], env);
                    match node_match(st, ts[ti], ps[pi], env) {
                        None => {},
                        Some(e1) => {
                            lemma_sequence_keeps_bindings(st, ts, ps, ti + 1, pi + 1, e1);
                        },
                    }
                }
            },
        }
    }
}

proof fn lemma_spread_keeps_bindings(
    st: MatchStrictness,
    ts: Seq<SyntaxNode>,
    ps: Seq<PatternNode>,
    ti: int,
    pi: int,
    next: int,
    name: Option<Seq<char>>,
    env: EnvView,
)
    ensures
        spread_match(st, ts, ps, ti, pi, next, name, env) matches Some(e) ==> keeps_bindings(env, e),
    decreases ps, ps.len() - pi, ts.len() + 1 - next,
{
    if next < ti || next > ts.len() || pi < 0 || pi >= ps.len() {
    } else {
        let bound = match name {
            None => Some(env),
            Some(n) => bind_multi(st, env, n, ts.subrange(ti, next)),
        };
        lemma_spread_keeps_bindings(st, ts, ps, ti, pi, next + 1, name, env);
        match bound {
            None => {},
            Some(e1) => {
                assert(keeps_bindings(env, e1));
                lemma_sequence_keeps_bindings(st, ts, ps, next, pi + 1, e1);
            },
        }
    }
}

} // verus!

verus! {

proof fn lemma_normalize_scan_clean(s: Seq<char>, i: int, mode: ScanMode, prev: char)
    ensures
        forall|k: int| 0 <= k < normalize_scan(s, i, mode, prev).len() ==> !spec_is_whitespace(
            #[trigger] normalize_scan(s, i, mode, prev)[k],
        ),
        normalize_scan(s, i, mode, prev).len() <= if 0 <= i <= s.len() {
            s.len() - i
        } else {
            0
        },
    decreases s.len() - i,
{
    if !(i < 0 || i >= s.len()) {
        let r = normalize_scan(s, i, mode, prev);
        match mode {
            ScanMode::Code => {
                if s[i] == '/' {
                    if i + 1 < s.len() && s[i + 1] == '/' {
                        lemma_normalize_scan_clean(s, i + 2, ScanMode::LineComment, '\0');
                    } else if i + 1 < s.len() && s[i + 1] == '*' {
                        lemma_normalize_scan_clean(s, i + 2, ScanMode::BlockComment, '\0');
                    } else {
                        let rest = normalize_scan(s, i + 1, ScanMode::Code, '\0');
                        lemma_normalize_scan_clean(s, i + 1, ScanMode::Code, '\0');
                        assert forall|k: int| 0 <= k < r.len() implies !spec_is_whitespace(#[trigger] r[k]) by {
                            if k > 0 {
                                assert(r[k] == rest[k - 1]);
                            }
                        }
                    }
                } else if spec_is_whitespace(s[i]) {
                    lemma_normalize_scan_clean(s, i + 1, ScanMode::Code, '\0');
                } else {
                    let rest = normalize_scan(s, i + 1, ScanMode::Code, '\0');
                    lemma_normalize_scan_clean(s, i + 1, ScanMode::Code, '\0');
                    assert forall|k: int| 0 <= k < r.len() implies !spec_is_whitespace(#[trigger] r[k]) by {
                        if k > 0 {
                            assert(r[k] == rest[k - 1]);
                        }
                    }
                }
            },
            ScanMode::LineComment => {
                if s[i] == '\n' {
                    lemma_normalize_scan_clean(s, i + 1, ScanMode::Code, '\0');
                } else {
                    lemma_normalize_scan_clean(s, i + 1, ScanMode::LineComment, '\0');
                }
            },
            ScanMode::BlockComment => {
                if prev == '*' && s[i] == '/' {
                    lemma_normalize_scan_clean(s, i + 1, ScanMode::Code, '\0');
                } else {
                    lemma_normalize_scan_clean(s, i + 1, ScanMode::BlockComment, s[i]);
                }
            },
        }
    }
}

proof fn lemma_normalize_scan_plain(s: Seq<char>, i: int)
    requires
        0 <= i <= s.len(),
        forall|k: int| i <= k < s.len() ==> #[trigger] s[k] != '/' && !spec_is_whitespace(s[k]),
    ensures
        normalize_scan(s, i, ScanMode::Code, '\0') == s.subrange(i, s.len() as int),
    decreases s.len() - i,
{
    if i < s.len() {
        lemma_normalize_scan_plain(s, i + 1);
        assert(s.subrange(i, s.len() as int) =~= seq![s[i]] + s.subrange(i + 1, s.len() as int));
    } else {
        assert(s.subrange(i, s.len() as int) =~= Seq::<char>::empty());
    }
}

/// Normalised text holds no whitespace and is no longer than the text; text
/// without whitespace and without `/` is its own normal form.
pub proof fn lemma_normalize_laws(s: Seq<char>)
    ensures
        forall|k: int| 0 <= k < normalize(s).len() ==> !spec_is_whitespace(#[trigger] normalize(s)[k]),
        normalize(s).len() <= s.len(),
        (forall|k: int| 0 <= k < s.len() ==> #[trigger] s[k] != '/' && !spec_is_whitespace(s[k])) ==> normalize(s)
            == s,
{
    lemma_normalize_scan_clean(s, 0, ScanMode::Code, '\0');
    if forall|k: int| 0 <= k < s.len() ==> #[trigger] s[k] != '/' && !spec_is_whitespace(s[k]) {
        lemma_normalize_scan_plain(s, 0);
        assert(s.subrange(0, s.len() as int) =~= s);
    }
}

} // verus!

verus! {

/// Under every strictness but `Cst`, a meta-variable met a second time
/// agrees with its first binding when the two nodes have the same kind and
/// the same text once comments and whitespace are dropped: matching the
/// meta-variable against the first node binds it, and matching it again
/// against the second succeeds and keeps the bindings.
pub proof fn lemma_repeated_meta_variable_ignores_trivia(
    st: MatchStrictness,
    p: PatternNode,
    w: WildcardNode,
    a: SyntaxNode,
    b: SyntaxNode,
    env: EnvView,
)
    requires
        st != MatchStrictness::Cst,
        p.kind == PatternNodeKind::MetaVar(w),
        !env.single.contains_key(w.name@),
        !env.multi.contains_key(w.name@),
        a.kind@ == b.kind@,
        normalize(a.text@) == normalize(b.text@),
    ensures
        node_match(st, a, p, env) matches Some(bound) && node_match(st, b, p, bound) == Some(bound),
{
    let bound = EnvView { single: env.single.insert(w.name@, capture_of(a)), multi: env.multi };
    assert(node_match(st, a, p, env) == Some(bound));
    assert(bound.single[w.name@] == capture_of(a));
    assert(texts_equal(st, capture_of(a).text, capture_of(b).text));
    assert(captures_equal(st, bound.single[w.name@], capture_of(b)));
}

} // verus!

verus! {

/// A meta-variable met a second time refuses a node of another kind, and,
/// under `Cst`, a node whose text differs at all; under `Ast`, `Relaxed`
/// and `Template` it refuses a node whose text differs once comments and
/// whitespace are dropped.
pub proof fn lemma_repeated_meta_variable_refuses_other_nodes(
    st: MatchStrictness,
    p: PatternNode,
    w: WildcardNode,
    a: SyntaxNode,
    b: SyntaxNode,
    env: EnvView,
)
    requires
        p.kind == PatternNodeKind::MetaVar(w),
        !env.single.contains_key(w.name@),
        !env.multi.contains_key(w.name@),
    ensures
        node_match(st, a, p, env) matches Some(bound) && {
            &&& a.kind@ != b.kind@ ==> node_match(st, b, p, bound) is None
            &&& (st == MatchStrictness::Cst && a.text@ != b.text@) ==> node_match(st, b, p, bound) is None
            &&& (st != MatchStrictness::Cst && st != MatchStrictness::Signature && normalize(a.text@) != normalize(
                b.text@,
            )) ==> node_match(st, b, p, bound) is None
            &&& (st == MatchStrictness::Cst && a.kind@ == b.kind@ && a.text@ == b.text@) ==> node_match(st, b, p, bound)
                == Some(bound)
        },
{
    let bound = EnvView { single: env.single.insert(w.name@, capture_of(a)), multi: env.multi };
    assert(node_match(st, a, p, env) == Some(bound));
    assert(bound.single[w.name@] == capture_of(a));
}

} // verus!
