//! Pattern trees and the meta-variable syntax of patterns: `$NAME` binds one
//! node, `$$$NAME` a sequence of nodes, and `$$$` matches any sequence.
use vstd::prelude::*;
use crate::span::NodeSpan;
use crate::syntax::SyntaxNode;
use crate::text::{chars_of, string_from_chars};

verus! {

/// A meta-variable's name.
#[derive(Debug, Clone, PartialEq, Eq)]
pub struct WildcardNode {
    pub name: String,
}

/// What a pattern node stands for.
#[derive(Debug, Clone, PartialEq, Eq)]
pub enum PatternNodeKind {
    /// A syntax node of the given kind.
    Node { kind: String },
    /// `$NAME`: any one node, bound to `NAME`.
    MetaVar(WildcardNode),
    /// `$$$NAME`: any sequence of sibling nodes, bound to `NAME`.
    MultiMetaVar(WildcardNode),
    /// `$$$`: any sequence of sibling nodes.
    MultiWildcard,
}

/// Mathematical value of a pattern node kind.
pub enum PatternKindView {
    Node(Seq<char>),
    MetaVar(Seq<char>),
    MultiMetaVar(Seq<char>),
    MultiWildcard,
}

impl View for PatternNodeKind {
    type V = PatternKindView;

    open spec fn view(&self) -> PatternKindView {
        match self {
            PatternNodeKind::Node { kind } => PatternKindView::Node(kind@),
            PatternNodeKind::MetaVar(w) => PatternKindView::MetaVar(w.name@),
            PatternNodeKind::MultiMetaVar(w) => PatternKindView::MultiMetaVar(w.name@),
            PatternNodeKind::MultiWildcard => PatternKindView::MultiWildcard,
        }
    }
}

impl PatternNodeKind {
    /// A copy of the kind.
    pub fn duplicate(&self) -> (res: Self)
        ensures
            res@ == self@,
    {
        match self {
            PatternNodeKind::Node { kind } => PatternNodeKind::Node { kind: kind.clone() },
            PatternNodeKind::MetaVar(w) => PatternNodeKind::MetaVar(WildcardNode { name: w.name.clone() }),
            PatternNodeKind::MultiMetaVar(w) => PatternNodeKind::MultiMetaVar(
                WildcardNode { name: w.name.clone() },
            ),
            PatternNodeKind::MultiWildcard => PatternNodeKind::MultiWildcard,
        }
    }
}

/// A node of a pattern tree: its kind, source text, span and children.
#[derive(Debug, PartialEq, Eq)]
pub struct PatternNode {
    pub kind: PatternNodeKind,
    pub text: String,
    pub span: NodeSpan,
    pub children: Vec<PatternNode>,
}

/// `c` may start a meta-variable name: an ASCII capital or `_`.
pub open spec fn is_meta_name_start(c: char) -> bool {
    (65 <= c as u32 <= 90) || c as u32 == 95
}

/// `c` may continue a meta-variable name: an ASCII capital, digit or `_`.
pub open spec fn is_meta_name_char(c: char) -> bool {
    (65 <= c as u32 <= 90) || (48 <= c as u32 <= 57) || c as u32 == 95
}

/// A valid meta-variable name: non-empty, starting with a capital or `_`,
/// continuing with capitals, digits or `_`.
pub open spec fn valid_meta_name(s: Seq<char>) -> bool {
    &&& s.len() > 0
    &&& is_meta_name_start(s[0])
    &&& forall|i: int| 1 <= i < s.len() ==> is_meta_name_char(#[trigger] s[i])
}

/// `$$$`
pub open spec fn triple_dollar() -> Seq<char> {
    seq!['$', '$', '$']
}

/// The wildcard that the identifier `s` denotes, if any.
pub open spec fn spec_wildcard_kind(s: Seq<char>) -> Option<PatternKindView> {
    if s == triple_dollar() {
        Some(PatternKindView::MultiWildcard)
    } else if s.len() >= 3 && s.take(3) == triple_dollar() {
        if valid_meta_name(s.skip(3)) {
            Some(PatternKindView::MultiMetaVar(s.skip(3)))
        } else {
            None
        }
    } else if s.len() >= 1 && s[0] == '$' && valid_meta_name(s.skip(1)) {
        Some(PatternKindView::MetaVar(s.skip(1)))
    } else {
        None
    }
}

fn is_meta_name_start_exec(c: char) -> (res: bool)
    ensures
        res == is_meta_name_start(c),
{
    let u = c as u32;
    (65 <= u && u <= 90) || u == 95
}

fn is_meta_name_char_exec(c: char) -> (res: bool)
    ensures
        res == is_meta_name_char(c),
{
    let u = c as u32;
    (65 <= u && u <= 90) || (48 <= u && u <= 57) || u == 95
}

fn valid_meta_name_from(chars: &[char], from: usize) -> (res: bool)
    requires
        from <= chars@.len(),
    ensures
        res == valid_meta_name(chars@.skip(from as int)),
{
    let n = chars.len();
    if from >= n {
        return false;
    }
    if !is_meta_name_start_exec(chars[from]) {
        return false;
    }
    let mut k = from + 1;
    while k < n
        invariant
            from < k <= n == chars@.len(),
            forall|i: int| from + 1 <= i < k ==> is_meta_name_char(#[trigger] chars@[i]),
        decreases n - k,
    {
        if !is_meta_name_char_exec(chars[k]) {
            assert(chars@.skip(from as int)[k - from] == chars@[k as int]);
            return false;
        }
        k = k + 1;
    }
    assert forall|i: int| 1 <= i < chars@.skip(from as int).len() implies is_meta_name_char(
        #[trigger] chars@.skip(from as int)[i],
    ) by {
        assert(chars@.skip(from as int)[i] == chars@[from + i]);
    }
    true
}

/// Whether `name` is a valid meta-variable name: non-empty, starting with
/// an ASCII capital or `_`, continuing with capitals, digits or `_`.
pub fn is_valid_meta_capture_name(name: &str) -> (res: bool)
    ensures
        res == valid_meta_name(name@),
{
    let chars = chars_of(name);
    assert(chars@.skip(0) =~= chars@);
    valid_meta_name_from(chars.as_slice(), 0)
}

/// The wildcard that an identifier denotes: `$$$` any sequence, `$$$NAME` a
/// named sequence, `$NAME` one named node; `None` for anything else.
pub fn wildcard_kind_from_identifier(name: &str) -> (res: Option<PatternNodeKind>)
    ensures
        match res {
            Some(k) => spec_wildcard_kind(name@) == Some(k@),
            None => spec_wildcard_kind(name@) is None,
        },
{
    let chars = chars_of(name);
    let n = chars.len();
    let three = n >= 3 && chars[0] == '$' && chars[1] == '$' && chars[2] == '$';
    proof {
        if n >= 3 {
            assert(three == (chars@.take(3) == triple_dollar())) by {
                if chars@.take(3) == triple_dollar() {
                    assert(chars@.take(3)[0] == '$');
                    assert(chars@.take(3)[1] == '$');
                    assert(chars@.take(3)[2] == '$');
                }
                if three {
                    assert(chars@.take(3) =~= triple_dollar());
                }
            }
        }
    }
    if three && n == 3 {
        assert(chars@ =~= triple_dollar());
        return Some(PatternNodeKind::MultiWildcard);
    }
    if three {
        assert(chars@ != triple_dollar());
        if valid_meta_name_from(chars.as_slice(), 3) {
            let rest = string_from_chars(chars.as_slice(), 3, n);
            assert(rest@ =~= chars@.skip(3));
            return Some(PatternNodeKind::MultiMetaVar(WildcardNode { name: rest }));
        }
        return None;
    }
    proof {
        if chars@ == triple_dollar() {
            assert(chars@.take(3) =~= triple_dollar());
        }
    }
    if n >= 1 && chars[0] == '$' {
        if valid_meta_name_from(chars.as_slice(), 1) {
            let rest = string_from_chars(chars.as_slice(), 1, n);
            assert(rest@ =~= chars@.skip(1));
            return Some(PatternNodeKind::MetaVar(WildcardNode { name: rest }));
        }
    }
    None
}

// ---------------------------------------------------------------------------
// Meta-variables of a pattern source tree
// ---------------------------------------------------------------------------

/// The `(start, end)` key of a span.
pub open spec fn span_key(span: NodeSpan) -> (u32, u32) {
    (span.start, span.end)
}

/// The wildcard that a syntax node denotes: an identifier expression whose
/// name is a wildcard.
pub open spec fn node_wildcard(node: SyntaxNode) -> Option<PatternKindView> {
    match node.identifier {
        Some(name) => spec_wildcard_kind(name@),
        None => None,
    }
}

/// `m` with the wildcards of `node` and its descendants added, in preorder,
/// each under its span (a later node with the same span replacing an
/// earlier one).
pub open spec fn collect_meta(node: SyntaxNode, m: Map<(u32, u32), PatternKindView>) -> Map<
    (u32, u32),
    PatternKindView,
>
    decreases node, 0int,
{
    let m1 = match node_wildcard(node) {
        Some(k) => m.insert(span_key(node.span), k),
        None => m,
    };
    collect_meta_children(node.children@, 0, m1)
}

/// `m` with the wildcards of the subtrees `cs[i..]` added, in order.
pub open spec fn collect_meta_children(
    cs: Seq<SyntaxNode>,
    i: int,
    m: Map<(u32, u32), PatternKindView>,
) -> Map<(u32, u32), PatternKindView>
    decreases cs, cs.len() - i,
{
    if i < 0 || i >= cs.len() {
        m
    } else {
        collect_meta_children(cs, i + 1, collect_meta(cs[i], m))
    }
}

/// The wildcards of a pattern's source tree, keyed by span.
#[derive(Debug)]
pub struct MetaVariables {
    entries: Vec<((u32, u32), PatternNodeKind)>,
}

/// The map an association list of spans with distinct keys denotes.
pub open spec fn meta_map(v: Seq<((u32, u32), PatternNodeKind)>) -> Map<(u32, u32), PatternKindView> {
    Map::new(
        |k: (u32, u32)| exists|i: int| 0 <= i < v.len() && v[i].0 == k,
        |k: (u32, u32)| v[choose|i: int| 0 <= i < v.len() && v[i].0 == k].1@,
    )
}

impl View for MetaVariables {
    type V = Map<(u32, u32), PatternKindView>;

    closed spec fn view(&self) -> Map<(u32, u32), PatternKindView> {
        meta_map(self.entries@)
    }
}

proof fn lemma_meta_lookup(v: Seq<((u32, u32), PatternNodeKind)>, i: int)
    requires
        0 <= i < v.len(),
        forall|a: int, b: int| 0 <= a < b < v.len() ==> v[a].0 != v[b].0,
    ensures
        meta_map(v).contains_key(v[i].0),
        meta_map(v)[v[i].0] == v[i].1@,
{
    let k = v[i].0;
    assert(exists|j: int| 0 <= j < v.len() && v[j].0 == k);
    let j = choose|j: int| 0 <= j < v.len() && v[j].0 == k;
    assert(j == i);
}

impl MetaVariables {
    #[verifier::type_invariant]
    closed spec fn keys_unique(&self) -> bool {
        forall|a: int, b: int| 0 <= a < b < self.entries@.len() ==> self.entries@[a].0 != self.entries@[b].0
    }

    /// No wildcards.
    pub fn new() -> (res: Self)
        ensures
            res@ == Map::<(u32, u32), PatternKindView>::empty(),
    {
        let res = MetaVariables { entries: Vec::new() };
        assert(meta_map(res.entries@) =~= Map::<(u32, u32), PatternKindView>::empty());
        res
    }

    fn find(&self, key: (u32, u32)) -> (res: Option<usize>)
        ensures
            res matches Some(i) ==> i < self.entries@.len() && self.entries@[i as int].0 == key,
            res is None ==> forall|i: int| 0 <= i < self.entries@.len() ==> self.entries@[i].0 != key,
    {
        let mut k: usize = 0;
        while k < self.entries.len()
            invariant
                0 <= k <= self.entries@.len(),
                forall|i: int| 0 <= i < k ==> self.entries@[i].0 != key,
            decreases self.entries@.len() - k,
        {
            if self.entries[k].0.0 == key.0 && self.entries[k].0.1 == key.1 {
                return Some(k);
            }
            k = k + 1;
        }
        None
    }

    /// Records `kind` under `key`, replacing what was there.
    pub fn insert(&mut self, key: (u32, u32), kind: PatternNodeKind)
        ensures
            final(self)@ == old(self)@.insert(key, kind@),
    {
        proof {
            use_type_invariant(&*self);
        }
        let ghost old_entries = self.entries@;
        let ghost val = kind@;
        match self.find(key) {
            Some(i) => {
                let mut entries = Vec::new();
                std::mem::swap(&mut entries, &mut self.entries);
                entries.set(i, (key, kind));
                proof {
                    assert forall|a: int, b: int| 0 <= a < b < entries@.len() implies entries@[a].0 != entries@[b].0 by {
                        assert(entries@[a].0 == old_entries[a].0);
                        assert(entries@[b].0 == old_entries[b].0);
                    }
                    assert forall|k: (u32, u32)| #[trigger] meta_map(entries@).contains_key(k)
                        == meta_map(old_entries).insert(key, val).contains_key(k) by {
                        if meta_map(old_entries).insert(key, val).contains_key(k) {
                            if k == key {
                                assert(entries@[i as int].0 == k);
                            } else {
                                let j = choose|j: int| 0 <= j < old_entries.len() && old_entries[j].0 == k;
                                assert(entries@[j].0 == k);
                            }
                        }
                        if meta_map(entries@).contains_key(k) {
                            let j = choose|j: int| 0 <= j < entries@.len() && entries@[j].0 == k;
                            if j != i {
                                assert(old_entries[j].0 == k);
                            }
                        }
                    }
                    assert forall|k: (u32, u32)| #[trigger] meta_map(entries@).contains_key(k) implies meta_map(entries@)[k]
                        == meta_map(old_entries).insert(key, val)[k] by {
                        let j = choose|j: int| 0 <= j < entries@.len() && entries@[j].0 == k;
                        lemma_meta_lookup(entries@, j);
                        if j != i {
                            lemma_meta_lookup(old_entries, j);
                        }
                    }
                    assert(meta_map(entries@) =~= meta_map(old_entries).insert(key, val));
                }
                self.entries = entries;
            },
            None => {
                let mut entries = Vec::new();
                std::mem::swap(&mut entries, &mut self.entries);
                entries.push((key, kind));
                proof {
                    let n = old_entries.len() as int;
                    assert forall|a: int, b: int| 0 <= a < b < entries@.len() implies entries@[a].0 != entries@[b].0 by {
                        if b == n {
                            assert(entries@[a].0 == old_entries[a].0);
                        }
                    }
                    assert forall|k: (u32, u32)| #[trigger] meta_map(entries@).contains_key(k)
                        == meta_map(old_entries).insert(key, val).contains_key(k) by {
                        if meta_map(old_entries).insert(key, val).contains_key(k) {
                            if k == key {
                                assert(entries@[n].0 == k);
                            } else {
                                let j = choose|j: int| 0 <= j < old_entries.len() && old_entries[j].0 == k;
                                assert(entries@[j].0 == k);
                            }
                        }
                        if meta_map(entries@).contains_key(k) {
                            let j = choose|j: int| 0 <= j < entries@.len() && entries@[j].0 == k;
                            if j != n {
                                assert(old_entries[j].0 == k);
                            }
                        }
                    }
                    assert forall|k: (u32, u32)| #[trigger] meta_map(entries@).contains_key(k) implies meta_map(entries@)[k]
                        == meta_map(old_entries).insert(key, val)[k] by {
                        let j = choose|j: int| 0 <= j < entries@.len() && entries@[j].0 == k;
                        lemma_meta_lookup(entries@, j);
                        if j != n {
                            lemma_meta_lookup(old_entries, j);
                        }
                    }
                    assert(meta_map(entries@) =~= meta_map(old_entries).insert(key, val));
                }
                self.entries = entries;
            },
        }
    }

    /// The wildcard recorded under `key`, if any.
    pub fn get(&self, key: (u32, u32)) -> (res: Option<&PatternNodeKind>)
        ensures
            res is Some <==> self@.contains_key(key),
            res matches Some(k) ==> k@ == self@[key],
    {
        proof {
            use_type_invariant(self);
        }
        match self.find(key) {
            Some(i) => {
                proof {
                    lemma_meta_lookup(self.entries@, i as int);
                }
                Some(&self.entries[i].1)
            },
            None => None,
        }
    }

    /// The number of wildcards recorded.
    pub fn len(&self) -> (res: usize)
        ensures
            res == self@.dom().len(),
    {
        proof {
            use_type_invariant(self);
            lemma_meta_len(self.entries@);
        }
        self.entries.len()
    }

    /// The recorded wildcards, each with its span key.
    pub fn entries(&self) -> (res: &[((u32, u32), PatternNodeKind)])
        ensures
            forall|i: int| 0 <= i < res@.len() ==> self@.contains_key(#[trigger] res@[i].0) && self@[res@[i].0] == res@[i].1@,
            forall|k: (u32, u32)| self@.contains_key(k) ==> exists|i: int| 0 <= i < res@.len() && #[trigger] res@[i].0 == k,
    {
        proof {
            use_type_invariant(self);
            assert forall|i: int| 0 <= i < self.entries@.len() implies self@.contains_key(#[trigger] self.entries@[i].0)
                && self@[self.entries@[i].0] == self.entries@[i].1@ by {
                lemma_meta_lookup(self.entries@, i);
            }
        }
        self.entries.as_slice()
    }
}

proof fn lemma_meta_len(v: Seq<((u32, u32), PatternNodeKind)>)
    requires
        forall|a: int, b: int| 0 <= a < b < v.len() ==> v[a].0 != v[b].0,
    ensures
        meta_map(v).dom().len() == v.len(),
        meta_map(v).dom().finite(),
    decreases v.len(),
{
    if v.len() == 0 {
        assert(meta_map(v).dom() =~= Set::<(u32, u32)>::empty());
    } else {
        let w = v.drop_last();
        lemma_meta_len(w);
        let k = v.last().0;
        assert(!meta_map(w).dom().contains(k)) by {
            if meta_map(w).dom().contains(k) {
                let j = choose|j: int| 0 <= j < w.len() && w[j].0 == k;
                assert(v[j].0 == v[v.len() - 1].0);
            }
        }
        assert(meta_map(v).dom() =~= meta_map(w).dom().insert(k)) by {
            assert forall|x: (u32, u32)| meta_map(v).dom().contains(x) implies meta_map(w).dom().insert(k).contains(x) by {
                let j = choose|j: int| 0 <= j < v.len() && v[j].0 == x;
                if j < v.len() - 1 {
                    assert(w[j].0 == x);
                }
            }
            assert forall|x: (u32, u32)| meta_map(w).dom().insert(k).contains(x) implies meta_map(v).dom().contains(x) by {
                if x == k {
                    assert(v[v.len() - 1].0 == x);
                } else {
                    let j = choose|j: int| 0 <= j < w.len() && w[j].0 == x;
                    assert(v[j].0 == x);
                }
            }
        }
    }
}

fn collect_meta_variables(node: &SyntaxNode, out: &mut MetaVariables)
    ensures
        final(out)@ == collect_meta(*node, old(out)@),
    decreases *node, 0int,
{
    match &node.identifier {
        Some(name) => {
            match wildcard_kind_from_identifier(name.as_str()) {
                Some(kind) => {
                    out.insert((node.span.start, node.span.end), kind);
                },
                None => {},
            }
        },
        None => {},
    }
    let ghost m1 = out@;
    let mut k: usize = 0;
    while k < node.children.len()
        invariant
            0 <= k <= node.children@.len(),
            collect_meta_children(node.children@, k as int, out@) == collect_meta_children(node.children@, 0, m1),
        decreases node.children@.len() - k,
    {
        collect_meta_variables(&node.children[k], out);
        k = k + 1;
    }
}

/// The wildcards of the tree under `root`: each identifier expression whose
/// name is a wildcard, keyed by its span, in preorder (a later node with the
/// same span replacing an earlier one).
pub fn identify_meta_variables(root: &SyntaxNode) -> (res: MetaVariables)
    ensures
        res@ == collect_meta(*root, Map::empty()),
{
    let mut out = MetaVariables::new();
    collect_meta_variables(root, &mut out);
    out
}

/// `p` is the pattern node built from `n`: the wildcard recorded in `m` for
/// its span, or else a plain node of its kind; its text and span; and its
/// children built the same way.
pub open spec fn pattern_built(p: PatternNode, n: SyntaxNode, m: Map<(u32, u32), PatternKindView>) -> bool
    decreases n,
{
    &&& p.kind@ == (if m.contains_key(span_key(n.span)) {
        m[span_key(n.span)]
    } else {
        PatternKindView::Node(n.kind@)
    })
    &&& p.text@ == n.text@
    &&& p.span == n.span
    &&& p.children@.len() == n.children@.len()
    &&& forall|i: int| 0 <= i < n.children@.len() ==> pattern_built(#[trigger] p.children@[i], n.children@[i], m)
}

fn ast_node_to_pattern(node: &SyntaxNode, meta_variables: &MetaVariables) -> (res: PatternNode)
    ensures
        pattern_built(res, *node, meta_variables@),
    decreases *node,
{
    let kind = match meta_variables.get((node.span.start, node.span.end)) {
        Some(k) => k.duplicate(),
        None => PatternNodeKind::Node { kind: node.kind.clone() },
    };
    let mut children: Vec<PatternNode> = Vec::new();
    let mut k: usize = 0;
    while k < node.children.len()
        invariant
            0 <= k <= node.children@.len(),
            children@.len() == k,
            forall|i: int| 0 <= i < k ==> pattern_built(#[trigger] children@[i], node.children@[i], meta_variables@),
        decreases node.children@.len() - k,
    {
        let child = ast_node_to_pattern(&node.children[k], meta_variables);
        children.push(child);
        k = k + 1;
    }
    PatternNode { kind, text: node.text.clone(), span: node.span, children }
}

/// The pattern tree of a pattern's source tree: each node as in
/// `pattern_built`, with the wildcards that `identify_meta_variables` finds.
pub fn to_pattern_ast(root: &SyntaxNode) -> (res: PatternNode)
    ensures
        pattern_built(res, *root, collect_meta(*root, Map::empty())),
{
    let meta_variables = identify_meta_variables(root);
    ast_node_to_pattern(root, &meta_variables)
}

} // verus!
