//! Fix templates: text with `$NAME` and `$$$NAME` placeholders, filled in
//! from the bindings of a match.
use vstd::prelude::*;
use crate::capture::{empty_env, CapturedNode, CapturedNodeView, EnvView, MatchEnvironment, nodes_view};
use crate::text::TextIndex;

verus! {

/// A fragment of a template: literal text or a meta-variable reference.
#[derive(Debug, Clone, PartialEq, Eq)]
pub enum TemplateFragment {
    /// Literal text.
    Literal(String),
    /// `$NAME`.
    SingleMetaVar(String),
    /// `$$$NAME`.
    MultiMetaVar(String),
}

/// A replacement text, with or without meta-variable placeholders.
#[derive(Debug, Clone, PartialEq, Eq)]
pub enum TemplateFix {
    /// Text without placeholders.
    Text(String),
    /// Text split into literal and placeholder fragments.
    Template { fragments: Vec<TemplateFragment> },
}

/// Mathematical value of a fragment.
pub enum FragmentView {
    Literal(Seq<char>),
    Single(Seq<char>),
    Multi(Seq<char>),
}

/// Mathematical value of a template.
pub enum TemplateView {
    Text(Seq<char>),
    Template(Seq<FragmentView>),
}

impl View for TemplateFragment {
    type V = FragmentView;

    open spec fn view(&self) -> FragmentView {
        match self {
            TemplateFragment::Literal(t) => FragmentView::Literal(t@),
            TemplateFragment::SingleMetaVar(n) => FragmentView::Single(n@),
            TemplateFragment::MultiMetaVar(n) => FragmentView::Multi(n@),
        }
    }
}

pub open spec fn fragments_view(f: Seq<TemplateFragment>) -> Seq<FragmentView> {
    f.map_values(|x: TemplateFragment| x@)
}

impl View for TemplateFix {
    type V = TemplateView;

    open spec fn view(&self) -> TemplateView {
        match self {
            TemplateFix::Text(t) => TemplateView::Text(t@),
            TemplateFix::Template { fragments } => TemplateView::Template(fragments_view(fragments@)),
        }
    }
}

/// First char of a meta-variable name: an ASCII capital or `_`.
pub open spec fn is_name_start(c: char) -> bool {
    ('A' <= c && c <= 'Z') || c == '_'
}

/// Char of a meta-variable name: an ASCII capital, digit or `_`.
pub open spec fn is_name_char(c: char) -> bool {
    ('A' <= c && c <= 'Z') || ('0' <= c && c <= '9') || c == '_'
}

/// End of the run of name chars starting at `k`.
pub open spec fn name_end(t: Seq<char>, k: int) -> int
    decreases t.len() - k,
{
    if 0 <= k < t.len() && is_name_char(t[k]) {
        name_end(t, k + 1)
    } else {
        k
    }
}

pub proof fn lemma_name_end_bounds(t: Seq<char>, k: int)
    requires
        0 <= k <= t.len(),
    ensures
        k <= name_end(t, k) <= t.len(),
        forall|j: int| k <= j < name_end(t, k) ==> is_name_char(t[j]),
    decreases t.len() - k,
{
    if 0 <= k < t.len() && is_name_char(t[k]) {
        lemma_name_end_bounds(t, k + 1);
    }
}

/// Appends the literal `t[from..to]` when it is not empty.
pub open spec fn push_literal(frags: Seq<FragmentView>, t: Seq<char>, from: int, to: int) -> Seq<FragmentView> {
    if from < to {
        frags.push(FragmentView::Literal(t.subrange(from, to)))
    } else {
        frags
    }
}

/// Splits `t` into fragments from position `pos`, the pending literal
/// starting at `lit`: `$$$NAME` and `$NAME` become placeholders, every other
/// char stays literal.
pub open spec fn parse_from(t: Seq<char>, pos: int, lit: int, frags: Seq<FragmentView>) -> Seq<FragmentView>
    decreases t.len() - pos,
{
    if pos < 0 || pos >= t.len() || lit < 0 || lit > pos {
        push_literal(frags, t, lit, t.len() as int)
    } else if pos + 3 < t.len() && t[pos] == '$' && t[pos + 1] == '$' && t[pos + 2] == '$'
        && is_name_start(t[pos + 3]) {
        proof {
            lemma_name_end_bounds(t, pos + 3);
        }
        let e = name_end(t, pos + 3);
        parse_from(
            t,
            e,
            e,
            push_literal(frags, t, lit, pos).push(FragmentView::Multi(t.subrange(pos + 3, e))),
        )
    } else if pos + 1 < t.len() && t[pos] == '$' && is_name_start(t[pos + 1]) {
        proof {
            lemma_name_end_bounds(t, pos + 1);
        }
        let e = name_end(t, pos + 1);
        parse_from(
            t,
            e,
            e,
            push_literal(frags, t, lit, pos).push(FragmentView::Single(t.subrange(pos + 1, e))),
        )
    } else {
        parse_from(t, pos + 1, lit, frags)
    }
}

/// Some fragment is a placeholder.
pub open spec fn has_placeholder(f: Seq<FragmentView>) -> bool {
    exists|i: int| 0 <= i < f.len() && !(#[trigger] f[i] is Literal)
}

/// The template that a text denotes: plain text where no placeholder is
/// read from it, the fragments otherwise.
pub open spec fn template_of(t: Seq<char>) -> TemplateView {
    if !t.contains('$') {
        TemplateView::Text(t)
    } else {
        let f = parse_from(t, 0, 0, Seq::empty());
        if has_placeholder(f) {
            TemplateView::Template(f)
        } else {
            TemplateView::Text(t)
        }
    }
}

/// The texts of captured nodes, concatenated.
pub open spec fn joined_texts(nodes: Seq<CapturedNodeView>) -> Seq<char>
    decreases nodes.len(),
{
    if nodes.len() == 0 {
        Seq::empty()
    } else {
        joined_texts(nodes.drop_last()) + nodes.last().text
    }
}

/// Text of one fragment under the bindings of `env`; an unbound
/// placeholder stays as written.
pub open spec fn render_fragment(f: FragmentView, env: EnvView) -> Seq<char> {
    match f {
        FragmentView::Literal(t) => t,
        FragmentView::Single(n) => if env.single.contains_key(n) {
            env.single[n].text
        } else if env.multi.contains_key(n) {
            joined_texts(env.multi[n])
        } else {
            seq!['$'] + n
        },
        FragmentView::Multi(n) => if env.multi.contains_key(n) {
            joined_texts(env.multi[n])
        } else {
            seq!['$', '$', '$'] + n
        },
    }
}

pub open spec fn render_fragments(f: Seq<FragmentView>, env: EnvView) -> Seq<char>
    decreases f.len(),
{
    if f.len() == 0 {
        Seq::empty()
    } else {
        render_fragments(f.drop_last(), env) + render_fragment(f.last(), env)
    }
}

/// Text of a template under the bindings of `env`.
pub open spec fn render(t: TemplateView, env: EnvView) -> Seq<char> {
    match t {
        TemplateView::Text(s) => s,
        TemplateView::Template(f) => render_fragments(f, env),
    }
}

proof fn lemma_render_push(f: Seq<FragmentView>, x: FragmentView, env: EnvView)
    ensures
        render_fragments(f.push(x), env) == render_fragments(f, env) + render_fragment(x, env),
{
    assert(f.push(x).drop_last() =~= f);
}

proof fn lemma_parse_render(t: Seq<char>, pos: int, lit: int, frags: Seq<FragmentView>)
    requires
        0 <= lit <= pos <= t.len(),
        render_fragments(frags, empty_env()) == t.subrange(0, lit),
    ensures
        render_fragments(parse_from(t, pos, lit, frags), empty_env()) == t,
    decreases t.len() - pos,
{
    let env = empty_env();
    if pos >= t.len() {
        if lit < t.len() {
            lemma_render_push(frags, FragmentView::Literal(t.subrange(lit, t.len() as int)), env);
        }
        assert(t.subrange(0, lit) + t.subrange(lit, t.len() as int) =~= t);
        assert(t.subrange(0, t.len() as int) =~= t);
    } else if pos + 3 < t.len() && t[pos] == '$' && t[pos + 1] == '$' && t[pos + 2] == '$'
        && is_name_start(t[pos + 3]) {
        lemma_name_end_bounds(t, pos + 3);
        let e = name_end(t, pos + 3);
        let f1 = push_literal(frags, t, lit, pos);
        if lit < pos {
            lemma_render_push(frags, FragmentView::Literal(t.subrange(lit, pos)), env);
        }
        assert(render_fragments(f1, env) =~= t.subrange(0, pos));
        let x = FragmentView::Multi(t.subrange(pos + 3, e));
        lemma_render_push(f1, x, env);
        assert(render_fragment(x, env) =~= t.subrange(pos, e));
        assert(t.subrange(0, pos) + t.subrange(pos, e) =~= t.subrange(0, e));
        lemma_parse_render(t, e, e, f1.push(x));
    } else if pos + 1 < t.len() && t[pos] == '$' && is_name_start(t[pos + 1]) {
        lemma_name_end_bounds(t, pos + 1);
        let e = name_end(t, pos + 1);
        let f1 = push_literal(frags, t, lit, pos);
        if lit < pos {
            lemma_render_push(frags, FragmentView::Literal(t.subrange(lit, pos)), env);
        }
        assert(render_fragments(f1, env) =~= t.subrange(0, pos));
        let x = FragmentView::Single(t.subrange(pos + 1, e));
        lemma_render_push(f1, x, env);
        assert(render_fragment(x, env) =~= t.subrange(pos, e));
        assert(t.subrange(0, pos) + t.subrange(pos, e) =~= t.subrange(0, e));
        lemma_parse_render(t, e, e, f1.push(x));
    } else {
        lemma_parse_render(t, pos + 1, lit, frags);
    }
}

/// A template, rendered without any bindings, gives back the text it was
/// read from: every placeholder is left as written.
pub proof fn lemma_unbound_render_roundtrip(t: Seq<char>)
    ensures
        render(template_of(t), empty_env()) == t,
{
    if t.contains('$') && has_placeholder(parse_from(t, 0, 0, Seq::empty())) {
        assert(render_fragments(Seq::<FragmentView>::empty(), empty_env()) =~= t.subrange(0, 0));
        lemma_parse_render(t, 0, 0, Seq::empty());
    }
}

fn is_name_start_exec(c: char) -> (res: bool)
    ensures
        res == is_name_start(c),
{
    ('A' <= c && c <= 'Z') || c == '_'
}

fn is_name_char_exec(c: char) -> (res: bool)
    ensures
        res == is_name_char(c),
{
    ('A' <= c && c <= 'Z') || ('0' <= c && c <= '9') || c == '_'
}

fn name_end_exec(index: &TextIndex, k: usize) -> (res: usize)
    requires
        index.wf(),
        k <= index.text().len(),
    ensures
        res as int == name_end(index.text(), k as int),
{
    let n = index.char_count();
    let mut cur = k;
    while cur < n && is_name_char_exec(index.char_at(cur))
        invariant
            index.wf(),
            n == index.text().len(),
            k <= cur <= n,
            name_end(index.text(), cur as int) == name_end(index.text(), k as int),
        decreases n - cur,
    {
        cur = cur + 1;
    }
    cur
}

impl TemplateFix {
    /// Reads a template: `$$$NAME` and `$NAME` (a capital or `_`, then
    /// capitals, digits or `_`) become placeholders. A template with a
    /// placeholder sign must be ASCII.
    pub fn from(template: &str) -> (res: Self)
        requires
            !template@.contains('$') || vstd::string::is_ascii(template),
        ensures
            res@ == template_of(template@),
    {
        let ghost t = template@;
        let index = TextIndex::new(template);
        let n = index.char_count();
        let mut has_sign = false;
        let mut k: usize = 0;
        while k < n
            invariant
                index.wf(),
                t == index.text(),
                n == t.len(),
                0 <= k <= n,
                has_sign == exists|j: int| 0 <= j < k && t[j] == '$',
            decreases n - k,
        {
            if index.char_at(k) == '$' {
                has_sign = true;
            }
            k = k + 1;
        }
        if !has_sign {
            assert(!t.contains('$'));
            return TemplateFix::Text(template.to_owned());
        }
        assert(t.contains('$'));
        let mut fragments: Vec<TemplateFragment> = Vec::new();
        assert(fragments_view(fragments@) =~= Seq::<FragmentView>::empty());
        let mut pos: usize = 0;
        let mut lit: usize = 0;
        let mut placeholder = false;
        while pos < n
            invariant
                index.wf(),
                t == index.text(),
                n == t.len(),
                0 <= lit <= pos <= n,
                parse_from(t, pos as int, lit as int, fragments_view(fragments@)) == parse_from(t, 0, 0, Seq::empty()),
                placeholder == has_placeholder(fragments_view(fragments@)),
            decreases n - pos,
        {
            let ghost fv = fragments_view(fragments@);
            if n - pos > 3 && index.char_at(pos) == '$' && index.char_at(pos + 1) == '$' && index.char_at(pos + 2) == '$'
                && is_name_start_exec(index.char_at(pos + 3)) {
                proof {
                    lemma_name_end_bounds(t, pos + 3);
                }
                let e = name_end_exec(&index, pos + 3);
                if lit < pos {
                    fragments.push(TemplateFragment::Literal(index.slice(lit, pos)));
                }
                fragments.push(TemplateFragment::MultiMetaVar(index.slice(pos + 3, e)));
                proof {
                    let fv2 = fragments_view(fragments@);
                    assert(fv2 =~= push_literal(fv, t, lit as int, pos as int).push(
                        FragmentView::Multi(t.subrange(pos + 3, e as int)),
                    ));
                    assert(!(fv2[fv2.len() - 1] is Literal));
                }
                placeholder = true;
                pos = e;
                lit = e;
            } else if n - pos > 1 && index.char_at(pos) == '$' && is_name_start_exec(index.char_at(pos + 1)) {
                proof {
                    lemma_name_end_bounds(t, pos + 1);
                }
                let e = name_end_exec(&index, pos + 1);
                if lit < pos {
                    fragments.push(TemplateFragment::Literal(index.slice(lit, pos)));
                }
                fragments.push(TemplateFragment::SingleMetaVar(index.slice(pos + 1, e)));
                proof {
                    let fv2 = fragments_view(fragments@);
                    assert(fv2 =~= push_literal(fv, t, lit as int, pos as int).push(
                        FragmentView::Single(t.subrange(pos + 1, e as int)),
                    ));
                    assert(!(fv2[fv2.len() - 1] is Literal));
                }
                placeholder = true;
                pos = e;
                lit = e;
            } else {
                pos = pos + 1;
            }
        }
        let ghost fv = fragments_view(fragments@);
        if lit < n {
            fragments.push(TemplateFragment::Literal(index.slice(lit, n)));
        }
        assert(fragments_view(fragments@) =~= push_literal(fv, t, lit as int, n as int));
        proof {
            let fv2 = fragments_view(fragments@);
            if has_placeholder(fv2) {
                let i = choose|i: int| 0 <= i < fv2.len() && !(#[trigger] fv2[i] is Literal);
                if i < fv.len() {
                    assert(fv2[i] == fv[i]);
                }
            }
            if has_placeholder(fv) {
                let i = choose|i: int| 0 <= i < fv.len() && !(#[trigger] fv[i] is Literal);
                assert(fv2[i] == fv[i]);
            }
        }
        if placeholder {
            TemplateFix::Template { fragments }
        } else {
            TemplateFix::Text(template.to_owned())
        }
    }
}

fn append_joined(out: &mut String, nodes: &[CapturedNode])
    ensures
        final(out)@ == old(out)@ + joined_texts(nodes_view(nodes@)),
{
    let ghost start = out@;
    let mut k: usize = 0;
    while k < nodes.len()
        invariant
            0 <= k <= nodes@.len(),
            out@ == start + joined_texts(nodes_view(nodes@.take(k as int))),
        decreases nodes@.len() - k,
    {
        out.append(nodes[k].text.as_str());
        proof {
            let prev = nodes_view(nodes@.take(k as int));
            let next = nodes_view(nodes@.take(k + 1));
            assert(next.drop_last() =~= prev);
            assert(next.last() == nodes@[k as int]@);
        }
        k = k + 1;
    }
    assert(nodes@.take(nodes@.len() as int) =~= nodes@);
}

/// Fills in a template from the bindings of `env`: `$NAME` takes the text of
/// its single binding or else the joined texts of its multiple binding,
/// `$$$NAME` the joined texts of its multiple binding; an unbound
/// placeholder is kept as written.
pub fn generate_replacement(template: &TemplateFix, env: &MatchEnvironment) -> (res: String)
    ensures
        res@ == render(template@, env@),
{
    match template {
        TemplateFix::Text(text) => text.clone(),
        TemplateFix::Template { fragments } => {
            let mut result = String::new();
            let mut k: usize = 0;
            while k < fragments.len()
                invariant
                    0 <= k <= fragments@.len(),
                    result@ == render_fragments(fragments_view(fragments@.take(k as int)), env@),
                decreases fragments@.len() - k,
            {
                let ghost before = result@;
                match &fragments[k] {
                    TemplateFragment::Literal(text) => {
                        result.append(text.as_str());
                    },
                    TemplateFragment::SingleMetaVar(name) => {
                        match env.get_single_capture(name.as_str()) {
                            Some(captured) => {
                                result.append(captured.text.as_str());
                            },
                            None => {
                                match env.get_multi_capture(name.as_str()) {
                                    Some(nodes) => {
                                        append_joined(&mut result, nodes);
                                    },
                                    None => {
                                        proof {
                                            reveal_strlit("$");
                                        }
                                        result.append("$");
                                        result.append(name.as_str());
                                    },
                                }
                            },
                        }
                    },
                    TemplateFragment::MultiMetaVar(name) => {
                        match env.get_multi_capture(name.as_str()) {
                            Some(nodes) => {
                                append_joined(&mut result, nodes);
                            },
                            None => {
                                proof {
                                    reveal_strlit("$$$");
                                }
                                result.append("$$$");
                                result.append(name.as_str());
                            },
                        }
                    },
                }
                proof {
                    let prev = fragments_view(fragments@.take(k as int));
                    let next = fragments_view(fragments@.take(k + 1));
                    assert(next.drop_last() =~= prev);
                    assert(next.last() == fragments@[k as int]@);
                    assert(result@ =~= before + render_fragment(fragments@[k as int]@, env@));
                }
                k = k + 1;
            }
            assert(fragments@.take(fragments@.len() as int) =~= fragments@);
            result
        },
    }
}

/// A meta-variable name: an ASCII capital or `_`, then ASCII capitals,
/// digits and `_`.
pub open spec fn valid_meta_name(n: Seq<char>) -> bool {
    &&& n.len() >= 1
    &&& ('A' <= n[0] && n[0] <= 'Z') || n[0] == '_'
    &&& forall|k: int| 0 <= k < n.len() ==> ('A' <= #[trigger] n[k] && n[k] <= 'Z') || ('0' <= n[k] && n[k] <= '9') || n[k] == '_'
}

proof fn lemma_name_run(t: Seq<char>, k: int, m: int)
    requires
        0 <= k <= m <= t.len(),
        forall|j: int| k <= j < m ==> ('A' <= #[trigger] t[j] && t[j] <= 'Z') || ('0' <= t[j] && t[j] <= '9') || t[j] == '_',
        m < t.len() ==> !(('A' <= t[m] && t[m] <= 'Z') || ('0' <= t[m] && t[m] <= '9') || t[m] == '_'),
    ensures
        name_end(t, k) == m,
    decreases m - k,
{
    if k < m {
        lemma_name_run(t, k + 1, m);
    }
}

proof fn lemma_parse_plain_tail(t: Seq<char>, pos: int, lit: int, frags: Seq<FragmentView>)
    requires
        0 <= lit <= pos <= t.len(),
        forall|j: int| pos <= j < t.len() ==> #[trigger] t[j] != '$',
    ensures
        parse_from(t, pos, lit, frags) == push_literal(frags, t, lit, t.len() as int),
    decreases t.len() - pos,
{
    if pos < t.len() {
        lemma_parse_plain_tail(t, pos + 1, lit, frags);
    }
}

/// A placeholder's name is the whole run of capitals, digits and `_` after
/// `$` or `$$$`: a template that is one placeholder is that placeholder, and
/// a placeholder followed by text that starts with any other char (and
/// holds no `$`) is the placeholder, then that text as a literal.
pub proof fn lemma_placeholder_names(n: Seq<char>, rest: Seq<char>)
    requires
        valid_meta_name(n),
        forall|j: int| 0 <= j < rest.len() ==> #[trigger] rest[j] != '$',
        rest.len() > 0 ==> !(('A' <= rest[0] && rest[0] <= 'Z') || ('0' <= rest[0] && rest[0] <= '9') || rest[0] == '_'),
    ensures
        template_of(seq!['$'] + n) == TemplateView::Template(seq![FragmentView::Single(n)]),
        template_of(seq!['$', '$', '$'] + n) == TemplateView::Template(seq![FragmentView::Multi(n)]),
        rest.len() > 0 ==> template_of(seq!['$'] + n + rest) == TemplateView::Template(
            seq![FragmentView::Single(n), FragmentView::Literal(rest)],
        ),
{
    // `$` + name + rest
    let t = seq!['$'] + n + rest;
    let e = (n.len() + 1) as int;
    assert(t[0] == '$');
    assert forall|j: int| 1 <= j < e implies ('A' <= #[trigger] t[j] && t[j] <= 'Z') || ('0' <= t[j] && t[j] <= '9') || t[j]
        == '_' by {
        assert(t[j] == n[j - 1]);
    }
    if e < t.len() {
        assert(t[e] == rest[0]);
    }
    lemma_name_run(t, 1, e);
    assert(t.subrange(1, e) =~= n);
    assert(t[1] == n[0]);
    assert forall|j: int| e <= j < t.len() implies #[trigger] t[j] != '$' by {
        assert(t[j] == rest[j - e]);
    }
    let f1 = seq![FragmentView::Single(n)];
    assert(push_literal(Seq::<FragmentView>::empty(), t, 0, 0) =~= Seq::<FragmentView>::empty());
    lemma_parse_plain_tail(t, e, e, f1);
    assert(parse_from(t, 0, 0, Seq::empty()) == parse_from(t, e, e, Seq::<FragmentView>::empty().push(FragmentView::Single(n))));
    assert(Seq::<FragmentView>::empty().push(FragmentView::Single(n)) =~= f1);
    assert(t.contains('$'));
    if rest.len() > 0 {
        assert(t.subrange(e, t.len() as int) =~= rest);
        let f = parse_from(t, 0, 0, Seq::empty());
        assert(f =~= seq![FragmentView::Single(n), FragmentView::Literal(rest)]);
        assert(!(f[0] is Literal));
    }
    // `$` + name
    let t1 = seq!['$'] + n;
    assert forall|j: int| 1 <= j < t1.len() implies ('A' <= #[trigger] t1[j] && t1[j] <= 'Z') || ('0' <= t1[j] && t1[j] <= '9') || t1[j]
        == '_' by {
        assert(t1[j] == n[j - 1]);
    }
    lemma_name_run(t1, 1, t1.len() as int);
    assert(t1.subrange(1, t1.len() as int) =~= n);
    assert(t1[1] == n[0]);
    assert(t1[0] == '$');
    assert(t1.contains('$'));
    let l1 = t1.len() as int;
    assert(push_literal(Seq::<FragmentView>::empty(), t1, 0, 0) =~= Seq::<FragmentView>::empty());
    assert(parse_from(t1, 0, 0, Seq::empty()) == parse_from(t1, l1, l1, Seq::<FragmentView>::empty().push(FragmentView::Single(n))));
    assert(Seq::<FragmentView>::empty().push(FragmentView::Single(n)) =~= f1);
    assert(parse_from(t1, l1, l1, f1) == push_literal(f1, t1, l1, l1));
    assert(parse_from(t1, 0, 0, Seq::empty()) =~= f1);
    assert(!(f1[0] is Literal));
    // `$$$` + name
    let t3 = seq!['$', '$', '$'] + n;
    assert forall|j: int| 3 <= j < t3.len() implies ('A' <= #[trigger] t3[j] && t3[j] <= 'Z') || ('0' <= t3[j] && t3[j] <= '9') || t3[j]
        == '_' by {
        assert(t3[j] == n[j - 3]);
    }
    lemma_name_run(t3, 3, t3.len() as int);
    assert(t3.subrange(3, t3.len() as int) =~= n);
    assert(t3[3] == n[0]);
    assert(t3[0] == '$' && t3[1] == '$' && t3[2] == '$');
    assert(t3.contains('$'));
    let f3 = seq![FragmentView::Multi(n)];
    let l3 = t3.len() as int;
    assert(push_literal(Seq::<FragmentView>::empty(), t3, 0, 0) =~= Seq::<FragmentView>::empty());
    assert(parse_from(t3, 0, 0, Seq::empty()) == parse_from(t3, l3, l3, Seq::<FragmentView>::empty().push(FragmentView::Multi(n))));
    assert(Seq::<FragmentView>::empty().push(FragmentView::Multi(n)) =~= f3);
    assert(parse_from(t3, l3, l3, f3) == push_literal(f3, t3, l3, l3));
    assert(parse_from(t3, 0, 0, Seq::empty()) =~= f3);
    assert(!(f3[0] is Literal));
}

proof fn lemma_parse_skip_plain(t: Seq<char>, pos: int, k: int, lit: int, frags: Seq<FragmentView>)
    requires
        0 <= lit <= pos <= k < t.len(),
        forall|j: int| pos <= j < k ==> #[trigger] t[j] != '$',
    ensures
        parse_from(t, pos, lit, frags) == parse_from(t, k, lit, frags),
    decreases k - pos,
{
    if pos < k {
        lemma_parse_skip_plain(t, pos + 1, k, lit, frags);
    }
}

/// A placeholder standing between texts without `$` is read with its whole
/// name, and filling the template puts the text bound to that name in its
/// place, between the texts unchanged: for `pre$NAMEpost` with `NAME` bound
/// to `x`, the replacement is `pre` + `x` + `post`.
pub proof fn lemma_placeholder_is_filled(pre: Seq<char>, n: Seq<char>, post: Seq<char>, env: EnvView)
    requires
        valid_meta_name(n),
        forall|j: int| 0 <= j < pre.len() ==> #[trigger] pre[j] != '$',
        forall|j: int| 0 <= j < post.len() ==> #[trigger] post[j] != '$',
        post.len() > 0 ==> !(('A' <= post[0] && post[0] <= 'Z') || ('0' <= post[0] && post[0] <= '9') || post[0] == '_'),
        env.single.contains_key(n),
    ensures
        template_of(pre + seq!['$'] + n + post) is Template,
        render(template_of(pre + seq!['$'] + n + post), env) == pre + env.single[n].text + post,
{
    let t = pre + seq!['$'] + n + post;
    let pl = pre.len() as int;
    let e = (pl + 1 + n.len()) as int;
    let len = t.len() as int;
    assert(t[pl] == '$');
    assert forall|j: int| 0 <= j < pl implies #[trigger] t[j] != '$' by {
        assert(t[j] == pre[j]);
    }
    lemma_parse_skip_plain(t, 0, pl, 0, Seq::empty());
    assert forall|j: int| pl + 1 <= j < e implies ('A' <= #[trigger] t[j] && t[j] <= 'Z') || ('0' <= t[j] && t[j] <= '9') || t[j]
        == '_' by {
        assert(t[j] == n[j - pl - 1]);
    }
    if e < len {
        assert(t[e] == post[0]);
    }
    lemma_name_run(t, pl + 1, e);
    assert(t.subrange(pl + 1, e) =~= n);
    assert(t[pl + 1] == n[0]);
    if pl + 3 < len {
        assert(t[pl + 1] != '$');
    }
    let f0 = push_literal(Seq::<FragmentView>::empty(), t, 0, pl);
    let f1 = f0.push(FragmentView::Single(n));
    assert(parse_from(t, pl, 0, Seq::empty()) == parse_from(t, e, e, f1));
    assert forall|j: int| e <= j < len implies #[trigger] t[j] != '$' by {
        assert(t[j] == post[j - e]);
    }
    lemma_parse_plain_tail(t, e, e, f1);
    let f = push_literal(f1, t, e, len);
    assert(parse_from(t, 0, 0, Seq::empty()) == f);
    assert(t.contains('$'));
    // The placeholder is a fragment of the result.
    assert(f1[f0.len() as int] == FragmentView::Single(n));
    if e < len {
        assert(f[f0.len() as int] == f1[f0.len() as int]);
    }
    assert(!(f[f0.len() as int] is Literal));
    assert(template_of(t) == TemplateView::Template(f));
    // Rendering.
    assert(t.subrange(0, pl) =~= pre);
    assert(t.subrange(e, len) =~= post);
    assert(render_fragments(Seq::<FragmentView>::empty(), env) =~= Seq::<char>::empty());
    if pl > 0 {
        lemma_render_push(Seq::<FragmentView>::empty(), FragmentView::Literal(pre), env);
        assert(render_fragments(f0, env) =~= pre);
    } else {
        assert(render_fragments(f0, env) =~= pre);
    }
    lemma_render_push(f0, FragmentView::Single(n), env);
    if e < len {
        lemma_render_push(f1, FragmentView::Literal(post), env);
        assert(render_fragments(f, env) =~= pre + env.single[n].text + post);
    } else {
        assert(post =~= Seq::<char>::empty());
        assert(render_fragments(f, env) =~= pre + env.single[n].text + post);
    }
}

} // verus!
