//! Project paths: normalisation of `.` and `..` segments, and the files an
//! import specifier may refer to.
use vstd::prelude::*;
use crate::text::{chars_of, push_char};

verus! {

/// The segments kept after applying `seg` to `parts`: `.` and empty
/// segments are dropped, `..` removes the last kept segment (if any).
pub open spec fn apply_segment(parts: Seq<Seq<char>>, seg: Seq<char>) -> Seq<Seq<char>> {
    if seg.len() == 0 || seg == seq!['.'] {
        parts
    } else if seg == seq!['.', '.'] {
        if parts.len() > 0 {
            parts.drop_last()
        } else {
            parts
        }
    } else {
        parts.push(seg)
    }
}

/// The segments of `s` from index `i` on applied to `parts`, where `cur` is
/// the segment read so far.
pub open spec fn fold_segments(s: Seq<char>, i: int, parts: Seq<Seq<char>>, cur: Seq<char>) -> Seq<Seq<char>>
    decreases s.len() - i,
{
    if i < 0 || i >= s.len() {
        apply_segment(parts, cur)
    } else if s[i] == '/' {
        fold_segments(s, i + 1, apply_segment(parts, cur), Seq::empty())
    } else {
        fold_segments(s, i + 1, parts, cur.push(s[i]))
    }
}

/// The kept segments of a path.
pub open spec fn path_parts(s: Seq<char>) -> Seq<Seq<char>> {
    fold_segments(s, 0, Seq::empty(), Seq::empty())
}

/// A path is rooted when it starts with `/`.
pub open spec fn is_rooted(s: Seq<char>) -> bool {
    s.len() > 0 && s[0] == '/'
}

/// `\` written as `/`.
pub open spec fn forward_slash(c: char) -> char {
    if c == '\\' {
        '/'
    } else {
        c
    }
}

/// The segments joined by `/`, with each `\` written as `/`.
pub open spec fn join_parts(parts: Seq<Seq<char>>) -> Seq<char>
    decreases parts.len(),
{
    if parts.len() == 0 {
        Seq::empty()
    } else if parts.len() == 1 {
        parts[0].map_values(|c: char| forward_slash(c))
    } else {
        join_parts(parts.drop_last()) + seq!['/'] + parts.last().map_values(|c: char| forward_slash(c))
    }
}

/// A path from its root flag and segments.
pub open spec fn render_path(rooted: bool, parts: Seq<Seq<char>>) -> Seq<char> {
    if rooted {
        seq!['/'] + join_parts(parts)
    } else {
        join_parts(parts)
    }
}

/// The normalised form of a path: a leading `/` kept, `.` and empty
/// segments dropped, each `..` removing the segment before it, and every
/// `\` written as `/`.
pub open spec fn normalized_path(s: Seq<char>) -> Seq<char> {
    render_path(is_rooted(s), path_parts(s))
}

fn apply_segment_exec(parts: &mut Vec<Vec<char>>, seg: Vec<char>)
    ensures
        parts_view(final(parts)@) == apply_segment(parts_view(old(parts)@), seg@),
{
    let n = seg.len();
    if n == 0 || (n == 1 && seg[0] == '.') {
        proof {
            if n == 1 {
                assert(seg@ =~= seq!['.']);
            }
        }
        return;
    }
    if n == 2 && seg[0] == '.' && seg[1] == '.' {
        assert(seg@ =~= seq!['.', '.']);
        if parts.len() > 0 {
            let ghost before = parts_view(parts@);
            parts.pop();
            assert(parts_view(parts@) =~= before.drop_last());
        }
        return;
    }
    proof {
        if seg@ == seq!['.'] {
            assert(seg@.len() == 1);
        }
        if seg@ == seq!['.', '.'] {
            assert(seg@.len() == 2 && seg@[0] == '.' && seg@[1] == '.');
        }
    }
    let ghost before = parts_view(parts@);
    parts.push(seg);
    assert(parts_view(parts@) =~= before.push(seg@));
}

/// Views of a list of char vectors.
pub open spec fn parts_view(v: Seq<Vec<char>>) -> Seq<Seq<char>> {
    v.map_values(|p: Vec<char>| p@)
}

fn path_parts_exec(chars: &Vec<char>) -> (res: Vec<Vec<char>>)
    ensures
        parts_view(res@) == path_parts(chars@),
{
    let mut parts: Vec<Vec<char>> = Vec::new();
    let mut cur: Vec<char> = Vec::new();
    let mut i: usize = 0;
    assert(parts_view(parts@) =~= Seq::<Seq<char>>::empty());
    while i < chars.len()
        invariant
            0 <= i <= chars@.len(),
            fold_segments(chars@, i as int, parts_view(parts@), cur@) == path_parts(chars@),
        decreases chars@.len() - i,
    {
        if chars[i] == '/' {
            let seg = cur;
            cur = Vec::new();
            apply_segment_exec(&mut parts, seg);
            assert(cur@ =~= Seq::<char>::empty());
        } else {
            cur.push(chars[i]);
        }
        i = i + 1;
    }
    apply_segment_exec(&mut parts, cur);
    parts
}

fn render_path_exec(rooted: bool, parts: &Vec<Vec<char>>) -> (res: String)
    ensures
        res@ == render_path(rooted, parts_view(parts@)),
{
    let mut out = String::new();
    if rooted {
        push_char(&mut out, '/');
    }
    let ghost start = out@;
    let mut k: usize = 0;
    while k < parts.len()
        invariant
            0 <= k <= parts@.len(),
            out@ == start + join_parts(parts_view(parts@).take(k as int)),
            start == (if rooted { seq!['/'] } else { Seq::<char>::empty() }),
        decreases parts@.len() - k,
    {
        let ghost before = out@;
        if k > 0 {
            push_char(&mut out, '/');
        }
        let part = &parts[k];
        let ghost mid = out@;
        let mut j: usize = 0;
        while j < part.len()
            invariant
                0 <= j <= part@.len(),
                out@ == mid + part@.take(j as int).map_values(|c: char| forward_slash(c)),
            decreases part@.len() - j,
        {
            let c = part[j];
            let d = if c == '\\' {
                '/'
            } else {
                c
            };
            push_char(&mut out, d);
            assert(part@.take(j + 1).map_values(|c: char| forward_slash(c)) =~= part@.take(j as int).map_values(
                |c: char| forward_slash(c),
            ).push(d));
            j = j + 1;
        }
        proof {
            assert(part@.take(part@.len() as int) =~= part@);
            let pv = parts_view(parts@);
            assert(pv.take(k + 1).drop_last() =~= pv.take(k as int));
            assert(pv.take(k + 1).last() == part@);
            if k == 0 {
                assert(join_parts(pv.take(1)) == pv.take(1)[0].map_values(|c: char| forward_slash(c)));
                assert(out@ =~= start + join_parts(pv.take(1)));
            } else {
                assert(out@ =~= start + join_parts(pv.take(k + 1)));
            }
        }
        k = k + 1;
    }
    proof {
        assert(parts_view(parts@).take(parts@.len() as int) =~= parts_view(parts@));
        if rooted {
            assert(out@ =~= render_path(rooted, parts_view(parts@)));
        } else {
            assert(out@ =~= render_path(rooted, parts_view(parts@)));
        }
    }
    out
}

/// The normalised form of `path`, as `normalized_path` states.
pub fn normalize_project_path(path: &str) -> (res: String)
    ensures
        res@ == normalized_path(path@),
{
    let chars = chars_of(path);
    let rooted = chars.len() > 0 && chars[0] == '/';
    let parts = path_parts_exec(&chars);
    render_path_exec(rooted, &parts)
}

/// The directory of a normalised file path joined with the relative
/// specifier `src`, normalised.
pub open spec fn import_base(file_path: Seq<char>, src: Seq<char>) -> Seq<char> {
    let parts = path_parts(file_path);
    if parts.len() == 0 {
        normalized_path(src)
    } else {
        render_path(is_rooted(file_path), fold_segments(src, 0, parts.drop_last(), Seq::empty()))
    }
}

/// The files a relative import `src` in `file_path` may refer to: the base
/// path itself, with each script extension, and as a directory index; none
/// for an import that does not start with `.`.
pub open spec fn import_candidates(file_path: Seq<char>, src: Seq<char>) -> Seq<Seq<char>> {
    if src.len() == 0 || src[0] != '.' {
        Seq::empty()
    } else {
        let c = import_base(file_path, src);
        seq![
            c,
            c + ".ts"@,
            c + ".tsx"@,
            c + ".js"@,
            c + ".jsx"@,
            c + "/index.ts"@,
            c + "/index.tsx"@,
            c + "/index.js"@,
            c + "/index.jsx"@,
        ]
    }
}

/// Views of a list of strings.
pub open spec fn strings_view(v: Seq<String>) -> Seq<Seq<char>> {
    v.map_values(|s: String| s@)
}

fn concat(a: &String, b: &str) -> (res: String)
    ensures
        res@ == a@ + b@,
{
    let mut out = a.clone();
    let chars = chars_of(b);
    let mut k: usize = 0;
    while k < chars.len()
        invariant
            0 <= k <= chars@.len(),
            chars@ == b@,
            out@ == a@ + b@.take(k as int),
        decreases chars@.len() - k,
    {
        push_char(&mut out, chars[k]);
        assert(b@.take(k + 1) =~= b@.take(k as int).push(chars@[k as int]));
        k = k + 1;
    }
    assert(b@.take(b@.len() as int) =~= b@);
    out
}

/// The files a relative import `import_source` in the normalised path
/// `file_path` may refer to, as `import_candidates` states.
pub fn resolve_import_candidates(file_path: &str, import_source: &str) -> (res: Vec<String>)
    ensures
        strings_view(res@) == import_candidates(file_path@, import_source@),
{
    let src = chars_of(import_source);
    if src.len() == 0 || src[0] != '.' {
        let empty: Vec<String> = Vec::new();
        assert(strings_view(empty@) =~= Seq::<Seq<char>>::empty());
        return empty;
    }
    let file_chars = chars_of(file_path);
    let rooted = file_chars.len() > 0 && file_chars[0] == '/';
    let mut parts = path_parts_exec(&file_chars);
    let base = if parts.len() == 0 {
        normalize_project_path(import_source)
    } else {
        let ghost before = parts_view(parts@);
        parts.pop();
        assert(parts_view(parts@) =~= before.drop_last());
        let mut cur: Vec<char> = Vec::new();
        let mut i: usize = 0;
        assert(cur@ =~= Seq::<char>::empty());
        while i < src.len()
            invariant
                0 <= i <= src@.len(),
                src@ == import_source@,
                fold_segments(src@, i as int, parts_view(parts@), cur@) == fold_segments(
                    src@,
                    0,
                    before.drop_last(),
                    Seq::empty(),
                ),
            decreases src@.len() - i,
        {
            if src[i] == '/' {
                let seg = cur;
                cur = Vec::new();
                apply_segment_exec(&mut parts, seg);
                assert(cur@ =~= Seq::<char>::empty());
            } else {
                cur.push(src[i]);
            }
            i = i + 1;
        }
        apply_segment_exec(&mut parts, cur);
        render_path_exec(rooted, &parts)
    };
    let mut out: Vec<String> = Vec::new();
    out.push(base.clone());
    out.push(concat(&base, ".ts"));
    out.push(concat(&base, ".tsx"));
    out.push(concat(&base, ".js"));
    out.push(concat(&base, ".jsx"));
    out.push(concat(&base, "/index.ts"));
    out.push(concat(&base, "/index.tsx"));
    out.push(concat(&base, "/index.js"));
    out.push(concat(&base, "/index.jsx"));
    assert(strings_view(out@) =~= import_candidates(file_path@, import_source@));
    out
}

// ---------------------------------------------------------------------------
// Imports resolve against the importing file's directory
// ---------------------------------------------------------------------------

/// The segments and the pending segment after reading `s` from index `i`
/// on, starting from `parts` and `cur` (the pending one not yet applied).
pub open spec fn scan_segments(s: Seq<char>, i: int, parts: Seq<Seq<char>>, cur: Seq<char>) -> (Seq<Seq<char>>, Seq<char>)
    decreases s.len() - i,
{
    if i < 0 || i >= s.len() {
        (parts, cur)
    } else if s[i] == '/' {
        scan_segments(s, i + 1, apply_segment(parts, cur), Seq::empty())
    } else {
        scan_segments(s, i + 1, parts, cur.push(s[i]))
    }
}

proof fn lemma_fold_shift(a: Seq<char>, b: Seq<char>, j: int, parts: Seq<Seq<char>>, cur: Seq<char>)
    requires
        0 <= j <= b.len(),
    ensures
        fold_segments(a + b, a.len() + j, parts, cur) == fold_segments(b, j, parts, cur),
    decreases b.len() - j,
{
    if j < b.len() {
        assert((a + b)[a.len() + j] == b[j]);
        if b[j] == '/' {
            lemma_fold_shift(a, b, j + 1, apply_segment(parts, cur), Seq::empty());
        } else {
            lemma_fold_shift(a, b, j + 1, parts, cur.push(b[j]));
        }
    }
}

proof fn lemma_fold_concat(a: Seq<char>, b: Seq<char>, i: int, parts: Seq<Seq<char>>, cur: Seq<char>)
    requires
        0 <= i <= a.len(),
    ensures
        fold_segments(a + b, i, parts, cur) == fold_segments(
            b,
            0,
            scan_segments(a, i, parts, cur).0,
            scan_segments(a, i, parts, cur).1,
        ),
    decreases a.len() - i,
{
    if i == a.len() {
        lemma_fold_shift(a, b, 0, parts, cur);
    } else {
        assert((a + b)[i] == a[i]);
        if a[i] == '/' {
            lemma_fold_concat(a, b, i + 1, apply_segment(parts, cur), Seq::empty());
        } else {
            lemma_fold_concat(a, b, i + 1, parts, cur.push(a[i]));
        }
    }
}

proof fn lemma_scan_shift(a: Seq<char>, b: Seq<char>, j: int, parts: Seq<Seq<char>>, cur: Seq<char>)
    requires
        0 <= j <= b.len(),
    ensures
        scan_segments(a + b, a.len() + j, parts, cur) == scan_segments(b, j, parts, cur),
    decreases b.len() - j,
{
    if j < b.len() {
        assert((a + b)[a.len() + j] == b[j]);
        if b[j] == '/' {
            lemma_scan_shift(a, b, j + 1, apply_segment(parts, cur), Seq::empty());
        } else {
            lemma_scan_shift(a, b, j + 1, parts, cur.push(b[j]));
        }
    }
}

proof fn lemma_scan_concat(a: Seq<char>, b: Seq<char>, i: int, parts: Seq<Seq<char>>, cur: Seq<char>)
    requires
        0 <= i <= a.len(),
    ensures
        scan_segments(a + b, i, parts, cur) == scan_segments(
            b,
            0,
            scan_segments(a, i, parts, cur).0,
            scan_segments(a, i, parts, cur).1,
        ),
    decreases a.len() - i,
{
    if i == a.len() {
        lemma_scan_shift(a, b, 0, parts, cur);
    } else {
        assert((a + b)[i] == a[i]);
        if a[i] == '/' {
            lemma_scan_concat(a, b, i + 1, apply_segment(parts, cur), Seq::empty());
        } else {
            lemma_scan_concat(a, b, i + 1, parts, cur.push(a[i]));
        }
    }
}

/// A segment that normalisation keeps as it is: not empty, not `.` or
/// `..`, and without `/` or `\`.
pub open spec fn clean_segment(x: Seq<char>) -> bool {
    &&& x.len() > 0
    &&& x != seq!['.']
    &&& x != seq!['.', '.']
    &&& forall|k: int| 0 <= k < x.len() ==> x[k] != '/' && x[k] != '\\'
}

/// Reading a segment without `/` from index `i` on only extends the
/// pending segment.
proof fn lemma_scan_plain(x: Seq<char>, i: int, parts: Seq<Seq<char>>, cur: Seq<char>)
    requires
        0 <= i <= x.len(),
        forall|k: int| 0 <= k < x.len() ==> x[k] != '/',
    ensures
        scan_segments(x, i, parts, cur) == (parts, cur + x.subrange(i, x.len() as int)),
    decreases x.len() - i,
{
    if i < x.len() {
        lemma_scan_plain(x, i + 1, parts, cur.push(x[i]));
        assert(cur.push(x[i]) + x.subrange(i + 1, x.len() as int) =~= cur + x.subrange(i, x.len() as int));
    } else {
        assert(cur + x.subrange(i, x.len() as int) =~= cur);
    }
}

proof fn lemma_forward_slash_clean(x: Seq<char>)
    requires
        clean_segment(x),
    ensures
        x.map_values(|c: char| forward_slash(c)) == x,
{
    assert(x.map_values(|c: char| forward_slash(c)) =~= x);
}

/// Reading the clean segments `q` joined by `/` gives them back: all but
/// the last applied, the last pending.
proof fn lemma_scan_join(q: Seq<Seq<char>>, parts: Seq<Seq<char>>)
    requires
        q.len() > 0,
        forall|i: int| 0 <= i < q.len() ==> clean_segment(#[trigger] q[i]),
    ensures
        scan_segments(join_parts(q), 0, parts, Seq::empty()) == (parts + q.drop_last(), q.last()),
    decreases q.len(),
{
    lemma_forward_slash_clean(q.last());
    if q.len() == 1 {
        lemma_scan_plain(q[0], 0, parts, Seq::empty());
        assert(Seq::<char>::empty() + q[0].subrange(0, q[0].len() as int) =~= q[0]);
        assert(parts + q.drop_last() =~= parts);
    } else {
        let init = q.drop_last();
        assert forall|i: int| 0 <= i < init.len() implies clean_segment(#[trigger] init[i]) by {
            assert(init[i] == q[i]);
        }
        lemma_scan_join(init, parts);
        let a = join_parts(init);
        let rest = seq!['/'] + q.last();
        assert(join_parts(q) == a + seq!['/'] + q.last());
        assert(a + seq!['/'] + q.last() =~= a + rest);
        lemma_scan_concat(a, rest, 0, parts, Seq::empty());
        let mid = parts + init.drop_last();
        assert(init.last() == q[q.len() - 2]);
        assert(apply_segment(mid, init.last()) == mid.push(init.last()));
        lemma_scan_plain(q.last(), 0, mid.push(init.last()), Seq::empty());
        lemma_scan_concat(seq!['/'], q.last(), 0, mid, init.last());
        assert(seq!['/'] + q.last() == rest);
        lemma_scan_shift(seq!['/'], q.last(), 0, mid.push(init.last()), Seq::empty());
        assert(seq!['/'][0] == '/');
        assert(scan_segments(seq!['/'], 1, mid.push(init.last()), Seq::empty()) == (mid.push(init.last()), Seq::<char>::empty()));
        assert(scan_segments(seq!['/'], 0, mid, init.last()) == (mid.push(init.last()), Seq::<char>::empty()));
        assert(Seq::<char>::empty() + q.last().subrange(0, q.last().len() as int) =~= q.last());
        assert(mid.push(init.last()) =~= parts + q.drop_last());
    }
}

/// Reading the directory `render_path(r, q)` followed by `/` gives back
/// its clean segments `q`, with nothing pending.
proof fn lemma_scan_dir(r: bool, q: Seq<Seq<char>>)
    requires
        r || q.len() > 0,
        forall|i: int| 0 <= i < q.len() ==> clean_segment(#[trigger] q[i]),
    ensures
        scan_segments(render_path(r, q) + seq!['/'], 0, Seq::empty(), Seq::empty()) == (q, Seq::<char>::empty()),
{
    let e = Seq::<Seq<char>>::empty();
    let slash = seq!['/'];
    assert(slash[0] == '/');
    assert(scan_segments(slash, 1, e, Seq::empty()) == (e, Seq::<char>::empty()));
    assert(scan_segments(slash, 0, e, Seq::empty()) == (e, Seq::<char>::empty()));
    if q.len() > 0 {
        lemma_scan_join(q, e);
        assert(e + q.drop_last() =~= q.drop_last());
        lemma_scan_concat(join_parts(q), slash, 0, e, Seq::empty());
        assert(q.last() == q[q.len() - 1]);
        assert(apply_segment(q.drop_last(), q.last()) =~= q);
        assert(scan_segments(slash, 1, q, Seq::empty()) == (q, Seq::<char>::empty()));
        assert(scan_segments(join_parts(q) + slash, 0, e, Seq::empty()) == (q, Seq::<char>::empty()));
        if r {
            assert(render_path(r, q) + slash =~= slash + (join_parts(q) + slash));
            lemma_scan_concat(slash, join_parts(q) + slash, 0, e, Seq::empty());
        } else {
            assert(render_path(r, q) == join_parts(q));
        }
    } else {
        assert(join_parts(q) == Seq::<char>::empty());
        assert(render_path(r, q) + slash =~= slash + slash);
        lemma_scan_concat(slash, slash, 0, e, Seq::empty());
        assert(q =~= e);
    }
}

proof fn lemma_join_no_backslash(parts: Seq<Seq<char>>)
    ensures
        forall|k: int| 0 <= k < join_parts(parts).len() ==> join_parts(parts)[k] != '\\',
    decreases parts.len(),
{
    if parts.len() == 1 {
        let m = parts[0].map_values(|c: char| forward_slash(c));
        assert forall|k: int| 0 <= k < m.len() implies m[k] != '\\' by {
            assert(m[k] == forward_slash(parts[0][k]));
        }
    } else if parts.len() > 1 {
        lemma_join_no_backslash(parts.drop_last());
        let a = join_parts(parts.drop_last());
        let m = parts.last().map_values(|c: char| forward_slash(c));
        assert forall|k: int| 0 <= k < m.len() implies m[k] != '\\' by {
            assert(m[k] == forward_slash(parts.last()[k]));
        }
        let j = a + seq!['/'] + m;
        assert forall|k: int| 0 <= k < j.len() implies j[k] != '\\' by {
            if k < a.len() {
                assert(j[k] == a[k]);
            } else if k == a.len() {
                assert(j[k] == '/');
            } else {
                assert(j[k] == m[k - a.len() - 1]);
            }
        }
    }
}

/// The first char of clean segments joined is the first char of the first.
proof fn lemma_join_first(parts: Seq<Seq<char>>)
    requires
        parts.len() > 0,
        forall|i: int| 0 <= i < parts.len() ==> clean_segment(#[trigger] parts[i]),
    ensures
        join_parts(parts).len() > 0,
        join_parts(parts)[0] == parts[0][0],
    decreases parts.len(),
{
    if parts.len() == 1 {
        assert(parts[0].map_values(|c: char| forward_slash(c))[0] == forward_slash(parts[0][0]));
    } else {
        let init = parts.drop_last();
        assert forall|i: int| 0 <= i < init.len() implies clean_segment(#[trigger] init[i]) by {
            assert(init[i] == parts[i]);
        }
        lemma_join_first(init);
        assert(init[0] == parts[0]);
        let j = join_parts(init) + seq!['/'] + parts.last().map_values(|c: char| forward_slash(c));
        assert(j[0] == join_parts(init)[0]);
    }
}

/// Applying a segment keeps every kept segment clean, given the segment
/// has neither `/` nor `\`.
proof fn lemma_apply_clean(parts: Seq<Seq<char>>, cur: Seq<char>)
    requires
        forall|i: int| 0 <= i < parts.len() ==> clean_segment(#[trigger] parts[i]),
        forall|k: int| 0 <= k < cur.len() ==> cur[k] != '/' && cur[k] != '\\',
    ensures
        forall|i: int| 0 <= i < apply_segment(parts, cur).len() ==> clean_segment(#[trigger] apply_segment(parts, cur)[i]),
{
    let a = apply_segment(parts, cur);
    assert forall|i: int| 0 <= i < a.len() implies clean_segment(#[trigger] a[i]) by {
        if cur.len() == 0 || cur == seq!['.'] {
        } else if cur == seq!['.', '.'] {
            if parts.len() > 0 {
                assert(a[i] == parts[i]);
            }
        } else {
            if i < parts.len() {
                assert(a[i] == parts[i]);
            } else {
                assert(a[i] == cur);
            }
        }
    }
}

proof fn lemma_fold_clean(s: Seq<char>, i: int, parts: Seq<Seq<char>>, cur: Seq<char>)
    requires
        0 <= i,
        forall|k: int| 0 <= k < s.len() ==> s[k] != '\\',
        forall|j: int| 0 <= j < parts.len() ==> clean_segment(#[trigger] parts[j]),
        forall|k: int| 0 <= k < cur.len() ==> cur[k] != '/' && cur[k] != '\\',
    ensures
        forall|j: int|
            0 <= j < fold_segments(s, i, parts, cur).len() ==> clean_segment(#[trigger] fold_segments(s, i, parts, cur)[j]),
    decreases s.len() - i,
{
    if i >= s.len() {
        lemma_apply_clean(parts, cur);
        assert(fold_segments(s, i, parts, cur) == apply_segment(parts, cur));
    } else if s[i] == '/' {
        lemma_apply_clean(parts, cur);
        lemma_fold_clean(s, i + 1, apply_segment(parts, cur), Seq::empty());
        assert(fold_segments(s, i, parts, cur) == fold_segments(s, i + 1, apply_segment(parts, cur), Seq::empty()));
    } else {
        let c2 = cur.push(s[i]);
        assert forall|k: int| 0 <= k < c2.len() implies c2[k] != '/' && c2[k] != '\\' by {
            if k < cur.len() {
                assert(c2[k] == cur[k]);
            }
        }
        lemma_fold_clean(s, i + 1, parts, c2);
        assert(fold_segments(s, i, parts, cur) == fold_segments(s, i + 1, parts, c2));
    }
}

/// The directory part of a path: its segments but the last, with its
/// root; empty for a path without segments.
pub open spec fn parent_dir(path: Seq<char>) -> Seq<char> {
    let parts = path_parts(path);
    if parts.len() == 0 {
        Seq::empty()
    } else {
        render_path(is_rooted(path), parts.drop_last())
    }
}

/// A relative path `rel` joined to the directory `dir`.
pub open spec fn join_path(dir: Seq<char>, rel: Seq<char>) -> Seq<char> {
    if dir.len() == 0 {
        rel
    } else {
        dir + seq!['/'] + rel
    }
}

/// The base that a relative import `src` of the file `path` resolves
/// against is the normalised join of the directory of the normalised path
/// with `src`.
pub proof fn lemma_import_base_joins_parent(path: Seq<char>, src: Seq<char>)
    requires
        src.len() > 0,
        src[0] == '.',
    ensures
        import_base(normalized_path(path), src) == normalized_path(join_path(parent_dir(normalized_path(path)), src)),
{
    let key = normalized_path(path);
    let parts = path_parts(key);
    let r = is_rooted(key);
    let e = Seq::<Seq<char>>::empty();
    lemma_join_no_backslash(path_parts(path));
    assert forall|k: int| 0 <= k < key.len() implies key[k] != '\\' by {
        if is_rooted(path) {
            assert(key =~= seq!['/'] + join_parts(path_parts(path)));
            if k > 0 {
                assert(key[k] == join_parts(path_parts(path))[k - 1]);
            }
        }
    }
    lemma_fold_clean(key, 0, e, Seq::empty());
    assert(!is_rooted(src));
    if parts.len() > 0 {
        let q = parts.drop_last();
        assert forall|i: int| 0 <= i < q.len() implies clean_segment(#[trigger] q[i]) by {
            assert(q[i] == parts[i]);
        }
        let dir = render_path(r, q);
        if dir.len() == 0 {
            if q.len() > 0 {
                lemma_join_first(q);
            }
            assert(!r);
            assert(q.len() == 0);
            assert(q =~= e);
        } else {
            if !r {
                if q.len() == 0 {
                    assert(dir == join_parts(q));
                    assert(false);
                }
            }
            let joined = dir + seq!['/'] + src;
            assert(joined =~= (dir + seq!['/']) + src);
            lemma_scan_dir(r, q);
            lemma_fold_concat(dir + seq!['/'], src, 0, e, Seq::empty());
            if r {
                assert(joined[0] == '/');
            } else {
                lemma_join_first(q);
                assert(joined[0] == dir[0]);
                assert(dir[0] == q[0][0]);
            }
            assert(is_rooted(joined) == r);
            assert(path_parts(joined) == fold_segments(src, 0, q, Seq::empty()));
        }
    }
}

/// The files a relative import `src` of the file `path` may refer to are,
/// in order, `c`, `c` with each script extension, and `c` as a directory
/// index, where `c` is the normalised join of the directory of the
/// normalised path with `src`; `resolve_dependencies` takes the first of
/// them that is recorded.
pub proof fn lemma_import_candidates_of_directory(path: Seq<char>, src: Seq<char>)
    requires
        src.len() > 0,
        src[0] == '.',
    ensures
        ({
            let c = normalized_path(join_path(parent_dir(normalized_path(path)), src));
            import_candidates(normalized_path(path), src) == seq![
                c,
                c + ".ts"@,
                c + ".tsx"@,
                c + ".js"@,
                c + ".jsx"@,
                c + "/index.ts"@,
                c + "/index.tsx"@,
                c + "/index.js"@,
                c + "/index.jsx"@,
            ]
        }),
{
    lemma_import_base_joins_parent(path, src);
}

} // verus!
