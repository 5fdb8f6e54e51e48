//! The list of file extensions a scan is restricted to.
use vstd::prelude::*;
use crate::paths::strings_view;
use crate::text::{char_is_whitespace, chars_of, spec_is_whitespace, string_from_chars};

verus! {

/// `s` without its leading chars that satisfy `p`.
pub open spec fn drop_front(s: Seq<char>, p: spec_fn(char) -> bool) -> Seq<char>
    decreases s.len(),
{
    if s.len() > 0 && p(s[0]) {
        drop_front(s.drop_first(), p)
    } else {
        s
    }
}

/// `s` without its trailing chars that satisfy `p`.
pub open spec fn drop_back(s: Seq<char>, p: spec_fn(char) -> bool) -> Seq<char>
    decreases s.len(),
{
    if s.len() > 0 && p(s.last()) {
        drop_back(s.drop_last(), p)
    } else {
        s
    }
}

/// The extension named by one comma-separated item: trimmed of whitespace,
/// then of leading dots.
pub open spec fn extension_of(item: Seq<char>) -> Seq<char> {
    let ws = |c: char| spec_is_whitespace(c);
    drop_front(drop_back(drop_front(item, ws), ws), |c: char| c == '.')
}

/// `out` with the extension of `item` added when it is not empty.
pub open spec fn add_extension(out: Seq<Seq<char>>, item: Seq<char>) -> Seq<Seq<char>> {
    if extension_of(item).len() > 0 {
        out.push(extension_of(item))
    } else {
        out
    }
}

/// The extensions of the comma-separated items of `s` from index `i` on,
/// after `out`, where `cur` is the item read so far.
pub open spec fn extensions_from(s: Seq<char>, i: int, out: Seq<Seq<char>>, cur: Seq<char>) -> Seq<Seq<char>>
    decreases s.len() - i,
{
    if i < 0 || i >= s.len() {
        add_extension(out, cur)
    } else if s[i] == ',' {
        extensions_from(s, i + 1, add_extension(out, cur), Seq::empty())
    } else {
        extensions_from(s, i + 1, out, cur.push(s[i]))
    }
}

/// The extensions scanned by default.
pub open spec fn default_extensions() -> Seq<Seq<char>> {
    seq!["js"@, "ts"@, "jsx"@, "tsx"@]
}

/// The extensions named by `--extensions`: each comma-separated item,
/// trimmed of whitespace and leading dots, empty ones dropped; the default
/// ones when the option is absent.
pub open spec fn parsed_extensions(extensions: Option<Seq<char>>) -> Seq<Seq<char>> {
    match extensions {
        Some(s) => extensions_from(s, 0, Seq::empty(), Seq::empty()),
        None => default_extensions(),
    }
}

proof fn lemma_drop_front(s: Seq<char>, a: int, b: int, lo: int, p: spec_fn(char) -> bool)
    requires
        0 <= a <= lo <= b <= s.len(),
        forall|i: int| a <= i < lo ==> p(#[trigger] s[i]),
        lo == b || !p(s[lo]),
    ensures
        drop_front(s.subrange(a, b), p) == s.subrange(lo, b),
    decreases lo - a,
{
    if a < lo {
        assert(s.subrange(a, b).drop_first() =~= s.subrange(a + 1, b));
        lemma_drop_front(s, a + 1, b, lo, p);
    } else if a < b {
        assert(s.subrange(a, b)[0] == s[a]);
    }
}

proof fn lemma_drop_back(s: Seq<char>, lo: int, b: int, hi: int, p: spec_fn(char) -> bool)
    requires
        0 <= lo <= hi <= b <= s.len(),
        forall|i: int| hi <= i < b ==> p(#[trigger] s[i]),
        hi == lo || !p(s[hi - 1]),
    ensures
        drop_back(s.subrange(lo, b), p) == s.subrange(lo, hi),
    decreases b - hi,
{
    if hi < b {
        assert(s.subrange(lo, b).drop_last() =~= s.subrange(lo, b - 1));
        assert(s.subrange(lo, b).last() == s[b - 1]);
        lemma_drop_back(s, lo, b - 1, hi, p);
    } else if lo < b {
        assert(s.subrange(lo, b).last() == s[b - 1]);
    }
}

/// The extension of the item `chars[a..b]`, if it is not empty.
fn item_extension(chars: &Vec<char>, a: usize, b: usize) -> (res: Option<String>)
    requires
        a <= b <= chars@.len(),
    ensures
        match res {
            Some(e) => e@ == extension_of(chars@.subrange(a as int, b as int)) && e@.len() > 0,
            None => extension_of(chars@.subrange(a as int, b as int)).len() == 0,
        },
{
    let ghost s = chars@;
    let ghost ws = |c: char| spec_is_whitespace(c);
    let ghost dot = |c: char| c == '.';
    let mut lo = a;
    while lo < b && char_is_whitespace(chars[lo])
        invariant
            a <= lo <= b <= chars@.len(),
            s == chars@,
            forall|i: int| a <= i < lo ==> spec_is_whitespace(#[trigger] s[i]),
        decreases b - lo,
    {
        lo = lo + 1;
    }
    proof {
        lemma_drop_front(s, a as int, b as int, lo as int, ws);
    }
    let mut hi = b;
    while hi > lo && char_is_whitespace(chars[hi - 1])
        invariant
            lo <= hi <= b <= chars@.len(),
            s == chars@,
            forall|i: int| hi <= i < b ==> spec_is_whitespace(#[trigger] s[i]),
        decreases hi - lo,
    {
        hi = hi - 1;
    }
    proof {
        lemma_drop_back(s, lo as int, b as int, hi as int, ws);
    }
    let mut start = lo;
    while start < hi && chars[start] == '.'
        invariant
            lo <= start <= hi,
            hi <= chars@.len(),
            s == chars@,
            forall|i: int| lo <= i < start ==> #[trigger] s[i] == '.',
        decreases hi - start,
    {
        start = start + 1;
    }
    proof {
        lemma_drop_front(s, lo as int, hi as int, start as int, dot);
    }
    if start < hi {
        Some(string_from_chars(chars.as_slice(), start, hi))
    } else {
        None
    }
}

/// The extensions a scan is restricted to, as `parsed_extensions` states.
pub fn parse_extensions(extensions: Option<String>) -> (res: Vec<String>)
    ensures
        strings_view(res@) == parsed_extensions(
            match extensions {
                Some(s) => Some(s@),
                None => None,
            },
        ),
{
    match extensions {
        None => {
            let res = vec!["js".to_owned(), "ts".to_owned(), "jsx".to_owned(), "tsx".to_owned()];
            assert(strings_view(res@) =~= default_extensions());
            res
        },
        Some(s) => {
            let chars = chars_of(s.as_str());
            let ghost text = chars@;
            let mut out: Vec<String> = Vec::new();
            let mut a: usize = 0;
            let mut i: usize = 0;
            assert(strings_view(out@) =~= Seq::<Seq<char>>::empty());
            assert(text.subrange(0, 0) =~= Seq::<char>::empty());
            while i < chars.len()
                invariant
                    text == chars@,
                    text == s@,
                    0 <= a <= i <= chars@.len(),
                    extensions_from(text, i as int, strings_view(out@), text.subrange(a as int, i as int))
                        == extensions_from(text, 0, Seq::empty(), Seq::empty()),
                decreases chars@.len() - i,
            {
                if chars[i] == ',' {
                    let ghost before = strings_view(out@);
                    match item_extension(&chars, a, i) {
                        Some(e) => {
                            out.push(e);
                            assert(strings_view(out@) =~= before.push(extension_of(text.subrange(a as int, i as int))));
                        },
                        None => {},
                    }
                    a = i + 1;
                    assert(text.subrange(a as int, i + 1) =~= Seq::<char>::empty());
                } else {
                    assert(text.subrange(a as int, i + 1) =~= text.subrange(a as int, i as int).push(text[i as int]));
                }
                i = i + 1;
            }
            let ghost before = strings_view(out@);
            match item_extension(&chars, a, i) {
                Some(e) => {
                    out.push(e);
                    assert(strings_view(out@) =~= before.push(extension_of(text.subrange(a as int, i as int))));
                },
                None => {},
            }
            out
        },
    }
}

} // verus!
