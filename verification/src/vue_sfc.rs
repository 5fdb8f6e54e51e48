//! Vue single-file components: finding the `<script>` block, telling which
//! blocks are present, and mapping offsets between the script block and the
//! whole file.
use vstd::prelude::*;
use vstd::string::StringSliceAdditionalSpecFns;
use vstd::utf8::{
    encode_utf8_valid_utf8, is_char_boundary, is_char_boundary_iff_is_leading_byte,
    is_char_boundary_start_end_of_seq, valid_utf8_split,
};
use crate::line_index::{compute_line_starts, is_sorted, line_col_of, line_starts_of, offset_to_line_col};
use crate::span::NodeSpan;

verus! {

broadcast use {encode_utf8_valid_utf8, valid_utf8_split, is_char_boundary_start_end_of_seq};

/// Which kind of script block a component has.
#[derive(Debug, Clone, Copy, PartialEq, Eq, Structural)]
pub enum VueSfcScriptKind {
    Script,
    ScriptSetup,
}

/// Which top-level blocks a component has.
#[derive(Debug, Clone, Copy, PartialEq, Eq, Structural)]
pub struct VueSfcBlockPresence {
    pub has_script: bool,
    pub has_script_setup: bool,
    pub has_template: bool,
    pub has_style: bool,
}

impl Default for VueSfcBlockPresence {
    fn default() -> (res: Self)
        ensures
            !res.has_script && !res.has_script_setup && !res.has_template && !res.has_style,
    {
        VueSfcBlockPresence { has_script: false, has_script_setup: false, has_template: false, has_style: false }
    }
}

// ---------------------------------------------------------------------------
// Byte-level specification
// ---------------------------------------------------------------------------

/// ASCII lowercase of one byte.
pub open spec fn ascii_lower(b: u8) -> u8 {
    if 65 <= b <= 90 {
        (b + 32) as u8
    } else {
        b
    }
}

pub open spec fn lower_bytes(s: Seq<u8>) -> Seq<u8> {
    s.map_values(|b: u8| ascii_lower(b))
}

/// `needle` occurs in `hay` at index `i`.
pub open spec fn occurs_at(hay: Seq<u8>, needle: Seq<u8>, i: int) -> bool {
    0 <= i && i + needle.len() <= hay.len() && hay.subrange(i, i + needle.len()) == needle
}

/// First index at or after `from` at which `needle` occurs.
pub open spec fn find_from(hay: Seq<u8>, needle: Seq<u8>, from: int) -> Option<int>
    decreases hay.len() + 1 - from,
{
    if from < 0 || from + needle.len() > hay.len() {
        None
    } else if occurs_at(hay, needle, from) {
        Some(from)
    } else {
        find_from(hay, needle, from + 1)
    }
}

/// `<tag` in lowercase.
pub open spec fn open_prefix(tag: Seq<u8>) -> Seq<u8> {
    seq![60u8] + lower_bytes(tag)
}

/// `</tag>` in lowercase.
pub open spec fn close_tag(tag: Seq<u8>) -> Seq<u8> {
    seq![60u8, 47u8] + lower_bytes(tag) + seq![62u8]
}

/// The byte after a tag name ends it: end of text, `>`, `/`, space, `\n`, `\r`, `\t`.
pub open spec fn ends_tag_name(s: Seq<u8>, i: int) -> bool {
    i >= s.len() || s[i] == 62 || s[i] == 47 || s[i] == 32 || s[i] == 10 || s[i] == 13 || s[i] == 9
}

/// ASCII whitespace as `u8::is_ascii_whitespace`: space, `\t`, `\n`, form feed, `\r`.
pub open spec fn is_ascii_ws(b: u8) -> bool {
    b == 32 || b == 9 || b == 10 || b == 12 || b == 13
}

pub open spec fn is_ascii_alpha(b: u8) -> bool {
    (65 <= b <= 90) || (97 <= b <= 122)
}

pub open spec fn skip_alpha(b: Seq<u8>, i: int) -> int
    decreases b.len() - i,
{
    if 0 <= i < b.len() && is_ascii_alpha(b[i]) {
        skip_alpha(b, i + 1)
    } else {
        i
    }
}

pub open spec fn skip_ws(b: Seq<u8>, i: int) -> int
    decreases b.len() - i,
{
    if 0 <= i < b.len() && is_ascii_ws(b[i]) {
        skip_ws(b, i + 1)
    } else {
        i
    }
}

/// Skips an attribute name: up to whitespace, `=`, `>` or `/`.
pub open spec fn skip_name(b: Seq<u8>, i: int) -> int
    decreases b.len() - i,
{
    if 0 <= i < b.len() && !is_ascii_ws(b[i]) && b[i] != 61 && b[i] != 62 && b[i] != 47 {
        skip_name(b, i + 1)
    } else {
        i
    }
}

/// Skips up to the quote `q`.
pub open spec fn skip_quoted(b: Seq<u8>, i: int, q: u8) -> int
    decreases b.len() - i,
{
    if 0 <= i < b.len() && b[i] != q {
        skip_quoted(b, i + 1, q)
    } else {
        i
    }
}

/// Skips an unquoted value: up to whitespace or `>`.
pub open spec fn skip_unquoted(b: Seq<u8>, i: int) -> int
    decreases b.len() - i,
{
    if 0 <= i < b.len() && !is_ascii_ws(b[i]) && b[i] != 62 {
        skip_unquoted(b, i + 1)
    } else {
        i
    }
}

/// Skips `= value` (quoted or not) when present at `i`.
pub open spec fn skip_value(b: Seq<u8>, i: int) -> int {
    if 0 <= i < b.len() && b[i] == 61 {
        let j = skip_ws(b, i + 1);
        if 0 <= j < b.len() && (b[j] == 34 || b[j] == 39) {
            let k = skip_quoted(b, j + 1, b[j]);
            if k < b.len() {
                k + 1
            } else {
                k
            }
        } else {
            skip_unquoted(b, j)
        }
    } else {
        i
    }
}

pub proof fn lemma_skips_grow(b: Seq<u8>, i: int, q: u8)
    requires
        0 <= i,
    ensures
        skip_alpha(b, i) >= i,
        skip_ws(b, i) >= i,
        skip_name(b, i) >= i,
        skip_quoted(b, i, q) >= i,
        skip_unquoted(b, i) >= i,
        skip_value(b, i) >= i,
        0 <= i < b.len() && b[i] == 61 ==> skip_value(b, i) > i,
        i <= b.len() ==> skip_alpha(b, i) <= b.len() && skip_ws(b, i) <= b.len() && skip_name(b, i)
            <= b.len() && skip_quoted(b, i, q) <= b.len() && skip_unquoted(b, i) <= b.len()
            && skip_value(b, i) <= b.len(),
    decreases b.len() - i,
{
    if i < b.len() {
        lemma_skips_grow(b, i + 1, q);
        let j = skip_ws(b, i + 1);
        if 0 <= j < b.len() {
            lemma_skips_grow(b, j + 1, b[j]);
            lemma_skips_grow(b, j, q);
        }
    }
}

pub proof fn lemma_skip_stops(b: Seq<u8>, i: int)
    requires
        0 <= i,
    ensures
        skip_ws(b, i) < b.len() ==> !is_ascii_ws(b[skip_ws(b, i)]),
        skip_name(b, i) < b.len() ==> (is_ascii_ws(b[skip_name(b, i)]) || b[skip_name(b, i)] == 61
            || b[skip_name(b, i)] == 62 || b[skip_name(b, i)] == 47),
    decreases b.len() - i,
{
    if i < b.len() {
        lemma_skip_stops(b, i + 1);
    }
}

/// Looks for the attribute `attr` in the open tag `b` from index `idx`.
pub open spec fn has_attr_from(b: Seq<u8>, attr: Seq<u8>, idx: int) -> bool
    decreases b.len() - idx,
{
    if idx < 0 || idx >= b.len() {
        false
    } else {
        let i = skip_ws(b, idx);
        if i >= b.len() || b[i] == 62 || b[i] == 47 {
            false
        } else {
            let e = skip_name(b, i);
            if b.subrange(i, e) == attr {
                true
            } else {
                proof {
                    lemma_skips_grow(b, idx, 0);
                    lemma_skips_grow(b, i, 0);
                    lemma_skips_grow(b, e, 0);
                    lemma_skips_grow(b, skip_ws(b, e), 0);
                    lemma_skip_stops(b, idx);
                    lemma_skip_stops(b, i);
                    lemma_skip_stops(b, e);
                }
                has_attr_from(b, attr, skip_value(b, skip_ws(b, e)))
            }
        }
    }
}

/// The open tag `open_tag` (of any case) has an attribute named `attr`.
pub open spec fn tag_has_attr(open_tag: Seq<u8>, attr: Seq<u8>) -> bool {
    let b = lower_bytes(open_tag);
    has_attr_from(b, attr, skip_alpha(b, 1))
}

/// A block found in a component: where its content starts and ends, and
/// whether it is a `<script setup>`.
#[derive(Debug, Clone, Copy, PartialEq, Eq, Structural)]
pub struct SfcBlockMatch {
    pub content_start: usize,
    pub content_end: usize,
    pub kind: VueSfcScriptKind,
}

/// The first `<tag ...>...</tag>` block (case-insensitively) whose opening
/// tag starts at or after `cursor` in the source bytes `src`.
pub open spec fn find_block_from(src: Seq<u8>, tag: Seq<u8>, cursor: int) -> Option<SfcBlockMatch>
    decreases src.len() - cursor,
{
    let low = lower_bytes(src);
    if cursor < 0 || cursor >= src.len() {
        None
    } else {
        match find_from(low, open_prefix(tag), cursor) {
            None => None,
            Some(open_start) => {
                let bi = open_start + open_prefix(tag).len();
                proof {
                    lemma_find_from_in_bounds(low, open_prefix(tag), cursor);
                }
                if !ends_tag_name(low, bi) {
                    find_block_from(src, tag, bi)
                } else {
                    match find_from(low, seq![62u8], bi) {
                        None => None,
                        Some(open_end) => match find_from(low, close_tag(tag), open_end + 1) {
                            None => None,
                            Some(close_start) => Some(
                                SfcBlockMatch {
                                    content_start: (open_end + 1) as usize,
                                    content_end: close_start as usize,
                                    kind: if lower_bytes(tag) == seq![115u8, 99u8, 114u8, 105u8, 112u8, 116u8]
                                        && tag_has_attr(
                                        src.subrange(open_start, open_end + 1),
                                        seq![115u8, 101u8, 116u8, 117u8, 112u8],
                                    ) {
                                        VueSfcScriptKind::ScriptSetup
                                    } else {
                                        VueSfcScriptKind::Script
                                    },
                                },
                            ),
                        },
                    }
                }
            },
        }
    }
}

/// All `<script>` blocks, each searched for after the end of the previous one.
pub open spec fn script_blocks_from(src: Seq<u8>, cursor: int) -> Seq<SfcBlockMatch>
    decreases src.len() + 1 - cursor,
{
    if cursor < 0 || cursor > src.len() {
        Seq::empty()
    } else {
        match find_block_from(src, script_tag(), cursor) {
            None => Seq::empty(),
            Some(b) => if b.content_end + 1 > cursor && b.content_end < src.len() {
                seq![b] + script_blocks_from(src, b.content_end + 1)
            } else {
                seq![b]
            },
        }
    }
}

/// `script`
pub open spec fn script_tag() -> Seq<u8> {
    seq![115u8, 99u8, 114u8, 105u8, 112u8, 116u8]
}

/// `template`
pub open spec fn template_tag() -> Seq<u8> {
    seq![116u8, 101u8, 109u8, 112u8, 108u8, 97u8, 116u8, 101u8]
}

/// `style`
pub open spec fn style_tag() -> Seq<u8> {
    seq![115u8, 116u8, 121u8, 108u8, 101u8]
}

/// Blocks present in the component with source bytes `src`.
pub open spec fn presence_of(src: Seq<u8>) -> VueSfcBlockPresence {
    let blocks = script_blocks_from(src, 0);
    VueSfcBlockPresence {
        has_script: exists|i: int| 0 <= i < blocks.len() && blocks[i].kind == VueSfcScriptKind::Script,
        has_script_setup: exists|i: int|
            0 <= i < blocks.len() && blocks[i].kind == VueSfcScriptKind::ScriptSetup,
        has_template: find_block_from(src, template_tag(), 0) is Some,
        has_style: find_block_from(src, style_tag(), 0) is Some,
    }
}

// ---------------------------------------------------------------------------
// Byte scanning
// ---------------------------------------------------------------------------

fn lower_vec(s: &[u8]) -> (res: Vec<u8>)
    ensures
        res@ == lower_bytes(s@),
{
    let mut out: Vec<u8> = Vec::new();
    let mut k: usize = 0;
    while k < s.len()
        invariant
            0 <= k <= s@.len(),
            out@ == lower_bytes(s@.take(k as int)),
        decreases s@.len() - k,
    {
        let b = s[k];
        let l = if b >= 65 && b <= 90 {
            b + 32
        } else {
            b
        };
        out.push(l);
        assert(lower_bytes(s@.take(k + 1)) =~= lower_bytes(s@.take(k as int)).push(ascii_lower(s@[k as int])));
        k = k + 1;
    }
    assert(s@.take(s@.len() as int) =~= s@);
    out
}

fn occurs_at_exec(hay: &Vec<u8>, needle: &Vec<u8>, i: usize) -> (res: bool)
    ensures
        res == occurs_at(hay@, needle@, i as int),
{
    if i > hay.len() || needle.len() > hay.len() - i {
        return false;
    }
    let mut k: usize = 0;
    while k < needle.len()
        invariant
            i + needle@.len() <= hay@.len() <= usize::MAX,
            0 <= k <= needle@.len(),
            forall|j: int| 0 <= j < k ==> hay@[i + j] == needle@[j],
        decreases needle@.len() - k,
    {
        if hay[i + k] != needle[k] {
            assert(hay@.subrange(i as int, i + needle@.len())[k as int] != needle@[k as int]);
            return false;
        }
        k = k + 1;
    }
    assert(hay@.subrange(i as int, i + needle@.len()) =~= needle@);
    true
}

fn find_from_exec(hay: &Vec<u8>, needle: &Vec<u8>, from: usize) -> (res: Option<usize>)
    ensures
        match res {
            Some(i) => find_from(hay@, needle@, from as int) == Some(i as int),
            None => find_from(hay@, needle@, from as int) is None,
        },
{
    let hay_len = hay.len();
    let mut i = from;
    while needle.len() <= hay_len && i <= hay_len - needle.len()
        invariant
            from <= i,
            hay_len == hay@.len(),
            find_from(hay@, needle@, from as int) == find_from(hay@, needle@, i as int),
        decreases hay@.len() + 1 - i,
    {
        if occurs_at_exec(hay, needle, i) {
            return Some(i);
        }
        proof {
            if needle@.len() == 0 {
                assert(hay@.subrange(i as int, i as int) =~= needle@);
            }
        }
        i = i + 1;
    }
    None
}

/// Whether the byte after a tag name ends it.
pub fn is_sfc_tag_boundary(ch: Option<u8>) -> (res: bool)
    ensures
        res == match ch {
            None => true,
            Some(b) => b == 62 || b == 47 || b == 32 || b == 10 || b == 13 || b == 9,
        },
{
    match ch {
        None => true,
        Some(b) => b == 62u8 || b == 47u8 || b == 32u8 || b == 10u8 || b == 13u8 || b == 9u8,
    }
}

fn is_ascii_ws_exec(b: u8) -> (res: bool)
    ensures
        res == is_ascii_ws(b),
{
    b == 32 || b == 9 || b == 10 || b == 12 || b == 13
}

/// Whether the open tag has an attribute named `attr_name` (the tag is
/// compared in lowercase).
pub fn tag_has_attribute(open_tag: &str, attr_name: &str) -> (res: bool)
    ensures
        res == tag_has_attr(open_tag.spec_bytes(), attr_name.spec_bytes()),
{
    bytes_have_attribute(open_tag.as_bytes(), attr_name.as_bytes())
}

/// Finds the first `<tag_name ...>...</tag_name>` block (ignoring ASCII
/// case) whose opening tag starts at or after `from_offset`.
fn find_sfc_block(source: &str, tag_name: &[u8], from_offset: usize) -> (res: Option<SfcBlockMatch>)
    ensures
        res == find_block_from(source.spec_bytes(), tag_name@, from_offset as int),
{
    let src = source.as_bytes();
    let lower_source = lower_vec(src);
    let lower_tag = lower_vec(tag_name);
    let ghost s = src@;
    let ghost tag = tag_name@;
    let mut prefix: Vec<u8> = Vec::new();
    prefix.push(60u8);
    let mut close: Vec<u8> = Vec::new();
    close.push(60u8);
    close.push(47u8);
    let mut k: usize = 0;
    while k < lower_tag.len()
        invariant
            0 <= k <= lower_tag@.len(),
            prefix@ == seq![60u8] + lower_tag@.take(k as int),
            close@ == seq![60u8, 47u8] + lower_tag@.take(k as int),
        decreases lower_tag@.len() - k,
    {
        prefix.push(lower_tag[k]);
        close.push(lower_tag[k]);
        assert(lower_tag@.take(k + 1) =~= lower_tag@.take(k as int).push(lower_tag@[k as int]));
        k = k + 1;
    }
    close.push(62u8);
    assert(lower_tag@.take(lower_tag@.len() as int) =~= lower_tag@);
    assert(prefix@ =~= open_prefix(tag));
    assert(close@ =~= close_tag(tag));
    let mut is_script = lower_tag.len() == 6;
    if is_script {
        is_script = lower_tag[0] == 115 && lower_tag[1] == 99 && lower_tag[2] == 114 && lower_tag[3] == 105
            && lower_tag[4] == 112 && lower_tag[5] == 116;
    }
    assert(is_script == (lower_bytes(tag) == script_tag())) by {
        if lower_bytes(tag) == script_tag() {
            assert(lower_tag@.len() == 6);
        }
        if is_script {
            assert(lower_tag@ =~= script_tag());
        }
    }
    let n = src.len();
    let mut cursor = from_offset;
    while cursor < n
        invariant
            s == src@,
            s == source.spec_bytes(),
            n == s.len(),
            lower_source@ == lower_bytes(s),
            prefix@ == open_prefix(tag),
            close@ == close_tag(tag),
            is_script == (lower_bytes(tag) == script_tag()),
            tag == tag_name@,
            find_block_from(s, tag, cursor as int) == find_block_from(s, tag, from_offset as int),
        decreases n - cursor,
    {
        let open_start = match find_from_exec(&lower_source, &prefix, cursor) {
            Some(i) => i,
            None => {
                return None;
            },
        };
        proof {
            lemma_find_from_in_bounds(lower_source@, prefix@, cursor as int);
        }
        let boundary_idx = open_start + prefix.len();
        let next = if boundary_idx < n {
            Some(lower_source[boundary_idx])
        } else {
            None
        };
        if !is_sfc_tag_boundary(next) {
            cursor = boundary_idx;
            continue;
        }
        let mut gt: Vec<u8> = Vec::new();
        gt.push(62u8);
        assert(gt@ =~= seq![62u8]);
        let open_end = match find_from_exec(&lower_source, &gt, boundary_idx) {
            Some(i) => i,
            None => {
                return None;
            },
        };
        proof {
            lemma_find_from_in_bounds(lower_source@, gt@, boundary_idx as int);
        }
        let content_start = open_end + 1;
        let close_start = match find_from_exec(&lower_source, &close, content_start) {
            Some(i) => i,
            None => {
                return None;
            },
        };
        let kind = if is_script && tag_has_attribute_bytes(src, open_start, open_end + 1) {
            VueSfcScriptKind::ScriptSetup
        } else {
            VueSfcScriptKind::Script
        };
        return Some(SfcBlockMatch { content_start, content_end: close_start, kind });
    }
    None
}

pub proof fn lemma_find_from_in_bounds(hay: Seq<u8>, needle: Seq<u8>, from: int)
    requires
        find_from(hay, needle, from) is Some,
    ensures
        from <= find_from(hay, needle, from).unwrap(),
        find_from(hay, needle, from).unwrap() + needle.len() <= hay.len(),
        occurs_at(hay, needle, find_from(hay, needle, from).unwrap()),
    decreases hay.len() + 1 - from,
{
    if !(from < 0 || from + needle.len() > hay.len()) && !occurs_at(hay, needle, from) {
        lemma_find_from_in_bounds(hay, needle, from + 1);
    }
}

/// `tag_has_attribute` on the bytes `src[from..to]` for the attribute `setup`.
fn tag_has_attribute_bytes(src: &[u8], from: usize, to: usize) -> (res: bool)
    requires
        from <= to <= src@.len(),
    ensures
        res == tag_has_attr(src@.subrange(from as int, to as int), seq![115u8, 101u8, 116u8, 117u8, 112u8]),
{
    let mut part: Vec<u8> = Vec::new();
    let mut k = from;
    while k < to
        invariant
            from <= k <= to <= src@.len(),
            part@ == src@.subrange(from as int, k as int),
        decreases to - k,
    {
        part.push(src[k]);
        assert(src@.subrange(from as int, k + 1) =~= src@.subrange(from as int, k as int).push(src@[k as int]));
        k = k + 1;
    }
    let mut setup: Vec<u8> = Vec::new();
    setup.push(115);
    setup.push(101);
    setup.push(116);
    setup.push(117);
    setup.push(112);
    assert(setup@ =~= seq![115u8, 101u8, 116u8, 117u8, 112u8]);
    bytes_have_attribute(part.as_slice(), setup.as_slice())
}

/// `tag_has_attribute` on byte slices.
fn bytes_have_attribute(open_tag: &[u8], attr: &[u8]) -> (res: bool)
    ensures
        res == tag_has_attr(open_tag@, attr@),
{
    let bytes = lower_vec(open_tag);
    let ghost b = bytes@;
    let ghost a = attr@;
    let n = bytes.len();
    let mut idx: usize = 1;
    while idx < n && ((bytes[idx] >= 65 && bytes[idx] <= 90) || (bytes[idx] >= 97 && bytes[idx] <= 122))
        invariant
            b == bytes@,
            n == b.len(),
            1 <= idx,
            skip_alpha(b, idx as int) == skip_alpha(b, 1),
        decreases n - idx,
    {
        idx = idx + 1;
    }
    while idx < n
        invariant
            b == bytes@,
            a == attr@,
            n == b.len(),
            0 <= idx,
            b == lower_bytes(open_tag@),
            has_attr_from(b, a, idx as int) == has_attr_from(b, a, skip_alpha(b, 1)),
        decreases n - idx,
    {
        let ghost start_idx = idx as int;
        while idx < n && is_ascii_ws_exec(bytes[idx])
            invariant
                b == bytes@,
                n == b.len(),
                start_idx <= idx,
                skip_ws(b, idx as int) == skip_ws(b, start_idx),
            decreases n - idx,
        {
            idx = idx + 1;
        }
        proof {
            lemma_skip_stops(b, start_idx);
            lemma_skips_grow(b, start_idx, 0);
            assert(skip_ws(b, idx as int) == idx as int);
        }
        if idx >= n || bytes[idx] == 62u8 || bytes[idx] == 47u8 {
            return false;
        }
        let attr_start = idx;
        while idx < n && !is_ascii_ws_exec(bytes[idx]) && bytes[idx] != 61u8 && bytes[idx] != 62u8 && bytes[idx] != 47u8
            invariant
                b == bytes@,
                n == b.len(),
                attr_start <= idx <= n,
                skip_name(b, idx as int) == skip_name(b, attr_start as int),
            decreases n - idx,
        {
            idx = idx + 1;
        }
        let mut same = idx - attr_start == attr.len();
        if same {
            let mut k: usize = 0;
            while k < attr.len()
                invariant
                    b == bytes@,
                    a == attr@,
                    idx - attr_start == a.len(),
                    attr_start + a.len() <= n == b.len(),
                    0 <= k <= a.len(),
                    same == forall|j: int| 0 <= j < k ==> b[attr_start + j] == a[j],
                decreases a.len() - k,
            {
                if bytes[attr_start + k] != attr[k] {
                    same = false;
                }
                k = k + 1;
            }
            proof {
                if same {
                    assert(b.subrange(attr_start as int, idx as int) =~= a);
                } else {
                    let j = choose|j: int| 0 <= j < a.len() && b[attr_start + j] != a[j];
                    assert(b.subrange(attr_start as int, idx as int)[j] != a[j]);
                }
            }
        } else {
            assert(b.subrange(attr_start as int, idx as int).len() != a.len());
        }
        if same {
            return true;
        }
        proof {
            lemma_skips_grow(b, start_idx, 0);
            lemma_skips_grow(b, idx as int, 0);
        }
        let ghost name_end = idx as int;
        while idx < n && is_ascii_ws_exec(bytes[idx])
            invariant
                b == bytes@,
                n == b.len(),
                name_end <= idx,
                skip_ws(b, idx as int) == skip_ws(b, name_end),
            decreases n - idx,
        {
            idx = idx + 1;
        }
        let ghost value_start = idx as int;
        if idx < n && bytes[idx] == 61u8 {
            idx = idx + 1;
            let ghost after_eq = idx as int;
            while idx < n && is_ascii_ws_exec(bytes[idx])
                invariant
                    b == bytes@,
                    n == b.len(),
                    after_eq <= idx,
                    skip_ws(b, idx as int) == skip_ws(b, after_eq),
                decreases n - idx,
            {
                idx = idx + 1;
            }
            if idx < n && (bytes[idx] == 34u8 || bytes[idx] == 39u8) {
                let quote = bytes[idx];
                idx = idx + 1;
                let ghost qs = idx as int;
                while idx < n && bytes[idx] != quote
                    invariant
                        b == bytes@,
                        n == b.len(),
                        qs <= idx,
                        skip_quoted(b, idx as int, quote) == skip_quoted(b, qs, quote),
                    decreases n - idx,
                {
                    idx = idx + 1;
                }
                if idx < n {
                    idx = idx + 1;
                }
            } else {
                let ghost us = idx as int;
                while idx < n && !is_ascii_ws_exec(bytes[idx]) && bytes[idx] != 62u8
                    invariant
                        b == bytes@,
                        n == b.len(),
                        us <= idx,
                        skip_unquoted(b, idx as int) == skip_unquoted(b, us),
                    decreases n - idx,
                {
                    idx = idx + 1;
                }
            }
        }
        proof {
            lemma_skip_stops(b, attr_start as int);
            lemma_skip_stops(b, name_end);
            lemma_skips_grow(b, name_end, 0);
            lemma_skips_grow(b, value_start, 0);
        }
        assert(idx as int == skip_value(b, value_start));
        assert(idx as int > start_idx);
    }
    false
}


/// Shape of a block found by `find_block_from`: its content lies after a `>`
/// that follows the search start, and ends at a `<`.
pub proof fn lemma_block_shape(src: Seq<u8>, tag: Seq<u8>, cursor: int)
    requires
        find_block_from(src, tag, cursor) is Some,
        src.len() <= usize::MAX,
    ensures
        ({
            let b = find_block_from(src, tag, cursor).unwrap();
            &&& cursor < b.content_start <= b.content_end < src.len()
            &&& src[b.content_start - 1] == 62
            &&& src[b.content_end as int] == 60
        }),
    decreases src.len() - cursor,
{
    let low = lower_bytes(src);
    let os = find_from(low, open_prefix(tag), cursor).unwrap();
    lemma_find_from_in_bounds(low, open_prefix(tag), cursor);
    let bi = os + open_prefix(tag).len();
    if !ends_tag_name(low, bi) {
        lemma_block_shape(src, tag, bi);
    } else {
        let gt = seq![62u8];
        lemma_find_from_in_bounds(low, gt, bi);
        let oe = find_from(low, gt, bi).unwrap();
        lemma_find_from_in_bounds(low, close_tag(tag), oe + 1);
        let cs = find_from(low, close_tag(tag), oe + 1).unwrap();
        assert(low.subrange(oe, oe + 1)[0] == 62);
        assert(low[oe] == 62);
        assert(low[oe] == ascii_lower(src[oe]));
        assert(low.subrange(cs, cs + close_tag(tag).len())[0] == 60);
        assert(low[cs] == 60);
        assert(low[cs] == ascii_lower(src[cs]));
    }
}

/// The bytes `script`.
fn script_tag_bytes() -> (res: Vec<u8>)
    ensures
        res@ == script_tag(),
{
    let mut v: Vec<u8> = Vec::new();
    v.push(115);
    v.push(99);
    v.push(114);
    v.push(105);
    v.push(112);
    v.push(116);
    assert(v@ =~= script_tag());
    v
}

/// The bytes `template`.
fn template_tag_bytes() -> (res: Vec<u8>)
    ensures
        res@ == template_tag(),
{
    let mut v: Vec<u8> = Vec::new();
    v.push(116);
    v.push(101);
    v.push(109);
    v.push(112);
    v.push(108);
    v.push(97);
    v.push(116);
    v.push(101);
    assert(v@ =~= template_tag());
    v
}

/// The bytes `style`.
fn style_tag_bytes() -> (res: Vec<u8>)
    ensures
        res@ == style_tag(),
{
    let mut v: Vec<u8> = Vec::new();
    v.push(115);
    v.push(116);
    v.push(121);
    v.push(108);
    v.push(101);
    assert(v@ =~= style_tag());
    v
}

/// Every `<script>` block of the component, in source order, each searched
/// for after the end of the previous one.
fn collect_sfc_script_blocks(source: &str) -> (res: Vec<SfcBlockMatch>)
    ensures
        res@ == script_blocks_from(source.spec_bytes(), 0),
{
    let ghost s = source.spec_bytes();
    let tag = script_tag_bytes();
    let n = source.as_bytes().len();
    let mut blocks: Vec<SfcBlockMatch> = Vec::new();
    let mut cursor: usize = 0;
    while cursor <= n
        invariant
            s == source.spec_bytes(),
            n == s.len(),
            tag@ == script_tag(),
            blocks@ + script_blocks_from(s, cursor as int) == script_blocks_from(s, 0),
        decreases n + 1 - cursor,
    {
        let found = find_sfc_block(source, tag.as_slice(), cursor);
        match found {
            None => {
                assert(blocks@ + Seq::<SfcBlockMatch>::empty() =~= blocks@);
                return blocks;
            },
            Some(block) => {
                proof {
                    lemma_block_shape(s, script_tag(), cursor as int);
                }
                let next = block.content_end + 1;
                let ghost before = blocks@;
                blocks.push(block);
                if next > n {
                    assert(before + script_blocks_from(s, cursor as int) =~= blocks@);
                    return blocks;
                }
                assert(before + script_blocks_from(s, cursor as int) =~= blocks@ + script_blocks_from(s, next as int));
                cursor = next;
            },
        }
    }
    assert(script_blocks_from(s, cursor as int) =~= Seq::<SfcBlockMatch>::empty());
    assert(blocks@ + Seq::<SfcBlockMatch>::empty() =~= blocks@);
    blocks
}

// ---------------------------------------------------------------------------
// Offset map
// ---------------------------------------------------------------------------

/// Absolute offset of relative offset `rel` in a script block spanning `span`.
pub open spec fn spec_relative_to_absolute(span: NodeSpan, rel: u32) -> Option<u32> {
    if span.start <= span.end && rel <= span.end - span.start {
        Some((span.start + rel) as u32)
    } else {
        None
    }
}

/// Relative offset of absolute offset `abs` in a script block spanning `span`.
pub open spec fn spec_absolute_to_relative(span: NodeSpan, abs: u32) -> Option<u32> {
    if abs < span.start || abs > span.end {
        None
    } else {
        Some((abs - span.start) as u32)
    }
}

/// Offsets `start..=end`.
pub open spec fn offset_range(start: u32, end: u32) -> Seq<u32> {
    Seq::new(
        if end >= start {
            (end - start + 1) as nat
        } else {
            0
        },
        |i: int| (start + i) as u32,
    )
}

/// Maps offsets between a script block and the component that holds it.
#[derive(Debug, PartialEq, Eq)]
pub struct VueSfcOffsetMap {
    script_span: NodeSpan,
    relative_to_absolute_offsets: Vec<u32>,
    line_starts: Vec<usize>,
}

/// Mathematical value of an offset map: the block's span in the component,
/// and the line starts of the component.
pub struct OffsetMapView {
    pub script_span: NodeSpan,
    pub line_starts: Seq<usize>,
}

impl View for VueSfcOffsetMap {
    type V = OffsetMapView;

    closed spec fn view(&self) -> OffsetMapView {
        OffsetMapView { script_span: self.script_span, line_starts: self.line_starts@ }
    }
}

impl VueSfcOffsetMap {
    #[verifier::type_invariant]
    closed spec fn wf(&self) -> bool {
        &&& self.relative_to_absolute_offsets@ == offset_range(self.script_span.start, self.script_span.end)
        &&& self.line_starts@.len() >= 1
        &&& is_sorted(self.line_starts@)
    }

    /// The map of a script block spanning `script_span` in `source`.
    pub(crate) fn new(script_span: NodeSpan, source: &str) -> (res: Self)
        ensures
            res@.script_span == script_span,
            res@.line_starts == line_starts_of(source.spec_bytes()),
    {
        let start = script_span.start;
        let end = script_span.end;
        let mut offsets: Vec<u32> = Vec::new();
        if start <= end {
            let count: u64 = (end - start) as u64 + 1;
            let mut k: u64 = 0;
            while k < count
                invariant
                    start <= end,
                    count == end - start + 1,
                    0 <= k <= count,
                    offsets@ == offset_range(start, end).take(k as int),
                decreases count - k,
            {
                offsets.push((start as u64 + k) as u32);
                assert(offset_range(start, end).take(k + 1) =~= offset_range(start, end).take(k as int).push(((start + k) as u32)));
                k = k + 1;
            }
            assert(offset_range(start, end).take(count as int) =~= offset_range(start, end));
        } else {
            assert(offsets@ =~= offset_range(start, end));
        }
        let line_starts = compute_line_starts(source);
        VueSfcOffsetMap { script_span, relative_to_absolute_offsets: offsets, line_starts }
    }

    /// The block's span in the component.
    pub fn script_span(&self) -> (res: NodeSpan)
        ensures
            res == self@.script_span,
    {
        self.script_span
    }

    /// Absolute offset of a relative one: the block start plus `relative_offset`,
    /// when that is within the block (its end included).
    pub fn relative_to_absolute_offset(&self, relative_offset: u32) -> (res: Option<u32>)
        ensures
            res == spec_relative_to_absolute(self@.script_span, relative_offset),
    {
        proof {
            use_type_invariant(self);
        }
        let idx = relative_offset as usize;
        if idx < self.relative_to_absolute_offsets.len() {
            Some(self.relative_to_absolute_offsets[idx])
        } else {
            None
        }
    }

    /// Relative offset of an absolute one within the block (its end included).
    pub fn absolute_to_relative_offset(&self, absolute_offset: u32) -> (res: Option<u32>)
        ensures
            res == spec_absolute_to_relative(self@.script_span, absolute_offset),
    {
        if absolute_offset < self.script_span.start || absolute_offset > self.script_span.end {
            return None;
        }
        Some(absolute_offset - self.script_span.start)
    }

    /// Both ends of a relative span, made absolute.
    pub fn relative_to_absolute_span(&self, relative_span: NodeSpan) -> (res: Option<NodeSpan>)
        ensures
            res == match (
                spec_relative_to_absolute(self@.script_span, relative_span.start),
                spec_relative_to_absolute(self@.script_span, relative_span.end),
            ) {
                (Some(start), Some(end)) => Some(NodeSpan { start, end }),
                _ => None,
            },
    {
        let start = match self.relative_to_absolute_offset(relative_span.start) {
            Some(v) => v,
            None => {
                return None;
            },
        };
        let end = match self.relative_to_absolute_offset(relative_span.end) {
            Some(v) => v,
            None => {
                return None;
            },
        };
        Some(NodeSpan { start, end })
    }

    /// Both ends of an absolute span, made relative.
    pub fn absolute_to_relative_span(&self, absolute_span: NodeSpan) -> (res: Option<NodeSpan>)
        ensures
            res == match (
                spec_absolute_to_relative(self@.script_span, absolute_span.start),
                spec_absolute_to_relative(self@.script_span, absolute_span.end),
            ) {
                (Some(start), Some(end)) => Some(NodeSpan { start, end }),
                _ => None,
            },
    {
        let start = match self.absolute_to_relative_offset(absolute_span.start) {
            Some(v) => v,
            None => {
                return None;
            },
        };
        let end = match self.absolute_to_relative_offset(absolute_span.end) {
            Some(v) => v,
            None => {
                return None;
            },
        };
        Some(NodeSpan { start, end })
    }

    /// Line and column of an absolute offset in the component.
    pub fn absolute_offset_to_line_col(&self, absolute_offset: u32) -> (res: (usize, usize))
        ensures
            res == line_col_of(absolute_offset as usize, self@.line_starts),
    {
        proof {
            use_type_invariant(self);
        }
        offset_to_line_col(absolute_offset as usize, self.line_starts.as_slice())
    }

    /// Line and column in the component of a relative offset.
    pub fn relative_offset_to_line_col(&self, relative_offset: u32) -> (res: Option<(usize, usize)>)
        ensures
            res == match spec_relative_to_absolute(self@.script_span, relative_offset) {
                Some(abs) => Some(line_col_of(abs as usize, self@.line_starts)),
                None => None,
            },
    {
        let absolute = match self.relative_to_absolute_offset(relative_offset) {
            Some(v) => v,
            None => {
                return None;
            },
        };
        Some(self.absolute_offset_to_line_col(absolute))
    }
}

impl Clone for VueSfcOffsetMap {
    fn clone(&self) -> (res: Self)
        ensures
            res@ == self@,
    {
        proof {
            use_type_invariant(self);
        }
        let mut offsets: Vec<u32> = Vec::new();
        let mut k: usize = 0;
        while k < self.relative_to_absolute_offsets.len()
            invariant
                0 <= k <= self.relative_to_absolute_offsets@.len(),
                offsets@ == self.relative_to_absolute_offsets@.take(k as int),
            decreases self.relative_to_absolute_offsets@.len() - k,
        {
            offsets.push(self.relative_to_absolute_offsets[k]);
            assert(self.relative_to_absolute_offsets@.take(k + 1) =~= offsets@);
            k = k + 1;
        }
        let mut line_starts: Vec<usize> = Vec::new();
        let mut j: usize = 0;
        while j < self.line_starts.len()
            invariant
                0 <= j <= self.line_starts@.len(),
                line_starts@ == self.line_starts@.take(j as int),
            decreases self.line_starts@.len() - j,
        {
            line_starts.push(self.line_starts[j]);
            assert(self.line_starts@.take(j + 1) =~= line_starts@);
            j = j + 1;
        }
        assert(offsets@ =~= self.relative_to_absolute_offsets@);
        assert(line_starts@ =~= self.line_starts@);
        VueSfcOffsetMap {
            script_span: self.script_span,
            relative_to_absolute_offsets: offsets,
            line_starts,
        }
    }
}

/// Making a relative offset absolute and then relative again gives it back.
pub proof fn lemma_relative_absolute_roundtrip(span: NodeSpan, rel: u32)
    requires
        spec_relative_to_absolute(span, rel) is Some,
    ensures
        spec_absolute_to_relative(span, spec_relative_to_absolute(span, rel).unwrap()) == Some(rel),
{
}

/// Making an absolute offset within the block relative and then absolute
/// again gives it back.
pub proof fn lemma_absolute_relative_roundtrip(span: NodeSpan, abs: u32)
    requires
        spec_absolute_to_relative(span, abs) is Some,
    ensures
        spec_relative_to_absolute(span, spec_absolute_to_relative(span, abs).unwrap()) == Some(abs),
{
}

// ---------------------------------------------------------------------------
// Extraction
// ---------------------------------------------------------------------------

/// A component's script block: its text, kind, offset map and the blocks
/// the component has.
#[derive(Debug, Clone, PartialEq, Eq)]
pub struct ExtractedScriptBlock<'a> {
    pub content: &'a str,
    pub kind: VueSfcScriptKind,
    pub offset_map: VueSfcOffsetMap,
    pub block_presence: VueSfcBlockPresence,
}

/// Reads the blocks of a Vue component.
#[derive(Debug)]
pub struct VueSfcExtractor<'a> {
    source: &'a str,
    block_presence: VueSfcBlockPresence,
}

impl<'a> Clone for VueSfcExtractor<'a> {
    fn clone(&self) -> (res: Self)
        ensures
            res.source_bytes() == self.source_bytes(),
            res.presence() == self.presence(),
    {
        proof {
            use_type_invariant(self);
        }
        VueSfcExtractor { source: self.source, block_presence: self.block_presence }
    }
}

impl<'a> VueSfcExtractor<'a> {
    #[verifier::type_invariant]
    closed spec fn presence_matches(&self) -> bool {
        self.block_presence == presence_of(self.source.spec_bytes())
    }

    /// The bytes of the component.
    pub closed spec fn source_bytes(&self) -> Seq<u8> {
        self.source.spec_bytes()
    }

    /// The blocks that the component has.
    pub closed spec fn presence(&self) -> VueSfcBlockPresence {
        self.block_presence
    }

    /// Reads the component `source`.
    pub fn new(source: &'a str) -> (res: Self)
        ensures
            res.source_bytes() == source.spec_bytes(),
            res.presence() == presence_of(source.spec_bytes()),
    {
        let ghost s = source.spec_bytes();
        let blocks = collect_sfc_script_blocks(source);
        let mut has_script = false;
        let mut has_script_setup = false;
        let mut k: usize = 0;
        while k < blocks.len()
            invariant
                0 <= k <= blocks@.len(),
                has_script == exists|i: int| 0 <= i < k && blocks@[i].kind == VueSfcScriptKind::Script,
                has_script_setup == exists|i: int| 0 <= i < k && blocks@[i].kind == VueSfcScriptKind::ScriptSetup,
            decreases blocks@.len() - k,
        {
            match blocks[k].kind {
                VueSfcScriptKind::Script => {
                    has_script = true;
                },
                VueSfcScriptKind::ScriptSetup => {
                    has_script_setup = true;
                },
            }
            k = k + 1;
        }
        let template = template_tag_bytes();
        let style = style_tag_bytes();
        let has_template = find_sfc_block(source, template.as_slice(), 0).is_some();
        let has_style = find_sfc_block(source, style.as_slice(), 0).is_some();
        VueSfcExtractor {
            source,
            block_presence: VueSfcBlockPresence { has_script, has_script_setup, has_template, has_style },
        }
    }

    /// The blocks that the component has.
    pub fn block_presence(&self) -> (res: VueSfcBlockPresence)
        ensures
            res == self.presence(),
    {
        self.block_presence
    }

    /// The first script block, if the component has one: its content is
    /// the source between the end of its opening tag and its closing tag.
    pub fn extract_script_block(&self) -> (res: Option<ExtractedScriptBlock<'a>>)
        ensures
            res is None <==> !(self.presence().has_script || self.presence().has_script_setup),
            script_blocks_from(self.source_bytes(), 0).len() == 0 ==> res is None,
            script_blocks_from(self.source_bytes(), 0).len() > 0 ==> {
                let b = script_blocks_from(self.source_bytes(), 0)[0];
                res matches Some(block) && {
                    &&& block.content.spec_bytes() == self.source_bytes().subrange(
                        b.content_start as int,
                        b.content_end as int,
                    )
                    &&& block.kind == b.kind
                    &&& block.offset_map@.script_span == (NodeSpan {
                        start: b.content_start as u32,
                        end: b.content_end as u32,
                    })
                    &&& block.offset_map@.line_starts == line_starts_of(self.source_bytes())
                    &&& block.block_presence == self.presence()
                }
            },
    {
        proof {
            use_type_invariant(self);
            lemma_script_block_presence(self.source.spec_bytes());
        }
        let ghost s = self.source.spec_bytes();
        let blocks = collect_sfc_script_blocks(self.source);
        if blocks.len() == 0 {
            return None;
        }
        let block = blocks[0];
        let total_len = self.source.as_bytes().len();
        proof {
            assert(total_len == s.len());
            lemma_block_shape(s, script_tag(), 0);
            assert(block == find_block_from(s, script_tag(), 0).unwrap());
        }
        let cs = block.content_start;
        let ce = block.content_end;
        let open_end = cs - 1;
        proof {
            is_char_boundary_iff_is_leading_byte(s, open_end as int);
        }
        let (_, rest) = self.source.split_at(open_end);
        let ghost rb = rest.spec_bytes();
        proof {
            assert(rb =~= s.subrange(open_end as int, s.len() as int));
            assert(rb[0] == 62);
            if rb.len() > 1 {
                reveal_with_fuel(is_char_boundary, 2);
                assert(is_char_boundary(rb, 1));
            }
        }
        let (_, tail) = rest.split_at(1);
        let ghost tb = tail.spec_bytes();
        proof {
            assert(tb =~= s.subrange(cs as int, s.len() as int));
            assert(tb[(ce - cs) as int] == 60);
            is_char_boundary_iff_is_leading_byte(tb, (ce - cs) as int);
        }
        let (content, _) = tail.split_at(ce - cs);
        proof {
            assert(content.spec_bytes() =~= s.subrange(cs as int, ce as int));
        }
        let script_span = NodeSpan { start: #[verifier::truncate] (cs as u32), end: #[verifier::truncate] (ce as u32) };
        Some(ExtractedScriptBlock {
            content,
            kind: block.kind,
            offset_map: VueSfcOffsetMap::new(script_span, self.source),
            block_presence: self.block_presence,
        })
    }
}

/// A component has a script block to extract exactly when it has a
/// `<script>` or a `<script setup>` block, and the block extracted is the
/// first complete `<script ...>...</script>` block, whose kind is the setup
/// kind exactly when its opening tag has a `setup` attribute
/// (`find_block_from`).
pub proof fn lemma_script_block_presence(src: Seq<u8>)
    ensures
        (script_blocks_from(src, 0).len() > 0) <==> (presence_of(src).has_script
            || presence_of(src).has_script_setup),
        (script_blocks_from(src, 0).len() > 0) <==> find_block_from(src, script_tag(), 0) is Some,
        script_blocks_from(src, 0).len() > 0 ==> script_blocks_from(src, 0)[0] == find_block_from(
            src,
            script_tag(),
            0,
        ).unwrap(),
{
    let blocks = script_blocks_from(src, 0);
    if blocks.len() > 0 {
        let b = blocks[0];
        match b.kind {
            VueSfcScriptKind::Script => {
                assert(presence_of(src).has_script);
            },
            VueSfcScriptKind::ScriptSetup => {
                assert(presence_of(src).has_script_setup);
            },
        }
    }
}


/// The opening tag of the block found from `cursor` on is a complete
/// `<script ...>` tag at or after `cursor`, ending just before the block's
/// content; the block is of the setup kind exactly when that tag has a
/// `setup` attribute.
pub proof fn lemma_script_kind_follows_setup_attribute(src: Seq<u8>, cursor: int)
    requires
        src.len() <= usize::MAX,
        find_block_from(src, script_tag(), cursor) is Some,
    ensures
        ({
            let b = find_block_from(src, script_tag(), cursor).unwrap();
            exists|o: int|
                #![trigger src.subrange(o, b.content_start as int)]
                cursor <= o && o + 7 < b.content_start && occurs_at(
                    lower_bytes(src),
                    open_prefix(script_tag()),
                    o,
                ) && ends_tag_name(lower_bytes(src), o + 7) && src[b.content_start - 1] == 62
                    && (b.kind == VueSfcScriptKind::ScriptSetup <==> tag_has_attr(
                    src.subrange(o, b.content_start as int),
                    seq![115u8, 101u8, 116u8, 117u8, 112u8],
                ))
        }),
    decreases src.len() - cursor,
{
    let low = lower_bytes(src);
    let tag = script_tag();
    assert(lower_bytes(tag) =~= tag) by {
        reveal_with_fuel(lower_bytes, 1);
        assert forall|i: int| 0 <= i < tag.len() implies ascii_lower(tag[i]) == tag[i] by {}
    }
    assert(open_prefix(tag).len() == 7);
    let open_start = find_from(low, open_prefix(tag), cursor).unwrap();
    lemma_find_from_in_bounds(low, open_prefix(tag), cursor);
    let bi = open_start + 7;
    if !ends_tag_name(low, bi) {
        lemma_script_kind_follows_setup_attribute(src, bi);
        let b = find_block_from(src, tag, cursor).unwrap();
        let o = choose|o: int|
            #![trigger src.subrange(o, b.content_start as int)]
            bi <= o && o + 7 < b.content_start && occurs_at(low, open_prefix(tag), o) && ends_tag_name(
                low,
                o + 7,
            ) && src[b.content_start - 1] == 62 && (b.kind == VueSfcScriptKind::ScriptSetup
                <==> tag_has_attr(src.subrange(o, b.content_start as int), seq![115u8, 101u8, 116u8, 117u8, 112u8]));
        assert(src.subrange(o, b.content_start as int) == src.subrange(o, b.content_start as int));
    } else {
        let open_end = find_from(low, seq![62u8], bi).unwrap();
        lemma_find_from_in_bounds(low, seq![62u8], bi);
        let close_start = find_from(low, close_tag(tag), open_end + 1).unwrap();
        lemma_find_from_in_bounds(low, close_tag(tag), open_end + 1);
        let b = find_block_from(src, tag, cursor).unwrap();
        assert(0 <= cursor < src.len());
        assert(find_from(low, seq![62u8], bi) is Some);
        assert(find_from(low, close_tag(tag), open_end + 1) is Some);
        assert(b.content_start == (open_end + 1) as usize);
        assert(lower_bytes(tag) == seq![115u8, 99u8, 114u8, 105u8, 112u8, 116u8]);
        assert(b.kind == VueSfcScriptKind::ScriptSetup <==> tag_has_attr(
            src.subrange(open_start, open_end + 1),
            seq![115u8, 101u8, 116u8, 117u8, 112u8],
        ));
        assert(open_start + 7 < b.content_start);
        assert(occurs_at(low, open_prefix(tag), open_start));
        assert(ends_tag_name(low, open_start + 7));
        assert(low[open_end] == 62) by {
            assert(low.subrange(open_end, open_end + 1)[0] == low[open_end]);
        }
        assert(src[open_end] == 62) by {
            assert(low[open_end] == ascii_lower(src[open_end]));
        }
        assert(src.subrange(open_start, b.content_start as int) == src.subrange(
            open_start,
            b.content_start as int,
        ));
    }
}

/// The name ends at `e` in `b`: at the end, or at whitespace, `=`, `>` or `/`.
pub open spec fn name_ends_at(b: Seq<u8>, e: int) -> bool {
    e == b.len() || is_ascii_ws(b[e]) || b[e] == 61 || b[e] == 62 || b[e] == 47
}

proof fn lemma_has_attr_from_occurs(b: Seq<u8>, attr: Seq<u8>, idx: int)
    requires
        0 <= idx,
        has_attr_from(b, attr, idx),
    ensures
        exists|i: int|
            idx <= i && i + attr.len() <= b.len() && #[trigger] b.subrange(i, i + attr.len()) == attr && name_ends_at(
                b,
                i + attr.len(),
            ),
    decreases b.len() - idx,
{
    let i = skip_ws(b, idx);
    lemma_skips_grow(b, idx, 0);
    lemma_skips_grow(b, i, 0);
    let e = skip_name(b, i);
    lemma_skips_grow(b, e, 0);
    lemma_skips_grow(b, skip_ws(b, e), 0);
    lemma_skip_stops(b, idx);
    lemma_skip_stops(b, i);
    lemma_skip_stops(b, e);
    if b.subrange(i, e) == attr {
        assert(e == i + attr.len());
        assert(name_ends_at(b, e));
        assert(b.subrange(i, i + attr.len()) == attr);
    } else {
        let next = skip_value(b, skip_ws(b, e));
        lemma_has_attr_from_occurs(b, attr, next);
    }
}

/// An open tag has an attribute named `attr` only where `attr` stands in
/// the lowercased tag as a whole name: followed by the end, whitespace,
/// `=`, `>` or `/`.
pub proof fn lemma_tag_attribute_occurs(open_tag: Seq<u8>, attr: Seq<u8>)
    requires
        tag_has_attr(open_tag, attr),
    ensures
        exists|i: int|
            0 < i && i + attr.len() <= open_tag.len() && #[trigger] lower_bytes(open_tag).subrange(i, i + attr.len())
                == attr && name_ends_at(lower_bytes(open_tag), i + attr.len()),
{
    let b = lower_bytes(open_tag);
    lemma_skips_grow(b, 1, 0);
    lemma_has_attr_from_occurs(b, attr, skip_alpha(b, 1));
    let i = choose|i: int|
        skip_alpha(b, 1) <= i && i + attr.len() <= b.len() && #[trigger] b.subrange(i, i + attr.len()) == attr
            && name_ends_at(b, i + attr.len());
    assert(b.subrange(i, i + attr.len()) == attr);
}

/// A byte that may stand in an attribute name: not whitespace, `=`, `>`,
/// `/` or `"`, and not an ASCII capital.
pub open spec fn plain_name_byte(x: u8) -> bool {
    x != 32 && x != 9 && x != 10 && x != 12 && x != 13 && x != 61 && x != 62 && x != 47 && x != 34 && !(65 <= x
        && x <= 90)
}

proof fn lemma_skip_alpha_run(b: Seq<u8>, k: int, m: int)
    requires
        0 <= k <= m <= b.len(),
        forall|j: int| k <= j < m ==> is_ascii_alpha(#[trigger] b[j]),
        m < b.len() ==> !is_ascii_alpha(b[m]),
    ensures
        skip_alpha(b, k) == m,
    decreases m - k,
{
    if k < m {
        lemma_skip_alpha_run(b, k + 1, m);
    }
}

proof fn lemma_skip_name_run(b: Seq<u8>, k: int, m: int)
    requires
        0 <= k <= m <= b.len(),
        forall|j: int| k <= j < m ==> plain_name_byte(#[trigger] b[j]),
        m < b.len() ==> (b[m] == 61 || b[m] == 62 || b[m] == 32),
    ensures
        skip_name(b, k) == m,
    decreases m - k,
{
    if k < m {
        lemma_skip_name_run(b, k + 1, m);
    }
}

proof fn lemma_skip_quoted_run(b: Seq<u8>, k: int, m: int, q: u8)
    requires
        0 <= k <= m < b.len(),
        forall|j: int| k <= j < m ==> #[trigger] b[j] != q,
        b[m] == q,
    ensures
        skip_quoted(b, k, q) == m,
    decreases m - k,
{
    if k < m {
        lemma_skip_quoted_run(b, k + 1, m, q);
    }
}

/// An attribute is found wherever it stands in the open tag, also after an
/// attribute with a quoted value: `<script a="v" name>` and
/// `<script a='v' name>` have the attribute `name`, for every attribute
/// name `a`, value `v` without the quote, and name.
pub proof fn lemma_attribute_after_valued_attribute(a: Seq<u8>, v: Seq<u8>, name: Seq<u8>, q: u8)
    requires
        q == 34 || q == 39,
        a.len() >= 1,
        name.len() >= 1,
        forall|k: int| 0 <= k < a.len() ==> plain_name_byte(#[trigger] a[k]),
        forall|k: int| 0 <= k < name.len() ==> plain_name_byte(#[trigger] name[k]),
        forall|k: int| 0 <= k < v.len() ==> #[trigger] v[k] != q,
    ensures
        tag_has_attr(
            seq![60u8, 115u8, 99u8, 114u8, 105u8, 112u8, 116u8, 32u8] + a + seq![61u8, q] + v + seq![q, 32u8] + name
                + seq![62u8],
            name,
        ),
{
    let pre = seq![60u8, 115u8, 99u8, 114u8, 105u8, 112u8, 116u8, 32u8];
    let t = pre + a + seq![61u8, q] + v + seq![q, 32u8] + name + seq![62u8];
    let b = lower_bytes(t);
    let e1 = (8 + a.len()) as int;
    let qe = (e1 + 2 + v.len()) as int;
    let p = qe + 2;
    let z = (p + name.len()) as int;
    assert(t.len() == z + 1);
    assert(b.len() == t.len());
    assert forall|k: int| 0 <= k < t.len() implies #[trigger] b[k] == ascii_lower(t[k]) by {}
    // The bytes of the tag, region by region.
    assert forall|k: int| 0 <= k < 8 implies #[trigger] t[k] == pre[k] by {}
    assert forall|k: int| 8 <= k < e1 implies #[trigger] t[k] == a[k - 8] by {}
    assert(t[e1] == 61u8);
    assert(t[e1 + 1] == q);
    assert forall|k: int| e1 + 2 <= k < qe implies #[trigger] t[k] == v[k - e1 - 2] by {}
    assert(t[qe] == q);
    assert(t[qe + 1] == 32u8);
    assert forall|k: int| p <= k < z implies #[trigger] t[k] == name[k - p] by {}
    assert(t[z] == 62u8);
    // The tag name.
    assert forall|j: int| 1 <= j < 7 implies is_ascii_alpha(#[trigger] b[j]) by {
        assert(b[j] == ascii_lower(t[j]));
    }
    assert(b[7] == 32u8);
    lemma_skip_alpha_run(b, 1, 7);
    // The first attribute and its value.
    assert(b[8] == ascii_lower(a[0]));
    assert(plain_name_byte(a[0]));
    assert(ascii_lower(a[0]) == a[0]);
    assert(skip_ws(b, 8) == 8);
    assert(skip_ws(b, 7) == 8);
    assert forall|j: int| 8 <= j < e1 implies plain_name_byte(#[trigger] b[j]) by {
        assert(b[j] == ascii_lower(t[j]));
        assert(t[j] == a[j - 8]);
    }
    assert(b[e1] == 61u8);
    lemma_skip_name_run(b, 8, e1);
    if b.subrange(8, e1) != name {
        assert(skip_ws(b, e1) == e1);
        assert(b[e1 + 1] == q);
        assert(skip_ws(b, e1 + 1) == e1 + 1);
        assert forall|j: int| e1 + 2 <= j < qe implies #[trigger] b[j] != q by {
            assert(b[j] == ascii_lower(t[j]));
            assert(t[j] == v[j - e1 - 2]);
            assert(v[j - e1 - 2] != q);
        }
        assert(b[qe] == q);
        lemma_skip_quoted_run(b, e1 + 2, qe, q);
        assert(skip_value(b, e1) == qe + 1);
        // The attribute after it.
        assert(b[qe + 1] == 32u8);
        assert(b[p] == ascii_lower(name[0]));
        assert(plain_name_byte(name[0]));
        assert(ascii_lower(name[0]) == name[0]);
        assert(skip_ws(b, p) == p);
        assert(skip_ws(b, qe + 1) == p);
        assert forall|j: int| p <= j < z implies plain_name_byte(#[trigger] b[j]) by {
            assert(b[j] == ascii_lower(t[j]));
            assert(t[j] == name[j - p]);
        }
        assert(b[z] == 62u8);
        lemma_skip_name_run(b, p, z);
        assert(b.subrange(p, z) =~= name) by {
            assert forall|j: int| 0 <= j < name.len() implies #[trigger] b.subrange(p, z)[j] == name[j] by {
                assert(b[p + j] == ascii_lower(t[p + j]));
                assert(t[p + j] == name[j]);
            }
        }
        assert(has_attr_from(b, name, qe + 1));
        assert(has_attr_from(b, name, 7));
    }
}

/// The first attribute of an open tag is found: `<script name ...>` has the
/// attribute `name`, whatever follows it.
pub proof fn lemma_first_attribute(name: Seq<u8>, rest: Seq<u8>)
    requires
        name.len() >= 1,
        forall|k: int| 0 <= k < name.len() ==> plain_name_byte(#[trigger] name[k]),
    ensures
        tag_has_attr(seq![60u8, 115u8, 99u8, 114u8, 105u8, 112u8, 116u8, 32u8] + name + seq![32u8] + rest, name),
{
    let pre = seq![60u8, 115u8, 99u8, 114u8, 105u8, 112u8, 116u8, 32u8];
    let t = pre + name + seq![32u8] + rest;
    let b = lower_bytes(t);
    let z = (8 + name.len()) as int;
    assert(b.len() == t.len());
    assert forall|k: int| 0 <= k < t.len() implies #[trigger] b[k] == ascii_lower(t[k]) by {}
    assert forall|k: int| 0 <= k < 8 implies #[trigger] t[k] == pre[k] by {}
    assert forall|k: int| 8 <= k < z implies #[trigger] t[k] == name[k - 8] by {}
    assert(t[z] == 32u8);
    assert forall|j: int| 1 <= j < 7 implies is_ascii_alpha(#[trigger] b[j]) by {
        assert(b[j] == ascii_lower(t[j]));
    }
    assert(b[7] == 32u8);
    lemma_skip_alpha_run(b, 1, 7);
    assert(b[8] == ascii_lower(name[0]));
    assert(plain_name_byte(name[0]));
    assert(ascii_lower(name[0]) == name[0]);
    assert(skip_ws(b, 8) == 8);
    assert(skip_ws(b, 7) == 8);
    assert forall|j: int| 8 <= j < z implies plain_name_byte(#[trigger] b[j]) by {
        assert(b[j] == ascii_lower(t[j]));
        assert(t[j] == name[j - 8]);
    }
    assert(b[z] == 32u8);
    lemma_skip_name_run(b, 8, z);
    assert(b.subrange(8, z) =~= name) by {
        assert forall|j: int| 0 <= j < name.len() implies #[trigger] b.subrange(8, z)[j] == name[j] by {
            assert(b[8 + j] == ascii_lower(t[8 + j]));
            assert(t[8 + j] == name[j]);
        }
    }
}

proof fn lemma_skip_unquoted_run(b: Seq<u8>, k: int, m: int)
    requires
        0 <= k <= m < b.len(),
        forall|j: int| k <= j < m ==> !is_ascii_ws(#[trigger] b[j]) && b[j] != 62,
        b[m] == 32,
    ensures
        skip_unquoted(b, k) == m,
    decreases m - k,
{
    if k < m {
        lemma_skip_unquoted_run(b, k + 1, m);
    }
}

/// A byte of an unquoted attribute value: not whitespace, `>` or a quote.
pub open spec fn unquoted_value_byte(x: u8) -> bool {
    x != 32 && x != 9 && x != 10 && x != 12 && x != 13 && x != 62 && x != 34 && x != 39
}

/// An attribute is found after an attribute with an unquoted value:
/// `<script a=v name>` has the attribute `name`.
pub proof fn lemma_attribute_after_unquoted_value(a: Seq<u8>, v: Seq<u8>, name: Seq<u8>)
    requires
        a.len() >= 1,
        v.len() >= 1,
        name.len() >= 1,
        forall|k: int| 0 <= k < a.len() ==> plain_name_byte(#[trigger] a[k]),
        forall|k: int| 0 <= k < name.len() ==> plain_name_byte(#[trigger] name[k]),
        forall|k: int| 0 <= k < v.len() ==> unquoted_value_byte(#[trigger] v[k]),
    ensures
        tag_has_attr(
            seq![60u8, 115u8, 99u8, 114u8, 105u8, 112u8, 116u8, 32u8] + a + seq![61u8] + v + seq![32u8] + name + seq![62u8],
            name,
        ),
{
    let pre = seq![60u8, 115u8, 99u8, 114u8, 105u8, 112u8, 116u8, 32u8];
    let t = pre + a + seq![61u8] + v + seq![32u8] + name + seq![62u8];
    let b = lower_bytes(t);
    let e1 = (8 + a.len()) as int;
    let ve = (e1 + 1 + v.len()) as int;
    let p = ve + 1;
    let z = (p + name.len()) as int;
    assert(t.len() == z + 1);
    assert(b.len() == t.len());
    assert forall|k: int| 0 <= k < t.len() implies #[trigger] b[k] == ascii_lower(t[k]) by {}
    assert forall|k: int| 0 <= k < 8 implies #[trigger] t[k] == pre[k] by {}
    assert forall|k: int| 8 <= k < e1 implies #[trigger] t[k] == a[k - 8] by {}
    assert(t[e1] == 61u8);
    assert forall|k: int| e1 + 1 <= k < ve implies #[trigger] t[k] == v[k - e1 - 1] by {}
    assert(t[ve] == 32u8);
    assert forall|k: int| p <= k < z implies #[trigger] t[k] == name[k - p] by {}
    assert(t[z] == 62u8);
    assert forall|j: int| 1 <= j < 7 implies is_ascii_alpha(#[trigger] b[j]) by {
        assert(b[j] == ascii_lower(t[j]));
    }
    assert(b[7] == 32u8);
    lemma_skip_alpha_run(b, 1, 7);
    assert(b[8] == ascii_lower(a[0]));
    assert(plain_name_byte(a[0]));
    assert(ascii_lower(a[0]) == a[0]);
    assert(skip_ws(b, 8) == 8);
    assert(skip_ws(b, 7) == 8);
    assert forall|j: int| 8 <= j < e1 implies plain_name_byte(#[trigger] b[j]) by {
        assert(b[j] == ascii_lower(t[j]));
        assert(t[j] == a[j - 8]);
    }
    assert(b[e1] == 61u8);
    lemma_skip_name_run(b, 8, e1);
    if b.subrange(8, e1) != name {
        assert(skip_ws(b, e1) == e1);
        assert(b[e1 + 1] == ascii_lower(v[0]));
        assert(unquoted_value_byte(v[0]));
        assert(skip_ws(b, e1 + 1) == e1 + 1);
        assert forall|j: int| e1 + 1 <= j < ve implies !is_ascii_ws(#[trigger] b[j]) && b[j] != 62 by {
            assert(b[j] == ascii_lower(t[j]));
            assert(t[j] == v[j - e1 - 1]);
            assert(unquoted_value_byte(v[j - e1 - 1]));
        }
        assert(b[ve] == 32u8);
        lemma_skip_unquoted_run(b, e1 + 1, ve);
        assert(skip_value(b, e1) == ve);
        assert(b[p] == ascii_lower(name[0]));
        assert(plain_name_byte(name[0]));
        assert(ascii_lower(name[0]) == name[0]);
        assert(skip_ws(b, p) == p);
        assert(skip_ws(b, ve) == p);
        assert forall|j: int| p <= j < z implies plain_name_byte(#[trigger] b[j]) by {
            assert(b[j] == ascii_lower(t[j]));
            assert(t[j] == name[j - p]);
        }
        assert(b[z] == 62u8);
        lemma_skip_name_run(b, p, z);
        assert(b.subrange(p, z) =~= name) by {
            assert forall|j: int| 0 <= j < name.len() implies #[trigger] b.subrange(p, z)[j] == name[j] by {
                assert(b[p + j] == ascii_lower(t[p + j]));
                assert(t[p + j] == name[j]);
            }
        }
        assert(has_attr_from(b, name, ve));
        assert(has_attr_from(b, name, 7));
    }
}

} // verus!
