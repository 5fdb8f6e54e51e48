//! Model of UTF-8 text: a string is its sequence of chars, and a byte offset
//! into it is the UTF-8 length of a prefix of that sequence.
use vstd::prelude::*;
use vstd::utf8::*;

verus! {

/// UTF-8 byte length of one char.
pub open spec fn char_len(c: char) -> int {
    encode_scalar(c as u32).len() as int
}

/// UTF-8 byte length of a char sequence.
pub open spec fn byte_len(s: Seq<char>) -> int {
    encode_utf8(s).len() as int
}

/// Byte offset at which the char with index `k` starts (or the end of the
/// text when `k == s.len()`).
pub open spec fn prefix_len(s: Seq<char>, k: int) -> int {
    byte_len(s.take(k))
}

/// `b` is a char boundary of `s`: the byte offset of some char index.
pub open spec fn is_boundary(s: Seq<char>, b: int) -> bool {
    exists|k: int| 0 <= k <= s.len() && prefix_len(s, k) == b
}

/// The char index whose byte offset is the boundary `b`.
pub open spec fn char_index(s: Seq<char>, b: int) -> int {
    choose|k: int| 0 <= k <= s.len() && prefix_len(s, k) == b
}

/// The chars of `s` whose bytes lie in `[from, to)`, both being boundaries.
pub open spec fn text_slice(s: Seq<char>, from: int, to: int) -> Seq<char> {
    s.subrange(char_index(s, from), char_index(s, to))
}

/// Unicode `White_Space` property, as documented for `char::is_whitespace`.
pub open spec fn spec_is_whitespace(c: char) -> bool {
    let u = c as u32;
    ||| 0x9 <= u <= 0xD
    ||| u == 0x20
    ||| u == 0x85
    ||| u == 0xA0
    ||| u == 0x1680
    ||| 0x2000 <= u <= 0x200A
    ||| u == 0x2028
    ||| u == 0x2029
    ||| u == 0x202F
    ||| u == 0x205F
    ||| u == 0x3000
}

/// Whether `c` has the Unicode `White_Space` property, as
/// `char::is_whitespace` decides.
pub(crate) fn char_is_whitespace(c: char) -> (res: bool)
    ensures
        res == spec_is_whitespace(c),
{
    let u = c as u32;
    (0x9 <= u && u <= 0xD) || u == 0x20 || u == 0x85 || u == 0xA0 || u == 0x1680 || (0x2000 <= u && u
        <= 0x200A) || u == 0x2028 || u == 0x2029 || u == 0x202F || u == 0x205F || u == 0x3000
}

/// `String::push`: appends one char to the string.
#[verifier::external_body]
pub(crate) fn push_char(s: &mut String, c: char)
    ensures
        final(s)@ == old(s)@.push(c),
{
    s.push(c)
}

pub proof fn lemma_char_len_bounds(c: char)
    ensures
        1 <= char_len(c) <= 4,
{
    char_is_scalar(c);
}

pub proof fn lemma_encode_concat(a: Seq<char>, b: Seq<char>)
    ensures
        encode_utf8(a + b) == encode_utf8(a) + encode_utf8(b),
    decreases a.len(),
{
    if a.len() == 0 {
        assert(a + b =~= b);
        assert(encode_utf8(a) =~= Seq::<u8>::empty());
        assert(encode_utf8(a) + encode_utf8(b) =~= encode_utf8(b));
    } else {
        assert((a + b).drop_first() =~= a.drop_first() + b);
        assert((a + b)[0] == a[0]);
        lemma_encode_concat(a.drop_first(), b);
        assert(encode_utf8(a + b) == encode_scalar(a[0] as u32) + encode_utf8(a.drop_first() + b));
        assert(encode_utf8(a) == encode_scalar(a[0] as u32) + encode_utf8(a.drop_first()));
        assert(encode_utf8(a + b) =~= encode_utf8(a) + encode_utf8(b));
    }
}

pub proof fn lemma_encode_single(c: char)
    ensures
        encode_utf8(seq![c]) == encode_scalar(c as u32),
{
    let s = seq![c];
    assert(s.drop_first() =~= Seq::<char>::empty());
    assert(encode_utf8(s.drop_first()) =~= Seq::<u8>::empty());
    assert(encode_utf8(s) =~= encode_scalar(c as u32));
}

pub proof fn lemma_byte_len_push(s: Seq<char>, c: char)
    ensures
        byte_len(s.push(c)) == byte_len(s) + char_len(c),
        encode_utf8(s.push(c)) == encode_utf8(s) + encode_scalar(c as u32),
{
    assert(s.push(c) =~= s + seq![c]);
    lemma_encode_concat(s, seq![c]);
    lemma_encode_single(c);
}

pub proof fn lemma_prefix_step(s: Seq<char>, k: int)
    requires
        0 <= k < s.len(),
    ensures
        prefix_len(s, k + 1) == prefix_len(s, k) + char_len(s[k]),
{
    assert(s.take(k + 1) =~= s.take(k).push(s[k]));
    lemma_byte_len_push(s.take(k), s[k]);
}

pub proof fn lemma_prefix_zero_full(s: Seq<char>)
    ensures
        prefix_len(s, 0) == 0,
        prefix_len(s, s.len() as int) == byte_len(s),
{
    assert(s.take(0) =~= Seq::<char>::empty());
    assert(encode_utf8(Seq::<char>::empty()) =~= Seq::<u8>::empty());
    assert(s.take(s.len() as int) =~= s);
}

/// Byte offsets grow strictly with char indices.
pub proof fn lemma_prefix_strict(s: Seq<char>, i: int, j: int)
    requires
        0 <= i < j <= s.len(),
    ensures
        prefix_len(s, i) + (j - i) <= prefix_len(s, j),
    decreases j - i,
{
    lemma_prefix_step(s, j - 1);
    lemma_char_len_bounds(s[j - 1]);
    if i < j - 1 {
        lemma_prefix_strict(s, i, j - 1);
    }
}

pub proof fn lemma_prefix_mono(s: Seq<char>, i: int, j: int)
    requires
        0 <= i <= j <= s.len(),
    ensures
        prefix_len(s, i) <= prefix_len(s, j),
{
    if i < j {
        lemma_prefix_strict(s, i, j);
    }
}

/// Order of byte offsets is the order of char indices.
pub proof fn lemma_prefix_order(s: Seq<char>, i: int, j: int)
    requires
        0 <= i <= s.len(),
        0 <= j <= s.len(),
    ensures
        (prefix_len(s, i) < prefix_len(s, j)) == (i < j),
        (prefix_len(s, i) == prefix_len(s, j)) == (i == j),
{
    if i < j {
        lemma_prefix_strict(s, i, j);
    } else if j < i {
        lemma_prefix_strict(s, j, i);
    }
}

/// The char index of the boundary at char index `k` is `k`.
pub proof fn lemma_char_index_of_prefix(s: Seq<char>, k: int)
    requires
        0 <= k <= s.len(),
    ensures
        is_boundary(s, prefix_len(s, k)),
        char_index(s, prefix_len(s, k)) == k,
{
    let b = prefix_len(s, k);
    assert(0 <= k <= s.len() && prefix_len(s, k) == b);
    let c = char_index(s, b);
    lemma_prefix_order(s, c, k);
}

/// Indexed view of a text: its chars and the byte offset of every char index.
pub struct TextIndex {
    chars: Vec<char>,
    offsets: Vec<usize>,
}

impl TextIndex {
    /// The indexed text.
    pub closed spec fn text(&self) -> Seq<char> {
        self.chars@
    }

    pub closed spec fn wf(&self) -> bool {
        &&& self.offsets@.len() == self.chars@.len() + 1
        &&& forall|k: int|
            0 <= k <= self.chars@.len() ==> self.offsets@[k] as int == prefix_len(self.chars@, k)
    }

    /// Builds the index of `source`.
    pub fn new(source: &str) -> (res: Self)
        ensures
            res.wf(),
            res.text() == source@,
            byte_len(source@) <= usize::MAX,
    {
        let total = source.as_bytes().len();
        proof {
            lemma_prefix_zero_full(source@);
        }
        let mut chars: Vec<char> = Vec::new();
        let mut offsets: Vec<usize> = Vec::new();
        offsets.push(0);
        let mut pos: usize = 0;
        for c in it: source.chars()
            invariant
                it.seq() == source@,
                chars@ == source@.take(it.index() as int),
                offsets@.len() == chars@.len() + 1,
                pos as int == prefix_len(source@, chars@.len() as int),
                forall|k: int|
                    0 <= k <= chars@.len() ==> offsets@[k] as int == prefix_len(source@, k),
                total as int == byte_len(source@),
        {
            proof {
                lemma_prefix_step(source@, chars@.len() as int);
                lemma_prefix_mono(source@, chars@.len() + 1int, source@.len() as int);
                lemma_prefix_zero_full(source@);
                assert(source@.take(chars@.len() + 1int) =~= chars@.push(c));
            }
            let w = char_utf8_len(c);
            pos = pos + w;
            chars.push(c);
            offsets.push(pos);
        }
        let res = TextIndex { chars, offsets };
        assert(chars@ =~= source@);
        proof {
            assert forall|k: int| 0 <= k <= res.chars@.len() implies res.offsets@[k] as int == prefix_len(res.chars@, k) by {
                assert(res.chars@ == source@);
            }
        }
        res
    }

    /// Number of chars.
    pub fn char_count(&self) -> (n: usize)
        requires
            self.wf(),
        ensures
            n == self.text().len(),
    {
        self.chars.len()
    }

    /// Total byte length.
    pub fn byte_count(&self) -> (n: usize)
        requires
            self.wf(),
        ensures
            n == byte_len(self.text()),
    {
        proof {
            lemma_prefix_zero_full(self.chars@);
        }
        self.offsets[self.chars.len()]
    }

    /// The char at index `k`.
    pub fn char_at(&self, k: usize) -> (c: char)
        requires
            self.wf(),
            k < self.text().len(),
        ensures
            c == self.text()[k as int],
    {
        self.chars[k]
    }

    /// Byte offset of char index `k`.
    pub fn offset_of(&self, k: usize) -> (b: usize)
        requires
            self.wf(),
            k <= self.text().len(),
        ensures
            b as int == prefix_len(self.text(), k as int),
    {
        self.offsets[k]
    }

    /// The char index at byte offset `b`, when `b` is a char boundary.
    pub fn find_boundary(&self, b: usize) -> (res: Option<usize>)
        requires
            self.wf(),
        ensures
            res matches Some(k) ==> k <= self.text().len() && prefix_len(self.text(), k as int)
                == b && char_index(self.text(), b as int) == k,
            res is None ==> !is_boundary(self.text(), b as int),
    {
        let mut lo: usize = 0;
        let mut hi: usize = self.offsets.len();
        while lo < hi
            invariant
                self.wf(),
                0 <= lo <= hi <= self.chars@.len() + 1,
                forall|k: int| 0 <= k < lo ==> prefix_len(self.chars@, k) < b,
                forall|k: int| hi <= k <= self.chars@.len() ==> prefix_len(self.chars@, k) > b,
            decreases hi - lo,
        {
            let mid = lo + (hi - lo) / 2;
            let v = self.offsets[mid];
            if v == b {
                proof {
                    lemma_char_index_of_prefix(self.chars@, mid as int);
                }
                return Some(mid);
            } else if v < b {
                proof {
                    assert forall|k: int| 0 <= k < mid + 1 implies prefix_len(self.chars@, k) < b by {
                        lemma_prefix_mono(self.chars@, k, mid as int);
                    }
                }
                lo = mid + 1;
            } else {
                proof {
                    assert forall|k: int| mid <= k <= self.chars@.len() implies prefix_len(self.chars@, k) > b by {
                        lemma_prefix_mono(self.chars@, mid as int, k);
                    }
                }
                hi = mid;
            }
        }
        None
    }

    /// The chars with indices in `[from, to)`, as a new string.
    pub fn slice(&self, from: usize, to: usize) -> (res: String)
        requires
            self.wf(),
            from <= to <= self.text().len(),
        ensures
            res@ == self.text().subrange(from as int, to as int),
    {
        let mut out = String::new();
        let mut k = from;
        while k < to
            invariant
                self.wf(),
                from <= k <= to <= self.chars@.len(),
                out@ == self.chars@.subrange(from as int, k as int),
            decreases to - k,
        {
            push_char(&mut out, self.chars[k]);
            assert(self.chars@.subrange(from as int, k + 1) =~= self.chars@.subrange(from as int, k as int).push(self.chars@[k as int]));
            k = k + 1;
        }
        out
    }

    /// Appends the chars with indices in `[from, to)` to `out`.
    pub fn append_range(&self, out: &mut String, from: usize, to: usize)
        requires
            self.wf(),
            from <= to <= self.text().len(),
        ensures
            final(out)@ == old(out)@ + self.text().subrange(from as int, to as int),
    {
        let ghost start = out@;
        let mut k = from;
        while k < to
            invariant
                self.wf(),
                from <= k <= to <= self.chars@.len(),
                out@ == start + self.chars@.subrange(from as int, k as int),
            decreases to - k,
        {
            push_char(out, self.chars[k]);
            assert(self.chars@.subrange(from as int, k + 1) =~= self.chars@.subrange(from as int, k as int).push(self.chars@[k as int]));
            k = k + 1;
        }
        assert(out@ =~= start + self.chars@.subrange(from as int, to as int));
    }
}

/// The chars of `source`, in order.
pub fn chars_of(source: &str) -> (res: Vec<char>)
    ensures
        res@ == source@,
{
    let mut chars: Vec<char> = Vec::new();
    for c in it: source.chars()
        invariant
            it.seq() == source@,
            chars@ == source@.take(it.index() as int),
    {
        proof {
            assert(source@.take(chars@.len() + 1int) =~= chars@.push(c));
        }
        chars.push(c);
    }
    assert(chars@ =~= source@);
    chars
}

/// Appends the chars of `s` to `out`.
pub fn append_text(out: &mut String, s: &str)
    ensures
        final(out)@ == old(out)@ + s@,
{
    let chars = chars_of(s);
    let ghost start = out@;
    let mut k: usize = 0;
    while k < chars.len()
        invariant
            0 <= k <= chars@.len(),
            chars@ == s@,
            out@ == start + s@.take(k as int),
        decreases chars@.len() - k,
    {
        push_char(out, chars[k]);
        assert(s@.take(k + 1) =~= s@.take(k as int).push(chars@[k as int]));
        k = k + 1;
    }
    assert(s@.take(s@.len() as int) =~= s@);
}

/// The chars `chars[from..to]`, as a new string.
pub fn string_from_chars(chars: &[char], from: usize, to: usize) -> (res: String)
    requires
        from <= to <= chars@.len(),
    ensures
        res@ == chars@.subrange(from as int, to as int),
{
    let mut out = String::new();
    let mut k = from;
    while k < to
        invariant
            from <= k <= to <= chars@.len(),
            out@ == chars@.subrange(from as int, k as int),
        decreases to - k,
    {
        push_char(&mut out, chars[k]);
        assert(chars@.subrange(from as int, k + 1) =~= chars@.subrange(from as int, k as int).push(chars@[k as int]));
        k = k + 1;
    }
    out
}

/// `a` comes before `b` in lexicographic order of code points (the order
/// of `String`, which compares UTF-8 bytes).
pub open spec fn lex_less(a: Seq<char>, b: Seq<char>) -> bool
    decreases a.len(),
{
    if a.len() == 0 {
        b.len() > 0
    } else if b.len() == 0 {
        false
    } else if a[0] != b[0] {
        (a[0] as u32) < (b[0] as u32)
    } else {
        lex_less(a.drop_first(), b.drop_first())
    }
}

pub proof fn lemma_lex_irreflexive(a: Seq<char>)
    ensures
        !lex_less(a, a),
    decreases a.len(),
{
    if a.len() > 0 {
        lemma_lex_irreflexive(a.drop_first());
    }
}

pub proof fn lemma_lex_transitive(a: Seq<char>, b: Seq<char>, c: Seq<char>)
    requires
        lex_less(a, b),
        lex_less(b, c),
    ensures
        lex_less(a, c),
    decreases a.len(),
{
    if a.len() > 0 && b.len() > 0 && c.len() > 0 && a[0] == b[0] && b[0] == c[0] {
        lemma_lex_transitive(a.drop_first(), b.drop_first(), c.drop_first());
    }
}

pub proof fn lemma_lex_total(a: Seq<char>, b: Seq<char>)
    requires
        a != b,
    ensures
        lex_less(a, b) || lex_less(b, a),
    decreases a.len(),
{
    if a.len() > 0 && b.len() > 0 && a[0] == b[0] {
        if a.drop_first() == b.drop_first() {
            assert(a =~= seq![a[0]] + a.drop_first());
            assert(b =~= seq![b[0]] + b.drop_first());
        }
        lemma_lex_total(a.drop_first(), b.drop_first());
    } else if a.len() > 0 && b.len() > 0 {
        char_u32_cast(a[0], a[0] as u32);
        char_u32_cast(b[0], b[0] as u32);
    } else if a.len() == 0 && b.len() == 0 {
        assert(a =~= b);
    }
}

/// Whether `a` comes before `b` in the order of strings.
pub fn text_less(a: &str, b: &str) -> (res: bool)
    ensures
        res == lex_less(a@, b@),
{
    let x = chars_of(a);
    let y = chars_of(b);
    assert(x@.skip(0) =~= x@);
    assert(y@.skip(0) =~= y@);
    let mut k: usize = 0;
    while k < x.len() && k < y.len()
        invariant
            0 <= k <= x@.len(),
            k <= y@.len(),
            x@ == a@,
            y@ == b@,
            lex_less(x@.skip(k as int), y@.skip(k as int)) == lex_less(a@, b@),
        decreases x@.len() - k,
    {
        if x[k] != y[k] {
            proof {
                assert(x@.skip(k as int)[0] == x@[k as int]);
                assert(y@.skip(k as int)[0] == y@[k as int]);
            }
            return (x[k] as u32) < (y[k] as u32);
        }
        proof {
            assert(x@.skip(k as int).drop_first() =~= x@.skip(k + 1));
            assert(y@.skip(k as int).drop_first() =~= y@.skip(k + 1));
        }
        k = k + 1;
    }
    proof {
        assert(x@.skip(k as int).len() == x@.len() - k);
    }
    k == x.len() && k < y.len()
}

/// The decimal digit for `d < 10`.
pub open spec fn digit_char(d: nat) -> char {
    if d == 0 { '0' } else if d == 1 { '1' } else if d == 2 { '2' } else if d == 3 { '3' } else if d == 4 {
        '4'
    } else if d == 5 { '5' } else if d == 6 { '6' } else if d == 7 { '7' } else if d == 8 { '8' } else { '9' }
}

/// The decimal representation of `n`, without leading zeros.
pub open spec fn decimal(n: nat) -> Seq<char>
    decreases n,
{
    if n < 10 {
        seq![digit_char(n)]
    } else {
        decimal(n / 10).push(digit_char(n % 10))
    }
}

fn digit_char_exec(d: u64) -> (c: char)
    requires
        d < 10,
    ensures
        c == digit_char(d as nat),
{
    if d == 0 { '0' } else if d == 1 { '1' } else if d == 2 { '2' } else if d == 3 { '3' } else if d == 4 {
        '4'
    } else if d == 5 { '5' } else if d == 6 { '6' } else if d == 7 { '7' } else if d == 8 { '8' } else { '9' }
}

/// Appends the decimal representation of `n` to `out`.
pub fn append_decimal(out: &mut String, n: u64)
    ensures
        final(out)@ == old(out)@ + decimal(n as nat),
    decreases n,
{
    if n >= 10 {
        append_decimal(out, n / 10);
    }
    let c = digit_char_exec(n % 10);
    push_char(out, c);
    proof {
        if n < 10 {
            assert(decimal(n as nat) =~= seq![digit_char(n as nat)]);
        }
    }
}

/// UTF-8 byte length of one char (`char::len_utf8`).
pub fn char_utf8_len(c: char) -> (n: usize)
    ensures
        n as int == char_len(c),
        1 <= n <= 4,
{
    proof {
        char_is_scalar(c);
    }
    let u = c as u32;
    if u <= 0x7F {
        1
    } else if u <= 0x7FF {
        2
    } else if u <= 0xFFFF {
        3
    } else {
        4
    }
}

} // verus!
