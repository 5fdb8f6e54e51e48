use vstd::prelude::*;
use vstd::string::StringSliceAdditionalSpecFns;

verus! {

/// Byte offsets at which the lines of `bytes` start: offset 0, and one past
/// every `\n` byte, in increasing order.
pub open spec fn line_starts_of(bytes: Seq<u8>) -> Seq<usize>
    decreases bytes.len(),
{
    if bytes.len() == 0 {
        seq![0usize]
    } else {
        let prev = line_starts_of(bytes.drop_last());
        if bytes.last() == 10u8 {
            prev.push(bytes.len() as usize)
        } else {
            prev
        }
    }
}

/// The sequence is in non-decreasing order.
pub open spec fn is_sorted(s: Seq<usize>) -> bool {
    forall|i: int, j: int| 0 <= i <= j < s.len() ==> s[i] <= s[j]
}

/// Number of elements of `s` that are at most `x`.
pub open spec fn count_at_most(s: Seq<usize>, x: int) -> nat
    decreases s.len(),
{
    if s.len() == 0 {
        0
    } else {
        count_at_most(s.drop_last(), x) + if s.last() <= x {
            1nat
        } else {
            0nat
        }
    }
}

/// Index of the line holding `offset`: the last line start at or before it,
/// or line 0 when there is none.
pub open spec fn line_index_of(offset: usize, starts: Seq<usize>) -> int {
    let c = count_at_most(starts, offset as int);
    if c == 0 {
        0
    } else {
        c - 1
    }
}

/// One-based line and zero-based byte column of `offset`.
pub open spec fn line_col_of(offset: usize, starts: Seq<usize>) -> (usize, usize) {
    let idx = line_index_of(offset, starts);
    (
        (idx + 1) as usize,
        if offset >= starts[idx] {
            (offset - starts[idx]) as usize
        } else {
            0usize
        },
    )
}

proof fn lemma_line_starts_shape(bytes: Seq<u8>)
    requires
        bytes.len() <= usize::MAX,
    ensures
        line_starts_of(bytes).len() >= 1,
        line_starts_of(bytes)[0] == 0,
        forall|i: int|
            0 <= i < line_starts_of(bytes).len() ==> line_starts_of(bytes)[i] <= bytes.len(),
        forall|i: int, j: int|
            0 <= i < j < line_starts_of(bytes).len() ==> line_starts_of(bytes)[i]
                < line_starts_of(bytes)[j],
    decreases bytes.len(),
{
    if bytes.len() > 0 {
        let prev = bytes.drop_last();
        lemma_line_starts_shape(prev);
        let ps = line_starts_of(prev);
        assert(forall|i: int| 0 <= i < ps.len() ==> ps[i] < bytes.len());
        if bytes.last() == 10u8 {
            assert(line_starts_of(bytes) == ps.push(bytes.len() as usize));
        } else {
            assert(line_starts_of(bytes) == ps);
        }
    }
}

proof fn lemma_count_prefix(s: Seq<usize>, x: int, p: int)
    requires
        0 <= p <= s.len(),
        forall|i: int| 0 <= i < p ==> s[i] <= x,
        forall|i: int| p <= i < s.len() ==> s[i] > x,
    ensures
        count_at_most(s, x) == p,
    decreases s.len(),
{
    if s.len() > 0 {
        if p == s.len() {
            lemma_count_prefix(s.drop_last(), x, p - 1);
        } else {
            lemma_count_prefix(s.drop_last(), x, p);
        }
    }
}

/// Lines start at offset 0 and right after each `\n` byte, and nowhere
/// else: the first start is 0; every later start lies one past a `\n`
/// byte; every byte after a `\n` starts a line; the starts increase
/// strictly. So a file has one line more than it has `\n` bytes, whatever
/// other bytes (such as `\r`) it holds.
pub proof fn lemma_line_starts_follow_newlines(bytes: Seq<u8>)
    requires
        bytes.len() <= usize::MAX,
    ensures
        line_starts_of(bytes).len() >= 1,
        line_starts_of(bytes)[0] == 0,
        forall|i: int|
            1 <= i < line_starts_of(bytes).len() ==> 1 <= #[trigger] line_starts_of(bytes)[i] <= bytes.len()
                && bytes[line_starts_of(bytes)[i] - 1] == 10u8,
        forall|p: int| 0 <= p < bytes.len() && #[trigger] bytes[p] == 10u8 ==> line_starts_of(bytes).contains((p + 1) as usize),
        forall|i: int, j: int|
            0 <= i < j < line_starts_of(bytes).len() ==> line_starts_of(bytes)[i] < line_starts_of(bytes)[j],
    decreases bytes.len(),
{
    lemma_line_starts_shape(bytes);
    if bytes.len() > 0 {
        let prev = bytes.drop_last();
        lemma_line_starts_follow_newlines(prev);
        let ps = line_starts_of(prev);
        let ls = line_starts_of(bytes);
        assert forall|i: int| 1 <= i < ls.len() implies 1 <= #[trigger] ls[i] <= bytes.len() && bytes[ls[i] - 1] == 10u8 by {
            if i < ps.len() {
                assert(ls[i] == ps[i]);
                assert(bytes[ls[i] - 1] == prev[ls[i] - 1]);
            } else {
                assert(bytes.last() == 10u8);
                assert(ls[i] == bytes.len());
            }
        }
        assert forall|p: int| 0 <= p < bytes.len() && #[trigger] bytes[p] == 10u8 implies ls.contains((p + 1) as usize) by {
            if p < prev.len() {
                assert(prev[p] == bytes[p]);
                assert(ps.contains((p + 1) as usize));
                let k = choose|k: int| 0 <= k < ps.len() && ps[k] == (p + 1) as usize;
                if bytes.last() == 10u8 {
                    assert(ls[k] == ps[k]);
                }
            } else {
                assert(bytes.last() == 10u8);
                assert(ls[ls.len() - 1] == bytes.len() as usize);
            }
        }
    }
}

/// Line start offsets of `source`: 0, then one past each `\n` byte.
pub fn compute_line_starts(source: &str) -> (starts: Vec<usize>)
    ensures
        starts@ == line_starts_of(source.spec_bytes()),
        starts@.len() >= 1,
        is_sorted(starts@),
{
    let bytes = source.as_bytes();
    let mut starts: Vec<usize> = Vec::new();
    starts.push(0);
    let mut index: usize = 0;
    assert(bytes@.take(0).len() == 0);
    while index < bytes.len()
        invariant
            0 <= index <= bytes@.len(),
            bytes@ == source.spec_bytes(),
            starts@ == line_starts_of(bytes@.take(index as int)),
        decreases bytes@.len() - index,
    {
        assert(bytes@.take(index + 1).drop_last() =~= bytes@.take(index as int));
        if bytes[index] == 10u8 {
            starts.push(index + 1);
        }
        index = index + 1;
    }
    assert(bytes@.take(bytes@.len() as int) =~= bytes@);
    proof {
        lemma_line_starts_shape(bytes@);
    }
    starts
}

/// One-based line and zero-based column of a byte offset, given sorted line
/// start offsets.
pub fn offset_to_line_col(offset: usize, line_starts: &[usize]) -> (res: (usize, usize))
    requires
        line_starts@.len() >= 1,
        is_sorted(line_starts@),
    ensures
        res == line_col_of(offset, line_starts@),
{
    let mut lo: usize = 0;
    let mut hi: usize = line_starts.len();
    while lo < hi
        invariant
            0 <= lo <= hi <= line_starts@.len(),
            is_sorted(line_starts@),
            forall|i: int| 0 <= i < lo ==> line_starts@[i] <= offset,
            forall|i: int| hi <= i < line_starts@.len() ==> line_starts@[i] > offset,
        decreases hi - lo,
    {
        let mid = lo + (hi - lo) / 2;
        if line_starts[mid] <= offset {
            lo = mid + 1;
        } else {
            hi = mid;
        }
    }
    proof {
        lemma_count_prefix(line_starts@, offset as int, lo as int);
    }
    let line_idx = if lo == 0 {
        0
    } else {
        lo - 1
    };
    let start = line_starts[line_idx];
    let column = if offset >= start {
        offset - start
    } else {
        0
    };
    (line_idx + 1, column)
}

} // verus!

verus! {

/// The number of `\n` bytes in `bytes`.
pub open spec fn newlines_in(bytes: Seq<u8>) -> nat
    decreases bytes.len(),
{
    if bytes.len() == 0 {
        0
    } else {
        newlines_in(bytes.drop_last()) + if bytes.last() == 10u8 {
            1nat
        } else {
            0nat
        }
    }
}

/// The offset just past the last `\n` byte of `bytes`, or 0 without one.
pub open spec fn after_last_newline(bytes: Seq<u8>) -> int
    decreases bytes.len(),
{
    if bytes.len() == 0 {
        0
    } else if bytes.last() == 10u8 {
        bytes.len() as int
    } else {
        after_last_newline(bytes.drop_last())
    }
}

proof fn lemma_starts_count_last(bytes: Seq<u8>)
    requires
        bytes.len() <= usize::MAX,
    ensures
        line_starts_of(bytes).len() == 1 + newlines_in(bytes),
        line_starts_of(bytes).last() == after_last_newline(bytes),
    decreases bytes.len(),
{
    if bytes.len() > 0 {
        lemma_starts_count_last(bytes.drop_last());
    }
}

proof fn lemma_starts_split(bytes: Seq<u8>, o: int)
    requires
        0 <= o <= bytes.len() <= usize::MAX,
    ensures
        line_starts_of(bytes).len() >= line_starts_of(bytes.take(o)).len(),
        forall|i: int|
            0 <= i < line_starts_of(bytes.take(o)).len() ==> #[trigger] line_starts_of(bytes)[i] == line_starts_of(
                bytes.take(o),
            )[i],
        forall|i: int|
            line_starts_of(bytes.take(o)).len() <= i < line_starts_of(bytes).len() ==> #[trigger] line_starts_of(
                bytes,
            )[i] > o,
    decreases bytes.len(),
{
    if bytes.len() == o {
        assert(bytes.take(o) =~= bytes);
    } else {
        let prev = bytes.drop_last();
        lemma_starts_split(prev, o);
        assert(prev.take(o) =~= bytes.take(o));
    }
}

/// An offset lies on the line numbered one more than the `\n` bytes before
/// it, at the column counted from just past the last of them.
pub proof fn lemma_line_col_counts_newlines(bytes: Seq<u8>, o: usize)
    requires
        bytes.len() <= usize::MAX,
        o <= bytes.len(),
    ensures
        line_col_of(o, line_starts_of(bytes)) == (
            (1 + newlines_in(bytes.take(o as int))) as usize,
            (o - after_last_newline(bytes.take(o as int))) as usize,
        ),
{
    let x = bytes.take(o as int);
    let starts = line_starts_of(bytes);
    let ps = line_starts_of(x);
    lemma_starts_split(bytes, o as int);
    lemma_line_starts_shape(x);
    lemma_line_starts_shape(bytes);
    lemma_starts_count_last(x);
    assert forall|i: int| 0 <= i < ps.len() implies starts[i] <= o by {
        assert(starts[i] == ps[i]);
    }
    lemma_count_prefix(starts, o as int, ps.len() as int);
    assert(count_at_most(starts, o as int) == ps.len());
    let idx = line_index_of(o, starts);
    assert(idx == ps.len() - 1);
    assert(starts[idx] == ps[idx]);
    assert(ps[idx] == ps.last());
}

} // verus!
