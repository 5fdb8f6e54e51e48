//! Stable insertion order of indices under a comparison, used wherever the
//! engine sorts.
use vstd::prelude::*;

verus! {

/// Inserts index `x` in front of the first element that `x` must precede.
pub open spec fn insert_index(order: Seq<usize>, x: usize, before: spec_fn(usize, usize) -> bool) -> Seq<usize>
    decreases order.len(),
{
    if order.len() == 0 {
        seq![x]
    } else if before(x, order[0]) {
        seq![x] + order
    } else {
        seq![order[0]] + insert_index(order.drop_first(), x, before)
    }
}

/// The indices `0..n` in stable insertion-sorted order under `before`.
pub open spec fn sort_indices(n: nat, before: spec_fn(usize, usize) -> bool) -> Seq<usize>
    decreases n,
{
    if n == 0 {
        seq![]
    } else {
        insert_index(sort_indices((n - 1) as nat, before), (n - 1) as usize, before)
    }
}

/// No element of the sequence must precede an element placed before it.
pub open spec fn sorted_under(s: Seq<usize>, before: spec_fn(usize, usize) -> bool) -> bool {
    forall|i: int, j: int| 0 <= i < j < s.len() ==> !before(s[j], s[i])
}

/// `before` is irreflexive and transitive.
pub open spec fn strict_order(before: spec_fn(usize, usize) -> bool) -> bool {
    &&& forall|a: usize| !#[trigger] before(a, a)
    &&& forall|a: usize, b: usize, c: usize| #[trigger] before(a, b) && #[trigger] before(b, c) ==> before(a, c)
}

/// The sequence holds exactly the indices `0..n`, each once.
pub open spec fn is_index_permutation(s: Seq<usize>, n: nat) -> bool {
    &&& s.len() == n
    &&& forall|i: int| 0 <= i < s.len() ==> s[i] < n
    &&& forall|k: usize| k < n ==> s.contains(k)
    &&& forall|i: int, j: int| 0 <= i < j < s.len() ==> s[i] != s[j]
}

/// Inserting at the first position whose element `x` must precede is the
/// recursive insertion.
pub proof fn lemma_insert_at(order: Seq<usize>, x: usize, before: spec_fn(usize, usize) -> bool, pos: int)
    requires
        0 <= pos <= order.len(),
        forall|j: int| 0 <= j < pos ==> !before(x, #[trigger] order[j]),
        pos == order.len() || before(x, order[pos]),
    ensures
        insert_index(order, x, before) == order.insert(pos, x),
    decreases order.len(),
{
    if order.len() == 0 {
        assert(order.insert(pos, x) =~= seq![x]);
    } else if pos == 0 {
        assert(order.insert(0, x) =~= seq![x] + order);
    } else {
        assert(!before(x, order[0]));
        let rest = order.drop_first();
        assert forall|j: int| 0 <= j < pos - 1 implies !before(x, #[trigger] rest[j]) by {
            assert(rest[j] == order[j + 1]);
        }
        lemma_insert_at(rest, x, before, pos - 1);
        assert(order.insert(pos, x) =~= seq![order[0]] + rest.insert(pos - 1, x));
    }
}

proof fn lemma_insert_contents(order: Seq<usize>, x: usize, before: spec_fn(usize, usize) -> bool)
    ensures
        insert_index(order, x, before).len() == order.len() + 1,
        forall|y: usize| #[trigger] insert_index(order, x, before).contains(y) <==> (order.contains(y) || y == x),
    decreases order.len(),
{
    let r = insert_index(order, x, before);
    if order.len() == 0 {
        assert(r =~= seq![x]);
        assert forall|y: usize| #[trigger] r.contains(y) <==> (order.contains(y) || y == x) by {
            if r.contains(y) {
                let i = choose|i: int| 0 <= i < r.len() && r[i] == y;
            }
            if y == x {
                assert(r[0] == x);
            }
        }
    } else if before(x, order[0]) {
        assert forall|y: usize| #[trigger] r.contains(y) <==> (order.contains(y) || y == x) by {
            if r.contains(y) {
                let i = choose|i: int| 0 <= i < r.len() && r[i] == y;
                if i > 0 {
                    assert(order[i - 1] == y);
                }
            }
            if order.contains(y) {
                let i = choose|i: int| 0 <= i < order.len() && order[i] == y;
                assert(r[i + 1] == y);
            }
            if y == x {
                assert(r[0] == x);
            }
        }
    } else {
        let rest = order.drop_first();
        lemma_insert_contents(rest, x, before);
        let rr = insert_index(rest, x, before);
        assert(r == seq![order[0]] + rr);
        assert forall|y: usize| #[trigger] r.contains(y) <==> (order.contains(y) || y == x) by {
            if r.contains(y) {
                let i = choose|i: int| 0 <= i < r.len() && r[i] == y;
                if i > 0 {
                    assert(rr[i - 1] == y);
                    assert(rr.contains(y));
                    if rest.contains(y) {
                        let j = choose|j: int| 0 <= j < rest.len() && rest[j] == y;
                        assert(order[j + 1] == y);
                    }
                } else {
                    assert(order[0] == y);
                }
            }
            if order.contains(y) {
                let i = choose|i: int| 0 <= i < order.len() && order[i] == y;
                if i == 0 {
                    assert(r[0] == y);
                } else {
                    assert(rest[i - 1] == y);
                    assert(rr.contains(y));
                    let j = choose|j: int| 0 <= j < rr.len() && rr[j] == y;
                    assert(r[j + 1] == y);
                }
            }
            if y == x {
                assert(rr.contains(x));
                let j = choose|j: int| 0 <= j < rr.len() && rr[j] == x;
                assert(r[j + 1] == x);
            }
        }
    }
}

proof fn lemma_insert_distinct(order: Seq<usize>, x: usize, before: spec_fn(usize, usize) -> bool)
    requires
        forall|i: int, j: int| 0 <= i < j < order.len() ==> order[i] != order[j],
        !order.contains(x),
    ensures
        forall|i: int, j: int|
            0 <= i < j < insert_index(order, x, before).len() ==> insert_index(order, x, before)[i]
                != insert_index(order, x, before)[j],
    decreases order.len(),
{
    let r = insert_index(order, x, before);
    if order.len() == 0 {
    } else if before(x, order[0]) {
        assert forall|i: int, j: int| 0 <= i < j < r.len() implies r[i] != r[j] by {
            if i == 0 {
                assert(r[j] == order[j - 1]);
            } else {
                assert(r[i] == order[i - 1] && r[j] == order[j - 1]);
            }
        }
    } else {
        let rest = order.drop_first();
        assert(!rest.contains(x)) by {
            if rest.contains(x) {
                let j = choose|j: int| 0 <= j < rest.len() && rest[j] == x;
                assert(order[j + 1] == x);
            }
        }
        lemma_insert_distinct(rest, x, before);
        lemma_insert_contents(rest, x, before);
        let rr = insert_index(rest, x, before);
        assert(r == seq![order[0]] + rr);
        assert forall|i: int, j: int| 0 <= i < j < r.len() implies r[i] != r[j] by {
            if i == 0 {
                assert(r[j] == rr[j - 1]);
                assert(rr.contains(rr[j - 1]));
                if rr[j - 1] == order[0] {
                    assert(rest.contains(order[0]) || order[0] == x);
                    if rest.contains(order[0]) {
                        let k = choose|k: int| 0 <= k < rest.len() && rest[k] == order[0];
                        assert(order[k + 1] == order[0]);
                    }
                    assert(order.contains(x));
                }
            } else {
                assert(r[i] == rr[i - 1] && r[j] == rr[j - 1]);
            }
        }
    }
}

/// `sort_indices(n, before)` holds every index below `n` exactly once.
pub proof fn lemma_sort_indices_permutation(n: nat, before: spec_fn(usize, usize) -> bool)
    requires
        n <= usize::MAX + 1,
    ensures
        is_index_permutation(sort_indices(n, before), n),
    decreases n,
{
    if n > 0 {
        let m = (n - 1) as nat;
        lemma_sort_indices_permutation(m, before);
        let prev = sort_indices(m, before);
        let x = (n - 1) as usize;
        assert(!prev.contains(x)) by {
            if prev.contains(x) {
                let j = choose|j: int| 0 <= j < prev.len() && prev[j] == x;
            }
        }
        lemma_insert_contents(prev, x, before);
        lemma_insert_distinct(prev, x, before);
        let r = sort_indices(n, before);
        assert(r == insert_index(prev, x, before));
        assert forall|i: int| 0 <= i < r.len() implies r[i] < n by {
            assert(r.contains(r[i]));
            if prev.contains(r[i]) {
                let j = choose|j: int| 0 <= j < prev.len() && prev[j] == r[i];
            }
        }
        assert forall|k: usize| k < n implies r.contains(k) by {
            if k < m {
                assert(prev.contains(k));
            }
        }
    }
}

/// Insertion keeps a sorted sequence sorted.
pub proof fn lemma_insert_sorted(order: Seq<usize>, x: usize, before: spec_fn(usize, usize) -> bool)
    requires
        strict_order(before),
        sorted_under(order, before),
    ensures
        sorted_under(insert_index(order, x, before), before),
    decreases order.len(),
{
    let r = insert_index(order, x, before);
    if order.len() == 0 {
    } else if before(x, order[0]) {
        assert forall|i: int, j: int| 0 <= i < j < r.len() implies !before(r[j], r[i]) by {
            if i == 0 {
                assert(r[j] == order[j - 1]);
                if before(order[j - 1], x) {
                    assert(before(order[j - 1], order[0]));
                }
            } else {
                assert(r[i] == order[i - 1] && r[j] == order[j - 1]);
            }
        }
    } else {
        let rest = order.drop_first();
        lemma_insert_sorted(rest, x, before);
        lemma_insert_contents(rest, x, before);
        let rr = insert_index(rest, x, before);
        assert(r == seq![order[0]] + rr);
        assert forall|i: int, j: int| 0 <= i < j < r.len() implies !before(r[j], r[i]) by {
            if i == 0 {
                assert(r[j] == rr[j - 1]);
                assert(rr.contains(rr[j - 1]));
                if rest.contains(rr[j - 1]) {
                    let k = choose|k: int| 0 <= k < rest.len() && rest[k] == rr[j - 1];
                    assert(order[k + 1] == rr[j - 1]);
                }
            } else {
                assert(r[i] == rr[i - 1] && r[j] == rr[j - 1]);
            }
        }
    }
}

/// `sort_indices` yields a sorted sequence under a strict order.
pub proof fn lemma_sort_indices_sorted(n: nat, before: spec_fn(usize, usize) -> bool)
    requires
        strict_order(before),
    ensures
        sorted_under(sort_indices(n, before), before),
    decreases n,
{
    if n > 0 {
        lemma_sort_indices_sorted((n - 1) as nat, before);
        lemma_insert_sorted(sort_indices((n - 1) as nat, before), (n - 1) as usize, before);
    }
}

} // verus!
