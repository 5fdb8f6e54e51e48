//! Captured nodes, the environment of meta-variable bindings, and match
//! outcomes.
use vstd::prelude::*;
use vstd::set_lib::lemma_subset_equality;
use crate::span::NodeSpan;

verus! {

/// How strictly two texts must agree for nodes to match.
#[derive(Debug, Clone, Copy, PartialEq, Eq, Structural)]
pub enum MatchStrictness {
    Ast,
    Relaxed,
    Cst,
    Signature,
    Template,
}

impl Default for MatchStrictness {
    fn default() -> (res: Self)
        ensures
            res == MatchStrictness::Ast,
    {
        MatchStrictness::Ast
    }
}

/// A syntax node bound to a meta-variable: its kind, source text and span.
#[derive(Debug, Clone, PartialEq, Eq)]
pub struct CapturedNode {
    pub kind: String,
    pub text: String,
    pub span: NodeSpan,
}

/// Mathematical value of a captured node.
pub struct CapturedNodeView {
    pub kind: Seq<char>,
    pub text: Seq<char>,
    pub span: NodeSpan,
}

impl View for CapturedNode {
    type V = CapturedNodeView;

    open spec fn view(&self) -> CapturedNodeView {
        CapturedNodeView { kind: self.kind@, text: self.text@, span: self.span }
    }
}

impl CapturedNode {
    /// A copy of the node.
    pub fn duplicate(&self) -> (res: Self)
        ensures
            res@ == self@,
    {
        CapturedNode { kind: self.kind.clone(), text: self.text.clone(), span: self.span }
    }

    /// Whether the two nodes have the same kind, text and span.
    pub fn same_as(&self, other: &CapturedNode) -> (res: bool)
        ensures
            res == (self@ == other@),
    {
        self.kind == other.kind && self.text == other.text && self.span.start == other.span.start
            && self.span.end == other.span.end
    }
}

/// Whether two lists of captured nodes are the same, node by node.
pub fn same_nodes(a: &[CapturedNode], b: &[CapturedNode]) -> (res: bool)
    ensures
        res == (nodes_view(a@) == nodes_view(b@)),
{
    if a.len() != b.len() {
        assert(nodes_view(a@).len() != nodes_view(b@).len());
        return false;
    }
    let mut k: usize = 0;
    while k < a.len()
        invariant
            a@.len() == b@.len(),
            0 <= k <= a@.len(),
            forall|j: int| 0 <= j < k ==> a@[j]@ == b@[j]@,
        decreases a@.len() - k,
    {
        if !a[k].same_as(&b[k]) {
            assert(nodes_view(a@)[k as int] != nodes_view(b@)[k as int]);
            return false;
        }
        k = k + 1;
    }
    assert(nodes_view(a@) =~= nodes_view(b@));
    true
}

/// Views of a list of captured nodes.
pub open spec fn nodes_view(nodes: Seq<CapturedNode>) -> Seq<CapturedNodeView> {
    nodes.map_values(|n: CapturedNode| n@)
}

/// Copies a list of captured nodes.
pub fn duplicate_nodes(nodes: &[CapturedNode]) -> (res: Vec<CapturedNode>)
    ensures
        nodes_view(res@) == nodes_view(nodes@),
{
    let mut out: Vec<CapturedNode> = Vec::new();
    let mut k: usize = 0;
    while k < nodes.len()
        invariant
            0 <= k <= nodes@.len(),
            nodes_view(out@) == nodes_view(nodes@.take(k as int)),
        decreases nodes@.len() - k,
    {
        let d = nodes[k].duplicate();
        let ghost before = out@;
        out.push(d);
        assert(nodes@.take(k + 1) =~= nodes@.take(k as int).push(nodes@[k as int]));
        assert(out@ == before.push(d));
        assert(nodes_view(out@) =~= nodes_view(before).push(d@));
        assert(nodes_view(nodes@.take(k + 1)) =~= nodes_view(nodes@.take(k as int)).push(nodes@[k as int]@));
        k = k + 1;
    }
    assert(nodes@.take(nodes@.len() as int) =~= nodes@);
    out
}

/// Mathematical value of an environment: the single and the multiple bindings.
pub struct EnvView {
    pub single: Map<Seq<char>, CapturedNodeView>,
    pub multi: Map<Seq<char>, Seq<CapturedNodeView>>,
}

/// The environment without bindings.
pub open spec fn empty_env() -> EnvView {
    EnvView { single: Map::empty(), multi: Map::empty() }
}

/// Meta-variable bindings: a name bound to one node (`$A`) or to a sequence
/// of nodes (`$$$A`).
#[derive(Debug, PartialEq, Eq)]
pub struct MatchEnvironment {
    single: Vec<(String, CapturedNode)>,
    multi: Vec<(String, Vec<CapturedNode>)>,
}

/// Keys of an association list are pairwise distinct.
pub open spec fn single_keys_unique(v: Seq<(String, CapturedNode)>) -> bool {
    forall|i: int, j: int| 0 <= i < j < v.len() ==> v[i].0@ != v[j].0@
}

pub open spec fn multi_keys_unique(v: Seq<(String, Vec<CapturedNode>)>) -> bool {
    forall|i: int, j: int| 0 <= i < j < v.len() ==> v[i].0@ != v[j].0@
}

/// The map that an association list with distinct keys denotes.
pub open spec fn single_map(v: Seq<(String, CapturedNode)>) -> Map<Seq<char>, CapturedNodeView> {
    Map::new(
        |k: Seq<char>| exists|i: int| 0 <= i < v.len() && v[i].0@ == k,
        |k: Seq<char>| v[choose|i: int| 0 <= i < v.len() && v[i].0@ == k].1@,
    )
}

pub open spec fn multi_map(v: Seq<(String, Vec<CapturedNode>)>) -> Map<Seq<char>, Seq<CapturedNodeView>> {
    Map::new(
        |k: Seq<char>| exists|i: int| 0 <= i < v.len() && v[i].0@ == k,
        |k: Seq<char>| nodes_view(v[choose|i: int| 0 <= i < v.len() && v[i].0@ == k].1@),
    )
}

impl View for MatchEnvironment {
    type V = EnvView;

    closed spec fn view(&self) -> EnvView {
        EnvView { single: single_map(self.single@), multi: multi_map(self.multi@) }
    }
}

pub proof fn lemma_single_lookup(v: Seq<(String, CapturedNode)>, i: int)
    requires
        single_keys_unique(v),
        0 <= i < v.len(),
    ensures
        single_map(v).contains_key(v[i].0@),
        single_map(v)[v[i].0@] == v[i].1@,
{
    let k = v[i].0@;
    assert(exists|j: int| 0 <= j < v.len() && v[j].0@ == k);
    let c = choose|j: int| 0 <= j < v.len() && v[j].0@ == k;
    assert(c == i);
}

pub proof fn lemma_multi_lookup(v: Seq<(String, Vec<CapturedNode>)>, i: int)
    requires
        multi_keys_unique(v),
        0 <= i < v.len(),
    ensures
        multi_map(v).contains_key(v[i].0@),
        multi_map(v)[v[i].0@] == nodes_view(v[i].1@),
{
    let k = v[i].0@;
    assert(exists|j: int| 0 <= j < v.len() && v[j].0@ == k);
    let c = choose|j: int| 0 <= j < v.len() && v[j].0@ == k;
    assert(c == i);
}

/// The keys of an association list.
pub open spec fn key_set<V>(v: Seq<(String, V)>) -> Set<Seq<char>> {
    Set::new(|k: Seq<char>| exists|i: int| 0 <= i < v.len() && v[i].0@ == k)
}

proof fn lemma_key_set_len<V>(v: Seq<(String, V)>)
    requires
        forall|i: int, j: int| 0 <= i < j < v.len() ==> v[i].0@ != v[j].0@,
    ensures
        key_set(v).finite(),
        key_set(v).len() == v.len(),
    decreases v.len(),
{
    if v.len() == 0 {
        assert(key_set(v) =~= Set::<Seq<char>>::empty());
    } else {
        let w = v.drop_last();
        lemma_key_set_len(w);
        let k = v.last().0@;
        assert(!key_set(w).contains(k)) by {
            if key_set(w).contains(k) {
                let j = choose|j: int| 0 <= j < w.len() && w[j].0@ == k;
                assert(v[j].0@ == v[v.len() - 1].0@);
            }
        }
        assert(key_set(v) =~= key_set(w).insert(k)) by {
            assert forall|x: Seq<char>| key_set(v).contains(x) implies key_set(w).insert(k).contains(x) by {
                let j = choose|j: int| 0 <= j < v.len() && v[j].0@ == x;
                if j < v.len() - 1 {
                    assert(w[j].0@ == x);
                }
            }
            assert forall|x: Seq<char>| key_set(w).insert(k).contains(x) implies key_set(v).contains(x) by {
                if x == k {
                    assert(v[v.len() - 1].0@ == x);
                } else {
                    let j = choose|j: int| 0 <= j < w.len() && w[j].0@ == x;
                    assert(v[j].0@ == x);
                }
            }
        }
    }
}

/// Two maps with finite domains of the same size, where each key of the
/// first maps to the same value in the second, are equal.
proof fn lemma_maps_equal_by_keys<V>(a: Map<Seq<char>, V>, b: Map<Seq<char>, V>)
    requires
        a.dom().finite(),
        b.dom().finite(),
        a.dom().len() == b.dom().len(),
        forall|k: Seq<char>| #[trigger] a.contains_key(k) ==> b.contains_key(k) && a[k] == b[k],
    ensures
        a == b,
{
    assert forall|k: Seq<char>| a.dom().contains(k) implies b.dom().contains(k) by {
        assert(a.contains_key(k));
    }
    assert(a.dom().subset_of(b.dom()));
    lemma_subset_equality(a.dom(), b.dom());
    assert(a =~= b);
}

impl MatchEnvironment {
    #[verifier::type_invariant]
    closed spec fn keys_unique(&self) -> bool {
        single_keys_unique(self.single@) && multi_keys_unique(self.multi@)
    }

    /// The environment without bindings.
    pub fn new() -> (res: Self)
        ensures
            res@.single == Map::<Seq<char>, CapturedNodeView>::empty(),
            res@.multi == Map::<Seq<char>, Seq<CapturedNodeView>>::empty(),
            res@ == empty_env(),
    {
        let res = MatchEnvironment { single: Vec::new(), multi: Vec::new() };
        assert(single_map(res.single@) =~= Map::<Seq<char>, CapturedNodeView>::empty());
        assert(multi_map(res.multi@) =~= Map::<Seq<char>, Seq<CapturedNodeView>>::empty());
        res
    }

    fn find_single(&self, name: &str) -> (res: Option<usize>)
        ensures
            res matches Some(i) ==> i < self.single@.len() && self.single@[i as int].0@ == name@,
            res is None ==> forall|i: int| 0 <= i < self.single@.len() ==> self.single@[i].0@ != name@,
    {
        let key = name.to_owned();
        let mut k: usize = 0;
        while k < self.single.len()
            invariant
                0 <= k <= self.single@.len(),
                key@ == name@,
                forall|i: int| 0 <= i < k ==> self.single@[i].0@ != name@,
            decreases self.single@.len() - k,
        {
            if self.single[k].0 == key {
                return Some(k);
            }
            k = k + 1;
        }
        None
    }

    fn find_multi(&self, name: &str) -> (res: Option<usize>)
        ensures
            res matches Some(i) ==> i < self.multi@.len() && self.multi@[i as int].0@ == name@,
            res is None ==> forall|i: int| 0 <= i < self.multi@.len() ==> self.multi@[i].0@ != name@,
    {
        let key = name.to_owned();
        let mut k: usize = 0;
        while k < self.multi.len()
            invariant
                0 <= k <= self.multi@.len(),
                key@ == name@,
                forall|i: int| 0 <= i < k ==> self.multi@[i].0@ != name@,
            decreases self.multi@.len() - k,
        {
            if self.multi[k].0 == key {
                return Some(k);
            }
            k = k + 1;
        }
        None
    }

    /// The node bound to `name`, if any.
    pub fn get_single_capture(&self, name: &str) -> (res: Option<&CapturedNode>)
        ensures
            res is Some <==> self@.single.contains_key(name@),
            res matches Some(n) ==> n@ == self@.single[name@],
    {
        proof {
            use_type_invariant(self);
        }
        match self.find_single(name) {
            Some(i) => {
                proof {
                    lemma_single_lookup(self.single@, i as int);
                }
                Some(&self.single[i].1)
            },
            None => None,
        }
    }

    /// The nodes bound to `name`, if any.
    pub fn get_multi_capture(&self, name: &str) -> (res: Option<&[CapturedNode]>)
        ensures
            res is Some <==> self@.multi.contains_key(name@),
            res matches Some(n) ==> nodes_view(n@) == self@.multi[name@],
    {
        proof {
            use_type_invariant(self);
        }
        match self.find_multi(name) {
            Some(i) => {
                proof {
                    lemma_multi_lookup(self.multi@, i as int);
                }
                Some(self.multi[i].1.as_slice())
            },
            None => None,
        }
    }

    /// Whether `name` is bound to one node.
    pub fn has_single_capture(&self, name: &str) -> (res: bool)
        ensures
            res == self@.single.contains_key(name@),
    {
        proof {
            use_type_invariant(self);
        }
        match self.find_single(name) {
            Some(i) => {
                proof {
                    lemma_single_lookup(self.single@, i as int);
                }
                true
            },
            None => false,
        }
    }

    /// Whether `name` is bound to a sequence of nodes.
    pub fn has_multi_capture(&self, name: &str) -> (res: bool)
        ensures
            res == self@.multi.contains_key(name@),
    {
        proof {
            use_type_invariant(self);
        }
        match self.find_multi(name) {
            Some(i) => {
                proof {
                    lemma_multi_lookup(self.multi@, i as int);
                }
                true
            },
            None => false,
        }
    }

    /// Binds `name` to one node, returning the node it was bound to before.
    pub fn insert_single_capture(&mut self, name: String, node: CapturedNode) -> (res: Option<CapturedNode>)
        ensures
            final(self)@.single == old(self)@.single.insert(name@, node@),
            final(self)@.multi == old(self)@.multi,
            res is Some <==> old(self)@.single.contains_key(name@),
            res matches Some(n) ==> n@ == old(self)@.single[name@],
    {
        proof {
            use_type_invariant(&*self);
        }
        let ghost old_single = self.single@;
        let ghost key = name@;
        let ghost val = node@;
        match self.find_single(name.as_str()) {
            Some(i) => {
                proof {
                    lemma_single_lookup(old_single, i as int);
                }
                let mut entries = Vec::new();
                std::mem::swap(&mut entries, &mut self.single);
                let removed = entries.remove(i);
                let previous = removed.1;
                entries.insert(i, (name, node));
                proof {
                    assert forall|a: int, b: int| 0 <= a < b < entries@.len() implies entries@[a].0@ != entries@[b].0@ by {
                        assert(entries@[a].0@ == old_single[a].0@);
                        assert(entries@[b].0@ == old_single[b].0@);
                    }
                }
                self.single = entries;
                proof {
                    assert forall|a: int, b: int| 0 <= a < b < self.single@.len() implies self.single@[a].0@ != self.single@[b].0@ by {
                        assert(self.single@[a].0@ == old_single[a].0@);
                        assert(self.single@[b].0@ == old_single[b].0@);
                    }
                    assert forall|k: Seq<char>| #[trigger] single_map(self.single@).contains_key(k) == old(self)@.single.insert(key, val).contains_key(k) by {
                        if single_map(self.single@).contains_key(k) {
                            let j = choose|j: int| 0 <= j < self.single@.len() && self.single@[j].0@ == k;
                            if j != i {
                                assert(old_single[j].0@ == k);
                            }
                        }
                        if old(self)@.single.contains_key(k) {
                            let j = choose|j: int| 0 <= j < old_single.len() && old_single[j].0@ == k;
                            assert(self.single@[j].0@ == k);
                        }
                        if k == key {
                            assert(self.single@[i as int].0@ == k);
                        }
                    }
                    assert forall|k: Seq<char>| #[trigger] single_map(self.single@).contains_key(k) implies single_map(self.single@)[k] == old(self)@.single.insert(key, val)[k] by {
                        let j = choose|j: int| 0 <= j < self.single@.len() && self.single@[j].0@ == k;
                        lemma_single_lookup(self.single@, j);
                        if j != i {
                            lemma_single_lookup(old_single, j);
                        }
                    }
                    assert(single_map(self.single@) =~= old(self)@.single.insert(key, val));
                }
                Some(previous)
            },
            None => {
                let mut entries = Vec::new();
                std::mem::swap(&mut entries, &mut self.single);
                entries.push((name, node));
                proof {
                    let v = entries@;
                    assert forall|a: int, b: int| 0 <= a < b < v.len() implies v[a].0@ != v[b].0@ by {
                        if b < v.len() - 1 {
                            assert(v[a] == old_single[a] && v[b] == old_single[b]);
                        }
                    }
                }
                self.single = entries;
                proof {
                    let v = self.single@;
                    assert forall|a: int, b: int| 0 <= a < b < v.len() implies v[a].0@ != v[b].0@ by {
                        if b < v.len() - 1 {
                            assert(v[a] == old_single[a] && v[b] == old_single[b]);
                        }
                    }
                    assert forall|k: Seq<char>| #[trigger] single_map(v).contains_key(k) == old(self)@.single.insert(key, val).contains_key(k) by {
                        if single_map(v).contains_key(k) {
                            let j = choose|j: int| 0 <= j < v.len() && v[j].0@ == k;
                            if j < v.len() - 1 {
                                assert(old_single[j].0@ == k);
                            }
                        }
                        if old(self)@.single.contains_key(k) {
                            let j = choose|j: int| 0 <= j < old_single.len() && old_single[j].0@ == k;
                            assert(v[j].0@ == k);
                        }
                        if k == key {
                            assert(v[v.len() - 1].0@ == k);
                        }
                    }
                    assert forall|k: Seq<char>| #[trigger] single_map(v).contains_key(k) implies single_map(v)[k] == old(self)@.single.insert(key, val)[k] by {
                        let j = choose|j: int| 0 <= j < v.len() && v[j].0@ == k;
                        lemma_single_lookup(v, j);
                        if j < v.len() - 1 {
                            assert(v[j] == old_single[j]);
                            lemma_single_lookup(old_single, j);
                        }
                    }
                    assert(single_map(v) =~= old(self)@.single.insert(key, val));
                }
                None
            },
        }
    }

    /// Binds `name` to a sequence of nodes, returning the nodes it was bound to before.
    pub fn insert_multi_capture(&mut self, name: String, nodes: Vec<CapturedNode>) -> (res: Option<Vec<CapturedNode>>)
        ensures
            final(self)@.multi == old(self)@.multi.insert(name@, nodes_view(nodes@)),
            final(self)@.single == old(self)@.single,
            res is Some <==> old(self)@.multi.contains_key(name@),
            res matches Some(n) ==> nodes_view(n@) == old(self)@.multi[name@],
    {
        proof {
            use_type_invariant(&*self);
        }
        let ghost old_multi = self.multi@;
        let ghost key = name@;
        let ghost val = nodes_view(nodes@);
        match self.find_multi(name.as_str()) {
            Some(i) => {
                proof {
                    lemma_multi_lookup(old_multi, i as int);
                }
                let mut entries = Vec::new();
                std::mem::swap(&mut entries, &mut self.multi);
                let removed = entries.remove(i);
                let previous = removed.1;
                entries.insert(i, (name, nodes));
                proof {
                    assert forall|a: int, b: int| 0 <= a < b < entries@.len() implies entries@[a].0@ != entries@[b].0@ by {
                        assert(entries@[a].0@ == old_multi[a].0@);
                        assert(entries@[b].0@ == old_multi[b].0@);
                    }
                }
                self.multi = entries;
                proof {
                    assert forall|a: int, b: int| 0 <= a < b < self.multi@.len() implies self.multi@[a].0@ != self.multi@[b].0@ by {
                        assert(self.multi@[a].0@ == old_multi[a].0@);
                        assert(self.multi@[b].0@ == old_multi[b].0@);
                    }
                    assert forall|k: Seq<char>| #[trigger] multi_map(self.multi@).contains_key(k) == old(self)@.multi.insert(key, val).contains_key(k) by {
                        if multi_map(self.multi@).contains_key(k) {
                            let j = choose|j: int| 0 <= j < self.multi@.len() && self.multi@[j].0@ == k;
                            if j != i {
                                assert(old_multi[j].0@ == k);
                            }
                        }
                        if old(self)@.multi.contains_key(k) {
                            let j = choose|j: int| 0 <= j < old_multi.len() && old_multi[j].0@ == k;
                            assert(self.multi@[j].0@ == k);
                        }
                        if k == key {
                            assert(self.multi@[i as int].0@ == k);
                        }
                    }
                    assert forall|k: Seq<char>| #[trigger] multi_map(self.multi@).contains_key(k) implies multi_map(self.multi@)[k] == old(self)@.multi.insert(key, val)[k] by {
                        let j = choose|j: int| 0 <= j < self.multi@.len() && self.multi@[j].0@ == k;
                        lemma_multi_lookup(self.multi@, j);
                        if j != i {
                            lemma_multi_lookup(old_multi, j);
                        }
                    }
                    assert(multi_map(self.multi@) =~= old(self)@.multi.insert(key, val));
                }
                Some(previous)
            },
            None => {
                let mut entries = Vec::new();
                std::mem::swap(&mut entries, &mut self.multi);
                entries.push((name, nodes));
                proof {
                    let v = entries@;
                    assert forall|a: int, b: int| 0 <= a < b < v.len() implies v[a].0@ != v[b].0@ by {
                        if b < v.len() - 1 {
                            assert(v[a] == old_multi[a] && v[b] == old_multi[b]);
                        }
                    }
                }
                self.multi = entries;
                proof {
                    let v = self.multi@;
                    assert forall|a: int, b: int| 0 <= a < b < v.len() implies v[a].0@ != v[b].0@ by {
                        if b < v.len() - 1 {
                            assert(v[a] == old_multi[a] && v[b] == old_multi[b]);
                        }
                    }
                    assert forall|k: Seq<char>| #[trigger] multi_map(v).contains_key(k) == old(self)@.multi.insert(key, val).contains_key(k) by {
                        if multi_map(v).contains_key(k) {
                            let j = choose|j: int| 0 <= j < v.len() && v[j].0@ == k;
                            if j < v.len() - 1 {
                                assert(old_multi[j].0@ == k);
                            }
                        }
                        if old(self)@.multi.contains_key(k) {
                            let j = choose|j: int| 0 <= j < old_multi.len() && old_multi[j].0@ == k;
                            assert(v[j].0@ == k);
                        }
                        if k == key {
                            assert(v[v.len() - 1].0@ == k);
                        }
                    }
                    assert forall|k: Seq<char>| #[trigger] multi_map(v).contains_key(k) implies multi_map(v)[k] == old(self)@.multi.insert(key, val)[k] by {
                        let j = choose|j: int| 0 <= j < v.len() && v[j].0@ == k;
                        lemma_multi_lookup(v, j);
                        if j < v.len() - 1 {
                            assert(v[j] == old_multi[j]);
                            lemma_multi_lookup(old_multi, j);
                        }
                    }
                    assert(multi_map(v) =~= old(self)@.multi.insert(key, val));
                }
                None
            },
        }
    }

    /// Whether the two environments hold the same bindings.
    pub fn same_bindings(&self, other: &MatchEnvironment) -> (res: bool)
        ensures
            res == (self@ == other@),
    {
        proof {
            use_type_invariant(self);
            use_type_invariant(other);
            lemma_key_set_len(self.single@);
            lemma_key_set_len(other.single@);
            lemma_key_set_len(self.multi@);
            lemma_key_set_len(other.multi@);
            assert(single_map(self.single@).dom() =~= key_set(self.single@));
            assert(single_map(other.single@).dom() =~= key_set(other.single@));
            assert(multi_map(self.multi@).dom() =~= key_set(self.multi@));
            assert(multi_map(other.multi@).dom() =~= key_set(other.multi@));
        }
        if self.single.len() != other.single.len() || self.multi.len() != other.multi.len() {
            return false;
        }
        let mut k: usize = 0;
        while k < self.single.len()
            invariant
                single_keys_unique(self.single@),
                0 <= k <= self.single@.len(),
                forall|j: int|
                    0 <= j < k ==> other@.single.contains_key(#[trigger] self.single@[j].0@)
                        && other@.single[self.single@[j].0@] == self.single@[j].1@,
            decreases self.single@.len() - k,
        {
            match other.get_single_capture(self.single[k].0.as_str()) {
                Some(node) => {
                    if !node.same_as(&self.single[k].1) {
                        proof {
                            lemma_single_lookup(self.single@, k as int);
                        }
                        return false;
                    }
                },
                None => {
                    proof {
                        lemma_single_lookup(self.single@, k as int);
                    }
                    return false;
                },
            }
            k = k + 1;
        }
        let mut m: usize = 0;
        while m < self.multi.len()
            invariant
                multi_keys_unique(self.multi@),
                0 <= m <= self.multi@.len(),
                forall|j: int|
                    0 <= j < m ==> other@.multi.contains_key(#[trigger] self.multi@[j].0@)
                        && other@.multi[self.multi@[j].0@] == nodes_view(self.multi@[j].1@),
            decreases self.multi@.len() - m,
        {
            match other.get_multi_capture(self.multi[m].0.as_str()) {
                Some(nodes) => {
                    if !same_nodes(nodes, self.multi[m].1.as_slice()) {
                        proof {
                            lemma_multi_lookup(self.multi@, m as int);
                        }
                        return false;
                    }
                },
                None => {
                    proof {
                        lemma_multi_lookup(self.multi@, m as int);
                    }
                    return false;
                },
            }
            m = m + 1;
        }
        proof {
            assert forall|key: Seq<char>| self@.single.contains_key(key) implies other@.single.contains_key(key)
                && self@.single[key] == other@.single[key] by {
                let j = choose|j: int| 0 <= j < self.single@.len() && self.single@[j].0@ == key;
                lemma_single_lookup(self.single@, j);
            }
            lemma_maps_equal_by_keys(self@.single, other@.single);
            assert forall|key: Seq<char>| self@.multi.contains_key(key) implies other@.multi.contains_key(key)
                && self@.multi[key] == other@.multi[key] by {
                let j = choose|j: int| 0 <= j < self.multi@.len() && self.multi@[j].0@ == key;
                lemma_multi_lookup(self.multi@, j);
            }
            lemma_maps_equal_by_keys(self@.multi, other@.multi);
        }
        true
    }

    /// A copy of the environment.
    pub fn duplicate(&self) -> (res: Self)
        ensures
            res@ == self@,
    {
        proof {
            use_type_invariant(self);
        }
        let mut single: Vec<(String, CapturedNode)> = Vec::new();
        let mut k: usize = 0;
        while k < self.single.len()
            invariant
                0 <= k <= self.single@.len(),
                single@.len() == k,
                forall|i: int|
                    0 <= i < k ==> (#[trigger] single@[i]).0@ == self.single@[i].0@ && single@[i].1@
                        == self.single@[i].1@,
            decreases self.single@.len() - k,
        {
            single.push((self.single[k].0.clone(), self.single[k].1.duplicate()));
            k = k + 1;
        }
        let mut multi: Vec<(String, Vec<CapturedNode>)> = Vec::new();
        let mut m: usize = 0;
        while m < self.multi.len()
            invariant
                0 <= m <= self.multi@.len(),
                multi@.len() == m,
                forall|i: int|
                    0 <= i < m ==> (#[trigger] multi@[i]).0@ == self.multi@[i].0@ && nodes_view(multi@[i].1@)
                        == nodes_view(self.multi@[i].1@),
            decreases self.multi@.len() - m,
        {
            multi.push((self.multi[m].0.clone(), duplicate_nodes(self.multi[m].1.as_slice())));
            m = m + 1;
        }
        let res = MatchEnvironment { single, multi };
        proof {
            assert forall|k: Seq<char>| #[trigger] single_map(res.single@).contains_key(k) == single_map(self.single@).contains_key(k) by {
                if single_map(res.single@).contains_key(k) {
                    let j = choose|j: int| 0 <= j < res.single@.len() && res.single@[j].0@ == k;
                    assert(self.single@[j].0@ == k);
                }
                if single_map(self.single@).contains_key(k) {
                    let j = choose|j: int| 0 <= j < self.single@.len() && self.single@[j].0@ == k;
                    assert(res.single@[j].0@ == k);
                }
            }
            assert forall|k: Seq<char>| #[trigger] single_map(res.single@).contains_key(k) implies single_map(res.single@)[k] == single_map(self.single@)[k] by {
                let j = choose|j: int| 0 <= j < res.single@.len() && res.single@[j].0@ == k;
                lemma_single_lookup(res.single@, j);
                lemma_single_lookup(self.single@, j);
            }
            assert(single_map(res.single@) =~= single_map(self.single@));
            assert forall|k: Seq<char>| #[trigger] multi_map(res.multi@).contains_key(k) == multi_map(self.multi@).contains_key(k) by {
                if multi_map(res.multi@).contains_key(k) {
                    let j = choose|j: int| 0 <= j < res.multi@.len() && res.multi@[j].0@ == k;
                    assert(self.multi@[j].0@ == k);
                }
                if multi_map(self.multi@).contains_key(k) {
                    let j = choose|j: int| 0 <= j < self.multi@.len() && self.multi@[j].0@ == k;
                    assert(res.multi@[j].0@ == k);
                }
            }
            assert forall|k: Seq<char>| #[trigger] multi_map(res.multi@).contains_key(k) implies multi_map(res.multi@)[k] == multi_map(self.multi@)[k] by {
                let j = choose|j: int| 0 <= j < res.multi@.len() && res.multi@[j].0@ == k;
                lemma_multi_lookup(res.multi@, j);
                lemma_multi_lookup(self.multi@, j);
            }
            assert(multi_map(res.multi@) =~= multi_map(self.multi@));
        }
        res
    }

    /// The single bindings, in the order they were first made.
    pub fn single_entries(&self) -> (res: &[(String, CapturedNode)])
        ensures
            single_keys_unique(res@),
            single_map(res@) == self@.single,
    {
        proof {
            use_type_invariant(self);
        }
        self.single.as_slice()
    }

    /// The multiple bindings, in the order they were first made.
    pub fn multi_entries(&self) -> (res: &[(String, Vec<CapturedNode>)])
        ensures
            multi_keys_unique(res@),
            multi_map(res@) == self@.multi,
    {
        proof {
            use_type_invariant(self);
        }
        self.multi.as_slice()
    }
}

impl Clone for MatchEnvironment {
    fn clone(&self) -> (res: Self)
        ensures
            res@ == self@,
    {
        self.duplicate()
    }
}

impl Default for MatchEnvironment {
    fn default() -> (res: Self)
        ensures
            res@.single == Map::<Seq<char>, CapturedNodeView>::empty(),
            res@.multi == Map::<Seq<char>, Seq<CapturedNodeView>>::empty(),
    {
        MatchEnvironment::new()
    }
}

/// Whether a node matched, with the bindings made.
#[derive(Debug, Clone, PartialEq, Eq)]
pub struct MatchOutcome {
    pub matched: bool,
    pub environment: MatchEnvironment,
}

impl MatchOutcome {
    /// Whether the node matched.
    pub fn is_match(&self) -> (res: bool)
        ensures
            res == self.matched,
    {
        self.matched
    }

    /// The bindings made.
    pub fn environment(&self) -> (res: &MatchEnvironment)
        ensures
            res == &self.environment,
    {
        &self.environment
    }

    /// The bindings made, by value.
    pub fn into_environment(self) -> (res: MatchEnvironment)
        ensures
            res == self.environment,
    {
        self.environment
    }
}

} // verus!
