//! The project graph: the structure of each analysed file, the files each
//! one imports, and lookups across files.
use vstd::prelude::*;
use crate::analysis::{analysed_structure, analyze_source, source_statements, Analyzer, StatementModel};
use crate::paths::{
    import_candidates, normalize_project_path, normalized_path,
    resolve_import_candidates, strings_view,
};
use crate::text::{lemma_lex_irreflexive, lemma_lex_total, lemma_lex_transitive, lex_less, text_less};

verus! {

/// A copy of a list of strings.
pub fn duplicate_strings(v: &Vec<String>) -> (res: Vec<String>)
    ensures
        strings_view(res@) == strings_view(v@),
{
    let mut out: Vec<String> = Vec::new();
    let mut k: usize = 0;
    while k < v.len()
        invariant
            0 <= k <= v@.len(),
            strings_view(out@) == strings_view(v@.take(k as int)),
        decreases v@.len() - k,
    {
        let ghost before = out@;
        out.push(v[k].clone());
        assert(strings_view(out@) =~= strings_view(before).push(v@[k as int]@));
        assert(strings_view(v@.take(k + 1)) =~= strings_view(v@.take(k as int)).push(v@[k as int]@));
        k = k + 1;
    }
    assert(v@.take(v@.len() as int) =~= v@);
    out
}

/// A copy of an optional string.
pub fn duplicate_opt_string(v: &Option<String>) -> (res: Option<String>)
    ensures
        opt_view(res) == opt_view(*v),
{
    match v {
        Some(s) => Some(s.clone()),
        None => None,
    }
}

/// View of an optional string.
pub open spec fn opt_view(v: Option<String>) -> Option<Seq<char>> {
    match v {
        Some(s) => Some(s@),
        None => None,
    }
}

/// An exported identifier of a module.
#[derive(Debug, Clone)]
pub struct ExportInfo {
    /// The exported name.
    pub name: String,
    /// `function`, `variable`, `class`, `type`, `interface`, or `value`.
    pub kind: String,
    /// Line and column of the export.
    pub location: Option<(usize, usize)>,
}

/// A lint issue found in a file.
#[derive(Debug, Clone)]
pub struct LintIssue {
    pub category: String,
    pub severity: String,
    pub message: String,
    pub location: Option<(usize, usize)>,
}

/// Mathematical value of an export.
pub struct ExportView {
    pub name: Seq<char>,
    pub kind: Seq<char>,
    pub location: Option<(usize, usize)>,
}

impl View for ExportInfo {
    type V = ExportView;

    open spec fn view(&self) -> ExportView {
        ExportView { name: self.name@, kind: self.kind@, location: self.location }
    }
}

/// Views of a list of exports.
pub open spec fn exports_view(v: Seq<ExportInfo>) -> Seq<ExportView> {
    v.map_values(|e: ExportInfo| e@)
}

/// Mathematical value of a lint issue.
pub struct IssueView {
    pub category: Seq<char>,
    pub severity: Seq<char>,
    pub message: Seq<char>,
    pub location: Option<(usize, usize)>,
}

impl View for LintIssue {
    type V = IssueView;

    open spec fn view(&self) -> IssueView {
        IssueView {
            category: self.category@,
            severity: self.severity@,
            message: self.message@,
            location: self.location,
        }
    }
}

/// Views of a list of lint issues.
pub open spec fn issues_view(v: Seq<LintIssue>) -> Seq<IssueView> {
    v.map_values(|i: LintIssue| i@)
}

/// A declared symbol: its name, kind, parameters, return and type
/// parameters, whether it is exported, and where it is.
#[derive(Debug, Clone)]
pub struct SymbolSignature {
    pub name: String,
    pub kind: String,
    pub params: Vec<String>,
    pub return_type: Option<String>,
    pub type_params: Vec<String>,
    pub exported: bool,
    pub location: Option<(usize, usize)>,
    pub jsdoc: Option<String>,
}

/// Mathematical value of a symbol.
pub struct SymbolView {
    pub name: Seq<char>,
    pub kind: Seq<char>,
    pub params: Seq<Seq<char>>,
    pub return_type: Option<Seq<char>>,
    pub type_params: Seq<Seq<char>>,
    pub exported: bool,
    pub location: Option<(usize, usize)>,
    pub jsdoc: Option<Seq<char>>,
}

impl View for SymbolSignature {
    type V = SymbolView;

    open spec fn view(&self) -> SymbolView {
        SymbolView {
            name: self.name@,
            kind: self.kind@,
            params: strings_view(self.params@),
            return_type: opt_view(self.return_type),
            type_params: strings_view(self.type_params@),
            exported: self.exported,
            location: self.location,
            jsdoc: opt_view(self.jsdoc),
        }
    }
}

impl SymbolSignature {
    /// A copy of the symbol.
    pub fn duplicate(&self) -> (res: Self)
        ensures
            res@ == self@,
    {
        SymbolSignature {
            name: self.name.clone(),
            kind: self.kind.clone(),
            params: duplicate_strings(&self.params),
            return_type: duplicate_opt_string(&self.return_type),
            type_params: duplicate_strings(&self.type_params),
            exported: self.exported,
            location: self.location,
            jsdoc: duplicate_opt_string(&self.jsdoc),
        }
    }
}

/// Views of a list of symbols.
pub open spec fn symbols_view(v: Seq<SymbolSignature>) -> Seq<SymbolView> {
    v.map_values(|s: SymbolSignature| s@)
}

/// A copy of a list of symbols.
pub fn duplicate_symbols(v: &Vec<SymbolSignature>) -> (res: Vec<SymbolSignature>)
    ensures
        symbols_view(res@) == symbols_view(v@),
{
    let mut out: Vec<SymbolSignature> = Vec::new();
    let mut k: usize = 0;
    while k < v.len()
        invariant
            0 <= k <= v@.len(),
            symbols_view(out@) == symbols_view(v@.take(k as int)),
        decreases v@.len() - k,
    {
        let ghost before = out@;
        let d = v[k].duplicate();
        out.push(d);
        assert(symbols_view(out@) =~= symbols_view(before).push(v@[k as int]@));
        assert(symbols_view(v@.take(k + 1)) =~= symbols_view(v@.take(k as int)).push(v@[k as int]@));
        k = k + 1;
    }
    assert(v@.take(v@.len() as int) =~= v@);
    out
}

/// An import of a file: the specifier, its kind, the imported names,
/// whether it imports types only, and where it is.
#[derive(Debug, Clone)]
pub struct DependencyInfo {
    pub source: String,
    pub kind: String,
    pub specifiers: Vec<String>,
    pub is_type_only: bool,
    pub location: Option<(usize, usize)>,
}

/// Mathematical value of an import.
pub struct DependencyView {
    pub source: Seq<char>,
    pub kind: Seq<char>,
    pub specifiers: Seq<Seq<char>>,
    pub is_type_only: bool,
    pub location: Option<(usize, usize)>,
}

impl View for DependencyInfo {
    type V = DependencyView;

    open spec fn view(&self) -> DependencyView {
        DependencyView {
            source: self.source@,
            kind: self.kind@,
            specifiers: strings_view(self.specifiers@),
            is_type_only: self.is_type_only,
            location: self.location,
        }
    }
}

impl DependencyInfo {
    /// A copy of the import.
    pub fn duplicate(&self) -> (res: Self)
        ensures
            res@ == self@,
    {
        DependencyInfo {
            source: self.source.clone(),
            kind: self.kind.clone(),
            specifiers: duplicate_strings(&self.specifiers),
            is_type_only: self.is_type_only,
            location: self.location,
        }
    }
}

/// Views of a list of imports.
pub open spec fn dependencies_view(v: Seq<DependencyInfo>) -> Seq<DependencyView> {
    v.map_values(|d: DependencyInfo| d@)
}

/// A call from one function to another.
#[derive(Debug, Clone)]
pub struct CallEdge {
    pub caller: String,
    pub callee: String,
    pub location: Option<(usize, usize)>,
}

/// Mathematical value of a call edge.
pub struct CallEdgeView {
    pub caller: Seq<char>,
    pub callee: Seq<char>,
    pub location: Option<(usize, usize)>,
}

impl View for CallEdge {
    type V = CallEdgeView;

    open spec fn view(&self) -> CallEdgeView {
        CallEdgeView { caller: self.caller@, callee: self.callee@, location: self.location }
    }
}

/// The calls made in a file.
#[derive(Debug, Clone)]
pub struct CallGraph {
    pub edges: Vec<CallEdge>,
}

impl Default for CallGraph {
    fn default() -> (res: Self)
        ensures
            res.edges@.len() == 0,
    {
        CallGraph { edges: Vec::new() }
    }
}

/// Views of a list of call edges.
pub open spec fn edges_view(v: Seq<CallEdge>) -> Seq<CallEdgeView> {
    v.map_values(|e: CallEdge| e@)
}

/// What the analysis of one file found.
#[derive(Debug, Clone)]
pub struct FileStructure {
    pub language: String,
    pub imports: Vec<DependencyInfo>,
    pub exports: Vec<SymbolSignature>,
    pub symbols: Vec<SymbolSignature>,
    pub classes: Vec<SymbolSignature>,
    pub interfaces: Vec<SymbolSignature>,
    pub type_aliases: Vec<SymbolSignature>,
    pub comments: Vec<String>,
    pub jsdoc: Vec<String>,
    pub call_graph: CallGraph,
}

/// Mathematical value of a file structure.
pub struct FileStructureView {
    pub language: Seq<char>,
    pub imports: Seq<DependencyView>,
    pub exports: Seq<SymbolView>,
    pub symbols: Seq<SymbolView>,
    pub classes: Seq<SymbolView>,
    pub interfaces: Seq<SymbolView>,
    pub type_aliases: Seq<SymbolView>,
    pub comments: Seq<Seq<char>>,
    pub jsdoc: Seq<Seq<char>>,
    pub call_edges: Seq<CallEdgeView>,
}

impl View for FileStructure {
    type V = FileStructureView;

    open spec fn view(&self) -> FileStructureView {
        FileStructureView {
            language: self.language@,
            imports: dependencies_view(self.imports@),
            exports: symbols_view(self.exports@),
            symbols: symbols_view(self.symbols@),
            classes: symbols_view(self.classes@),
            interfaces: symbols_view(self.interfaces@),
            type_aliases: symbols_view(self.type_aliases@),
            comments: strings_view(self.comments@),
            jsdoc: strings_view(self.jsdoc@),
            call_edges: edges_view(self.call_graph.edges@),
        }
    }
}

impl Default for FileStructure {
    fn default() -> (res: Self)
        ensures
            res@.language.len() == 0,
            res@.imports.len() == 0,
            res@.exports.len() == 0,
            res@.symbols.len() == 0,
            res@.classes.len() == 0,
            res@.interfaces.len() == 0,
            res@.type_aliases.len() == 0,
            res@.comments.len() == 0,
            res@.jsdoc.len() == 0,
            res@.call_edges.len() == 0,
    {
        FileStructure {
            language: String::new(),
            imports: Vec::new(),
            exports: Vec::new(),
            symbols: Vec::new(),
            classes: Vec::new(),
            interfaces: Vec::new(),
            type_aliases: Vec::new(),
            comments: Vec::new(),
            jsdoc: Vec::new(),
            call_graph: CallGraph { edges: Vec::new() },
        }
    }
}

impl FileStructure {
    /// A copy of the structure.
    pub fn duplicate(&self) -> (res: Self)
        ensures
            res@ == self@,
    {
        let mut imports: Vec<DependencyInfo> = Vec::new();
        let mut k: usize = 0;
        while k < self.imports.len()
            invariant
                0 <= k <= self.imports@.len(),
                dependencies_view(imports@) == dependencies_view(self.imports@.take(k as int)),
            decreases self.imports@.len() - k,
        {
            let ghost before = imports@;
            imports.push(self.imports[k].duplicate());
            assert(dependencies_view(imports@) =~= dependencies_view(before).push(self.imports@[k as int]@));
            assert(dependencies_view(self.imports@.take(k + 1)) =~= dependencies_view(self.imports@.take(k as int)).push(
                self.imports@[k as int]@,
            ));
            k = k + 1;
        }
        assert(self.imports@.take(self.imports@.len() as int) =~= self.imports@);
        let mut edges: Vec<CallEdge> = Vec::new();
        let mut e: usize = 0;
        while e < self.call_graph.edges.len()
            invariant
                0 <= e <= self.call_graph.edges@.len(),
                edges_view(edges@) == edges_view(self.call_graph.edges@.take(e as int)),
            decreases self.call_graph.edges@.len() - e,
        {
            let ghost before = edges@;
            let edge = &self.call_graph.edges[e];
            edges.push(CallEdge { caller: edge.caller.clone(), callee: edge.callee.clone(), location: edge.location });
            assert(edges_view(edges@) =~= edges_view(before).push(edge@));
            assert(edges_view(self.call_graph.edges@.take(e + 1)) =~= edges_view(self.call_graph.edges@.take(e as int)).push(
                edge@,
            ));
            e = e + 1;
        }
        assert(self.call_graph.edges@.take(self.call_graph.edges@.len() as int) =~= self.call_graph.edges@);
        FileStructure {
            language: self.language.clone(),
            imports,
            exports: duplicate_symbols(&self.exports),
            symbols: duplicate_symbols(&self.symbols),
            classes: duplicate_symbols(&self.classes),
            interfaces: duplicate_symbols(&self.interfaces),
            type_aliases: duplicate_symbols(&self.type_aliases),
            comments: duplicate_strings(&self.comments),
            jsdoc: duplicate_strings(&self.jsdoc),
            call_graph: CallGraph { edges },
        }
    }
}

/// What the analysis of a file yields: its exports, the issues found, and
/// its structure.
#[derive(Debug, Clone)]
pub struct AnalysisResult {
    pub exports: Vec<ExportInfo>,
    pub issues: Vec<LintIssue>,
    pub file_structure: FileStructure,
}

// ---------------------------------------------------------------------------
// Keyed lists
// ---------------------------------------------------------------------------

/// The position of the first key `k` in `keys`, from `i` on.
pub open spec fn key_index(keys: Seq<Seq<char>>, k: Seq<char>, i: int) -> Option<int>
    decreases keys.len() - i,
{
    if i < 0 || i >= keys.len() {
        None
    } else if keys[i] == k {
        Some(i)
    } else {
        key_index(keys, k, i + 1)
    }
}

/// The keys of a keyed list.
pub open spec fn keys_of<V>(e: Seq<(Seq<char>, V)>) -> Seq<Seq<char>> {
    e.map_values(|p: (Seq<char>, V)| p.0)
}

/// The value under `k`, if any.
pub open spec fn lookup<V>(e: Seq<(Seq<char>, V)>, k: Seq<char>) -> Option<V> {
    match key_index(keys_of(e), k, 0) {
        Some(i) => Some(e[i].1),
        None => None,
    }
}

/// `e` with `v` under `k`: in place where `k` is present, appended otherwise.
pub open spec fn put<V>(e: Seq<(Seq<char>, V)>, k: Seq<char>, v: V) -> Seq<(Seq<char>, V)> {
    match key_index(keys_of(e), k, 0) {
        Some(i) => e.update(i, (k, v)),
        None => e.push((k, v)),
    }
}

/// No key occurs twice.
pub open spec fn unique_keys(keys: Seq<Seq<char>>) -> bool {
    forall|i: int, j: int| 0 <= i < j < keys.len() ==> keys[i] != keys[j]
}

/// The key views of a list of string-keyed pairs.
pub open spec fn key_views<V>(v: Seq<(String, V)>) -> Seq<Seq<char>> {
    v.map_values(|p: (String, V)| p.0@)
}

proof fn lemma_key_index(keys: Seq<Seq<char>>, k: Seq<char>, i: int)
    requires
        0 <= i <= keys.len(),
    ensures
        key_index(keys, k, i) matches Some(p) ==> i <= p < keys.len() && keys[p] == k && forall|q: int|
            i <= q < p ==> keys[q] != k,
        key_index(keys, k, i) is None ==> forall|q: int| i <= q < keys.len() ==> keys[q] != k,
    decreases keys.len() - i,
{
    if i < keys.len() && keys[i] != k {
        lemma_key_index(keys, k, i + 1);
    }
}

fn find_key<V>(v: &Vec<(String, V)>, key: &str) -> (res: Option<usize>)
    ensures
        match res {
            Some(i) => key_index(key_views(v@), key@, 0) == Some(i as int),
            None => key_index(key_views(v@), key@, 0) is None,
        },
{
    let ghost keys = key_views(v@);
    let wanted = key.to_owned();
    let mut k: usize = 0;
    while k < v.len()
        invariant
            0 <= k <= v@.len(),
            keys == key_views(v@),
            key_index(keys, key@, k as int) == key_index(keys, key@, 0),
            wanted@ == key@,
        decreases v@.len() - k,
    {
        if v[k].0 == wanted {
            return Some(k);
        }
        k = k + 1;
    }
    None
}

fn put_entry<V>(v: &mut Vec<(String, V)>, key: String, val: V)
    ensures
        final(v)@ == match key_index(key_views(old(v)@), key@, 0) {
            Some(i) => old(v)@.update(i, (key, val)),
            None => old(v)@.push((key, val)),
        },
{
    proof {
        lemma_key_index(key_views(v@), key@, 0);
    }
    match find_key(v, key.as_str()) {
        Some(i) => {
            v.set(i, (key, val));
        },
        None => {
            v.push((key, val));
        },
    }
}

// ---------------------------------------------------------------------------
// The graph
// ---------------------------------------------------------------------------

/// Mathematical value of a project graph: the analysed files with their
/// structures, the file each import of a file refers to, and the hash of
/// the code each file was analysed from; each keyed by normalised path, in
/// the order the paths were first added.
pub struct GraphView {
    pub files: Seq<(Seq<char>, FileStructureView)>,
    pub dependencies: Seq<(Seq<char>, Seq<Seq<char>>)>,
    pub cache: Seq<(Seq<char>, u64)>,
}

/// The analysed files of a project, with their imports resolved across files.
#[derive(Debug)]
pub struct ProjectGraph {
    files: Vec<(String, FileStructure)>,
    dependency_graph: Vec<(String, Vec<String>)>,
    parse_cache: Vec<(String, u64)>,
}

pub open spec fn files_view(v: Seq<(String, FileStructure)>) -> Seq<(Seq<char>, FileStructureView)> {
    v.map_values(|p: (String, FileStructure)| (p.0@, p.1@))
}

pub open spec fn deps_view(v: Seq<(String, Vec<String>)>) -> Seq<(Seq<char>, Seq<Seq<char>>)> {
    v.map_values(|p: (String, Vec<String>)| (p.0@, strings_view(p.1@)))
}

pub open spec fn cache_view(v: Seq<(String, u64)>) -> Seq<(Seq<char>, u64)> {
    v.map_values(|p: (String, u64)| (p.0@, p.1))
}

impl View for ProjectGraph {
    type V = GraphView;

    closed spec fn view(&self) -> GraphView {
        GraphView {
            files: files_view(self.files@),
            dependencies: deps_view(self.dependency_graph@),
            cache: cache_view(self.parse_cache@),
        }
    }
}

/// The file an import refers to when first resolved: the first of its
/// candidates (none for an import that is not relative).
pub open spec fn first_candidate(file: Seq<char>, src: Seq<char>) -> Option<Seq<char>> {
    let c = import_candidates(file, src);
    if c.len() > 0 {
        Some(c[0])
    } else {
        None
    }
}

/// The files that the first `n` imports refer to, in order.
pub open spec fn import_targets(file: Seq<char>, imports: Seq<DependencyView>, n: int) -> Seq<Seq<char>>
    decreases n,
{
    if n <= 0 {
        Seq::empty()
    } else {
        match first_candidate(file, imports[n - 1].source) {
            Some(t) => import_targets(file, imports, n - 1).push(t),
            None => import_targets(file, imports, n - 1),
        }
    }
}

/// The graph after analysing `structure` for the path `key` from code whose
/// hash is `h`: unchanged where the cache holds `h` for `key`; otherwise the
/// structure, the import targets and the hash recorded under `key`.
pub open spec fn graph_after_add(g: GraphView, key: Seq<char>, h: u64, structure: FileStructureView) -> GraphView {
    if lookup(g.cache, key) == Some(h) {
        g
    } else {
        GraphView {
            files: put(g.files, key, structure),
            dependencies: put(
                g.dependencies,
                key,
                import_targets(key, structure.imports, structure.imports.len() as int),
            ),
            cache: put(g.cache, key, h),
        }
    }
}

/// The hash of a text under the standard library's `DefaultHasher` as
/// `DefaultHasher::new` (or `Default`) builds it: unseeded, so every such
/// hasher gives one text the same value. Its algorithm is left unspecified.
pub uninterp spec fn default_hash(code: Seq<char>) -> u64;

/// Hash of a file's code: `BuildHasher::hash_one` with the standard
/// library's `DefaultHasher`, whose value is `default_hash` of the text.
#[verifier::external_body]
fn hash_code(code: &str) -> (res: u64)
    ensures
        res == default_hash(code@),
{
    std::hash::BuildHasher::hash_one(
        &std::hash::BuildHasherDefault::<std::collections::hash_map::DefaultHasher>::default(),
        code,
    )
}

/// The first of `cands[i..]` that is a key in `keys`.
pub open spec fn first_present(keys: Seq<Seq<char>>, cands: Seq<Seq<char>>, i: int) -> Option<Seq<char>>
    decreases cands.len() - i,
{
    if i < 0 || i >= cands.len() {
        None
    } else if key_index(keys, cands[i], 0) is Some {
        Some(cands[i])
    } else {
        first_present(keys, cands, i + 1)
    }
}

/// The first `n` imports of `file` that refer to a file of the graph, each
/// with its source replaced by that file.
pub open spec fn resolved_imports(
    keys: Seq<Seq<char>>,
    file: Seq<char>,
    imports: Seq<DependencyView>,
    n: int,
) -> Seq<DependencyView>
    decreases n,
{
    if n <= 0 {
        Seq::empty()
    } else {
        let prev = resolved_imports(keys, file, imports, n - 1);
        let d = imports[n - 1];
        match first_present(keys, import_candidates(file, d.source), 0) {
            Some(r) => prev.push(DependencyView { source: r, ..d }),
            None => prev,
        }
    }
}

/// The symbols of `syms` (the first `n`) named `name`.
pub open spec fn symbols_named(syms: Seq<SymbolView>, name: Seq<char>, n: int) -> Seq<SymbolView>
    decreases n,
{
    if n <= 0 {
        Seq::empty()
    } else if syms[n - 1].name == name {
        symbols_named(syms, name, n - 1).push(syms[n - 1])
    } else {
        symbols_named(syms, name, n - 1)
    }
}

/// Some symbol of `local` has the name and kind of `e`.
pub open spec fn has_same_symbol(local: Seq<SymbolView>, e: SymbolView) -> bool {
    exists|i: int| 0 <= i < local.len() && #[trigger] local[i].name == e.name && local[i].kind == e.kind
}

/// `local` followed by the exports of the first `n` named `name` that no
/// symbol before them has the name and kind of.
pub open spec fn with_exports(local: Seq<SymbolView>, exports: Seq<SymbolView>, name: Seq<char>, n: int) -> Seq<
    SymbolView,
>
    decreases n,
{
    if n <= 0 {
        local
    } else {
        let prev = with_exports(local, exports, name, n - 1);
        let e = exports[n - 1];
        if e.name == name && !has_same_symbol(prev, e) {
            prev.push(e)
        } else {
            prev
        }
    }
}

/// The symbols named `name` of one file: its declared symbols of that name,
/// then its exports of that name not already among them.
pub open spec fn file_symbols(fs: FileStructureView, name: Seq<char>) -> Seq<SymbolView> {
    with_exports(symbols_named(fs.symbols, name, fs.symbols.len() as int), fs.exports, name, fs.exports.len() as int)
}

/// The symbols named `name` of the first `n` files, file by file.
pub open spec fn graph_symbols(files: Seq<(Seq<char>, FileStructureView)>, name: Seq<char>, n: int) -> Seq<SymbolView>
    decreases n,
{
    if n <= 0 {
        Seq::empty()
    } else {
        graph_symbols(files, name, n - 1) + file_symbols(files[n - 1].1, name)
    }
}

proof fn lemma_put_keys_unique(keys: Seq<Seq<char>>, k: Seq<char>)
    requires
        unique_keys(keys),
    ensures
        key_index(keys, k, 0) is None ==> unique_keys(keys.push(k)),
        key_index(keys, k, 0) matches Some(i) ==> keys[i] == k,
{
    lemma_key_index(keys, k, 0);
    if key_index(keys, k, 0) is None {
        assert forall|a: int, b: int| 0 <= a < b < keys.push(k).len() implies keys.push(k)[a] != keys.push(k)[b] by {
            if b == keys.len() {
                assert(keys.push(k)[a] == keys[a]);
            } else {
                assert(keys.push(k)[a] == keys[a] && keys.push(k)[b] == keys[b]);
            }
        }
    }
}

proof fn lemma_views_keys(v: Seq<(String, FileStructure)>)
    ensures
        keys_of(files_view(v)) == key_views(v),
{
    assert(keys_of(files_view(v)) =~= key_views(v));
}

impl ProjectGraph {
    #[verifier::type_invariant]
    closed spec fn wf(&self) -> bool {
        unique_keys(key_views(self.files@))
    }

    /// An empty graph.
    pub fn new() -> (res: Self)
        ensures
            res@.files.len() == 0,
            res@.dependencies.len() == 0,
            res@.cache.len() == 0,
    {
        ProjectGraph { files: Vec::new(), dependency_graph: Vec::new(), parse_cache: Vec::new() }
    }

    /// Records `structure` for `path`, analysed from code whose hash is
    /// `code_hash`, as `graph_after_add` states.
    fn add_file_with_hash(&mut self, path: &str, code_hash: u64, structure: FileStructure)
        ensures
            final(self)@ == graph_after_add(old(self)@, normalized_path(path@), code_hash, structure@),
    {
        proof {
            use_type_invariant(&*self);
        }
        let normalized = normalize_project_path(path);
        let ghost key = normalized@;
        let ghost g = self@;
        proof {
            assert(keys_of(cache_view(self.parse_cache@)) =~= key_views(self.parse_cache@));
            lemma_key_index(key_views(self.parse_cache@), key, 0);
        }
        match find_key(&self.parse_cache, normalized.as_str()) {
            Some(i) => {
                if self.parse_cache[i].1 == code_hash {
                    return;
                }
            },
            None => {},
        }
        let mut dependencies: Vec<String> = Vec::new();
        let mut k: usize = 0;
        while k < structure.imports.len()
            invariant
                0 <= k <= structure.imports@.len(),
                key == normalized@,
                strings_view(dependencies@) == import_targets(key, structure@.imports, k as int),
            decreases structure.imports@.len() - k,
        {
            let candidates = resolve_import_candidates(normalized.as_str(), structure.imports[k].source.as_str());
            if candidates.len() > 0 {
                let ghost before = dependencies@;
                dependencies.push(candidates[0].clone());
                assert(strings_view(dependencies@) =~= strings_view(before).push(candidates@[0]@));
            }
            k = k + 1;
        }
        let ghost deps = strings_view(dependencies@);
        let ghost sv = structure@;
        let ghost old_files = self.files@;
        let ghost old_deps = self.dependency_graph@;
        let ghost old_cache = self.parse_cache@;
        proof {
            lemma_key_index(key_views(old_files), key, 0);
            assert(keys_of(files_view(old_files)) =~= key_views(old_files));
            assert(keys_of(deps_view(old_deps)) =~= key_views(old_deps));
        }
        let mut files = Vec::new();
        std::mem::swap(&mut files, &mut self.files);
        put_entry(&mut files, normalized.clone(), structure);
        proof {
            assert(files_view(files@) =~= put(files_view(old_files), key, sv));
            lemma_put_keys_unique(key_views(old_files), key);
            match key_index(key_views(old_files), key, 0) {
                Some(i) => {
                    assert(key_views(files@) =~= key_views(old_files));
                },
                None => {
                    assert(key_views(files@) =~= key_views(old_files).push(key));
                },
            }
        }
        self.files = files;
        let mut dependency_graph = Vec::new();
        std::mem::swap(&mut dependency_graph, &mut self.dependency_graph);
        put_entry(&mut dependency_graph, normalized.clone(), dependencies);
        self.dependency_graph = dependency_graph;
        let mut parse_cache = Vec::new();
        std::mem::swap(&mut parse_cache, &mut self.parse_cache);
        put_entry(&mut parse_cache, normalized, code_hash);
        self.parse_cache = parse_cache;
        proof {
            assert(keys_of(deps_view(old_deps)) =~= key_views(old_deps));
            match key_index(key_views(old_deps), key, 0) {
                Some(i) => {
                    lemma_key_index(key_views(old_deps), key, 0);
                    assert(deps_view(self.dependency_graph@) =~= deps_view(old_deps).update(i, (key, deps)));
                },
                None => {
                    assert(deps_view(self.dependency_graph@) =~= deps_view(old_deps).push((key, deps)));
                },
            }
            assert(deps_view(self.dependency_graph@) =~= put(deps_view(old_deps), key, deps));
            assert(cache_view(self.parse_cache@) =~= put(cache_view(old_cache), key, code_hash));
        }
    }

    /// Records the analysis of `code` for `path`: oxc parses and checks
    /// the code, and the structure is assembled from that, its top-level
    /// statements and the analyzer after the walk over its tree
    /// (`walked`). Where the cache holds the hash of `code`
    /// (`default_hash`) for the path, nothing changes; otherwise the
    /// structure, the files its imports refer to, and the hash are recorded
    /// under the normalised path.
    pub fn add_file(&mut self, path: &str, code: &str, walked: Analyzer) -> (res: Result<(), String>)
        ensures
            res is Ok,
            exists|statements: Seq<StatementModel>|
                #![trigger source_statements(statements, code@)]
                source_statements(statements, code@) && final(self)@ == graph_after_add(
                    old(self)@,
                    normalized_path(path@),
                    default_hash(code@),
                    analysed_structure(code@, walked@, statements),
                ),
    {
        let code_hash = hash_code(code);
        let structure = analyze_source(code, walked).file_structure;
        let ghost sv = structure@;
        self.add_file_with_hash(path, code_hash, structure);
        assert(self@ == graph_after_add(old(self)@, normalized_path(path@), code_hash, sv));
        Ok(())
    }

    /// The structure recorded for `path` (normalised), if any.
    pub fn get_file_structure(&self, path: &str) -> (res: Option<FileStructure>)
        ensures
            match res {
                Some(f) => lookup(self@.files, normalized_path(path@)) == Some(f@),
                None => lookup(self@.files, normalized_path(path@)) is None,
            },
    {
        let normalized = normalize_project_path(path);
        proof {
            lemma_views_keys(self.files@);
            lemma_key_index(key_views(self.files@), normalized@, 0);
        }
        match find_key(&self.files, normalized.as_str()) {
            Some(i) => Some(self.files[i].1.duplicate()),
            None => None,
        }
    }

    /// The recorded paths, in ascending order.
    pub fn get_all_files(&self) -> (res: Vec<String>)
        ensures
            strings_view(res@).len() == self@.files.len(),
            forall|i: int, j: int| 0 <= i < j < res@.len() ==> lex_less(#[trigger] res@[i]@, #[trigger] res@[j]@),
            forall|p: Seq<char>| strings_view(res@).contains(p) <==> keys_of(self@.files).contains(p),
    {
        proof {
            use_type_invariant(self);
            lemma_views_keys(self.files@);
        }
        let ghost keys = key_views(self.files@);
        let mut out: Vec<String> = Vec::new();
        let mut k: usize = 0;
        while k < self.files.len()
            invariant
                0 <= k <= self.files@.len(),
                keys == key_views(self.files@),
                unique_keys(keys),
                out@.len() == k,
                forall|i: int, j: int| 0 <= i < j < out@.len() ==> lex_less(#[trigger] out@[i]@, #[trigger] out@[j]@),
                forall|p: Seq<char>| strings_view(out@).contains(p) <==> keys.take(k as int).contains(p),
            decreases self.files@.len() - k,
        {
            let key = &self.files[k].0;
            let mut pos: usize = 0;
            while pos < out.len()
                invariant
                    0 <= pos <= out@.len(),
                    forall|i: int| 0 <= i < pos ==> lex_less(#[trigger] out@[i]@, key@),
                ensures
                    0 <= pos <= out@.len(),
                    forall|i: int| 0 <= i < pos ==> lex_less(#[trigger] out@[i]@, key@),
                    pos == out@.len() || !lex_less(out@[pos as int]@, key@),
                decreases out@.len() - pos,
            {
                if !text_less(out[pos].as_str(), key.as_str()) {
                    break;
                }
                pos = pos + 1;
            }
            let ghost before = out@;
            proof {
                assert(keys[k as int] == key@);
                assert(!keys.take(k as int).contains(key@)) by {
                    if keys.take(k as int).contains(key@) {
                        let j = choose|j: int| 0 <= j < k && keys.take(k as int)[j] == key@;
                        assert(keys[j] == keys[k as int]);
                    }
                }
                assert(!strings_view(before).contains(key@));
                if pos < before.len() {
                    assert(before[pos as int]@ != key@) by {
                        assert(strings_view(before)[pos as int] == before[pos as int]@);
                    }
                    lemma_lex_total(before[pos as int]@, key@);
                }
            }
            out.insert(pos, key.clone());
            proof {
                assert(out@ == before.insert(pos as int, out@[pos as int]));
                assert forall|i: int, j: int| 0 <= i < j < out@.len() implies lex_less(
                    #[trigger] out@[i]@,
                    #[trigger] out@[j]@,
                ) by {
                    if j < pos {
                        assert(out@[i] == before[i] && out@[j] == before[j]);
                    } else if j == pos {
                        assert(out@[i] == before[i]);
                    } else if i == pos {
                        assert(out@[j] == before[j - 1]);
                        if j - 1 > pos {
                            assert(lex_less(before[pos as int]@, before[j - 1]@));
                            lemma_lex_transitive(key@, before[pos as int]@, before[j - 1]@);
                        }
                    } else if i < pos {
                        assert(out@[i] == before[i] && out@[j] == before[j - 1]);
                        if i < j - 1 {
                        } else {
                        }
                        assert(lex_less(before[i]@, before[j - 1]@)) by {
                            if i < j - 1 {
                            } else {
                                lemma_lex_irreflexive(before[i]@);
                            }
                        }
                    } else {
                        assert(out@[i] == before[i - 1] && out@[j] == before[j - 1]);
                    }
                }
                assert(keys.take(k + 1) =~= keys.take(k as int).push(key@));
                assert(strings_view(out@) =~= strings_view(before).insert(pos as int, key@));
                assert forall|p: Seq<char>| strings_view(out@).contains(p) implies keys.take(k + 1).contains(p) by {
                    let i = choose|i: int| 0 <= i < out@.len() && strings_view(out@)[i] == p;
                    if i == pos {
                        assert(keys.take(k + 1)[k as int] == p);
                    } else {
                        let bi = if i < pos { i } else { i - 1 };
                        assert(strings_view(before)[bi] == p);
                        assert(strings_view(before).contains(p));
                        assert(keys.take(k as int).contains(p));
                        let t = keys.take(k as int);
                        let j = choose|j: int| 0 <= j < t.len() && t[j] == p;
                        assert(keys.take(k + 1)[j] == p);
                    }
                }
                assert forall|p: Seq<char>| keys.take(k + 1).contains(p) implies strings_view(out@).contains(p) by {
                    let t = keys.take(k + 1);
                    let j = choose|j: int| 0 <= j < t.len() && t[j] == p;
                    if j == k {
                        assert(strings_view(out@)[pos as int] == p);
                    } else {
                        assert(keys.take(k as int)[j] == p);
                        assert(keys.take(k as int).contains(p));
                        assert(strings_view(before).contains(p));
                        let i = choose|i: int| 0 <= i < before.len() && strings_view(before)[i] == p;
                        if i < pos {
                            assert(strings_view(out@)[i] == p);
                        } else {
                            assert(strings_view(out@)[i + 1] == p);
                        }
                    }
                }
            }
            k = k + 1;
        }
        proof {
            assert(keys.take(self.files@.len() as int) =~= keys);
        }
        out
    }

    /// Forgets every recorded file.
    pub fn clear(&mut self)
        ensures
            final(self)@.files.len() == 0,
            final(self)@.dependencies.len() == 0,
            final(self)@.cache.len() == 0,
    {
        self.files = Vec::new();
        self.dependency_graph = Vec::new();
        self.parse_cache = Vec::new();
    }
    /// The imports of `path` (normalised) that refer to a recorded file,
    /// each with its source replaced by that file: the first candidate
    /// (`import_candidates`) that is recorded. Empty when `path` is not
    /// recorded.
    pub fn resolve_dependencies(&self, path: &str) -> (res: Vec<DependencyInfo>)
        ensures
            dependencies_view(res@) == match lookup(self@.files, normalized_path(path@)) {
                Some(fs) => resolved_imports(
                    keys_of(self@.files),
                    normalized_path(path@),
                    fs.imports,
                    fs.imports.len() as int,
                ),
                None => Seq::empty(),
            },
    {
        let normalized = normalize_project_path(path);
        let ghost key = normalized@;
        let ghost keys = keys_of(self@.files);
        proof {
            lemma_views_keys(self.files@);
            lemma_key_index(key_views(self.files@), key, 0);
        }
        let idx = match find_key(&self.files, normalized.as_str()) {
            Some(i) => i,
            None => {
                let empty: Vec<DependencyInfo> = Vec::new();
                assert(dependencies_view(empty@) =~= Seq::<DependencyView>::empty());
                return empty;
            },
        };
        let structure = &self.files[idx].1;
        let mut out: Vec<DependencyInfo> = Vec::new();
        let mut k: usize = 0;
        assert(dependencies_view(out@) =~= Seq::<DependencyView>::empty());
        while k < structure.imports.len()
            invariant
                0 <= k <= structure.imports@.len(),
                key == normalized@,
                keys == keys_of(self@.files),
                keys == key_views(self.files@),
                dependencies_view(out@) == resolved_imports(keys, key, structure@.imports, k as int),
            decreases structure.imports@.len() - k,
        {
            let dep = &structure.imports[k];
            let candidates = resolve_import_candidates(normalized.as_str(), dep.source.as_str());
            let ghost cands = strings_view(candidates@);
            let mut c: usize = 0;
            let mut found: Option<usize> = None;
            while c < candidates.len()
                invariant_except_break
                    found is None,
                invariant
                    0 <= c <= candidates@.len(),
                    cands == strings_view(candidates@),
                    keys == key_views(self.files@),
                    first_present(keys, cands, c as int) == first_present(keys, cands, 0),
                ensures
                    found matches Some(j) ==> j < candidates@.len() && first_present(keys, cands, 0) == Some(
                        cands[j as int],
                    ),
                    found is None ==> first_present(keys, cands, 0) is None,
                decreases candidates@.len() - c,
            {
                if find_key(&self.files, candidates[c].as_str()).is_some() {
                    found = Some(c);
                    break;
                }
                c = c + 1;
            }
            match found {
                Some(j) => {
                    let ghost before = out@;
                    let mut info = dep.duplicate();
                    info.source = candidates[j].clone();
                    out.push(info);
                    proof {
                        assert(dependencies_view(out@) =~= dependencies_view(before).push(
                            DependencyView { source: cands[j as int], ..dep@ },
                        ));
                    }
                },
                None => {},
            }
            k = k + 1;
        }
        out
    }

    /// The symbols named `name` across the recorded files, file by file as
    /// `graph_symbols` states.
    pub fn find_symbol(&self, name: &str) -> (res: Vec<SymbolSignature>)
        ensures
            symbols_view(res@) == graph_symbols(self@.files, name@, self@.files.len() as int),
    {
        let ghost fv = self@.files;
        let wanted = name.to_owned();
        let mut out: Vec<SymbolSignature> = Vec::new();
        let mut f: usize = 0;
        assert(symbols_view(out@) =~= Seq::<SymbolView>::empty());
        while f < self.files.len()
            invariant
                0 <= f <= self.files@.len(),
                fv == self@.files,
                fv == files_view(self.files@),
                wanted@ == name@,
                symbols_view(out@) == graph_symbols(fv, name@, f as int),
            decreases self.files@.len() - f,
        {
            let structure = &self.files[f].1;
            let ghost sv = structure@;
            let mut local: Vec<SymbolSignature> = Vec::new();
            let mut k: usize = 0;
            assert(symbols_view(local@) =~= Seq::<SymbolView>::empty());
            while k < structure.symbols.len()
                invariant
                    0 <= k <= structure.symbols@.len(),
                    sv == structure@,
                    wanted@ == name@,
                    symbols_view(local@) == symbols_named(sv.symbols, name@, k as int),
                decreases structure.symbols@.len() - k,
            {
                if structure.symbols[k].name == wanted {
                    let ghost before = local@;
                    local.push(structure.symbols[k].duplicate());
                    assert(symbols_view(local@) =~= symbols_view(before).push(structure.symbols@[k as int]@));
                }
                k = k + 1;
            }
            let ghost base = symbols_view(local@);
            let mut e: usize = 0;
            while e < structure.exports.len()
                invariant
                    0 <= e <= structure.exports@.len(),
                    sv == structure@,
                    wanted@ == name@,
                    base == symbols_named(sv.symbols, name@, sv.symbols.len() as int),
                    symbols_view(local@) == with_exports(base, sv.exports, name@, e as int),
                decreases structure.exports@.len() - e,
            {
                let export = &structure.exports[e];
                if export.name == wanted {
                    let mut present = false;
                    let mut j: usize = 0;
                    while j < local.len()
                        invariant
                            0 <= j <= local@.len(),
                            !present ==> forall|i: int| 0 <= i < j ==> !(#[trigger] symbols_view(local@)[i].name == export@.name
                                && symbols_view(local@)[i].kind == export@.kind),
                            present ==> has_same_symbol(symbols_view(local@), export@),
                        decreases local@.len() - j,
                    {
                        if local[j].name == export.name && local[j].kind == export.kind {
                            assert(symbols_view(local@)[j as int].name == export@.name);
                            present = true;
                        }
                        j = j + 1;
                    }
                    if !present {
                        let ghost before = local@;
                        local.push(export.duplicate());
                        assert(symbols_view(local@) =~= symbols_view(before).push(export@));
                    }
                }
                e = e + 1;
            }
            let ghost before_out = out@;
            let mut m: usize = 0;
            while m < local.len()
                invariant
                    0 <= m <= local@.len(),
                    symbols_view(out@) == symbols_view(before_out) + symbols_view(local@).take(m as int),
                decreases local@.len() - m,
            {
                let ghost prev = out@;
                out.push(local[m].duplicate());
                assert(symbols_view(out@) =~= symbols_view(prev).push(local@[m as int]@));
                assert(symbols_view(local@).take(m + 1) =~= symbols_view(local@).take(m as int).push(local@[m as int]@));
                m = m + 1;
            }
            proof {
                assert(symbols_view(local@).take(local@.len() as int) =~= symbols_view(local@));
                assert(fv[f as int].1 == sv);
            }
            f = f + 1;
        }
        out
    }
}

proof fn lemma_lookup_put<V>(e: Seq<(Seq<char>, V)>, k: Seq<char>, v: V)
    ensures
        lookup(put(e, k, v), k) == Some(v),
{
    lemma_key_index(keys_of(e), k, 0);
    let e2 = put(e, k, v);
    lemma_key_index(keys_of(e2), k, 0);
    match key_index(keys_of(e), k, 0) {
        Some(i) => {
            assert(keys_of(e2) =~= keys_of(e));
        },
        None => {
            assert(keys_of(e2) =~= keys_of(e).push(k));
            assert(keys_of(e2)[e.len() as int] == k);
        },
    }
}

/// Adding a file whose code hashes as before leaves the graph as the first
/// addition left it, whatever structure comes with it.
pub proof fn lemma_readd_same_code_keeps_graph(
    g: GraphView,
    key: Seq<char>,
    h: u64,
    first: FileStructureView,
    again: FileStructureView,
)
    ensures
        graph_after_add(graph_after_add(g, key, h, first), key, h, again) == graph_after_add(g, key, h, first),
{
    lemma_lookup_put(g.cache, key, h);
}

/// After adding a file, the graph holds a structure for its path: the one
/// added, unless the cache already held the hash of its code.
pub proof fn lemma_added_file_is_found(g: GraphView, key: Seq<char>, h: u64, s: FileStructureView)
    ensures
        lookup(g.cache, key) == Some(h) ==> graph_after_add(g, key, h, s) == g,
        lookup(g.cache, key) != Some(h) ==> lookup(graph_after_add(g, key, h, s).files, key) == Some(s),
{
    lemma_lookup_put(g.files, key, s);
}

/// The graph after adding, one after the other, each path, hash and
/// structure of `adds`.
pub open spec fn graph_after_adds(g: GraphView, adds: Seq<(Seq<char>, u64, FileStructureView)>) -> GraphView
    decreases adds.len(),
{
    if adds.len() == 0 {
        g
    } else {
        let a = adds.last();
        graph_after_add(graph_after_adds(g, adds.drop_last()), a.0, a.1, a.2)
    }
}

proof fn lemma_put_keys<V>(e: Seq<(Seq<char>, V)>, k: Seq<char>, v: V)
    ensures
        forall|p: Seq<char>| #[trigger] keys_of(put(e, k, v)).contains(p) <==> (keys_of(e).contains(p) || p == k),
{
    lemma_key_index(keys_of(e), k, 0);
    match key_index(keys_of(e), k, 0) {
        Some(i) => {
            assert(keys_of(put(e, k, v)) =~= keys_of(e));
            assert(keys_of(e)[i] == k);
            assert(keys_of(e).contains(k));
            assert forall|p: Seq<char>| keys_of(put(e, k, v)).contains(p) <==> (keys_of(e).contains(p) || p == k) by {
                assert(keys_of(put(e, k, v)) == keys_of(e));
                if p == k {
                    assert(keys_of(e)[i] == p);
                }
            }
        },
        None => {
            assert(keys_of(put(e, k, v)) =~= keys_of(e).push(k));
            assert forall|p: Seq<char>| keys_of(put(e, k, v)).contains(p) <==> (keys_of(e).contains(p) || p == k) by {
                if p == k {
                    assert(keys_of(put(e, k, v))[e.len() as int] == k);
                }
                if keys_of(e).contains(p) {
                    let j = choose|j: int| 0 <= j < keys_of(e).len() && keys_of(e)[j] == p;
                    assert(keys_of(put(e, k, v))[j] == p);
                }
                if keys_of(put(e, k, v)).contains(p) {
                    let j = choose|j: int| 0 <= j < keys_of(put(e, k, v)).len() && keys_of(put(e, k, v))[j] == p;
                    if j < e.len() {
                        assert(keys_of(e)[j] == p);
                        assert(keys_of(e).contains(p));
                    } else {
                        assert(j == e.len());
                        assert(keys_of(put(e, k, v))[j] == k);
                    }
                }
            }
        },
    }
}

proof fn lemma_lookup_put_other<V>(e: Seq<(Seq<char>, V)>, k: Seq<char>, v: V, other: Seq<char>)
    requires
        other != k,
    ensures
        lookup(put(e, k, v), other) == lookup(e, other),
{
    let e2 = put(e, k, v);
    lemma_key_index(keys_of(e), k, 0);
    lemma_key_index(keys_of(e), other, 0);
    lemma_key_index(keys_of(e2), other, 0);
    match key_index(keys_of(e), k, 0) {
        Some(i) => {
            assert(keys_of(e2) =~= keys_of(e));
        },
        None => {
            assert(keys_of(e2) =~= keys_of(e).push(k));
            match key_index(keys_of(e), other, 0) {
                Some(j) => {
                    assert(keys_of(e2)[j] == other);
                    assert(e2[j] == e[j]);
                },
                None => {
                    assert(forall|q: int| 0 <= q < keys_of(e2).len() ==> keys_of(e2)[q] != other);
                },
            }
        },
    }
}

proof fn lemma_lookup_some_contains<V>(e: Seq<(Seq<char>, V)>, k: Seq<char>)
    requires
        lookup(e, k) is Some,
    ensures
        keys_of(e).contains(k),
{
    lemma_key_index(keys_of(e), k, 0);
    let i = key_index(keys_of(e), k, 0).unwrap();
    assert(keys_of(e)[i] == k);
}

/// Every path whose hash is cached has a recorded structure.
pub open spec fn cached_are_recorded(g: GraphView) -> bool {
    forall|p: Seq<char>| keys_of(g.cache).contains(p) ==> keys_of(g.files).contains(p)
}

proof fn lemma_adds_record(g: GraphView, adds: Seq<(Seq<char>, u64, FileStructureView)>)
    requires
        cached_are_recorded(g),
    ensures
        cached_are_recorded(graph_after_adds(g, adds)),
        forall|p: Seq<char>|
            keys_of(graph_after_adds(g, adds).files).contains(p) <==> (keys_of(g.files).contains(p) || exists|i: int|
                0 <= i < adds.len() && (#[trigger] adds[i]).0 == p),
    decreases adds.len(),
{
    if adds.len() > 0 {
        let init = adds.drop_last();
        let a = adds.last();
        lemma_adds_record(g, init);
        let g1 = graph_after_adds(g, init);
        let g2 = graph_after_adds(g, adds);
        assert(g2 == graph_after_add(g1, a.0, a.1, a.2));
        if lookup(g1.cache, a.0) == Some(a.1) {
            lemma_lookup_some_contains(g1.cache, a.0);
            assert(g2 == g1);
            assert(keys_of(g1.files).contains(a.0));
        } else {
            lemma_put_keys(g1.files, a.0, a.2);
            lemma_put_keys(g1.cache, a.0, a.1);
            assert(g2.files == put(g1.files, a.0, a.2));
            assert(g2.cache == put(g1.cache, a.0, a.1));
            assert forall|p: Seq<char>| keys_of(g2.cache).contains(p) implies keys_of(g2.files).contains(p) by {
                assert(keys_of(put(g1.cache, a.0, a.1)).contains(p));
                if p != a.0 {
                    assert(keys_of(g1.cache).contains(p));
                    assert(keys_of(g1.files).contains(p));
                }
                assert(keys_of(put(g1.files, a.0, a.2)).contains(p));
            }
        }
        assert(cached_are_recorded(g2));
        assert forall|p: Seq<char>| #[trigger] keys_of(g2.files).contains(p) <==> (keys_of(g1.files).contains(p) || p == a.0) by {
            if lookup(g1.cache, a.0) != Some(a.1) {
                assert(keys_of(put(g1.files, a.0, a.2)).contains(p) <==> (keys_of(g1.files).contains(p) || p == a.0));
            }
        }
        assert forall|p: Seq<char>|
            keys_of(g2.files).contains(p) <==> (keys_of(g.files).contains(p) || exists|i: int|
                0 <= i < adds.len() && (#[trigger] adds[i]).0 == p) by {
            assert(adds[adds.len() - 1] == a);
            if exists|i: int| 0 <= i < init.len() && (#[trigger] init[i]).0 == p {
                let i = choose|i: int| 0 <= i < init.len() && (#[trigger] init[i]).0 == p;
                assert(adds[i] == init[i]);
            }
            if exists|i: int| 0 <= i < adds.len() && (#[trigger] adds[i]).0 == p {
                let i = choose|i: int| 0 <= i < adds.len() && (#[trigger] adds[i]).0 == p;
                if i < init.len() {
                    assert(init[i] == adds[i]);
                } else {
                    assert(p == a.0);
                }
            }
        }
    }
}

/// From a graph just made or cleared, the recorded paths are exactly the
/// paths added since: `get_all_files` then lists each of them once, in
/// ascending order.
pub proof fn lemma_recorded_paths_are_the_added_ones(g: GraphView, adds: Seq<(Seq<char>, u64, FileStructureView)>)
    requires
        g.files.len() == 0,
        g.cache.len() == 0,
    ensures
        forall|p: Seq<char>|
            keys_of(graph_after_adds(g, adds).files).contains(p) <==> exists|i: int|
                0 <= i < adds.len() && (#[trigger] adds[i]).0 == p,
{
    assert(keys_of(g.files) =~= Seq::<Seq<char>>::empty());
    assert(keys_of(g.cache) =~= Seq::<Seq<char>>::empty());
    lemma_adds_record(g, adds);
    assert forall|p: Seq<char>|
        keys_of(graph_after_adds(g, adds).files).contains(p) <==> exists|i: int|
            0 <= i < adds.len() && (#[trigger] adds[i]).0 == p by {
        assert(!keys_of(g.files).contains(p));
    }
}

proof fn lemma_others_keep_cached(g: GraphView, k: Seq<char>, h: u64, others: Seq<(Seq<char>, u64, FileStructureView)>)
    requires
        lookup(g.cache, k) == Some(h),
        forall|i: int| 0 <= i < others.len() ==> (#[trigger] others[i]).0 != k,
    ensures
        lookup(graph_after_adds(g, others).cache, k) == Some(h),
    decreases others.len(),
{
    if others.len() > 0 {
        let init = others.drop_last();
        assert forall|i: int| 0 <= i < init.len() implies (#[trigger] init[i]).0 != k by {
            assert(init[i] == others[i]);
        }
        lemma_others_keep_cached(g, k, h, init);
        let g1 = graph_after_adds(g, init);
        let a = others.last();
        assert(others[others.len() - 1] == a);
        if lookup(g1.cache, a.0) != Some(a.1) {
            lemma_lookup_put_other(g1.cache, a.0, a.1, k);
        }
    }
}

/// Adding the code of a path again leaves the graph unchanged, whatever
/// other paths were added in between, as long as none of them was this
/// path.
pub proof fn lemma_readd_after_other_paths(
    g: GraphView,
    key: Seq<char>,
    h: u64,
    first: FileStructureView,
    others: Seq<(Seq<char>, u64, FileStructureView)>,
    again: FileStructureView,
)
    requires
        forall|i: int| 0 <= i < others.len() ==> (#[trigger] others[i]).0 != key,
    ensures
        ({
            let g2 = graph_after_adds(graph_after_add(g, key, h, first), others);
            graph_after_add(g2, key, h, again) == g2
        }),
{
    let g1 = graph_after_add(g, key, h, first);
    if lookup(g.cache, key) != Some(h) {
        lemma_lookup_put(g.cache, key, h);
    }
    lemma_others_keep_cached(g1, key, h, others);
}

} // verus!
