//! The analysis of one file: its imports and exports, the symbols it
//! declares, the calls between its functions, and lint issues. oxc parses
//! and checks the source here; its tree reaches this module as plain
//! descriptions of the statements and declarations it holds.
use vstd::prelude::*;
use vstd::string::StringSliceAdditionalSpecFns;
use crate::line_index::{compute_line_starts, is_sorted, line_col_of, line_starts_of, offset_to_line_col};
use crate::paths::strings_view;
use crate::project_graph::{
    dependencies_view, duplicate_strings, edges_view, exports_view, issues_view, symbols_view,
    AnalysisResult, CallEdge, CallEdgeView, CallGraph, DependencyInfo, DependencyView, ExportInfo,
    ExportView, FileStructure, FileStructureView, IssueView, LintIssue, SymbolSignature, SymbolView,
};
use oxc::allocator::Allocator;
use oxc::parser::Parser;
use oxc::semantic::SemanticBuilder;
use oxc::span::SourceType;
use crate::source_tree::{oxc_node_details, oxc_semantic_nodes, statements_are, top_level_statements};
use crate::text::{append_decimal, append_text, chars_of, char_is_whitespace, decimal, spec_is_whitespace, string_from_chars};

verus! {

// ---------------------------------------------------------------------------
// Descriptions of the parsed file
// ---------------------------------------------------------------------------

/// One binding of an import statement.
#[derive(Debug)]
pub enum ImportSpecifierModel {
    /// `{ name }` or `{ other as name }`: the local name.
    Named(String),
    /// `name` as the default import.
    Default(String),
    /// `* as name`.
    Namespace(String),
}

/// An import statement: the module it names, its bindings (none for a
/// side-effect import), whether it imports types only, and the byte offset
/// where it starts.
#[derive(Debug)]
pub struct ImportModel {
    pub source: String,
    pub specifiers: Option<Vec<ImportSpecifierModel>>,
    pub type_only: bool,
    pub start: usize,
}

/// The declaration of an `export` statement.
#[derive(Debug)]
pub enum DeclarationModel {
    Function { name: Option<String> },
    Class { name: Option<String> },
    /// One entry per declarator: its name where it binds a plain identifier.
    Variable { names: Vec<Option<String>> },
    Interface { id: String },
    TypeAlias { id: String },
    Other,
}

/// What `export default` exports.
#[derive(Debug)]
pub enum DefaultExportModel {
    Function { name: Option<String> },
    Class { name: Option<String> },
    Interface { id: String },
    Other,
}

/// One name of an `export { .. }` list: the exported name and whether it
/// is exported as a type only.
#[derive(Debug)]
pub struct ExportSpecifierModel {
    pub exported: String,
    pub type_only: bool,
}

/// A top-level statement, as far as imports and exports are concerned.
/// Each export form carries the byte offset where the statement starts.
#[derive(Debug)]
pub enum StatementModel {
    Import(ImportModel),
    /// `export <declaration>` or `export { .. }` (from a module or not).
    ExportNamed { start: usize, declaration: Option<DeclarationModel>, specifiers: Vec<ExportSpecifierModel> },
    ExportDefault { start: usize, declaration: DefaultExportModel },
    /// `export * from ..` or `export * as name from ..`.
    ExportAll { start: usize, exported: Option<String>, type_only: bool },
    Other,
}

// ---------------------------------------------------------------------------
// Locations
// ---------------------------------------------------------------------------

/// Line starts that `offset_to_line_col` accepts: at least one, in order.
pub open spec fn valid_line_starts(starts: Seq<usize>) -> bool {
    starts.len() >= 1 && is_sorted(starts)
}

/// The location recorded for a node starting at byte `offset`.
pub open spec fn location_at(offset: usize, starts: Seq<usize>) -> Option<(usize, usize)> {
    Some(line_col_of(offset, starts))
}

fn location(offset: usize, line_starts: &[usize]) -> (res: Option<(usize, usize)>)
    requires
        valid_line_starts(line_starts@),
    ensures
        res == location_at(offset, line_starts@),
{
    Some(offset_to_line_col(offset, line_starts))
}

// ---------------------------------------------------------------------------
// Imports
// ---------------------------------------------------------------------------

/// The text recorded for an import binding: its local name, with `* as `
/// before a namespace binding.
pub open spec fn specifier_text(s: ImportSpecifierModel) -> Seq<char> {
    match s {
        ImportSpecifierModel::Named(n) => n@,
        ImportSpecifierModel::Default(n) => n@,
        ImportSpecifierModel::Namespace(n) => "* as "@ + n@,
    }
}

/// The texts of a list of import bindings.
pub open spec fn specifier_texts(v: Seq<ImportSpecifierModel>) -> Seq<Seq<char>> {
    v.map_values(|s: ImportSpecifierModel| specifier_text(s))
}

/// The dependency an import statement records.
pub open spec fn import_view(i: ImportModel, starts: Seq<usize>) -> DependencyView {
    DependencyView {
        source: i.source@,
        kind: "import"@,
        specifiers: match i.specifiers {
            Some(v) => specifier_texts(v@),
            None => Seq::empty(),
        },
        is_type_only: i.type_only,
        location: location_at(i.start, starts),
    }
}

/// The dependency recorded for an import statement.
pub fn extract_import(import: &ImportModel, line_starts: &[usize]) -> (res: DependencyInfo)
    requires
        valid_line_starts(line_starts@),
    ensures
        res@ == import_view(*import, line_starts@),
{
    let mut specifiers: Vec<String> = Vec::new();
    match &import.specifiers {
        Some(list) => {
            let mut k: usize = 0;
            while k < list.len()
                invariant
                    0 <= k <= list@.len(),
                    strings_view(specifiers@) == specifier_texts(list@.take(k as int)),
                decreases list@.len() - k,
            {
                let text = match &list[k] {
                    ImportSpecifierModel::Named(n) => n.clone(),
                    ImportSpecifierModel::Default(n) => n.clone(),
                    ImportSpecifierModel::Namespace(n) => {
                        let mut t = "* as ".to_owned();
                        append_text(&mut t, n.as_str());
                        t
                    },
                };
                let ghost before = specifiers@;
                specifiers.push(text);
                assert(strings_view(specifiers@) =~= strings_view(before).push(specifier_text(list@[k as int])));
                assert(specifier_texts(list@.take(k + 1)) =~= specifier_texts(list@.take(k as int)).push(
                    specifier_text(list@[k as int]),
                ));
                k = k + 1;
            }
            assert(list@.take(list@.len() as int) =~= list@);
        },
        None => {
            assert(strings_view(specifiers@) =~= Seq::<Seq<char>>::empty());
        },
    }
    DependencyInfo {
        source: import.source.clone(),
        kind: "import".to_owned(),
        specifiers,
        is_type_only: import.type_only,
        location: location(import.start, line_starts),
    }
}

// ---------------------------------------------------------------------------
// Exports
// ---------------------------------------------------------------------------

pub open spec fn export_view(name: Seq<char>, kind: Seq<char>, loc: Option<(usize, usize)>) -> ExportView {
    ExportView { name, kind, location: loc }
}

/// The exports of the declarators of `export const/let/var`, in order: one
/// per declarator that binds a plain identifier.
pub open spec fn variable_exports(names: Seq<Option<String>>, loc: Option<(usize, usize)>) -> Seq<ExportView>
    decreases names.len(),
{
    if names.len() == 0 {
        Seq::empty()
    } else {
        variable_exports(names.drop_last(), loc) + match names.last() {
            Some(n) => seq![export_view(n@, "variable"@, loc)],
            None => Seq::empty(),
        }
    }
}

/// The exports of an exported declaration.
pub open spec fn declaration_exports(d: DeclarationModel, loc: Option<(usize, usize)>) -> Seq<ExportView> {
    match d {
        DeclarationModel::Function { name } => match name {
            Some(n) => seq![export_view(n@, "function"@, loc)],
            None => Seq::empty(),
        },
        DeclarationModel::Class { name } => match name {
            Some(n) => seq![export_view(n@, "class"@, loc)],
            None => Seq::empty(),
        },
        DeclarationModel::Variable { names } => variable_exports(names@, loc),
        DeclarationModel::Interface { id } => seq![export_view(id@, "interface"@, loc)],
        DeclarationModel::TypeAlias { id } => seq![export_view(id@, "type"@, loc)],
        DeclarationModel::Other => Seq::empty(),
    }
}

/// `type` for a name exported as a type only, `value` otherwise.
pub open spec fn value_or_type(type_only: bool) -> Seq<char> {
    if type_only {
        "type"@
    } else {
        "value"@
    }
}

/// The exports of an `export { .. }` list, in order.
pub open spec fn specifier_exports(v: Seq<ExportSpecifierModel>, loc: Option<(usize, usize)>) -> Seq<ExportView> {
    v.map_values(|s: ExportSpecifierModel| export_view(s.exported@, value_or_type(s.type_only), loc))
}

/// The name and kind that `export default` records.
pub open spec fn default_export(d: DefaultExportModel) -> (Seq<char>, Seq<char>) {
    match d {
        DefaultExportModel::Function { name } => (
            match name {
                Some(n) => n@,
                None => "default"@,
            },
            "function"@,
        ),
        DefaultExportModel::Class { name } => (
            match name {
                Some(n) => n@,
                None => "default"@,
            },
            "class"@,
        ),
        DefaultExportModel::Interface { id } => (id@, "interface"@),
        DefaultExportModel::Other => ("default"@, "value"@),
    }
}

/// The name that `export * ..` records: the namespace name, or `*`.
pub open spec fn export_all_name(exported: Option<String>) -> Seq<char> {
    match exported {
        Some(n) => n@,
        None => "*"@,
    }
}

/// The exports a top-level statement records, in order.
pub open spec fn statement_exports(stmt: StatementModel, starts: Seq<usize>) -> Seq<ExportView> {
    match stmt {
        StatementModel::ExportNamed { start, declaration, specifiers } => {
            let loc = location_at(start, starts);
            (match declaration {
                Some(d) => declaration_exports(d, loc),
                None => Seq::empty(),
            }) + specifier_exports(specifiers@, loc)
        },
        StatementModel::ExportDefault { start, declaration } => {
            let (name, kind) = default_export(declaration);
            seq![export_view(name, kind, location_at(start, starts))]
        },
        StatementModel::ExportAll { start, exported, type_only } => seq![
            export_view(export_all_name(exported), value_or_type(type_only), location_at(start, starts)),
        ],
        _ => Seq::empty(),
    }
}

/// The signature recorded for an exported name of the given kind.
pub open spec fn exported_signature_view(name: Seq<char>, kind: Seq<char>, loc: Option<(usize, usize)>) -> SymbolView {
    SymbolView {
        name,
        kind,
        params: Seq::empty(),
        return_type: None,
        type_params: Seq::empty(),
        exported: true,
        location: loc,
        jsdoc: None,
    }
}

/// The signatures a top-level statement records: one per export, of the
/// export's kind, but `re-export` for `export * ..`.
pub open spec fn statement_signatures(stmt: StatementModel, starts: Seq<usize>) -> Seq<SymbolView> {
    match stmt {
        StatementModel::ExportAll { start, exported, type_only } => seq![
            exported_signature_view(export_all_name(exported), "re-export"@, location_at(start, starts)),
        ],
        _ => statement_exports(stmt, starts).map_values(
            |e: ExportView| exported_signature_view(e.name, e.kind, e.location),
        ),
    }
}

fn push_export(out: &mut Vec<ExportInfo>, name: String, kind: &str, loc: Option<(usize, usize)>)
    ensures
        exports_view(final(out)@) == exports_view(old(out)@).push(export_view(name@, kind@, loc)),
{
    let ghost before = out@;
    out.push(ExportInfo { name, kind: kind.to_owned(), location: loc });
    assert(exports_view(out@) =~= exports_view(before).push(export_view(name@, kind@, loc)));
}

fn exported_signature(name: String, kind: String, loc: Option<(usize, usize)>) -> (res: SymbolSignature)
    ensures
        res@ == exported_signature_view(name@, kind@, loc),
{
    let res = SymbolSignature {
        name,
        kind,
        params: Vec::new(),
        return_type: None,
        type_params: Vec::new(),
        exported: true,
        location: loc,
        jsdoc: None,
    };
    assert(strings_view(res.params@) =~= Seq::<Seq<char>>::empty());
    assert(strings_view(res.type_params@) =~= Seq::<Seq<char>>::empty());
    res
}

/// Appends the exports of an exported declaration.
fn push_declaration_exports(declaration: &DeclarationModel, loc: Option<(usize, usize)>, out: &mut Vec<ExportInfo>)
    ensures
        exports_view(final(out)@) == exports_view(old(out)@) + declaration_exports(*declaration, loc),
{
    let ghost before = exports_view(out@);
    match declaration {
        DeclarationModel::Function { name } => {
            if let Some(n) = name {
                push_export(out, n.clone(), "function", loc);
            }
        },
        DeclarationModel::Class { name } => {
            if let Some(n) = name {
                push_export(out, n.clone(), "class", loc);
            }
        },
        DeclarationModel::Variable { names } => {
            let mut k: usize = 0;
            while k < names.len()
                invariant
                    0 <= k <= names@.len(),
                    exports_view(out@) == before + variable_exports(names@.take(k as int), loc),
                decreases names@.len() - k,
            {
                assert(names@.take(k + 1).drop_last() =~= names@.take(k as int));
                if let Some(n) = &names[k] {
                    push_export(out, n.clone(), "variable", loc);
                }
                k = k + 1;
            }
            assert(names@.take(names@.len() as int) =~= names@);
        },
        DeclarationModel::Interface { id } => {
            push_export(out, id.clone(), "interface", loc);
        },
        DeclarationModel::TypeAlias { id } => {
            push_export(out, id.clone(), "type", loc);
        },
        DeclarationModel::Other => {},
    }
    assert(exports_view(out@) =~= before + declaration_exports(*declaration, loc));
}

/// Appends the exports and the signatures that a top-level statement
/// records (nothing for a statement that exports nothing).
pub fn extract_exports(
    stmt: &StatementModel,
    line_starts: &[usize],
    exports: &mut Vec<ExportInfo>,
    signatures: &mut Vec<SymbolSignature>,
)
    requires
        valid_line_starts(line_starts@),
    ensures
        exports_view(final(exports)@) == exports_view(old(exports)@) + statement_exports(*stmt, line_starts@),
        symbols_view(final(signatures)@) == symbols_view(old(signatures)@) + statement_signatures(
            *stmt,
            line_starts@,
        ),
{
    let ghost old_exports = exports_view(exports@);
    let ghost old_signatures = symbols_view(signatures@);
    let mut found: Vec<ExportInfo> = Vec::new();
    match stmt {
        StatementModel::ExportNamed { start, declaration, specifiers } => {
            let loc = location(*start, line_starts);
            if let Some(d) = declaration {
                push_declaration_exports(d, loc, &mut found);
            }
            let ghost head = exports_view(found@);
            let mut k: usize = 0;
            while k < specifiers.len()
                invariant
                    0 <= k <= specifiers@.len(),
                    exports_view(found@) == head + specifier_exports(specifiers@.take(k as int), loc),
                decreases specifiers@.len() - k,
            {
                let s = &specifiers[k];
                let kind = if s.type_only {
                    "type"
                } else {
                    "value"
                };
                push_export(&mut found, s.exported.clone(), kind, loc);
                assert(specifier_exports(specifiers@.take(k + 1), loc) =~= specifier_exports(
                    specifiers@.take(k as int),
                    loc,
                ).push(export_view(s.exported@, value_or_type(s.type_only), loc)));
                k = k + 1;
            }
            assert(specifiers@.take(specifiers@.len() as int) =~= specifiers@);
            assert(exports_view(found@) =~= statement_exports(*stmt, line_starts@));
        },
        StatementModel::ExportDefault { start, declaration } => {
            let loc = location(*start, line_starts);
            let (name, kind) = match declaration {
                DefaultExportModel::Function { name } => (
                    match name {
                        Some(n) => n.clone(),
                        None => "default".to_owned(),
                    },
                    "function",
                ),
                DefaultExportModel::Class { name } => (
                    match name {
                        Some(n) => n.clone(),
                        None => "default".to_owned(),
                    },
                    "class",
                ),
                DefaultExportModel::Interface { id } => (id.clone(), "interface"),
                DefaultExportModel::Other => ("default".to_owned(), "value"),
            };
            push_export(&mut found, name, kind, loc);
            assert(exports_view(found@) =~= statement_exports(*stmt, line_starts@));
        },
        StatementModel::ExportAll { start, exported, type_only } => {
            let loc = location(*start, line_starts);
            let name = match exported {
                Some(n) => n.clone(),
                None => "*".to_owned(),
            };
            let kind = if *type_only {
                "type"
            } else {
                "value"
            };
            let sig_name = name.clone();
            push_export(exports, name, kind, loc);
            let ghost before_s = symbols_view(signatures@);
            signatures.push(exported_signature(sig_name, "re-export".to_owned(), loc));
            assert(symbols_view(signatures@) =~= before_s.push(
                exported_signature_view(export_all_name(*exported), "re-export"@, loc),
            ));
            assert(exports_view(exports@) =~= old_exports + statement_exports(*stmt, line_starts@));
            assert(symbols_view(signatures@) =~= old_signatures + statement_signatures(*stmt, line_starts@));
            return;
        },
        _ => {
            assert(exports_view(found@) =~= statement_exports(*stmt, line_starts@));
        },
    }
    // Record each export found, then its signature.
    let ghost found_view = exports_view(found@);
    let mut k: usize = 0;
    while k < found.len()
        invariant
            0 <= k <= found@.len(),
            found_view == exports_view(found@),
            found_view == statement_exports(*stmt, line_starts@),
            !(stmt is ExportAll),
            exports_view(exports@) == old_exports + found_view.take(k as int),
            symbols_view(signatures@) == old_signatures + found_view.take(k as int).map_values(
                |e: ExportView| exported_signature_view(e.name, e.kind, e.location),
            ),
        decreases found@.len() - k,
    {
        let e = &found[k];
        let ghost ev = found_view[k as int];
        assert(ev == e@);
        let ghost before_e = exports_view(exports@);
        let ghost before_s = symbols_view(signatures@);
        exports.push(ExportInfo { name: e.name.clone(), kind: e.kind.clone(), location: e.location });
        signatures.push(exported_signature(e.name.clone(), e.kind.clone(), e.location));
        assert(exports_view(exports@) =~= before_e.push(ev));
        assert(symbols_view(signatures@) =~= before_s.push(exported_signature_view(ev.name, ev.kind, ev.location)));
        assert(found_view.take(k + 1) =~= found_view.take(k as int).push(ev));
        k = k + 1;
    }
    assert(found_view.take(found_view.len() as int) =~= found_view);
}

// ---------------------------------------------------------------------------
// Text helpers
// ---------------------------------------------------------------------------

/// `s` without its leading whitespace.
pub open spec fn trim_start(s: Seq<char>) -> Seq<char>
    decreases s.len(),
{
    if s.len() > 0 && spec_is_whitespace(s[0]) {
        trim_start(s.drop_first())
    } else {
        s
    }
}

/// `s` without its trailing whitespace.
pub open spec fn trim_end(s: Seq<char>) -> Seq<char>
    decreases s.len(),
{
    if s.len() > 0 && spec_is_whitespace(s.last()) {
        trim_end(s.drop_last())
    } else {
        s
    }
}

/// `s` without leading and trailing whitespace, as `str::trim` gives it.
pub open spec fn trimmed(s: Seq<char>) -> Seq<char> {
    trim_end(trim_start(s))
}

/// The text without its leading and trailing whitespace.
pub fn trim_text(text: &str) -> (res: String)
    ensures
        res@ == trimmed(text@),
{
    let chars = chars_of(text);
    let n = chars.len();
    let mut i: usize = 0;
    assert(text@.subrange(0, n as int) =~= text@);
    while i < n && char_is_whitespace(chars[i])
        invariant
            0 <= i <= n,
            n == chars@.len(),
            chars@ == text@,
            trim_start(text@) == trim_start(text@.subrange(i as int, n as int)),
        decreases n - i,
    {
        assert(text@.subrange(i as int, n as int).drop_first() =~= text@.subrange(i + 1, n as int));
        i = i + 1;
    }
    assert(trim_start(text@.subrange(i as int, n as int)) == text@.subrange(i as int, n as int));
    let mut j: usize = n;
    while j > i && char_is_whitespace(chars[j - 1])
        invariant
            0 <= i <= j <= n,
            n == chars@.len(),
            chars@ == text@,
            trim_start(text@) == text@.subrange(i as int, n as int),
            trim_end(text@.subrange(i as int, n as int)) == trim_end(text@.subrange(i as int, j as int)),
        decreases j - i,
    {
        assert(text@.subrange(i as int, j as int).drop_last() =~= text@.subrange(i as int, j - 1));
        j = j - 1;
    }
    assert(trim_end(text@.subrange(i as int, j as int)) == text@.subrange(i as int, j as int));
    string_from_chars(&chars, i, j)
}

// ---------------------------------------------------------------------------
// The walk over declarations and calls
// ---------------------------------------------------------------------------

/// A function declaration or expression: its name where it has one, one
/// entry per parameter (its name where it binds a plain identifier), the
/// source text of its return type annotation, the names of its type
/// parameters, and the byte offset where it starts.
#[derive(Debug)]
pub struct FunctionModel {
    pub name: Option<String>,
    pub params: Vec<Option<String>>,
    pub return_type: Option<String>,
    pub type_params: Vec<String>,
    pub start: usize,
}

/// A method of a class: its key's name where it has a static one, its
/// parameters and return type annotation as for a function, and where it
/// starts.
#[derive(Debug)]
pub struct MethodModel {
    pub key: Option<String>,
    pub params: Vec<Option<String>>,
    pub return_type: Option<String>,
    pub start: usize,
}

/// The callee of a call: an identifier, a member access (its object, and
/// its property's name where it is static), or anything else.
#[derive(Debug)]
pub enum CalleeModel {
    Identifier(String),
    Member { object: Box<CalleeModel>, property: Option<String> },
    Other,
}

/// The name of a callee: an identifier's name, or `object.property` with
/// `<expr>` for an object without a name and `<computed>` for a property
/// without a static name.
pub open spec fn callee_text(c: CalleeModel) -> Option<Seq<char>>
    decreases c,
{
    match c {
        CalleeModel::Identifier(n) => Some(n@),
        CalleeModel::Member { object, property } => {
            let object_text = match callee_text(*object) {
                Some(t) => t,
                None => "<expr>"@,
            };
            let property_text = match property {
                Some(p) => p@,
                None => "<computed>"@,
            };
            Some(object_text + "."@ + property_text)
        },
        CalleeModel::Other => None,
    }
}

/// The callee is a member of the identifier `console`.
pub open spec fn is_console_member(c: CalleeModel) -> bool {
    match c {
        CalleeModel::Member { object, property: _ } => match *object {
            CalleeModel::Identifier(n) => n@ == "console"@,
            _ => false,
        },
        _ => false,
    }
}

/// The name of a callee, as `callee_text` states.
pub fn expression_name(callee: &CalleeModel) -> (res: Option<String>)
    ensures
        match res {
            Some(s) => callee_text(*callee) == Some(s@),
            None => callee_text(*callee) is None,
        },
    decreases callee,
{
    match callee {
        CalleeModel::Identifier(n) => Some(n.clone()),
        CalleeModel::Member { object, property } => {
            let mut out = match expression_name(object) {
                Some(t) => t,
                None => "<expr>".to_owned(),
            };
            append_text(&mut out, ".");
            match property {
                Some(p) => append_text(&mut out, p.as_str()),
                None => append_text(&mut out, "<computed>"),
            }
            Some(out)
        },
        CalleeModel::Other => None,
    }
}

fn console_member(callee: &CalleeModel) -> (res: bool)
    ensures
        res == is_console_member(*callee),
{
    match callee {
        CalleeModel::Member { object, property: _ } => match &**object {
            CalleeModel::Identifier(n) => {
                let console = "console".to_owned();
                *n == console
            },
            _ => false,
        },
        _ => false,
    }
}

/// Mathematical value of an analyzer: the line starts of the source, what
/// it has recorded, and the names of the functions and classes it is in.
#[verifier::ext_equal]
pub struct AnalyzerView {
    pub line_starts: Seq<usize>,
    pub symbols: Seq<SymbolView>,
    pub classes: Seq<SymbolView>,
    pub interfaces: Seq<SymbolView>,
    pub type_aliases: Seq<SymbolView>,
    pub call_edges: Seq<CallEdgeView>,
    pub lint_issues: Seq<IssueView>,
    pub function_stack: Seq<Seq<char>>,
    pub class_stack: Seq<Seq<char>>,
}

/// The analyzer of a source before the walk.
pub open spec fn initial_analyzer(source: Seq<u8>) -> AnalyzerView {
    AnalyzerView {
        line_starts: line_starts_of(source),
        symbols: Seq::empty(),
        classes: Seq::empty(),
        interfaces: Seq::empty(),
        type_aliases: Seq::empty(),
        call_edges: Seq::empty(),
        lint_issues: Seq::empty(),
        function_stack: seq!["<module>"@],
        class_stack: Seq::empty(),
    }
}

/// The innermost function the walk is in, or `<module>`.
pub open spec fn scope_name(v: AnalyzerView) -> Seq<char> {
    if v.function_stack.len() > 0 {
        v.function_stack.last()
    } else {
        "<module>"@
    }
}

/// A stack without its top, where it has one.
pub open spec fn popped(s: Seq<Seq<char>>) -> Seq<Seq<char>> {
    if s.len() > 0 {
        s.drop_last()
    } else {
        s
    }
}

/// The issue recorded for a `var` declaration.
pub open spec fn var_issue(loc: Option<(usize, usize)>) -> IssueView {
    IssueView {
        category: "best-practices"@,
        severity: "warning"@,
        message: "Avoid using 'var'. Use 'const' or 'let' instead."@,
        location: loc,
    }
}

/// The issue recorded for a call on `console`.
pub open spec fn console_issue(loc: Option<(usize, usize)>) -> IssueView {
    IssueView {
        category: "dev-code"@,
        severity: "warning"@,
        message: "Console statement detected. Remove in production code."@,
        location: loc,
    }
}

/// The names of the parameters that bind plain identifiers, in order.
pub open spec fn param_names(ps: Seq<Option<String>>) -> Seq<Seq<char>>
    decreases ps.len(),
{
    if ps.len() == 0 {
        Seq::empty()
    } else {
        param_names(ps.drop_last()) + match ps.last() {
            Some(n) => seq![n@],
            None => Seq::empty(),
        }
    }
}

/// An annotation's text, trimmed.
pub open spec fn trimmed_annotation(t: Option<String>) -> Option<Seq<char>> {
    match t {
        Some(s) => Some(trimmed(s@)),
        None => None,
    }
}

/// A signature with only a name, a kind and a location.
pub open spec fn plain_signature(name: Seq<char>, kind: Seq<char>, loc: Option<(usize, usize)>) -> SymbolView {
    SymbolView {
        name,
        kind,
        params: Seq::empty(),
        return_type: None,
        type_params: Seq::empty(),
        exported: false,
        location: loc,
        jsdoc: None,
    }
}

/// After a variable declaration: an issue where it is a `var` one.
pub open spec fn after_variable_declaration(v: AnalyzerView, is_var: bool, start: usize) -> AnalyzerView {
    if is_var {
        AnalyzerView { lint_issues: v.lint_issues.push(var_issue(location_at(start, v.line_starts))), ..v }
    } else {
        v
    }
}

/// The name recorded for a function: its own, or `<anonymous@LINE>`.
pub open spec fn function_name(name: Option<String>, start: usize, starts: Seq<usize>) -> Seq<char> {
    match name {
        Some(n) => n@,
        None => "<anonymous@"@ + decimal(line_col_of(start, starts).0 as nat) + ">"@,
    }
}

/// On entering a function: its signature is recorded and it becomes the
/// innermost function.
pub open spec fn after_enter_function(v: AnalyzerView, f: FunctionModel) -> AnalyzerView {
    let name = function_name(f.name, f.start, v.line_starts);
    let signature = SymbolView {
        name,
        kind: "function"@,
        params: param_names(f.params@),
        return_type: trimmed_annotation(f.return_type),
        type_params: strings_view(f.type_params@),
        exported: false,
        location: location_at(f.start, v.line_starts),
        jsdoc: None,
    };
    AnalyzerView { symbols: v.symbols.push(signature), function_stack: v.function_stack.push(name), ..v }
}

/// On leaving a function or a method.
pub open spec fn after_leave_function(v: AnalyzerView) -> AnalyzerView {
    AnalyzerView { function_stack: popped(v.function_stack), ..v }
}

/// The name recorded for a class: its own, or `<anonymous-class>`.
pub open spec fn class_name(name: Option<String>) -> Seq<char> {
    match name {
        Some(n) => n@,
        None => "<anonymous-class>"@,
    }
}

/// On entering a class: its signature is recorded as a class and a symbol,
/// and it becomes the innermost class.
pub open spec fn after_enter_class(v: AnalyzerView, name: Option<String>, start: usize) -> AnalyzerView {
    let signature = plain_signature(class_name(name), "class"@, location_at(start, v.line_starts));
    AnalyzerView {
        classes: v.classes.push(signature),
        symbols: v.symbols.push(signature),
        class_stack: v.class_stack.push(class_name(name)),
        ..v
    }
}

/// On leaving a class.
pub open spec fn after_leave_class(v: AnalyzerView) -> AnalyzerView {
    AnalyzerView { class_stack: popped(v.class_stack), ..v }
}

/// The name recorded for a method: `Class.key`, with `<class>` outside a
/// class and `<computed>` for a key without a static name.
pub open spec fn method_name(v: AnalyzerView, key: Option<String>) -> Seq<char> {
    let class = if v.class_stack.len() > 0 {
        v.class_stack.last()
    } else {
        "<class>"@
    };
    let method = match key {
        Some(k) => k@,
        None => "<computed>"@,
    };
    class + "."@ + method
}

/// On entering a method: its signature is recorded and it becomes the
/// innermost function.
pub open spec fn after_enter_method(v: AnalyzerView, m: MethodModel) -> AnalyzerView {
    let name = method_name(v, m.key);
    let signature = SymbolView {
        name,
        kind: "method"@,
        params: param_names(m.params@),
        return_type: trimmed_annotation(m.return_type),
        type_params: Seq::empty(),
        exported: false,
        location: location_at(m.start, v.line_starts),
        jsdoc: None,
    };
    AnalyzerView { symbols: v.symbols.push(signature), function_stack: v.function_stack.push(name), ..v }
}

/// At an interface: its signature is recorded as an interface and a symbol.
pub open spec fn after_interface(v: AnalyzerView, name: Seq<char>, type_params: Seq<Seq<char>>, start: usize) -> AnalyzerView {
    let signature = SymbolView {
        type_params,
        ..plain_signature(name, "interface"@, location_at(start, v.line_starts))
    };
    AnalyzerView { interfaces: v.interfaces.push(signature), symbols: v.symbols.push(signature), ..v }
}

/// At a type alias: its signature, with the trimmed aliased type as its
/// return type, is recorded as a type alias and a symbol.
pub open spec fn after_type_alias(
    v: AnalyzerView,
    name: Seq<char>,
    annotation: Seq<char>,
    type_params: Seq<Seq<char>>,
    start: usize,
) -> AnalyzerView {
    let signature = SymbolView {
        return_type: Some(trimmed(annotation)),
        type_params,
        ..plain_signature(name, "type"@, location_at(start, v.line_starts))
    };
    AnalyzerView { type_aliases: v.type_aliases.push(signature), symbols: v.symbols.push(signature), ..v }
}

/// At a call: an edge from the innermost function where the callee has a
/// name, then an issue where the callee is a member of `console`.
pub open spec fn after_call(v: AnalyzerView, callee: CalleeModel, start: usize) -> AnalyzerView {
    let loc = location_at(start, v.line_starts);
    let with_edge = match callee_text(callee) {
        Some(n) => AnalyzerView {
            call_edges: v.call_edges.push(CallEdgeView { caller: scope_name(v), callee: n, location: loc }),
            ..v
        },
        None => v,
    };
    if is_console_member(callee) {
        AnalyzerView { lint_issues: with_edge.lint_issues.push(console_issue(loc)), ..with_edge }
    } else {
        with_edge
    }
}

/// The names of the parameters that bind plain identifiers, in order.
fn param_list(params: &Vec<Option<String>>) -> (res: Vec<String>)
    ensures
        strings_view(res@) == param_names(params@),
{
    let mut out: Vec<String> = Vec::new();
    let mut k: usize = 0;
    while k < params.len()
        invariant
            0 <= k <= params@.len(),
            strings_view(out@) == param_names(params@.take(k as int)),
        decreases params@.len() - k,
    {
        assert(params@.take(k + 1).drop_last() =~= params@.take(k as int));
        if let Some(n) = &params[k] {
            let ghost before = out@;
            out.push(n.clone());
            assert(strings_view(out@) =~= strings_view(before) + seq![n@]);
        } else {
            assert(param_names(params@.take(k + 1)) =~= param_names(params@.take(k as int)));
        }
        k = k + 1;
    }
    assert(params@.take(params@.len() as int) =~= params@);
    out
}

fn trimmed_option(text: &Option<String>) -> (res: Option<String>)
    ensures
        match res {
            Some(s) => trimmed_annotation(*text) == Some(s@),
            None => trimmed_annotation(*text) is None,
        },
{
    match text {
        Some(t) => Some(trim_text(t.as_str())),
        None => None,
    }
}

/// The line starts of a source, as `compute_line_starts` gives them.
struct LineTable {
    starts: Vec<usize>,
}

impl LineTable {
    #[verifier::type_invariant]
    spec fn valid(&self) -> bool {
        valid_line_starts(self.starts@)
    }

    fn new(source: &str) -> (res: Self)
        ensures
            res.starts@ == line_starts_of(source.spec_bytes()),
    {
        LineTable { starts: compute_line_starts(source) }
    }

    fn location(&self, offset: usize) -> (res: Option<(usize, usize)>)
        ensures
            res == location_at(offset, self.starts@),
    {
        proof {
            use_type_invariant(self);
        }
        location(offset, &self.starts)
    }

    fn line_col(&self, offset: usize) -> (res: (usize, usize))
        ensures
            res == line_col_of(offset, self.starts@),
    {
        proof {
            use_type_invariant(self);
        }
        offset_to_line_col(offset, &self.starts)
    }
}

/// Records, during a walk over a file's syntax tree, the declared symbols,
/// the calls between functions and the lint issues, as the walk reports
/// each declaration and call to it.
pub struct Analyzer {
    lines: LineTable,
    symbols: Vec<SymbolSignature>,
    classes: Vec<SymbolSignature>,
    interfaces: Vec<SymbolSignature>,
    type_aliases: Vec<SymbolSignature>,
    call_edges: Vec<CallEdge>,
    lint_issues: Vec<LintIssue>,
    function_stack: Vec<String>,
    class_stack: Vec<String>,
}

impl View for Analyzer {
    type V = AnalyzerView;

    closed spec fn view(&self) -> AnalyzerView {
        AnalyzerView {
            line_starts: self.lines.starts@,
            symbols: symbols_view(self.symbols@),
            classes: symbols_view(self.classes@),
            interfaces: symbols_view(self.interfaces@),
            type_aliases: symbols_view(self.type_aliases@),
            call_edges: edges_view(self.call_edges@),
            lint_issues: issues_view(self.lint_issues@),
            function_stack: strings_view(self.function_stack@),
            class_stack: strings_view(self.class_stack@),
        }
    }
}

impl Analyzer {
    /// The analyzer of `source` before the walk: nothing recorded, inside
    /// `<module>` only.
    pub fn new(source: &str) -> (res: Self)
        ensures
            res@ == initial_analyzer(source.spec_bytes()),
    {
        let mut function_stack: Vec<String> = Vec::new();
        function_stack.push("<module>".to_owned());
        let res = Analyzer {
            lines: LineTable::new(source),
            symbols: Vec::new(),
            classes: Vec::new(),
            interfaces: Vec::new(),
            type_aliases: Vec::new(),
            call_edges: Vec::new(),
            lint_issues: Vec::new(),
            function_stack,
            class_stack: Vec::new(),
        };
        assert(res@ =~= initial_analyzer(source.spec_bytes()));
        res
    }

    /// The location of byte `offset` of the source.
    pub fn location(&self, offset: usize) -> (res: Option<(usize, usize)>)
        ensures
            res == location_at(offset, self@.line_starts),
    {
        self.lines.location(offset)
    }

    /// The innermost function the walk is in, or `<module>`.
    pub fn current_scope_name(&self) -> (res: String)
        ensures
            res@ == scope_name(self@),
    {
        let n = self.function_stack.len();
        if n > 0 {
            self.function_stack[n - 1].clone()
        } else {
            "<module>".to_owned()
        }
    }

    /// At a variable declaration; `is_var` where it is a `var` one.
    pub fn visit_variable_declaration(&mut self, is_var: bool, start: usize)
        ensures
            final(self)@ == after_variable_declaration(old(self)@, is_var, start),
    {
        if is_var {
            let loc = self.lines.location(start);
            let ghost before = issues_view(self.lint_issues@);
            self.lint_issues.push(LintIssue {
                category: "best-practices".to_owned(),
                severity: "warning".to_owned(),
                message: "Avoid using 'var'. Use 'const' or 'let' instead.".to_owned(),
                location: loc,
            });
            assert(issues_view(self.lint_issues@) =~= before.push(var_issue(loc)));
        }
        assert(self@ =~= after_variable_declaration(old(self)@, is_var, start));
    }

    /// On entering a function, before the walk goes into it.
    pub fn enter_function(&mut self, function: &FunctionModel)
        ensures
            final(self)@ == after_enter_function(old(self)@, *function),
    {
        let loc = self.lines.location(function.start);
        let name = match &function.name {
            Some(n) => n.clone(),
            None => {
                let (line, _column) = self.lines.line_col(function.start);
                let mut t = "<anonymous@".to_owned();
                append_decimal(&mut t, line as u64);
                append_text(&mut t, ">");
                t
            },
        };
        let ghost name_view = name@;
        assert(name_view == function_name(function.name, function.start, old(self)@.line_starts));
        let signature = SymbolSignature {
            name: name.clone(),
            kind: "function".to_owned(),
            params: param_list(&function.params),
            return_type: trimmed_option(&function.return_type),
            type_params: duplicate_strings(&function.type_params),
            exported: false,
            location: loc,
            jsdoc: None,
        };
        let ghost sv = signature@;
        let ghost before_symbols = symbols_view(self.symbols@);
        let ghost before_stack = strings_view(self.function_stack@);
        self.symbols.push(signature);
        self.function_stack.push(name);
        assert(symbols_view(self.symbols@) =~= before_symbols.push(sv));
        assert(strings_view(self.function_stack@) =~= before_stack.push(name_view));
        assert(self@ =~= after_enter_function(old(self)@, *function));
    }

    /// On leaving a function, after the walk has gone through it.
    pub fn leave_function(&mut self)
        ensures
            final(self)@ == after_leave_function(old(self)@),
    {
        let ghost before = strings_view(self.function_stack@);
        self.function_stack.pop();
        assert(strings_view(self.function_stack@) =~= popped(before));
        assert(self@ =~= after_leave_function(old(self)@));
    }

    /// On entering a class (`name` where it has one), before the walk goes
    /// into it.
    pub fn enter_class(&mut self, name: &Option<String>, start: usize)
        ensures
            final(self)@ == after_enter_class(old(self)@, *name, start),
    {
        let loc = self.lines.location(start);
        let class = match name {
            Some(n) => n.clone(),
            None => "<anonymous-class>".to_owned(),
        };
        let ghost cv = class@;
        let ghost sv = plain_signature(cv, "class"@, loc);
        let ghost before_classes = symbols_view(self.classes@);
        let ghost before_symbols = symbols_view(self.symbols@);
        let ghost before_stack = strings_view(self.class_stack@);
        let first = unexported_signature(class.clone(), "class", loc);
        let second = unexported_signature(class.clone(), "class", loc);
        self.classes.push(first);
        self.symbols.push(second);
        self.class_stack.push(class);
        assert(symbols_view(self.classes@) =~= before_classes.push(sv));
        assert(symbols_view(self.symbols@) =~= before_symbols.push(sv));
        assert(strings_view(self.class_stack@) =~= before_stack.push(cv));
        assert(self@ =~= after_enter_class(old(self)@, *name, start));
    }

    /// On leaving a class, after the walk has gone through it.
    pub fn leave_class(&mut self)
        ensures
            final(self)@ == after_leave_class(old(self)@),
    {
        let ghost before = strings_view(self.class_stack@);
        self.class_stack.pop();
        assert(strings_view(self.class_stack@) =~= popped(before));
        assert(self@ =~= after_leave_class(old(self)@));
    }

    /// On entering a method, before the walk goes into it.
    pub fn enter_method(&mut self, method: &MethodModel)
        ensures
            final(self)@ == after_enter_method(old(self)@, *method),
    {
        let loc = self.lines.location(method.start);
        let n = self.class_stack.len();
        let mut name = if n > 0 {
            self.class_stack[n - 1].clone()
        } else {
            "<class>".to_owned()
        };
        append_text(&mut name, ".");
        match &method.key {
            Some(k) => append_text(&mut name, k.as_str()),
            None => append_text(&mut name, "<computed>"),
        }
        let ghost name_view = name@;
        assert(name_view == method_name(old(self)@, method.key));
        let signature = SymbolSignature {
            name: name.clone(),
            kind: "method".to_owned(),
            params: param_list(&method.params),
            return_type: trimmed_option(&method.return_type),
            type_params: Vec::new(),
            exported: false,
            location: loc,
            jsdoc: None,
        };
        assert(strings_view(signature.type_params@) =~= Seq::<Seq<char>>::empty());
        let ghost sv = signature@;
        let ghost before_symbols = symbols_view(self.symbols@);
        let ghost before_stack = strings_view(self.function_stack@);
        self.symbols.push(signature);
        self.function_stack.push(name);
        assert(symbols_view(self.symbols@) =~= before_symbols.push(sv));
        assert(strings_view(self.function_stack@) =~= before_stack.push(name_view));
        assert(self@ =~= after_enter_method(old(self)@, *method));
    }

    /// On leaving a method, after the walk has gone through it.
    pub fn leave_method(&mut self)
        ensures
            final(self)@ == after_leave_function(old(self)@),
    {
        self.leave_function();
    }

    /// At an interface declaration.
    pub fn visit_ts_interface_declaration(&mut self, name: &str, type_params: &Vec<String>, start: usize)
        ensures
            final(self)@ == after_interface(old(self)@, name@, strings_view(type_params@), start),
    {
        let loc = self.lines.location(start);
        let mut first = unexported_signature(name.to_owned(), "interface", loc);
        first.type_params = duplicate_strings(type_params);
        let mut second = unexported_signature(name.to_owned(), "interface", loc);
        second.type_params = duplicate_strings(type_params);
        let ghost sv = first@;
        assert(second@ == sv);
        let ghost before_interfaces = symbols_view(self.interfaces@);
        let ghost before_symbols = symbols_view(self.symbols@);
        self.interfaces.push(first);
        self.symbols.push(second);
        assert(symbols_view(self.interfaces@) =~= before_interfaces.push(sv));
        assert(symbols_view(self.symbols@) =~= before_symbols.push(sv));
        assert(self@ =~= after_interface(old(self)@, name@, strings_view(type_params@), start));
    }

    /// At a type alias declaration; `annotation` is the source text of the
    /// aliased type.
    pub fn visit_ts_type_alias_declaration(
        &mut self,
        name: &str,
        annotation: &str,
        type_params: &Vec<String>,
        start: usize,
    )
        ensures
            final(self)@ == after_type_alias(old(self)@, name@, annotation@, strings_view(type_params@), start),
    {
        let loc = self.lines.location(start);
        let mut first = unexported_signature(name.to_owned(), "type", loc);
        first.type_params = duplicate_strings(type_params);
        first.return_type = Some(trim_text(annotation));
        let mut second = unexported_signature(name.to_owned(), "type", loc);
        second.type_params = duplicate_strings(type_params);
        second.return_type = Some(trim_text(annotation));
        let ghost sv = first@;
        assert(second@ == sv);
        let ghost before_aliases = symbols_view(self.type_aliases@);
        let ghost before_symbols = symbols_view(self.symbols@);
        self.type_aliases.push(first);
        self.symbols.push(second);
        assert(symbols_view(self.type_aliases@) =~= before_aliases.push(sv));
        assert(symbols_view(self.symbols@) =~= before_symbols.push(sv));
        assert(self@ =~= after_type_alias(old(self)@, name@, annotation@, strings_view(type_params@), start));
    }

    /// At a call expression, before the walk goes into it.
    pub fn visit_call_expression(&mut self, callee: &CalleeModel, start: usize)
        ensures
            final(self)@ == after_call(old(self)@, *callee, start),
    {
        let loc = self.lines.location(start);
        let ghost v = self@;
        if let Some(name) = expression_name(callee) {
            let caller = self.current_scope_name();
            let ghost before = edges_view(self.call_edges@);
            let edge = CallEdge { caller, callee: name, location: loc };
            let ghost ev = edge@;
            self.call_edges.push(edge);
            assert(edges_view(self.call_edges@) =~= before.push(ev));
        }
        let ghost with_edge = self@;
        assert(with_edge =~= match callee_text(*callee) {
            Some(n) => AnalyzerView {
                call_edges: v.call_edges.push(CallEdgeView { caller: scope_name(v), callee: n, location: loc }),
                ..v
            },
            None => v,
        });
        if console_member(callee) {
            let ghost before = issues_view(self.lint_issues@);
            self.lint_issues.push(LintIssue {
                category: "dev-code".to_owned(),
                severity: "warning".to_owned(),
                message: "Console statement detected. Remove in production code.".to_owned(),
                location: loc,
            });
            assert(issues_view(self.lint_issues@) =~= before.push(console_issue(loc)));
        }
        assert(self@ =~= after_call(old(self)@, *callee, start));
    }
}

/// A signature that is not exported, with only a name, a kind and a
/// location.
fn unexported_signature(name: String, kind: &str, loc: Option<(usize, usize)>) -> (res: SymbolSignature)
    ensures
        res@ == plain_signature(name@, kind@, loc),
{
    let res = SymbolSignature {
        name,
        kind: kind.to_owned(),
        params: Vec::new(),
        return_type: None,
        type_params: Vec::new(),
        exported: false,
        location: loc,
        jsdoc: None,
    };
    assert(strings_view(res.params@) =~= Seq::<Seq<char>>::empty());
    assert(strings_view(res.type_params@) =~= Seq::<Seq<char>>::empty());
    res
}

// ---------------------------------------------------------------------------
// The analysis of a file
// ---------------------------------------------------------------------------

/// The issues recorded for a list of error messages of one category.
pub open spec fn error_issues(category: Seq<char>, messages: Seq<Seq<char>>) -> Seq<IssueView> {
    messages.map_values(
        |m: Seq<char>| IssueView { category, severity: "error"@, message: m, location: None },
    )
}

/// The name of the language: `ts`, `tsx`, `js` or `jsx`.
pub open spec fn language_text(typescript: bool, jsx: bool) -> Seq<char> {
    if typescript {
        if jsx {
            "tsx"@
        } else {
            "ts"@
        }
    } else if jsx {
        "jsx"@
    } else {
        "js"@
    }
}

/// The name of the language of a TypeScript and/or JSX source.
pub fn language_name(typescript: bool, jsx: bool) -> (res: String)
    ensures
        res@ == language_text(typescript, jsx),
{
    if typescript {
        if jsx {
            "tsx".to_owned()
        } else {
            "ts".to_owned()
        }
    } else if jsx {
        "jsx".to_owned()
    } else {
        "js".to_owned()
    }
}

/// The dependencies of the import statements among `stmts`, in order.
pub open spec fn imports_of(stmts: Seq<StatementModel>, starts: Seq<usize>) -> Seq<DependencyView>
    decreases stmts.len(),
{
    if stmts.len() == 0 {
        Seq::empty()
    } else {
        imports_of(stmts.drop_last(), starts) + match stmts.last() {
            StatementModel::Import(i) => seq![import_view(i, starts)],
            _ => Seq::empty(),
        }
    }
}

/// The exports that `stmts` record, in order.
pub open spec fn all_exports(stmts: Seq<StatementModel>, starts: Seq<usize>) -> Seq<ExportView>
    decreases stmts.len(),
{
    if stmts.len() == 0 {
        Seq::empty()
    } else {
        all_exports(stmts.drop_last(), starts) + statement_exports(stmts.last(), starts)
    }
}

/// The export signatures that `stmts` record, in order.
pub open spec fn all_signatures(stmts: Seq<StatementModel>, starts: Seq<usize>) -> Seq<SymbolView>
    decreases stmts.len(),
{
    if stmts.len() == 0 {
        Seq::empty()
    } else {
        all_signatures(stmts.drop_last(), starts) + statement_signatures(stmts.last(), starts)
    }
}

fn error_issue_list(category: &str, messages: &[String], out: &mut Vec<LintIssue>)
    ensures
        issues_view(final(out)@) == issues_view(old(out)@) + error_issues(category@, strings_view(messages@)),
{
    let ghost start = issues_view(out@);
    let mut k: usize = 0;
    while k < messages.len()
        invariant
            0 <= k <= messages@.len(),
            issues_view(out@) == start + error_issues(category@, strings_view(messages@.take(k as int))),
        decreases messages@.len() - k,
    {
        let ghost before = issues_view(out@);
        out.push(LintIssue {
            category: category.to_owned(),
            severity: "error".to_owned(),
            message: messages[k].clone(),
            location: None,
        });
        assert(issues_view(out@) =~= before.push(
            IssueView { category: category@, severity: "error"@, message: messages@[k as int]@, location: None },
        ));
        assert(strings_view(messages@.take(k + 1)) =~= strings_view(messages@.take(k as int)).push(messages@[k as int]@));
        assert(error_issues(category@, strings_view(messages@.take(k + 1))) =~= error_issues(
            category@,
            strings_view(messages@.take(k as int)),
        ).push(IssueView { category: category@, severity: "error"@, message: messages@[k as int]@, location: None }));
        k = k + 1;
    }
    assert(messages@.take(messages@.len() as int) =~= messages@);
}

/// The analysis of a file from what its parse found: the messages of the
/// parse errors and of the semantic errors, the analyzer after the walk
/// over the whole program, the top-level statements, the texts of the
/// comments, and whether the source is TypeScript and JSX. Issues come in
/// that order: parse errors, semantic errors, then the walk's.
pub fn analysis_result(
    parse_errors: &[String],
    semantic_errors: &[String],
    analyzer: Analyzer,
    statements: &[StatementModel],
    comments: Vec<String>,
    typescript: bool,
    jsx: bool,
) -> (res: AnalysisResult)
    ensures
        exports_view(res.exports@) == all_exports(statements@, analyzer@.line_starts),
        issues_view(res.issues@) == error_issues("parse"@, strings_view(parse_errors@)) + error_issues(
            "semantic"@,
            strings_view(semantic_errors@),
        ) + analyzer@.lint_issues,
        res.file_structure@ == structure_of(analyzer@, statements@, strings_view(comments@), typescript, jsx),
{
    let ghost v = analyzer@;
    let Analyzer {
        lines,
        symbols,
        classes,
        interfaces,
        type_aliases,
        call_edges,
        mut lint_issues,
        function_stack: _,
        class_stack: _,
    } = analyzer;
    proof {
        use_type_invariant(&lines);
    }
    let line_starts = lines.starts;
    assert(line_starts@ == v.line_starts);

    let mut issues: Vec<LintIssue> = Vec::new();
    assert(issues_view(issues@) =~= Seq::<IssueView>::empty());
    error_issue_list("parse", parse_errors, &mut issues);
    error_issue_list("semantic", semantic_errors, &mut issues);
    let ghost before_walk = issues@;
    issues.append(&mut lint_issues);
    assert(issues_view(issues@) =~= issues_view(before_walk) + v.lint_issues);

    let mut imports: Vec<DependencyInfo> = Vec::new();
    let mut exports: Vec<ExportInfo> = Vec::new();
    let mut signatures: Vec<SymbolSignature> = Vec::new();
    assert(dependencies_view(imports@) =~= Seq::<DependencyView>::empty());
    assert(exports_view(exports@) =~= Seq::<ExportView>::empty());
    assert(symbols_view(signatures@) =~= Seq::<SymbolView>::empty());
    let mut k: usize = 0;
    while k < statements.len()
        invariant
            0 <= k <= statements@.len(),
            valid_line_starts(line_starts@),
            dependencies_view(imports@) == imports_of(statements@.take(k as int), line_starts@),
            exports_view(exports@) == all_exports(statements@.take(k as int), line_starts@),
            symbols_view(signatures@) == all_signatures(statements@.take(k as int), line_starts@),
        decreases statements@.len() - k,
    {
        let stmt = &statements[k];
        assert(statements@.take(k + 1).drop_last() =~= statements@.take(k as int));
        let ghost before_imports = dependencies_view(imports@);
        if let StatementModel::Import(import) = stmt {
            imports.push(extract_import(import, &line_starts));
            assert(dependencies_view(imports@) =~= before_imports + seq![import_view(*import, line_starts@)]);
        } else {
            assert(dependencies_view(imports@) =~= before_imports + Seq::<DependencyView>::empty());
        }
        extract_exports(stmt, &line_starts, &mut exports, &mut signatures);
        k = k + 1;
    }
    assert(statements@.take(statements@.len() as int) =~= statements@);

    let res = AnalysisResult {
        exports,
        issues,
        file_structure: FileStructure {
            language: language_name(typescript, jsx),
            imports,
            exports: signatures,
            symbols,
            classes,
            interfaces,
            type_aliases,
            comments,
            jsdoc: Vec::new(),
            call_graph: CallGraph { edges: call_edges },
        },
    };
    assert(strings_view(res.file_structure.jsdoc@) =~= Seq::<Seq<char>>::empty());
    assert(res.file_structure@ =~= structure_of(v, statements@, strings_view(comments@), typescript, jsx));
    res
}

/// The structure of a file from the analyzer after the walk over it, its
/// top-level statements, the texts of its comments and whether it is
/// TypeScript and JSX.
pub open spec fn structure_of(
    analyzer: AnalyzerView,
    statements: Seq<StatementModel>,
    comments: Seq<Seq<char>>,
    typescript: bool,
    jsx: bool,
) -> FileStructureView {
    FileStructureView {
        language: language_text(typescript, jsx),
        imports: imports_of(statements, analyzer.line_starts),
        exports: all_signatures(statements, analyzer.line_starts),
        symbols: analyzer.symbols,
        classes: analyzer.classes,
        interfaces: analyzer.interfaces,
        type_aliases: analyzer.type_aliases,
        comments,
        jsdoc: Seq::empty(),
        call_edges: analyzer.call_edges,
    }
}

// ---------------------------------------------------------------------------
// Parsing a source with oxc
// ---------------------------------------------------------------------------

/// What oxc's parser reports of a source besides its tree: the messages of
/// its errors, the texts of the comments, and whether the program is
/// TypeScript and JSX.
pub struct ParseOutline {
    pub parse_errors: Vec<String>,
    pub comments: Vec<String>,
    pub typescript: bool,
    pub jsx: bool,
}

pub struct ParseOutlineView {
    pub parse_errors: Seq<Seq<char>>,
    pub comments: Seq<Seq<char>>,
    pub typescript: bool,
    pub jsx: bool,
}

impl View for ParseOutline {
    type V = ParseOutlineView;

    open spec fn view(&self) -> ParseOutlineView {
        ParseOutlineView {
            parse_errors: strings_view(self.parse_errors@),
            comments: strings_view(self.comments@),
            typescript: self.typescript,
            jsx: self.jsx,
        }
    }
}

/// What oxc's parser reports of a source, parsed as a TypeScript module with JSX.
pub uninterp spec fn oxc_parse(source: Seq<char>) -> ParseOutlineView;

/// The messages of the errors that oxc's semantic checker, with its syntax
/// checks on, finds in a source parsed as a TypeScript module with JSX.
pub uninterp spec fn oxc_semantic_errors(source: Seq<char>) -> Seq<Seq<char>>;

/// Calls oxc's `Parser::parse` on `source` as a TypeScript module with JSX
/// and takes from its return the error messages (`to_string` of each
/// error-severity diagnostic), the source text of each comment, and the
/// program's source type. The contract claims only that the outline is a
/// function of the source text (oxc's parser has no other input).
#[verifier::external_body]
fn parse_outline(source: &str) -> (res: ParseOutline)
    ensures
        res@ == oxc_parse(source@),
{
    let allocator = Allocator::default();
    let parsed = Parser::new(&allocator, source, SourceType::tsx().with_module(true)).parse();
    let program = &parsed.program;
    ParseOutline {
        parse_errors: parsed.diagnostics.errors().map(|error| error.to_string()).collect(),
        comments: program.comments.iter().map(|c| c.span.source_text(source).to_string()).collect(),
        typescript: program.source_type.is_typescript(),
        jsx: program.source_type.is_jsx(),
    }
}

/// Calls oxc's `SemanticBuilder::build`, with syntax checks on, on the
/// program that `Parser::parse` gives for `source` as a TypeScript module
/// with JSX, and takes the messages of its error-severity diagnostics. The
/// contract claims only that they are a function of the source text.
#[verifier::external_body]
fn semantic_error_messages(source: &str) -> (res: Vec<String>)
    ensures
        strings_view(res@) == oxc_semantic_errors(source@),
{
    let allocator = Allocator::default();
    let parsed = Parser::new(&allocator, source, SourceType::tsx().with_module(true)).parse();
    let built = SemanticBuilder::new().with_check_syntax_error(true).build(&parsed.program);
    built.diagnostics.errors().map(|error| error.to_string()).collect()
}

/// The structure recorded for a file with source `code`, from the walk
/// over its tree and its top-level statements.
pub open spec fn analysed_structure(
    code: Seq<char>,
    walked: AnalyzerView,
    statements: Seq<StatementModel>,
) -> FileStructureView {
    structure_of(walked, statements, oxc_parse(code).comments, oxc_parse(code).typescript, oxc_parse(code).jsx)
}

/// The top-level statements of `source`, as oxc's parse of it gives them.
pub open spec fn source_statements(v: Seq<StatementModel>, source: Seq<char>) -> bool {
    statements_are(v, oxc_semantic_nodes(source).1, oxc_node_details(source))
}

/// The analysis of a file's source: oxc parses it and checks it, and the
/// analysis is assembled from its errors, its comments and source type, its
/// top-level statements, and the analyzer after the walk over its tree
/// (`walked`).
pub fn analyze_source(source: &str, walked: Analyzer) -> (res: AnalysisResult)
    ensures
        issues_view(res.issues@) == error_issues("parse"@, oxc_parse(source@).parse_errors) + error_issues(
            "semantic"@,
            oxc_semantic_errors(source@),
        ) + walked@.lint_issues,
        exists|statements: Seq<StatementModel>|
            #![trigger source_statements(statements, source@)]
            source_statements(statements, source@) && exports_view(res.exports@) == all_exports(
                statements,
                walked@.line_starts,
            ) && res.file_structure@ == analysed_structure(source@, walked@, statements),
{
    let statements = top_level_statements(source);
    let ghost sv = statements@;
    let ghost wv = walked@;
    let outline = parse_outline(source);
    let semantic_errors = semantic_error_messages(source);
    let ParseOutline { parse_errors, comments, typescript, jsx } = outline;
    let res = analysis_result(
        parse_errors.as_slice(),
        semantic_errors.as_slice(),
        walked,
        statements.as_slice(),
        comments,
        typescript,
        jsx,
    );
    assert(source_statements(sv, source@) && exports_view(res.exports@) == all_exports(sv, wv.line_starts)
        && res.file_structure@ == analysed_structure(source@, wv, sv));
    res
}

// ---------------------------------------------------------------------------
// Laws
// ---------------------------------------------------------------------------

/// Entering a function, method or class and leaving it again gives back the
/// stacks of enclosing functions and classes, so a call after it is
/// attributed to the same function as before it.
pub proof fn lemma_leaving_restores_scope(v: AnalyzerView, f: FunctionModel, m: MethodModel, name: Option<String>, start: usize)
    ensures
        after_leave_function(after_enter_function(v, f)).function_stack == v.function_stack,
        after_leave_function(after_enter_function(v, f)).class_stack == v.class_stack,
        after_leave_function(after_enter_method(v, m)).function_stack == v.function_stack,
        after_leave_function(after_enter_method(v, m)).class_stack == v.class_stack,
        after_leave_class(after_enter_class(v, name, start)).function_stack == v.function_stack,
        after_leave_class(after_enter_class(v, name, start)).class_stack == v.class_stack,
        scope_name(after_leave_function(after_enter_function(v, f))) == scope_name(v),
        scope_name(after_leave_function(after_enter_method(v, m))) == scope_name(v),
{
    let name_f = function_name(f.name, f.start, v.line_starts);
    assert(v.function_stack.push(name_f).drop_last() =~= v.function_stack);
    assert(v.function_stack.push(method_name(v, m.key)).drop_last() =~= v.function_stack);
    assert(v.class_stack.push(class_name(name)).drop_last() =~= v.class_stack);
}

/// Every export a list of statements records has a signature at the same
/// position, with the same name and location, marked exported; its kind is
/// the export's, but `re-export` for `export * ..`.
pub proof fn lemma_signatures_follow_exports(stmts: Seq<StatementModel>, starts: Seq<usize>)
    ensures
        all_signatures(stmts, starts).len() == all_exports(stmts, starts).len(),
        forall|i: int|
            0 <= i < all_exports(stmts, starts).len() ==> {
                let e = #[trigger] all_exports(stmts, starts)[i];
                let s = all_signatures(stmts, starts)[i];
                &&& s.name == e.name
                &&& s.location == e.location
                &&& s.exported
                &&& (s.kind == e.kind || s.kind == "re-export"@)
            },
    decreases stmts.len(),
{
    if stmts.len() > 0 {
        let init = stmts.drop_last();
        let last = stmts.last();
        lemma_signatures_follow_exports(init, starts);
        let pe = all_exports(init, starts);
        let ps = all_signatures(init, starts);
        let le = statement_exports(last, starts);
        let ls = statement_signatures(last, starts);
        assert(ls.len() == le.len());
        assert forall|i: int| 0 <= i < le.len() implies {
            let e = #[trigger] le[i];
            let s = ls[i];
            &&& s.name == e.name
            &&& s.location == e.location
            &&& s.exported
            &&& (s.kind == e.kind || s.kind == "re-export"@)
        } by {}
        assert forall|i: int| 0 <= i < all_exports(stmts, starts).len() implies {
            let e = #[trigger] all_exports(stmts, starts)[i];
            let s = all_signatures(stmts, starts)[i];
            &&& s.name == e.name
            &&& s.location == e.location
            &&& s.exported
            &&& (s.kind == e.kind || s.kind == "re-export"@)
        } by {
            if i < pe.len() {
                assert(all_exports(stmts, starts)[i] == pe[i]);
                assert(all_signatures(stmts, starts)[i] == ps[i]);
            } else {
                assert(all_exports(stmts, starts)[i] == le[i - pe.len()]);
                assert(all_signatures(stmts, starts)[i] == ls[i - ps.len()]);
            }
        }
    }
}

} // verus!
