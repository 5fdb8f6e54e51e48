//! A JavaScript/TypeScript source as oxc parses it. oxc's semantic builder
//! lists the nodes of the parsed program, each with its kind, span and
//! parent; from that list this module builds the tree that patterns are
//! matched against (one node per program, top-level statement,
//! declaration, expression, function, class, method and call) and the
//! description of the top-level statements that the analysis of a file
//! reads, and it searches sources and Vue components for patterns.
use vstd::prelude::*;
use oxc::allocator::Allocator;
use oxc::ast::AstKind;
use oxc::parser::Parser;
use oxc::semantic::SemanticBuilder;
use oxc::span::{GetSpan, SourceType};
use crate::analysis::{
    DeclarationModel, DefaultExportModel, ExportSpecifierModel, ImportModel, ImportSpecifierModel, StatementModel,
};
use crate::capture::MatchStrictness;
use crate::line_index::line_starts_of;
use crate::matcher::PatternMatcher;
use crate::overlap_resolution::{all_matches, find_all_matches, results_view, ConflictResolution, MatchResult};
use crate::payload::{
    empty_vue_sfc_search, pattern_match_payloads, pattern_payloads_outcome, slice_span_text, span_text_result,
    vue_payload_outcome, vue_sfc_search_payload, PatternMatchPayload, VueSfcPatternSearchPayload,
};
use crate::span::NodeSpan;
use crate::syntax::SyntaxNode;
use crate::text::append_text;
use crate::vue_sfc::{presence_of, script_blocks_from, ExtractedScriptBlock, VueSfcExtractor};
use crate::wildcard_parsing::{collect_meta, pattern_built, to_pattern_ast, PatternNode};
use crate::yaml_schema::{RuleCore, RuleKind};
use vstd::string::StringSliceAdditionalSpecFns;

verus! {

// ---------------------------------------------------------------------------
// The node list
// ---------------------------------------------------------------------------

/// A node of oxc's semantic tree: the name of its kind, its span in bytes,
/// the index of its parent in the list, and, for an identifier reference,
/// the name it refers to.
pub struct ParsedNode {
    pub kind: String,
    pub start: u32,
    pub end: u32,
    pub parent: usize,
    pub name: Option<String>,
}

pub struct ParsedNodeView {
    pub kind: Seq<char>,
    pub start: u32,
    pub end: u32,
    pub parent: usize,
    pub name: Option<Seq<char>>,
}

impl View for ParsedNode {
    type V = ParsedNodeView;

    open spec fn view(&self) -> ParsedNodeView {
        ParsedNodeView {
            kind: self.kind@,
            start: self.start,
            end: self.end,
            parent: self.parent,
            name: match self.name {
                Some(n) => Some(n@),
                None => None,
            },
        }
    }
}

pub open spec fn parsed_views(v: Seq<ParsedNode>) -> Seq<ParsedNodeView> {
    v.map_values(|n: ParsedNode| n@)
}

/// What oxc reports for a source parsed as a TypeScript module with JSX:
/// the message of its first parse error, if any, and the nodes of the
/// semantic tree of the program it parsed, in the order the builder
/// created them.
pub uninterp spec fn oxc_semantic_nodes(source: Seq<char>) -> (Option<Seq<char>>, Seq<ParsedNodeView>);

pub open spec fn message_view(e: Option<String>) -> Option<Seq<char>> {
    match e {
        Some(m) => Some(m@),
        None => None,
    }
}

/// Calls oxc's `Parser::parse` on `source` as a TypeScript module with JSX,
/// then `SemanticBuilder::build`, with the node store built, on the program;
/// gives the message of the first parse error, if any, and each node of
/// `AstNodes`, in order, as the name of its `AstType`, its span, the index
/// of its parent and, for an identifier reference, its name. The contract
/// claims only that the outcome is a function of the source text.
#[verifier::external_body]
fn semantic_nodes(source: &str) -> (res: (Option<String>, Vec<ParsedNode>))
    ensures
        oxc_semantic_nodes(source@) == (message_view(res.0), parsed_views(res.1@)),
{
    let allocator = Allocator::default();
    let parsed = Parser::new(&allocator, source, SourceType::tsx().with_module(true)).parse();
    let (_, nodes) = SemanticBuilder::new().with_build_nodes(true).build(&parsed.program).semantic.into_scoping_and_nodes();
    let error = parsed.diagnostics.errors().next().map(|e| e.to_string());
    (error, nodes.iter().map(|node| ParsedNode {
        kind: format!("{:?}", node.kind().ty()),
        start: node.span().start,
        end: node.span().end,
        parent: nodes.parent_id(node.id()).index(),
        name: node.kind().as_identifier_reference().map(|id| id.to_string()),
    }).collect())
}

/// The name oxc gives each node besides identifier references: the name
/// of a binding identifier or identifier name, the value of a string
/// literal.
pub uninterp spec fn oxc_node_names(source: Seq<char>) -> Seq<Option<Seq<char>>>;

/// Whether oxc marks each node as of types only: an import, an export
/// specifier or an `export *` of types.
pub uninterp spec fn oxc_node_type_only(source: Seq<char>) -> Seq<bool>;

pub open spec fn names_view(v: Seq<Option<String>>) -> Seq<Option<Seq<char>>> {
    v.map_values(|d: Option<String>| message_view(d))
}

/// Calls oxc's `Parser::parse` on `source` as a TypeScript module with JSX,
/// then `SemanticBuilder::build`, with the node store built; gives for each
/// node of `AstNodes`, in order, the name of a `BindingIdentifier` or
/// `IdentifierName` and the value of a `StringLiteral`. The contract
/// claims only that the outcome is a function of the source text.
#[verifier::external_body]
fn node_names(source: &str) -> (res: Vec<Option<String>>)
    ensures
        names_view(res@) == oxc_node_names(source@),
{
    let allocator = Allocator::default();
    let parsed = Parser::new(&allocator, source, SourceType::tsx().with_module(true)).parse();
    let (_, nodes) = SemanticBuilder::new().with_build_nodes(true).build(&parsed.program).semantic.into_scoping_and_nodes();
    nodes.iter().map(|node| match node.kind() {
        AstKind::BindingIdentifier(it) => Some(it.name.to_string()),
        AstKind::IdentifierName(it) => Some(it.name.to_string()),
        AstKind::StringLiteral(it) => Some(it.value.to_string()),
        _ => None,
    }).collect()
}

/// Calls oxc's `Parser::parse` on `source` as a TypeScript module with JSX,
/// then `SemanticBuilder::build`, with the node store built; gives for each
/// node of `AstNodes`, in order, whether the `import_kind` of an
/// `ImportDeclaration` or the `export_kind` of an `ExportSpecifier` or
/// `ExportAllDeclaration` is `Type`. The contract claims only that the
/// outcome is a function of the source text.
#[verifier::external_body]
fn node_type_only(source: &str) -> (res: Vec<bool>)
    ensures
        res@ == oxc_node_type_only(source@),
{
    let allocator = Allocator::default();
    let parsed = Parser::new(&allocator, source, SourceType::tsx().with_module(true)).parse();
    let (_, nodes) = SemanticBuilder::new().with_build_nodes(true).build(&parsed.program).semantic.into_scoping_and_nodes();
    nodes.iter().map(|node| match node.kind() {
        AstKind::ImportDeclaration(it) => it.import_kind.is_type(),
        AstKind::ExportSpecifier(it) => it.export_kind.is_type(),
        AstKind::ExportAllDeclaration(it) => it.export_kind.is_type(),
        _ => false,
    }).collect()
}

pub open spec fn details_view(v: Seq<(Option<String>, bool)>) -> Seq<(Option<Seq<char>>, bool)> {
    v.map_values(|d: (Option<String>, bool)| (message_view(d.0), d.1))
}

/// The name and the types-only mark oxc gives each node.
pub open spec fn oxc_node_details(source: Seq<char>) -> Seq<(Option<Seq<char>>, bool)> {
    let names = oxc_node_names(source);
    let flags = oxc_node_type_only(source);
    Seq::new(names.len(), |k: int| (names[k], k < flags.len() && flags[k]))
}

fn node_details(source: &str) -> (res: Vec<(Option<String>, bool)>)
    ensures
        details_view(res@) == oxc_node_details(source@),
{
    let names = node_names(source);
    let flags = node_type_only(source);
    let ghost nv = names_view(names@);
    let mut out: Vec<(Option<String>, bool)> = Vec::new();
    let mut k: usize = 0;
    while k < names.len()
        invariant
            k <= names@.len(),
            nv == names_view(names@),
            nv == oxc_node_names(source@),
            flags@ == oxc_node_type_only(source@),
            details_view(out@) == oxc_node_details(source@).take(k as int),
        decreases names.len() - k,
    {
        let name = match &names[k] {
            Some(n) => Some(n.clone()),
            None => None,
        };
        let flag = k < flags.len() && flags[k];
        let ghost before = out@;
        out.push((name, flag));
        proof {
            assert(nv[k as int] == message_view(names@[k as int]));
            assert(message_view(name) == nv[k as int]);
            assert(details_view(out@) =~= details_view(before).push((message_view(name), flag)));
            assert(oxc_node_details(source@)[k as int] == (nv[k as int], k < flags@.len() && flags@[k as int]));
            assert(oxc_node_details(source@).take(k + 1) =~= oxc_node_details(source@).take(k as int).push(
                oxc_node_details(source@)[k as int],
            ));
        }
        k = k + 1;
    }
    assert(oxc_node_details(source@).take(names@.len() as int) =~= oxc_node_details(source@));
    out
}

/// The node list has a first node, the root of the tree.
pub open spec fn well_formed(ns: Seq<ParsedNodeView>) -> bool {
    ns.len() >= 1
}

/// The indices of the children of node `i` among the first `k` nodes, in order.
pub open spec fn children_upto(ns: Seq<ParsedNodeView>, i: int, k: int) -> Seq<int>
    decreases k,
{
    if k <= 0 {
        Seq::empty()
    } else if k - 1 != i && k - 1 != 0 && ns[k - 1].parent == i {
        children_upto(ns, i, k - 1).push(k - 1)
    } else {
        children_upto(ns, i, k - 1)
    }
}

/// The indices of the children of node `i`, in order.
pub open spec fn children(ns: Seq<ParsedNodeView>, i: int) -> Seq<int> {
    children_upto(ns, i, ns.len() as int)
}

proof fn lemma_children_upto_within(ns: Seq<ParsedNodeView>, i: int, k: int)
    requires
        well_formed(ns),
        0 <= i,
        k <= ns.len(),
    ensures
        forall|m: int| 0 <= m < children_upto(ns, i, k).len() ==> 0 < #[trigger] children_upto(ns, i, k)[m] < k,
    decreases k,
{
    if k > 0 {
        lemma_children_upto_within(ns, i, k - 1);
        let prev = children_upto(ns, i, k - 1);
        if k - 1 != i && k - 1 != 0 && ns[k - 1].parent == i {
            assert forall|m: int| 0 <= m < prev.push(k - 1).len() implies 0 < #[trigger] prev.push(k - 1)[m] < k by {
                if m < prev.len() {
                    assert(prev.push(k - 1)[m] == prev[m]);
                }
            }
        }
    }
}

/// Children lie within the list, and the root is no one's child.
pub proof fn lemma_children_within(ns: Seq<ParsedNodeView>, i: int)
    requires
        well_formed(ns),
        0 <= i,
    ensures
        forall|m: int| 0 <= m < children(ns, i).len() ==> 0 < #[trigger] children(ns, i)[m] < ns.len(),
{
    lemma_children_upto_within(ns, i, ns.len() as int);
}

fn check_well_formed(nodes: &Vec<ParsedNode>) -> (res: bool)
    ensures
        res == well_formed(parsed_views(nodes@)),
{
    nodes.len() >= 1
}

/// The indices of the children of node `i`.
fn children_of(nodes: &Vec<ParsedNode>, i: usize) -> (res: Vec<usize>)
    ensures
        res@.map_values(|j: usize| j as int) == children(parsed_views(nodes@), i as int),
{
    let ghost ns = parsed_views(nodes@);
    let mut out: Vec<usize> = Vec::new();
    let mut k: usize = 0;
    while k < nodes.len()
        invariant
            k <= nodes.len(),
            ns == parsed_views(nodes@),
            out@.map_values(|j: usize| j as int) == children_upto(ns, i as int, k as int),
        decreases nodes.len() - k,
    {
        let ghost before = out@;
        if k != i && k != 0 && nodes[k].parent == i {
            out.push(k);
            assert(out@.map_values(|j: usize| j as int) =~= before.map_values(|j: usize| j as int).push(k as int));
        }
        k = k + 1;
    }
    out
}

} // verus!

verus! {

// ---------------------------------------------------------------------------
// Kinds of nodes
// ---------------------------------------------------------------------------

/// The kinds of nodes that the tree's shape depends on.
#[derive(PartialEq, Eq, Structural, Clone, Copy)]
pub enum NodeClass {
    Program,
    Directive,
    Hashbang,
    ImportDeclaration,
    VariableDeclaration,
    VariableDeclarator,
    Function,
    Class,
    ClassBody,
    MethodDefinition,
    ExpressionStatement,
    ExportDeclaration,
    ExportNamedDeclaration,
    ExportFromDeclaration,
    ExportDefaultDeclaration,
    ExportAllDeclaration,
    InterfaceDeclaration,
    TypeAliasDeclaration,
    CallExpression,
    IdentifierReference,
    MemberExpression,
    TypeArguments,
    SpreadElement,
    TypeAnnotation,
    BindingIdentifier,
    StringLiteral,
    ImportSpecifier,
    ImportDefaultSpecifier,
    ImportNamespaceSpecifier,
    ExportSpecifier,
    WithClause,
    Other,
}

/// The class of a node from the name of its kind.
pub open spec fn class_of(k: Seq<char>) -> NodeClass {
    if k == "Program"@ {
        NodeClass::Program
    } else if k == "Directive"@ {
        NodeClass::Directive
    } else if k == "Hashbang"@ {
        NodeClass::Hashbang
    } else if k == "ImportDeclaration"@ {
        NodeClass::ImportDeclaration
    } else if k == "VariableDeclaration"@ {
        NodeClass::VariableDeclaration
    } else if k == "VariableDeclarator"@ {
        NodeClass::VariableDeclarator
    } else if k == "Function"@ {
        NodeClass::Function
    } else if k == "Class"@ {
        NodeClass::Class
    } else if k == "ClassBody"@ {
        NodeClass::ClassBody
    } else if k == "MethodDefinition"@ {
        NodeClass::MethodDefinition
    } else if k == "ExpressionStatement"@ {
        NodeClass::ExpressionStatement
    } else if k == "ExportDeclaration"@ {
        NodeClass::ExportDeclaration
    } else if k == "ExportNamedDeclaration"@ {
        NodeClass::ExportNamedDeclaration
    } else if k == "ExportFromDeclaration"@ {
        NodeClass::ExportFromDeclaration
    } else if k == "ExportDefaultDeclaration"@ {
        NodeClass::ExportDefaultDeclaration
    } else if k == "ExportAllDeclaration"@ {
        NodeClass::ExportAllDeclaration
    } else if k == "TSInterfaceDeclaration"@ {
        NodeClass::InterfaceDeclaration
    } else if k == "TSTypeAliasDeclaration"@ {
        NodeClass::TypeAliasDeclaration
    } else if k == "CallExpression"@ {
        NodeClass::CallExpression
    } else if k == "IdentifierReference"@ {
        NodeClass::IdentifierReference
    } else if k == "StaticMemberExpression"@ || k == "ComputedMemberExpression"@ || k
        == "PrivateFieldExpression"@ {
        NodeClass::MemberExpression
    } else if k == "TSTypeParameterInstantiation"@ {
        NodeClass::TypeArguments
    } else if k == "SpreadElement"@ {
        NodeClass::SpreadElement
    } else if k == "TSTypeAnnotation"@ {
        NodeClass::TypeAnnotation
    } else if k == "BindingIdentifier"@ {
        NodeClass::BindingIdentifier
    } else if k == "StringLiteral"@ {
        NodeClass::StringLiteral
    } else if k == "ImportSpecifier"@ {
        NodeClass::ImportSpecifier
    } else if k == "ImportDefaultSpecifier"@ {
        NodeClass::ImportDefaultSpecifier
    } else if k == "ImportNamespaceSpecifier"@ {
        NodeClass::ImportNamespaceSpecifier
    } else if k == "ExportSpecifier"@ {
        NodeClass::ExportSpecifier
    } else if k == "WithClause"@ {
        NodeClass::WithClause
    } else {
        NodeClass::Other
    }
}

fn kind_is(kind: &String, name: &str) -> (res: bool)
    ensures
        res == (kind@ == name@),
{
    let named = name.to_owned();
    *kind == named
}

fn classify(kind: &String) -> (res: NodeClass)
    ensures
        res == class_of(kind@),
{
    if kind_is(kind, "Program") {
        NodeClass::Program
    } else if kind_is(kind, "Directive") {
        NodeClass::Directive
    } else if kind_is(kind, "Hashbang") {
        NodeClass::Hashbang
    } else if kind_is(kind, "ImportDeclaration") {
        NodeClass::ImportDeclaration
    } else if kind_is(kind, "VariableDeclaration") {
        NodeClass::VariableDeclaration
    } else if kind_is(kind, "VariableDeclarator") {
        NodeClass::VariableDeclarator
    } else if kind_is(kind, "Function") {
        NodeClass::Function
    } else if kind_is(kind, "Class") {
        NodeClass::Class
    } else if kind_is(kind, "ClassBody") {
        NodeClass::ClassBody
    } else if kind_is(kind, "MethodDefinition") {
        NodeClass::MethodDefinition
    } else if kind_is(kind, "ExpressionStatement") {
        NodeClass::ExpressionStatement
    } else if kind_is(kind, "ExportDeclaration") {
        NodeClass::ExportDeclaration
    } else if kind_is(kind, "ExportNamedDeclaration") {
        NodeClass::ExportNamedDeclaration
    } else if kind_is(kind, "ExportFromDeclaration") {
        NodeClass::ExportFromDeclaration
    } else if kind_is(kind, "ExportDefaultDeclaration") {
        NodeClass::ExportDefaultDeclaration
    } else if kind_is(kind, "ExportAllDeclaration") {
        NodeClass::ExportAllDeclaration
    } else if kind_is(kind, "TSInterfaceDeclaration") {
        NodeClass::InterfaceDeclaration
    } else if kind_is(kind, "TSTypeAliasDeclaration") {
        NodeClass::TypeAliasDeclaration
    } else if kind_is(kind, "CallExpression") {
        NodeClass::CallExpression
    } else if kind_is(kind, "IdentifierReference") {
        NodeClass::IdentifierReference
    } else if kind_is(kind, "StaticMemberExpression") || kind_is(kind, "ComputedMemberExpression")
        || kind_is(kind, "PrivateFieldExpression") {
        NodeClass::MemberExpression
    } else if kind_is(kind, "TSTypeParameterInstantiation") {
        NodeClass::TypeArguments
    } else if kind_is(kind, "SpreadElement") {
        NodeClass::SpreadElement
    } else if kind_is(kind, "TSTypeAnnotation") {
        NodeClass::TypeAnnotation
    } else if kind_is(kind, "BindingIdentifier") {
        NodeClass::BindingIdentifier
    } else if kind_is(kind, "StringLiteral") {
        NodeClass::StringLiteral
    } else if kind_is(kind, "ImportSpecifier") {
        NodeClass::ImportSpecifier
    } else if kind_is(kind, "ImportDefaultSpecifier") {
        NodeClass::ImportDefaultSpecifier
    } else if kind_is(kind, "ImportNamespaceSpecifier") {
        NodeClass::ImportNamespaceSpecifier
    } else if kind_is(kind, "ExportSpecifier") {
        NodeClass::ExportSpecifier
    } else if kind_is(kind, "WithClause") {
        NodeClass::WithClause
    } else {
        NodeClass::Other
    }
}

pub open spec fn cls(ns: Seq<ParsedNodeView>, j: int) -> NodeClass {
    class_of(ns[j].kind)
}

} // verus!

verus! {

// ---------------------------------------------------------------------------
// The shape of the tree
// ---------------------------------------------------------------------------

/// The place a node takes in the tree, which decides its kind and children.
#[derive(PartialEq, Eq, Structural, Clone, Copy)]
pub enum Role {
    Program,
    Statement,
    Declaration,
    Expression,
    Call,
    Variable,
    Class,
    Method,
    ImportLeaf,
    FunctionLeaf,
    InterfaceLeaf,
    AliasLeaf,
}

/// Nodes of a role are built before nodes of lower rank at the same index.
pub open spec fn rank(r: Role) -> int {
    match r {
        Role::Program => 4,
        Role::Statement => 3,
        Role::Declaration => 3,
        Role::Expression => 2,
        Role::Call => 1,
        Role::Variable => 1,
        Role::Class => 1,
        Role::Method => 1,
        _ => 0,
    }
}

/// The indices in `ks` that are not directives or a hashbang.
pub open spec fn program_body(ns: Seq<ParsedNodeView>, ks: Seq<int>) -> Seq<int>
    decreases ks.len(),
{
    if ks.len() == 0 {
        Seq::empty()
    } else {
        let c = cls(ns, ks.last());
        if c == NodeClass::Directive || c == NodeClass::Hashbang {
            program_body(ns, ks.drop_last())
        } else {
            program_body(ns, ks.drop_last()).push(ks.last())
        }
    }
}

/// The indices in `ks` that are not type arguments or spread elements.
pub open spec fn call_arguments(ns: Seq<ParsedNodeView>, ks: Seq<int>) -> Seq<int>
    decreases ks.len(),
{
    if ks.len() == 0 {
        Seq::empty()
    } else {
        let c = cls(ns, ks.last());
        if c == NodeClass::TypeArguments || c == NodeClass::SpreadElement {
            call_arguments(ns, ks.drop_last())
        } else {
            call_arguments(ns, ks.drop_last()).push(ks.last())
        }
    }
}

/// The indices in `ks` that are method definitions.
pub open spec fn methods_of(ns: Seq<ParsedNodeView>, ks: Seq<int>) -> Seq<int>
    decreases ks.len(),
{
    if ks.len() == 0 {
        Seq::empty()
    } else if cls(ns, ks.last()) == NodeClass::MethodDefinition {
        methods_of(ns, ks.drop_last()).push(ks.last())
    } else {
        methods_of(ns, ks.drop_last())
    }
}

/// The initializer of declarator `d`: its child after the binding and the
/// type annotation, if any.
pub open spec fn declarator_init(ns: Seq<ParsedNodeView>, d: int) -> Option<int> {
    let dk = children(ns, d);
    if dk.len() >= 2 {
        if cls(ns, dk[1]) == NodeClass::TypeAnnotation {
            if dk.len() >= 3 {
                Some(dk[2])
            } else {
                None
            }
        } else {
            Some(dk[1])
        }
    } else {
        None
    }
}

/// The initializers of the declarators `ds`, in order.
pub open spec fn initializers(ns: Seq<ParsedNodeView>, ds: Seq<int>) -> Seq<int>
    decreases ds.len(),
{
    if ds.len() == 0 {
        Seq::empty()
    } else {
        match declarator_init(ns, ds.last()) {
            Some(x) => initializers(ns, ds.drop_last()).push(x),
            None => initializers(ns, ds.drop_last()),
        }
    }
}

/// The first index in `ks` from position `k` on whose node is of class `c`.
pub open spec fn first_of(ns: Seq<ParsedNodeView>, ks: Seq<int>, c: NodeClass, k: int) -> Option<int>
    decreases ks.len() - k,
{
    if k < 0 || k >= ks.len() {
        None
    } else if cls(ns, ks[k]) == c {
        Some(ks[k])
    } else {
        first_of(ns, ks, c, k + 1)
    }
}

pub open spec fn with_role(ks: Seq<int>, r: Role) -> Seq<(int, Role)> {
    ks.map_values(|j: int| (j, r))
}

/// The first child of node `i`, with role `r`, if it has one.
pub open spec fn first_child(ns: Seq<ParsedNodeView>, i: int, r: Role) -> Seq<(int, Role)> {
    if children(ns, i).len() > 0 {
        seq![(children(ns, i)[0], r)]
    } else {
        Seq::empty()
    }
}

/// What an `export default` exports, as a child of the statement.
pub open spec fn default_export_children(ns: Seq<ParsedNodeView>, i: int) -> Seq<(int, Role)> {
    if children(ns, i).len() > 0 {
        let d = children(ns, i)[0];
        match cls(ns, d) {
            NodeClass::Function => seq![(d, Role::FunctionLeaf)],
            NodeClass::Class => seq![(d, Role::Class)],
            NodeClass::InterfaceDeclaration => seq![(d, Role::InterfaceLeaf)],
            _ => Seq::empty(),
        }
    } else {
        Seq::empty()
    }
}

/// The inner node of a declaration at `i`, as its child.
pub open spec fn declaration_children(ns: Seq<ParsedNodeView>, i: int) -> Seq<(int, Role)> {
    match cls(ns, i) {
        NodeClass::Function => seq![(i, Role::FunctionLeaf)],
        NodeClass::Class => seq![(i, Role::Class)],
        NodeClass::VariableDeclaration => seq![(i, Role::Variable)],
        NodeClass::InterfaceDeclaration => seq![(i, Role::InterfaceLeaf)],
        NodeClass::TypeAliasDeclaration => seq![(i, Role::AliasLeaf)],
        _ => Seq::empty(),
    }
}

/// The children of a top-level statement at `i`.
pub open spec fn statement_children(ns: Seq<ParsedNodeView>, i: int) -> Seq<(int, Role)> {
    match cls(ns, i) {
        NodeClass::ImportDeclaration => seq![(i, Role::ImportLeaf)],
        NodeClass::VariableDeclaration => seq![(i, Role::Variable)],
        NodeClass::Function => seq![(i, Role::FunctionLeaf)],
        NodeClass::Class => seq![(i, Role::Class)],
        NodeClass::ExpressionStatement => first_child(ns, i, Role::Expression),
        NodeClass::ExportDeclaration => first_child(ns, i, Role::Declaration),
        NodeClass::ExportDefaultDeclaration => default_export_children(ns, i),
        NodeClass::InterfaceDeclaration => seq![(i, Role::InterfaceLeaf)],
        NodeClass::TypeAliasDeclaration => seq![(i, Role::AliasLeaf)],
        _ => Seq::empty(),
    }
}

/// The children of the tree node for node `i` in role `role`: each a node
/// index and the role it takes.
pub open spec fn role_children(ns: Seq<ParsedNodeView>, i: int, role: Role) -> Seq<(int, Role)> {
    match role {
        Role::Program => with_role(program_body(ns, children(ns, i)), Role::Statement),
        Role::Statement => statement_children(ns, i),
        Role::Declaration => declaration_children(ns, i),
        Role::Expression => if cls(ns, i) == NodeClass::CallExpression {
            seq![(i, Role::Call)]
        } else {
            Seq::empty()
        },
        Role::Call => {
            let ks = children(ns, i);
            if ks.len() == 0 {
                Seq::empty()
            } else {
                seq![(ks[0], Role::Expression)] + with_role(call_arguments(ns, ks.drop_first()), Role::Expression)
            }
        },
        Role::Variable => with_role(initializers(ns, children(ns, i)), Role::Expression),
        Role::Class => match first_of(ns, children(ns, i), NodeClass::ClassBody, 0) {
            Some(b) => with_role(methods_of(ns, children(ns, b)), Role::Method),
            None => Seq::empty(),
        },
        Role::Method => match first_of(ns, children(ns, i), NodeClass::Function, 0) {
            Some(f) => seq![(f, Role::FunctionLeaf)],
            None => Seq::empty(),
        },
        _ => Seq::empty(),
    }
}

/// The kind name of a top-level statement node.
pub open spec fn statement_kind(c: NodeClass) -> Seq<char> {
    match c {
        NodeClass::ImportDeclaration => "ImportDeclaration"@,
        NodeClass::VariableDeclaration => "VariableDeclaration"@,
        NodeClass::Function => "FunctionDeclaration"@,
        NodeClass::Class => "ClassDeclaration"@,
        NodeClass::ExpressionStatement => "ExpressionStatement"@,
        NodeClass::ExportDeclaration => "ExportNamedDeclaration"@,
        NodeClass::ExportNamedDeclaration => "ExportNamedDeclaration"@,
        NodeClass::ExportFromDeclaration => "ExportNamedDeclaration"@,
        NodeClass::ExportDefaultDeclaration => "ExportDefaultDeclaration"@,
        NodeClass::ExportAllDeclaration => "ExportAllDeclaration"@,
        NodeClass::InterfaceDeclaration => "TSInterfaceDeclaration"@,
        NodeClass::TypeAliasDeclaration => "TSTypeAliasDeclaration"@,
        _ => "Statement"@,
    }
}

/// The kind name of a declaration node.
pub open spec fn declaration_kind(c: NodeClass) -> Seq<char> {
    match c {
        NodeClass::Function => "FunctionDeclaration"@,
        NodeClass::Class => "ClassDeclaration"@,
        NodeClass::VariableDeclaration => "VariableDeclaration"@,
        NodeClass::InterfaceDeclaration => "TSInterfaceDeclaration"@,
        NodeClass::TypeAliasDeclaration => "TSTypeAliasDeclaration"@,
        _ => "Declaration"@,
    }
}

/// The kind name of an expression node.
pub open spec fn expression_kind(c: NodeClass) -> Seq<char> {
    match c {
        NodeClass::IdentifierReference => "Identifier"@,
        NodeClass::CallExpression => "CallExpression"@,
        NodeClass::MemberExpression => "MemberExpression"@,
        _ => "Expression"@,
    }
}

/// The kind name of the tree node for node `i` in role `role`.
pub open spec fn role_kind(ns: Seq<ParsedNodeView>, i: int, role: Role) -> Seq<char> {
    match role {
        Role::Program => "Program"@,
        Role::Statement => statement_kind(cls(ns, i)),
        Role::Declaration => declaration_kind(cls(ns, i)),
        Role::Expression => expression_kind(cls(ns, i)),
        Role::Call => "CallExpression"@,
        Role::Variable => "VariableDeclaration"@,
        Role::Class => "Class"@,
        Role::Method => "MethodDefinition"@,
        Role::ImportLeaf => "ImportDeclaration"@,
        Role::FunctionLeaf => "Function"@,
        Role::InterfaceLeaf => "TSInterfaceDeclaration"@,
        Role::AliasLeaf => "TSTypeAliasDeclaration"@,
    }
}

/// The identifier name of the tree node: the referenced name, for an
/// identifier expression.
pub open spec fn role_identifier(ns: Seq<ParsedNodeView>, i: int, role: Role) -> Option<Seq<char>> {
    if role == Role::Expression && cls(ns, i) == NodeClass::IdentifierReference {
        ns[i].name
    } else {
        None
    }
}

pub open spec fn node_span(n: ParsedNodeView) -> NodeSpan {
    NodeSpan { start: n.start, end: n.end }
}

/// The source text under a node's span (empty where the span does not
/// delimit text of the source).
pub open spec fn node_text(s: Seq<char>, n: ParsedNodeView) -> Seq<char> {
    match span_text_result(s, node_span(n)) {
        Ok(t) => t,
        Err(_) => Seq::empty(),
    }
}

pub open spec fn option_view(o: Option<String>) -> Option<Seq<char>> {
    match o {
        Some(t) => Some(t@),
        None => None,
    }
}

/// `t` is the tree built for node `i` of `ns` in role `role`, over the
/// source `s`.
pub open spec fn node_is(t: SyntaxNode, ns: Seq<ParsedNodeView>, s: Seq<char>, i: int, role: Role) -> bool
    decreases t, 0int, 0int,
{
    &&& 0 <= i < ns.len()
    &&& t.kind@ == role_kind(ns, i, role)
    &&& t.span == node_span(ns[i])
    &&& t.text@ == node_text(s, ns[i])
    &&& option_view(t.identifier) == role_identifier(ns, i, role)
    &&& t.children@.len() == role_children(ns, i, role).len()
    &&& kids_are(t.children@, ns, s, role_children(ns, i, role), 0)
}

/// From position `k` on, each of `ts` is the tree built for the node and
/// role at the same position of `ch`.
pub open spec fn kids_are(
    ts: Seq<SyntaxNode>,
    ns: Seq<ParsedNodeView>,
    s: Seq<char>,
    ch: Seq<(int, Role)>,
    k: int,
) -> bool
    decreases ts, ts.len() - k, 0int,
{
    if k < 0 || k >= ts.len() {
        true
    } else {
        node_is(ts[k], ns, s, ch[k].0, ch[k].1) && kids_are(ts, ns, s, ch, k + 1)
    }
}

} // verus!

verus! {

// ---------------------------------------------------------------------------
// Children come later or rank lower
// ---------------------------------------------------------------------------

pub open spec fn within(ks: Seq<int>, lo: int, hi: int) -> bool {
    forall|m: int| 0 <= m < ks.len() ==> lo < #[trigger] ks[m] < hi
}

proof fn lemma_program_body_within(ns: Seq<ParsedNodeView>, ks: Seq<int>, lo: int, hi: int)
    requires
        within(ks, lo, hi),
    ensures
        within(program_body(ns, ks), lo, hi),
    decreases ks.len(),
{
    if ks.len() > 0 {
        assert(within(ks.drop_last(), lo, hi)) by {
            assert forall|m: int| 0 <= m < ks.drop_last().len() implies lo < #[trigger] ks.drop_last()[m] < hi by {
                assert(ks.drop_last()[m] == ks[m]);
            }
        }
        lemma_program_body_within(ns, ks.drop_last(), lo, hi);
        assert(ks.last() == ks[ks.len() - 1]);
    }
}

proof fn lemma_call_arguments_within(ns: Seq<ParsedNodeView>, ks: Seq<int>, lo: int, hi: int)
    requires
        within(ks, lo, hi),
    ensures
        within(call_arguments(ns, ks), lo, hi),
    decreases ks.len(),
{
    if ks.len() > 0 {
        assert(within(ks.drop_last(), lo, hi)) by {
            assert forall|m: int| 0 <= m < ks.drop_last().len() implies lo < #[trigger] ks.drop_last()[m] < hi by {
                assert(ks.drop_last()[m] == ks[m]);
            }
        }
        lemma_call_arguments_within(ns, ks.drop_last(), lo, hi);
        assert(ks.last() == ks[ks.len() - 1]);
    }
}

proof fn lemma_methods_within(ns: Seq<ParsedNodeView>, ks: Seq<int>, lo: int, hi: int)
    requires
        within(ks, lo, hi),
    ensures
        within(methods_of(ns, ks), lo, hi),
    decreases ks.len(),
{
    if ks.len() > 0 {
        assert(within(ks.drop_last(), lo, hi)) by {
            assert forall|m: int| 0 <= m < ks.drop_last().len() implies lo < #[trigger] ks.drop_last()[m] < hi by {
                assert(ks.drop_last()[m] == ks[m]);
            }
        }
        lemma_methods_within(ns, ks.drop_last(), lo, hi);
        assert(ks.last() == ks[ks.len() - 1]);
    }
}

proof fn lemma_initializers_within(ns: Seq<ParsedNodeView>, ds: Seq<int>, lo: int)
    requires
        well_formed(ns),
        lo == 0,
        within(ds, lo, ns.len() as int),
    ensures
        within(initializers(ns, ds), lo, ns.len() as int),
    decreases ds.len(),
{
    if ds.len() > 0 {
        assert(within(ds.drop_last(), lo, ns.len() as int)) by {
            assert forall|m: int| 0 <= m < ds.drop_last().len() implies lo < #[trigger] ds.drop_last()[m] < ns.len() by {
                assert(ds.drop_last()[m] == ds[m]);
            }
        }
        lemma_initializers_within(ns, ds.drop_last(), lo);
        let d = ds.last();
        assert(d == ds[ds.len() - 1]);
        lemma_children_within(ns, d);
    }
}

proof fn lemma_first_of_within(ns: Seq<ParsedNodeView>, ks: Seq<int>, c: NodeClass, k: int, lo: int, hi: int)
    requires
        within(ks, lo, hi),
    ensures
        first_of(ns, ks, c, k) matches Some(x) ==> lo < x < hi,
    decreases ks.len() - k,
{
    if !(k < 0 || k >= ks.len()) && cls(ns, ks[k]) != c {
        lemma_first_of_within(ns, ks, c, k + 1, lo, hi);
    }
}

proof fn lemma_with_role(ks: Seq<int>, r: Role, lo: int, hi: int)
    requires
        within(ks, lo, hi),
    ensures
        forall|m: int| 0 <= m < with_role(ks, r).len() ==> lo < (#[trigger] with_role(ks, r)[m]).0 < hi
            && with_role(ks, r)[m].1 == r,
{
}

/// Each child of a tree node is built from a node of the list.
pub proof fn lemma_role_children_within(ns: Seq<ParsedNodeView>, i: int, role: Role)
    requires
        well_formed(ns),
        0 <= i < ns.len(),
    ensures
        forall|m: int| 0 <= m < role_children(ns, i, role).len() ==> {
            let (j, r) = #[trigger] role_children(ns, i, role)[m];
            0 <= j < ns.len()
        },
{
    let ch = role_children(ns, i, role);
    let len = ns.len() as int;
    lemma_children_within(ns, i);
    let ks = children(ns, i);
    assert(within(ks, 0, len));
    match role {
        Role::Program => {
            lemma_program_body_within(ns, ks, 0, len);
            lemma_with_role(program_body(ns, ks), Role::Statement, 0, len);
        },
        Role::Call => {
            if ks.len() > 0 {
                assert(within(ks.drop_first(), 0, len)) by {
                    assert forall|m: int| 0 <= m < ks.drop_first().len() implies 0 < #[trigger] ks.drop_first()[m] < len by {
                        assert(ks.drop_first()[m] == ks[m + 1]);
                    }
                }
                lemma_call_arguments_within(ns, ks.drop_first(), 0, len);
                lemma_with_role(call_arguments(ns, ks.drop_first()), Role::Expression, 0, len);
                let head = seq![(ks[0], Role::Expression)];
                let tail = with_role(call_arguments(ns, ks.drop_first()), Role::Expression);
                assert forall|m: int| 0 <= m < ch.len() implies ({
                    let (j, r) = #[trigger] ch[m];
                    0 <= j < ns.len()
                }) by {
                    if m == 0 {
                        assert(ch[m] == head[0]);
                    } else {
                        assert(ch[m] == tail[m - 1]);
                    }
                }
            }
        },
        Role::Variable => {
            lemma_initializers_within(ns, ks, 0);
            lemma_with_role(initializers(ns, ks), Role::Expression, 0, len);
        },
        Role::Class => {
            lemma_first_of_within(ns, ks, NodeClass::ClassBody, 0, 0, len);
            match first_of(ns, ks, NodeClass::ClassBody, 0) {
                Some(b) => {
                    lemma_children_within(ns, b);
                    assert(within(children(ns, b), 0, len));
                    lemma_methods_within(ns, children(ns, b), 0, len);
                    lemma_with_role(methods_of(ns, children(ns, b)), Role::Method, 0, len);
                },
                None => {},
            }
        },
        Role::Method => {
            lemma_first_of_within(ns, ks, NodeClass::Function, 0, 0, len);
        },
        Role::Statement => {
            if ks.len() > 0 {
                assert(0 < ks[0] < len);
            }
        },
        _ => {},
    }
}

/// The tree for node `i` in role `role` is built within `fuel` descents:
/// a child built from the same node in a role of lower rank costs none,
/// any other child one.
pub open spec fn depth_ok(ns: Seq<ParsedNodeView>, i: int, role: Role, fuel: nat) -> bool
    decreases fuel, rank(role),
{
    forall|m: int|
        #![trigger role_children(ns, i, role)[m]]
        0 <= m < role_children(ns, i, role).len() ==> {
            let (j, r) = role_children(ns, i, role)[m];
            if j == i && 0 <= rank(r) < rank(role) {
                depth_ok(ns, j, r, fuel)
            } else {
                fuel > 0 && depth_ok(ns, j, r, (fuel - 1) as nat)
            }
        }
}

} // verus!

verus! {

// ---------------------------------------------------------------------------
// Building the tree
// ---------------------------------------------------------------------------

pub open spec fn index_view(v: Seq<usize>) -> Seq<int> {
    v.map_values(|j: usize| j as int)
}

pub open spec fn pairs_view(v: Seq<(usize, Role)>) -> Seq<(int, Role)> {
    v.map_values(|p: (usize, Role)| (p.0 as int, p.1))
}

proof fn lemma_take_step(v: Seq<usize>, k: int)
    requires
        0 <= k < v.len(),
    ensures
        index_view(v).take(k + 1).drop_last() == index_view(v).take(k),
        index_view(v).take(k + 1).last() == v[k] as int,
        index_view(v).take(k + 1).len() == k + 1,
{
    assert(index_view(v).take(k + 1).drop_last() =~= index_view(v).take(k));
}

fn program_body_exec(nodes: &Vec<ParsedNode>, ks: &Vec<usize>) -> (res: Vec<usize>)
    requires
        forall|m: int| 0 <= m < ks@.len() ==> (#[trigger] ks@[m]) < nodes@.len(),
    ensures
        index_view(res@) == program_body(parsed_views(nodes@), index_view(ks@)),
{
    let ghost ns = parsed_views(nodes@);
    let mut out: Vec<usize> = Vec::new();
    let mut k: usize = 0;
    while k < ks.len()
        invariant
            k <= ks@.len(),
            ns == parsed_views(nodes@),
            forall|m: int| 0 <= m < ks@.len() ==> (#[trigger] ks@[m]) < nodes@.len(),
            index_view(out@) == program_body(ns, index_view(ks@).take(k as int)),
        decreases ks.len() - k,
    {
        let j = ks[k];
        proof {
            lemma_take_step(ks@, k as int);
        }
        let c = classify(&nodes[j].kind);
        let ghost before = out@;
        if !(c == NodeClass::Directive || c == NodeClass::Hashbang) {
            out.push(j);
            assert(index_view(out@) =~= index_view(before).push(j as int));
        }
        k = k + 1;
    }
    assert(index_view(ks@).take(ks@.len() as int) =~= index_view(ks@));
    out
}

fn call_arguments_exec(nodes: &Vec<ParsedNode>, ks: &Vec<usize>) -> (res: Vec<usize>)
    requires
        forall|m: int| 0 <= m < ks@.len() ==> (#[trigger] ks@[m]) < nodes@.len(),
    ensures
        index_view(res@) == call_arguments(parsed_views(nodes@), index_view(ks@)),
{
    let ghost ns = parsed_views(nodes@);
    let mut out: Vec<usize> = Vec::new();
    let mut k: usize = 0;
    while k < ks.len()
        invariant
            k <= ks@.len(),
            ns == parsed_views(nodes@),
            forall|m: int| 0 <= m < ks@.len() ==> (#[trigger] ks@[m]) < nodes@.len(),
            index_view(out@) == call_arguments(ns, index_view(ks@).take(k as int)),
        decreases ks.len() - k,
    {
        let j = ks[k];
        proof {
            lemma_take_step(ks@, k as int);
        }
        let c = classify(&nodes[j].kind);
        let ghost before = out@;
        if !(c == NodeClass::TypeArguments || c == NodeClass::SpreadElement) {
            out.push(j);
            assert(index_view(out@) =~= index_view(before).push(j as int));
        }
        k = k + 1;
    }
    assert(index_view(ks@).take(ks@.len() as int) =~= index_view(ks@));
    out
}

fn methods_exec(nodes: &Vec<ParsedNode>, ks: &Vec<usize>) -> (res: Vec<usize>)
    requires
        forall|m: int| 0 <= m < ks@.len() ==> (#[trigger] ks@[m]) < nodes@.len(),
    ensures
        index_view(res@) == methods_of(parsed_views(nodes@), index_view(ks@)),
{
    let ghost ns = parsed_views(nodes@);
    let mut out: Vec<usize> = Vec::new();
    let mut k: usize = 0;
    while k < ks.len()
        invariant
            k <= ks@.len(),
            ns == parsed_views(nodes@),
            forall|m: int| 0 <= m < ks@.len() ==> (#[trigger] ks@[m]) < nodes@.len(),
            index_view(out@) == methods_of(ns, index_view(ks@).take(k as int)),
        decreases ks.len() - k,
    {
        let j = ks[k];
        proof {
            lemma_take_step(ks@, k as int);
        }
        let c = classify(&nodes[j].kind);
        let ghost before = out@;
        if c == NodeClass::MethodDefinition {
            out.push(j);
            assert(index_view(out@) =~= index_view(before).push(j as int));
        }
        k = k + 1;
    }
    assert(index_view(ks@).take(ks@.len() as int) =~= index_view(ks@));
    out
}

fn declarator_init_exec(nodes: &Vec<ParsedNode>, d: usize) -> (res: Option<usize>)
    requires
        well_formed(parsed_views(nodes@)),
        d < nodes@.len(),
    ensures
        match res {
            Some(x) => declarator_init(parsed_views(nodes@), d as int) == Some(x as int),
            None => declarator_init(parsed_views(nodes@), d as int) is None,
        },
{
    let ghost ns = parsed_views(nodes@);
    let dk = children_of(nodes, d);
    proof {
        lemma_children_within(ns, d as int);
        assert(forall|m: int| 0 <= m < dk@.len() ==> index_view(dk@)[m] == dk@[m] as int);
    }
    if dk.len() >= 2 {
        if classify(&nodes[dk[1]].kind) == NodeClass::TypeAnnotation {
            if dk.len() >= 3 {
                Some(dk[2])
            } else {
                None
            }
        } else {
            Some(dk[1])
        }
    } else {
        None
    }
}

fn initializers_exec(nodes: &Vec<ParsedNode>, ds: &Vec<usize>) -> (res: Vec<usize>)
    requires
        well_formed(parsed_views(nodes@)),
        forall|m: int| 0 <= m < ds@.len() ==> (#[trigger] ds@[m]) < nodes@.len(),
    ensures
        index_view(res@) == initializers(parsed_views(nodes@), index_view(ds@)),
{
    let ghost ns = parsed_views(nodes@);
    let mut out: Vec<usize> = Vec::new();
    let mut k: usize = 0;
    while k < ds.len()
        invariant
            k <= ds@.len(),
            ns == parsed_views(nodes@),
            well_formed(ns),
            forall|m: int| 0 <= m < ds@.len() ==> (#[trigger] ds@[m]) < nodes@.len(),
            index_view(out@) == initializers(ns, index_view(ds@).take(k as int)),
        decreases ds.len() - k,
    {
        let d = ds[k];
        proof {
            lemma_take_step(ds@, k as int);
        }
        let ghost before = out@;
        match declarator_init_exec(nodes, d) {
            Some(x) => {
                out.push(x);
                assert(index_view(out@) =~= index_view(before).push(x as int));
            },
            None => {},
        }
        k = k + 1;
    }
    assert(index_view(ds@).take(ds@.len() as int) =~= index_view(ds@));
    out
}

fn first_of_exec(nodes: &Vec<ParsedNode>, ks: &Vec<usize>, c: NodeClass) -> (res: Option<usize>)
    requires
        forall|m: int| 0 <= m < ks@.len() ==> (#[trigger] ks@[m]) < nodes@.len(),
    ensures
        match res {
            Some(x) => first_of(parsed_views(nodes@), index_view(ks@), c, 0) == Some(x as int),
            None => first_of(parsed_views(nodes@), index_view(ks@), c, 0) is None,
        },
{
    let ghost ns = parsed_views(nodes@);
    let ghost kv = index_view(ks@);
    let mut k: usize = 0;
    while k < ks.len()
        invariant
            k <= ks@.len(),
            ns == parsed_views(nodes@),
            kv == index_view(ks@),
            forall|m: int| 0 <= m < ks@.len() ==> (#[trigger] ks@[m]) < nodes@.len(),
            first_of(ns, kv, c, 0) == first_of(ns, kv, c, k as int),
        decreases ks.len() - k,
    {
        let j = ks[k];
        assert(kv[k as int] == j as int);
        if classify(&nodes[j].kind) == c {
            return Some(j);
        }
        k = k + 1;
    }
    None
}

} // verus!

verus! {

fn with_role_exec(ks: Vec<usize>, r: Role) -> (res: Vec<(usize, Role)>)
    ensures
        pairs_view(res@) == with_role(index_view(ks@), r),
{
    let mut out: Vec<(usize, Role)> = Vec::new();
    let mut k: usize = 0;
    while k < ks.len()
        invariant
            k <= ks@.len(),
            pairs_view(out@) == with_role(index_view(ks@).take(k as int), r),
        decreases ks.len() - k,
    {
        let ghost before = out@;
        out.push((ks[k], r));
        proof {
            lemma_take_step(ks@, k as int);
            assert(pairs_view(out@) =~= pairs_view(before).push((ks@[k as int] as int, r)));
            assert(with_role(index_view(ks@).take(k + 1), r) =~= with_role(index_view(ks@).take(k as int), r).push(
                (ks@[k as int] as int, r),
            ));
        }
        k = k + 1;
    }
    assert(index_view(ks@).take(ks@.len() as int) =~= index_view(ks@));
    out
}

fn one_pair(j: usize, r: Role) -> (res: Vec<(usize, Role)>)
    ensures
        pairs_view(res@) == seq![(j as int, r)],
{
    let mut out: Vec<(usize, Role)> = Vec::new();
    out.push((j, r));
    assert(pairs_view(out@) =~= seq![(j as int, r)]);
    out
}

fn no_pairs() -> (res: Vec<(usize, Role)>)
    ensures
        pairs_view(res@) == Seq::<(int, Role)>::empty(),
{
    let out: Vec<(usize, Role)> = Vec::new();
    assert(pairs_view(out@) =~= Seq::<(int, Role)>::empty());
    out
}

fn statement_children_exec(nodes: &Vec<ParsedNode>, i: usize) -> (res: Vec<(usize, Role)>)
    requires
        well_formed(parsed_views(nodes@)),
        i < nodes@.len(),
    ensures
        pairs_view(res@) == statement_children(parsed_views(nodes@), i as int),
{
    let ghost ns = parsed_views(nodes@);
    let c = classify(&nodes[i].kind);
    match c {
        NodeClass::ImportDeclaration => one_pair(i, Role::ImportLeaf),
        NodeClass::VariableDeclaration => one_pair(i, Role::Variable),
        NodeClass::Function => one_pair(i, Role::FunctionLeaf),
        NodeClass::Class => one_pair(i, Role::Class),
        NodeClass::InterfaceDeclaration => one_pair(i, Role::InterfaceLeaf),
        NodeClass::TypeAliasDeclaration => one_pair(i, Role::AliasLeaf),
        NodeClass::ExpressionStatement | NodeClass::ExportDeclaration | NodeClass::ExportDefaultDeclaration => {
            let ks = children_of(nodes, i);
            proof {
                lemma_children_within(ns, i as int);
            }
            if ks.len() == 0 {
                return no_pairs();
            }
            let d = ks[0];
            assert(index_view(ks@)[0] == d as int);
            if c == NodeClass::ExpressionStatement {
                one_pair(d, Role::Expression)
            } else if c == NodeClass::ExportDeclaration {
                one_pair(d, Role::Declaration)
            } else {
                match classify(&nodes[d].kind) {
                    NodeClass::Function => one_pair(d, Role::FunctionLeaf),
                    NodeClass::Class => one_pair(d, Role::Class),
                    NodeClass::InterfaceDeclaration => one_pair(d, Role::InterfaceLeaf),
                    _ => no_pairs(),
                }
            }
        },
        _ => no_pairs(),
    }
}

fn role_children_exec(nodes: &Vec<ParsedNode>, i: usize, role: Role) -> (res: Vec<(usize, Role)>)
    requires
        well_formed(parsed_views(nodes@)),
        i < nodes@.len(),
    ensures
        pairs_view(res@) == role_children(parsed_views(nodes@), i as int, role),
{
    let ghost ns = parsed_views(nodes@);
    proof {
        lemma_children_within(ns, i as int);
    }
    match role {
        Role::Program => {
            let ks = children_of(nodes, i);
            assert(forall|m: int| 0 <= m < ks@.len() ==> index_view(ks@)[m] == ks@[m] as int);
            let body = program_body_exec(nodes, &ks);
            with_role_exec(body, Role::Statement)
        },
        Role::Statement => statement_children_exec(nodes, i),
        Role::Declaration => {
            match classify(&nodes[i].kind) {
                NodeClass::Function => one_pair(i, Role::FunctionLeaf),
                NodeClass::Class => one_pair(i, Role::Class),
                NodeClass::VariableDeclaration => one_pair(i, Role::Variable),
                NodeClass::InterfaceDeclaration => one_pair(i, Role::InterfaceLeaf),
                NodeClass::TypeAliasDeclaration => one_pair(i, Role::AliasLeaf),
                _ => no_pairs(),
            }
        },
        Role::Expression => {
            if classify(&nodes[i].kind) == NodeClass::CallExpression {
                one_pair(i, Role::Call)
            } else {
                no_pairs()
            }
        },
        Role::Call => {
            let ks = children_of(nodes, i);
            assert(forall|m: int| 0 <= m < ks@.len() ==> index_view(ks@)[m] == ks@[m] as int);
            if ks.len() == 0 {
                return no_pairs();
            }
            let mut rest: Vec<usize> = Vec::new();
            let mut k: usize = 1;
            while k < ks.len()
                invariant
                    1 <= k <= ks@.len(),
                    index_view(rest@) == index_view(ks@).drop_first().take(k - 1),
                    forall|m: int| 0 <= m < ks@.len() ==> (#[trigger] ks@[m]) < nodes@.len(),
                    forall|m: int| 0 <= m < rest@.len() ==> (#[trigger] rest@[m]) < nodes@.len(),
                decreases ks.len() - k,
            {
                let ghost before = rest@;
                rest.push(ks[k]);
                proof {
                    assert(index_view(rest@) =~= index_view(before).push(ks@[k as int] as int));
                    assert(index_view(ks@).drop_first().take(k as int) =~= index_view(ks@).drop_first().take(
                        k - 1,
                    ).push(ks@[k as int] as int));
                    assert forall|m: int| 0 <= m < rest@.len() implies (#[trigger] rest@[m]) < nodes@.len() by {
                        if m < before.len() {
                            assert(rest@[m] == before[m]);
                        }
                    }
                }
                k = k + 1;
            }
            assert(index_view(ks@).drop_first().take(ks@.len() - 1) =~= index_view(ks@).drop_first());
            let args = call_arguments_exec(nodes, &rest);
            let tail = with_role_exec(args, Role::Expression);
            let mut out = one_pair(ks[0], Role::Expression);
            let ghost head = out@;
            let mut t = tail;
            out.append(&mut t);
            assert(pairs_view(out@) =~= pairs_view(head) + pairs_view(tail@));
            out
        },
        Role::Variable => {
            let ks = children_of(nodes, i);
            assert(forall|m: int| 0 <= m < ks@.len() ==> index_view(ks@)[m] == ks@[m] as int);
            let inits = initializers_exec(nodes, &ks);
            with_role_exec(inits, Role::Expression)
        },
        Role::Class => {
            let ks = children_of(nodes, i);
            assert(forall|m: int| 0 <= m < ks@.len() ==> index_view(ks@)[m] == ks@[m] as int);
            match first_of_exec(nodes, &ks, NodeClass::ClassBody) {
                Some(b) => {
                    proof {
                        lemma_first_of_within(ns, index_view(ks@), NodeClass::ClassBody, 0, 0, ns.len() as int);
                        lemma_children_within(ns, b as int);
                    }
                    let bk = children_of(nodes, b);
                    assert(forall|m: int| 0 <= m < bk@.len() ==> index_view(bk@)[m] == bk@[m] as int);
                    let ms = methods_exec(nodes, &bk);
                    with_role_exec(ms, Role::Method)
                },
                None => no_pairs(),
            }
        },
        Role::Method => {
            let ks = children_of(nodes, i);
            assert(forall|m: int| 0 <= m < ks@.len() ==> index_view(ks@)[m] == ks@[m] as int);
            match first_of_exec(nodes, &ks, NodeClass::Function) {
                Some(f) => one_pair(f, Role::FunctionLeaf),
                None => no_pairs(),
            }
        },
        _ => no_pairs(),
    }
}

} // verus!

verus! {

proof fn lemma_kids_are(ts: Seq<SyntaxNode>, ns: Seq<ParsedNodeView>, s: Seq<char>, ch: Seq<(int, Role)>, k: int)
    requires
        0 <= k,
        ts.len() <= ch.len(),
        forall|m: int| k <= m < ts.len() ==> node_is(#[trigger] ts[m], ns, s, ch[m].0, ch[m].1),
    ensures
        kids_are(ts, ns, s, ch, k),
    decreases ts.len() - k,
{
    if k < ts.len() {
        lemma_kids_are(ts, ns, s, ch, k + 1);
    }
}

fn text_of(source: &str, span: NodeSpan) -> (res: String)
    ensures
        res@ == (match span_text_result(source@, span) {
            Ok(t) => t,
            Err(_) => Seq::<char>::empty(),
        }),
{
    match slice_span_text(source, span) {
        Ok(t) => t,
        Err(_) => String::new(),
    }
}

fn role_kind_exec(nodes: &Vec<ParsedNode>, i: usize, role: Role) -> (res: String)
    requires
        i < nodes@.len(),
    ensures
        res@ == role_kind(parsed_views(nodes@), i as int, role),
{
    let c = classify(&nodes[i].kind);
    let name = match role {
        Role::Program => "Program",
        Role::Statement => match c {
            NodeClass::ImportDeclaration => "ImportDeclaration",
            NodeClass::VariableDeclaration => "VariableDeclaration",
            NodeClass::Function => "FunctionDeclaration",
            NodeClass::Class => "ClassDeclaration",
            NodeClass::ExpressionStatement => "ExpressionStatement",
            NodeClass::ExportDeclaration => "ExportNamedDeclaration",
            NodeClass::ExportNamedDeclaration => "ExportNamedDeclaration",
            NodeClass::ExportFromDeclaration => "ExportNamedDeclaration",
            NodeClass::ExportDefaultDeclaration => "ExportDefaultDeclaration",
            NodeClass::ExportAllDeclaration => "ExportAllDeclaration",
            NodeClass::InterfaceDeclaration => "TSInterfaceDeclaration",
            NodeClass::TypeAliasDeclaration => "TSTypeAliasDeclaration",
            _ => "Statement",
        },
        Role::Declaration => match c {
            NodeClass::Function => "FunctionDeclaration",
            NodeClass::Class => "ClassDeclaration",
            NodeClass::VariableDeclaration => "VariableDeclaration",
            NodeClass::InterfaceDeclaration => "TSInterfaceDeclaration",
            NodeClass::TypeAliasDeclaration => "TSTypeAliasDeclaration",
            _ => "Declaration",
        },
        Role::Expression => match c {
            NodeClass::IdentifierReference => "Identifier",
            NodeClass::CallExpression => "CallExpression",
            NodeClass::MemberExpression => "MemberExpression",
            _ => "Expression",
        },
        Role::Call => "CallExpression",
        Role::Variable => "VariableDeclaration",
        Role::Class => "Class",
        Role::Method => "MethodDefinition",
        Role::ImportLeaf => "ImportDeclaration",
        Role::FunctionLeaf => "Function",
        Role::InterfaceLeaf => "TSInterfaceDeclaration",
        Role::AliasLeaf => "TSTypeAliasDeclaration",
    };
    name.to_owned()
}

/// The tree built for node `i` in role `role`, where it is built within
/// `fuel` descents.
fn build_node(nodes: &Vec<ParsedNode>, source: &str, i: usize, role: Role, fuel: usize) -> (res: Option<SyntaxNode>)
    requires
        well_formed(parsed_views(nodes@)),
        i < nodes@.len(),
    ensures
        res is Some <==> depth_ok(parsed_views(nodes@), i as int, role, fuel as nat),
        res matches Some(t) ==> node_is(t, parsed_views(nodes@), source@, i as int, role),
    decreases fuel, rank(role),
{
    let ghost ns = parsed_views(nodes@);
    let ch = role_children_exec(nodes, i, role);
    let ghost chv = pairs_view(ch@);
    proof {
        lemma_role_children_within(ns, i as int, role);
    }
    let mut kids: Vec<SyntaxNode> = Vec::new();
    let mut k: usize = 0;
    while k < ch.len()
        invariant
            k <= ch@.len(),
            ns == parsed_views(nodes@),
            well_formed(ns),
            i < nodes@.len(),
            chv == pairs_view(ch@),
            chv == role_children(ns, i as int, role),
            forall|m: int| 0 <= m < chv.len() ==> {
                let (j, r) = #[trigger] chv[m];
                0 <= j < ns.len()
            },
            kids@.len() == k,
            forall|m: int| 0 <= m < k ==> node_is(#[trigger] kids@[m], ns, source@, chv[m].0, chv[m].1),
            forall|m: int|
                #![trigger chv[m]]
                0 <= m < k ==> {
                    let (j, r) = chv[m];
                    if j == i && 0 <= rank(r) < rank(role) {
                        depth_ok(ns, j, r, fuel as nat)
                    } else {
                        fuel > 0 && depth_ok(ns, j, r, (fuel - 1) as nat)
                    }
                },
        decreases ch.len() - k,
    {
        let (j, r) = ch[k];
        assert(chv[k as int] == (j as int, r));
        let same = j == i && rank_of(r) < rank_of(role);
        let built = if same {
            build_node(nodes, source, j, r, fuel)
        } else if fuel > 0 {
            build_node(nodes, source, j, r, fuel - 1)
        } else {
            None
        };
        let child = match built {
            Some(c) => c,
            None => {
                assert(!depth_ok(ns, i as int, role, fuel as nat));
                return None;
            },
        };
        let ghost before = kids@;
        kids.push(child);
        proof {
            assert forall|m: int| 0 <= m < k + 1 implies node_is(#[trigger] kids@[m], ns, source@, chv[m].0, chv[m].1) by {
                if m < k {
                    assert(kids@[m] == before[m]);
                }
            }
        }
        k = k + 1;
    }
    proof {
        lemma_kids_are(kids@, ns, source@, chv, 0);
    }
    let span = NodeSpan { start: nodes[i].start, end: nodes[i].end };
    let identifier = if role == Role::Expression && classify(&nodes[i].kind) == NodeClass::IdentifierReference {
        match &nodes[i].name {
            Some(n) => Some(n.clone()),
            None => None,
        }
    } else {
        None
    };
    Some(SyntaxNode { kind: role_kind_exec(nodes, i, role), text: text_of(source, span), span, identifier, children: kids })
}

fn rank_of(r: Role) -> (res: u8)
    ensures
        res == rank(r),
{
    match r {
        Role::Program => 4,
        Role::Statement => 3,
        Role::Declaration => 3,
        Role::Expression => 2,
        Role::Call => 1,
        Role::Variable => 1,
        Role::Class => 1,
        Role::Method => 1,
        _ => 0,
    }
}

} // verus!

verus! {

// ---------------------------------------------------------------------------
// Trees of sources and patterns, and searches with them
// ---------------------------------------------------------------------------

/// The node a tree is built from, and its role: the program for a whole
/// source; for a pattern, its only top-level statement where it has
/// exactly one, and the program otherwise.
pub open spec fn root_of(ns: Seq<ParsedNodeView>, whole: bool) -> (int, Role) {
    let body = program_body(ns, children(ns, 0));
    if !whole && body.len() == 1 {
        (body[0], Role::Statement)
    } else {
        (0, Role::Program)
    }
}

/// The message that refuses to parse `s`, prefixed by `context`: oxc's
/// first parse error, or a node list from which no tree is built within as
/// many descents as it has nodes; `None` where `s` parses.
pub open spec fn parse_refusal(s: Seq<char>, context: Seq<char>, whole: bool) -> Option<Seq<char>> {
    let (error, ns) = oxc_semantic_nodes(s);
    match error {
        Some(e) => Some(context + ": "@ + e),
        None => if well_formed(ns) && depth_ok(ns, root_of(ns, whole).0, root_of(ns, whole).1, ns.len()) {
            None
        } else {
            Some(context + ": malformed syntax tree"@)
        },
    }
}

/// `t` is the tree of the source `s`, parsed whole or as a pattern.
pub open spec fn tree_of_source(t: SyntaxNode, s: Seq<char>, whole: bool) -> bool {
    let (error, ns) = oxc_semantic_nodes(s);
    &&& error is None
    &&& well_formed(ns)
    &&& depth_ok(ns, root_of(ns, whole).0, root_of(ns, whole).1, ns.len())
    &&& node_is(t, ns, s, root_of(ns, whole).0, root_of(ns, whole).1)
}

/// `p` is the pattern tree of the pattern source `s`.
pub open spec fn pattern_of_source(p: PatternNode, s: Seq<char>) -> bool {
    exists|t: SyntaxNode| tree_of_source(t, s, false) && pattern_built(p, t, collect_meta(t, Map::empty()))
}

fn parsed_tree(source: &str, context: &str, whole: bool) -> (res: Result<SyntaxNode, String>)
    ensures
        match parse_refusal(source@, context@, whole) {
            Some(m) => res matches Err(e) && e@ == m,
            None => res matches Ok(t) && tree_of_source(t, source@, whole),
        },
{
    let (error, nodes) = semantic_nodes(source);
    match error {
        Some(e) => {
            let mut message = context.to_owned();
            append_text(&mut message, ": ");
            append_text(&mut message, e.as_str());
            Err(message)
        },
        None => {
            if !check_well_formed(&nodes) {
                let mut message = context.to_owned();
                append_text(&mut message, ": malformed syntax tree");
                return Err(message);
            }
            let ghost ns = parsed_views(nodes@);
            let ks = children_of(&nodes, 0);
            proof {
                lemma_children_within(ns, 0);
                assert(forall|m: int| 0 <= m < ks@.len() ==> index_view(ks@)[m] == ks@[m] as int);
            }
            let body = program_body_exec(&nodes, &ks);
            proof {
                lemma_program_body_within(ns, index_view(ks@), 0, ns.len() as int);
            }
            let (root, role) = if !whole && body.len() == 1 {
                assert(index_view(body@)[0] == body@[0] as int);
                (body[0], Role::Statement)
            } else {
                (0, Role::Program)
            };
            match build_node(&nodes, source, root, role, nodes.len()) {
                Some(t) => Ok(t),
                None => {
                    let mut message = context.to_owned();
                    append_text(&mut message, ": malformed syntax tree");
                    Err(message)
                },
            }
        },
    }
}

/// The syntax tree of `source`: refused with `Invalid source: ` and oxc's
/// first parse error; otherwise the tree built from oxc's semantic nodes.
pub fn parse_tree(source: &str) -> (res: Result<SyntaxNode, String>)
    ensures
        match parse_refusal(source@, "Invalid source"@, true) {
            Some(m) => res matches Err(e) && e@ == m,
            None => res matches Ok(t) && tree_of_source(t, source@, true),
        },
{
    parsed_tree(source, "Invalid source", true)
}

/// The pattern tree of a pattern's source: refused with `Invalid pattern: `
/// and oxc's first parse error; otherwise the pattern built from the tree of
/// its only statement (or of the whole program), with its wildcards.
pub fn parse_pattern(pattern: &str) -> (res: Result<PatternNode, String>)
    ensures
        match parse_refusal(pattern@, "Invalid pattern"@, false) {
            Some(m) => res matches Err(e) && e@ == m,
            None => res matches Ok(p) && pattern_of_source(p, pattern@),
        },
{
    match parsed_tree(pattern, "Invalid pattern", false) {
        Err(e) => Err(e),
        Ok(tree) => {
            let p = to_pattern_ast(&tree);
            assert(tree_of_source(tree, pattern@, false) && pattern_built(p, tree, collect_meta(tree, Map::empty())));
            Ok(p)
        },
    }
}

/// What a search of `pattern` in `source` reports: the refusal of the
/// source, else that of the pattern, else the report of all matches (outer
/// ones preferred) of the pattern's tree in the source's tree.
pub open spec fn search_outcome(res: Result<Vec<PatternMatchPayload>, String>, source: Seq<char>, pattern: Seq<char>) -> bool {
    match parse_refusal(source, "Invalid source"@, true) {
        Some(m) => res matches Err(e) && e@ == m,
        None => match parse_refusal(pattern, "Invalid pattern"@, false) {
            Some(m) => res matches Err(e) && e@ == m,
            None => exists|t: SyntaxNode, p: PatternNode, matcher: PatternMatcher, ms: Seq<MatchResult>|
                #![trigger tree_of_source(t, source, true), pattern_of_source(p, pattern), matcher.level(), results_view(ms)]
                tree_of_source(t, source, true) && pattern_of_source(p, pattern) && matcher.level()
                    == MatchStrictness::Ast && results_view(ms) == all_matches(
                    matcher,
                    t,
                    p,
                    ConflictResolution::PreferOuter,
                ) && pattern_payloads_outcome(res, source, ms),
        },
    }
}

/// The matches of `pattern` in `source`, each with its span, text and
/// meta-variables.
pub fn find_pattern(source: &str, pattern: &str) -> (res: Result<Vec<PatternMatchPayload>, String>)
    ensures
        search_outcome(res, source@, pattern@),
{
    let tree = match parse_tree(source) {
        Err(e) => return Err(e),
        Ok(t) => t,
    };
    let pattern_ast = match parse_pattern(pattern) {
        Err(e) => return Err(e),
        Ok(p) => p,
    };
    let matcher = PatternMatcher::default();
    let matches = find_all_matches(&matcher, &tree, &pattern_ast, ConflictResolution::PreferOuter);
    let res = pattern_match_payloads(source, matches.as_slice());
    assert(tree_of_source(tree, source@, true) && pattern_of_source(pattern_ast, pattern@) && results_view(matches@)
        == all_matches(matcher, tree, pattern_ast, ConflictResolution::PreferOuter) && pattern_payloads_outcome(
        res,
        source@,
        matches@,
    ));
    res
}

/// `blk` is the first script block of the component with source bytes
/// `src`, as extracting the script block gives it.
pub open spec fn first_script_block(blk: ExtractedScriptBlock, src: Seq<u8>) -> bool {
    &&& script_blocks_from(src, 0).len() > 0
    &&& {
        let b = script_blocks_from(src, 0)[0];
        &&& blk.content.spec_bytes() == src.subrange(b.content_start as int, b.content_end as int)
        &&& blk.kind == b.kind
        &&& blk.offset_map@.script_span == (NodeSpan { start: b.content_start as u32, end: b.content_end as u32 })
        &&& blk.offset_map@.line_starts == line_starts_of(src)
        &&& blk.block_presence == presence_of(src)
    }
}

/// What a search of `pattern` in the script block of a Vue component
/// reports: an empty report where the component has no script block;
/// otherwise the refusal of the block's content, else that of the pattern,
/// else the report of all matches of the pattern's tree in the block's tree.
pub open spec fn vue_search_outcome(
    res: Result<VueSfcPatternSearchPayload, String>,
    bytes: Seq<u8>,
    source: Seq<char>,
    pattern: Seq<char>,
) -> bool {
    if script_blocks_from(bytes, 0).len() == 0 {
        res matches Ok(p) && p.script is None && p.matches@.len() == 0
    } else {
        exists|blk: ExtractedScriptBlock|
            #![trigger first_script_block(blk, bytes)]
            first_script_block(blk, bytes) && match parse_refusal(blk.content@, "Invalid Vue SFC script block"@, true) {
                Some(m) => res matches Err(e) && e@ == m,
                None => match parse_refusal(pattern, "Invalid pattern"@, false) {
                    Some(m) => res matches Err(e) && e@ == m,
                    None => exists|t: SyntaxNode, p: PatternNode, matcher: PatternMatcher, ms: Seq<MatchResult>|
                        #![trigger tree_of_source(t, blk.content@, true), pattern_of_source(p, pattern), matcher.level(), results_view(ms)]
                        tree_of_source(t, blk.content@, true) && pattern_of_source(p, pattern) && matcher.level()
                            == MatchStrictness::Ast && results_view(ms) == all_matches(
                            matcher,
                            t,
                            p,
                            ConflictResolution::PreferOuter,
                        ) && vue_payload_outcome(res, source, blk, ms),
                },
            }
    }
}

/// The matches of `pattern` in the script block of the Vue component
/// `source`, with the block, both spans, the text, the line and column of
/// each match, and its meta-variables.
pub fn find_pattern_in_vue_sfc(source: &str, pattern: &str) -> (res: Result<VueSfcPatternSearchPayload, String>)
    ensures
        vue_search_outcome(res, source.spec_bytes(), source@, pattern@),
{
    let extractor = VueSfcExtractor::new(source);
    let block = match extractor.extract_script_block() {
        None => return Ok(empty_vue_sfc_search()),
        Some(b) => b,
    };
    assert(first_script_block(block, source.spec_bytes()));
    let tree = match parsed_tree(block.content, "Invalid Vue SFC script block", true) {
        Err(e) => return Err(e),
        Ok(t) => t,
    };
    let pattern_ast = match parse_pattern(pattern) {
        Err(e) => return Err(e),
        Ok(p) => p,
    };
    let matcher = PatternMatcher::default();
    let matches = find_all_matches(&matcher, &tree, &pattern_ast, ConflictResolution::PreferOuter);
    let res = vue_sfc_search_payload(source, &block, matches.as_slice());
    assert(tree_of_source(tree, block.content@, true) && pattern_of_source(pattern_ast, pattern@)
        && results_view(matches@) == all_matches(matcher, tree, pattern_ast, ConflictResolution::PreferOuter)
        && vue_payload_outcome(res, source@, block, matches@));
    res
}

/// What the matches of a rule in `source` are: only a pattern rule applies;
/// the refusal of its pattern, else that of the source, else all matches
/// (outer ones preferred) of the pattern's tree in the source's tree.
pub open spec fn rule_matches_outcome(res: Result<Vec<MatchResult>, String>, source: Seq<char>, rule: RuleCore) -> bool {
    match rule.rule.core {
        RuleKind::Pattern(a) => match parse_refusal(a.pattern@, "Invalid pattern"@, false) {
            Some(m) => res matches Err(e) && e@ == m,
            None => match parse_refusal(source, "Invalid source"@, true) {
                Some(m) => res matches Err(e) && e@ == m,
                None => res matches Ok(v) && exists|t: SyntaxNode, p: PatternNode, matcher: PatternMatcher|
                    #![trigger tree_of_source(t, source, true), pattern_of_source(p, a.pattern@), matcher.level()]
                    tree_of_source(t, source, true) && pattern_of_source(p, a.pattern@) && matcher.level()
                        == MatchStrictness::Ast && results_view(v@) == all_matches(
                        matcher,
                        t,
                        p,
                        ConflictResolution::PreferOuter,
                    ),
            },
        },
        _ => res matches Err(e) && e@ == "Only pattern rules can be applied"@,
    }
}

/// The matches of a pattern rule in `source`.
pub fn pattern_rule_matches(source: &str, rule: &RuleCore) -> (res: Result<Vec<MatchResult>, String>)
    ensures
        rule_matches_outcome(res, source@, *rule),
{
    let pattern_ast = match &rule.rule.core {
        RuleKind::Pattern(atomic) => match parse_pattern(atomic.pattern.as_str()) {
            Err(e) => return Err(e),
            Ok(p) => p,
        },
        _ => return Err("Only pattern rules can be applied".to_owned()),
    };
    let tree = match parse_tree(source) {
        Err(e) => return Err(e),
        Ok(t) => t,
    };
    let matcher = PatternMatcher::default();
    let matches = find_all_matches(&matcher, &tree, &pattern_ast, ConflictResolution::PreferOuter);
    assert(tree_of_source(tree, source@, true) && results_view(matches@) == all_matches(
        matcher,
        tree,
        pattern_ast,
        ConflictResolution::PreferOuter,
    ));
    Ok(matches)
}

} // verus!

verus! {

// ---------------------------------------------------------------------------
// Top-level statements, as far as imports and exports are concerned
// ---------------------------------------------------------------------------

/// The name oxc gives node `j`: the referenced name of an identifier
/// reference, else the name or value its details carry.
pub open spec fn name_at(ns: Seq<ParsedNodeView>, ds: Seq<(Option<Seq<char>>, bool)>, j: int) -> Option<Seq<char>> {
    if 0 <= j < ns.len() && ns[j].name is Some {
        ns[j].name
    } else if 0 <= j < ds.len() {
        ds[j].0
    } else {
        None
    }
}

pub open spec fn text_or_empty(o: Option<Seq<char>>) -> Seq<char> {
    match o {
        Some(t) => t,
        None => Seq::empty(),
    }
}

pub open spec fn type_only_at(ds: Seq<(Option<Seq<char>>, bool)>, j: int) -> bool {
    0 <= j < ds.len() && ds[j].1
}

/// The name of the binding identifier that is a child of node `i`.
pub open spec fn binding_of(ns: Seq<ParsedNodeView>, ds: Seq<(Option<Seq<char>>, bool)>, i: int) -> Option<Seq<char>> {
    match first_of(ns, children(ns, i), NodeClass::BindingIdentifier, 0) {
        Some(b) => name_at(ns, ds, b),
        None => None,
    }
}

/// The name a declarator binds, where its binding is a plain identifier.
pub open spec fn declarator_name(ns: Seq<ParsedNodeView>, ds: Seq<(Option<Seq<char>>, bool)>, d: int) -> Option<Seq<char>> {
    let dk = children(ns, d);
    if dk.len() > 0 && cls(ns, dk[0]) == NodeClass::BindingIdentifier {
        name_at(ns, ds, dk[0])
    } else {
        None
    }
}

pub open spec fn is_import_specifier(c: NodeClass) -> bool {
    c == NodeClass::ImportSpecifier || c == NodeClass::ImportDefaultSpecifier || c == NodeClass::ImportNamespaceSpecifier
}

/// The indices in `ks` whose nodes are of class `c`, or (when `imports`)
/// import bindings of any kind.
pub open spec fn nodes_of_class(ns: Seq<ParsedNodeView>, ks: Seq<int>, c: NodeClass, imports: bool) -> Seq<int>
    decreases ks.len(),
{
    if ks.len() == 0 {
        Seq::empty()
    } else {
        let keep = if imports {
            is_import_specifier(cls(ns, ks.last()))
        } else {
            cls(ns, ks.last()) == c
        };
        if keep {
            nodes_of_class(ns, ks.drop_last(), c, imports).push(ks.last())
        } else {
            nodes_of_class(ns, ks.drop_last(), c, imports)
        }
    }
}

pub open spec fn import_specifier_is(sp: ImportSpecifierModel, ns: Seq<ParsedNodeView>, ds: Seq<(Option<Seq<char>>, bool)>, j: int) -> bool {
    let local = text_or_empty(binding_of(ns, ds, j));
    match cls(ns, j) {
        NodeClass::ImportDefaultSpecifier => sp matches ImportSpecifierModel::Default(n) && n@ == local,
        NodeClass::ImportNamespaceSpecifier => sp matches ImportSpecifierModel::Namespace(n) && n@ == local,
        _ => sp matches ImportSpecifierModel::Named(n) && n@ == local,
    }
}

/// `m` describes the import declaration at node `i`.
pub open spec fn import_is(m: ImportModel, ns: Seq<ParsedNodeView>, ds: Seq<(Option<Seq<char>>, bool)>, i: int) -> bool {
    let sps = nodes_of_class(ns, children(ns, i), NodeClass::ImportSpecifier, true);
    let source = match first_of(ns, children(ns, i), NodeClass::StringLiteral, 0) {
        Some(l) => name_at(ns, ds, l),
        None => None,
    };
    &&& m.source@ == text_or_empty(source)
    &&& m.type_only == type_only_at(ds, i)
    &&& m.start == ns[i].start
    &&& m.specifiers matches Some(v) && v@.len() == sps.len() && forall|k: int|
        0 <= k < sps.len() ==> import_specifier_is(#[trigger] v@[k], ns, ds, sps[k])
}

/// `d` describes the declaration at node `j`.
pub open spec fn declaration_is(d: DeclarationModel, ns: Seq<ParsedNodeView>, ds: Seq<(Option<Seq<char>>, bool)>, j: int) -> bool {
    match cls(ns, j) {
        NodeClass::Function => d matches DeclarationModel::Function { name } && option_view(name) == binding_of(ns, ds, j),
        NodeClass::Class => d matches DeclarationModel::Class { name } && option_view(name) == binding_of(ns, ds, j),
        NodeClass::VariableDeclaration => d matches DeclarationModel::Variable { names } && names@.len()
            == children(ns, j).len() && forall|k: int|
            0 <= k < names@.len() ==> option_view(#[trigger] names@[k]) == declarator_name(ns, ds, children(ns, j)[k]),
        NodeClass::InterfaceDeclaration => d matches DeclarationModel::Interface { id } && id@ == text_or_empty(
            binding_of(ns, ds, j),
        ),
        NodeClass::TypeAliasDeclaration => d matches DeclarationModel::TypeAlias { id } && id@ == text_or_empty(
            binding_of(ns, ds, j),
        ),
        _ => d is Other,
    }
}

/// `d` describes what the `export default` at node `i` exports.
pub open spec fn default_is(d: DefaultExportModel, ns: Seq<ParsedNodeView>, ds: Seq<(Option<Seq<char>>, bool)>, i: int) -> bool {
    if children(ns, i).len() > 0 {
        let c = children(ns, i)[0];
        match cls(ns, c) {
            NodeClass::Function => d matches DefaultExportModel::Function { name } && option_view(name) == binding_of(
                ns,
                ds,
                c,
            ),
            NodeClass::Class => d matches DefaultExportModel::Class { name } && option_view(name) == binding_of(ns, ds, c),
            NodeClass::InterfaceDeclaration => d matches DefaultExportModel::Interface { id } && id@ == text_or_empty(
                binding_of(ns, ds, c),
            ),
            _ => d is Other,
        }
    } else {
        d is Other
    }
}

/// The exported name of the export specifier at node `j`: its second
/// name (its only one, where it has one).
pub open spec fn exported_name(ns: Seq<ParsedNodeView>, ds: Seq<(Option<Seq<char>>, bool)>, j: int) -> Seq<char> {
    let c = children(ns, j);
    text_or_empty(
        if c.len() >= 2 {
            name_at(ns, ds, c[1])
        } else if c.len() == 1 {
            name_at(ns, ds, c[0])
        } else {
            None
        },
    )
}

/// The name an `export * as name` at node `i` exports under: its first
/// child where the source string follows it.
pub open spec fn export_all_name(ns: Seq<ParsedNodeView>, ds: Seq<(Option<Seq<char>>, bool)>, i: int) -> Option<Seq<char>> {
    let c = children(ns, i);
    if c.len() >= 2 && cls(ns, c[1]) == NodeClass::StringLiteral {
        name_at(ns, ds, c[0])
    } else {
        None
    }
}

/// `sm` describes the top-level statement at node `i`.
pub open spec fn statement_model_is(sm: StatementModel, ns: Seq<ParsedNodeView>, ds: Seq<(Option<Seq<char>>, bool)>, i: int) -> bool {
    let start = ns[i].start;
    match cls(ns, i) {
        NodeClass::ImportDeclaration => sm matches StatementModel::Import(m) && import_is(m, ns, ds, i),
        NodeClass::ExportDeclaration => match sm {
            StatementModel::ExportNamed { start: st, declaration: Some(d), specifiers } => st == start
                && specifiers@.len() == 0 && (if children(ns, i).len() > 0 {
                declaration_is(d, ns, ds, children(ns, i)[0])
            } else {
                d is Other
            }),
            _ => false,
        },
        NodeClass::ExportNamedDeclaration | NodeClass::ExportFromDeclaration => match sm {
            StatementModel::ExportNamed { start: st, declaration: None, specifiers } => {
                let sps = nodes_of_class(ns, children(ns, i), NodeClass::ExportSpecifier, false);
                &&& st == start
                &&& specifiers@.len() == sps.len()
                &&& forall|k: int|
                    0 <= k < sps.len() ==> (#[trigger] specifiers@[k]).exported@ == exported_name(ns, ds, sps[k])
                        && specifiers@[k].type_only == type_only_at(ds, sps[k])
            },
            _ => false,
        },
        NodeClass::ExportDefaultDeclaration => sm matches StatementModel::ExportDefault { start: st, declaration } && st
            == start && default_is(declaration, ns, ds, i),
        NodeClass::ExportAllDeclaration => sm matches StatementModel::ExportAll { start: st, exported, type_only } && st
            == start && option_view(exported) == export_all_name(ns, ds, i) && type_only == type_only_at(ds, i),
        _ => sm is Other,
    }
}

/// `v` describes the top-level statements of the program, in order.
pub open spec fn statements_are(v: Seq<StatementModel>, ns: Seq<ParsedNodeView>, ds: Seq<(Option<Seq<char>>, bool)>) -> bool {
    let body = if ns.len() > 0 {
        program_body(ns, children(ns, 0))
    } else {
        Seq::empty()
    };
    &&& v.len() == body.len()
    &&& forall|k: int| 0 <= k < v.len() ==> statement_model_is(#[trigger] v[k], ns, ds, body[k])
}

} // verus!

verus! {

fn name_at_exec(nodes: &Vec<ParsedNode>, ds: &Vec<(Option<String>, bool)>, j: usize) -> (res: Option<String>)
    ensures
        option_view(res) == name_at(parsed_views(nodes@), details_view(ds@), j as int),
{
    if j < nodes.len() {
        match &nodes[j].name {
            Some(n) => {
                return Some(n.clone());
            },
            None => {},
        }
    }
    if j < ds.len() {
        match &ds[j].0 {
            Some(n) => Some(n.clone()),
            None => None,
        }
    } else {
        None
    }
}

fn or_empty(o: Option<String>) -> (res: String)
    ensures
        res@ == text_or_empty(option_view(o)),
{
    match o {
        Some(t) => t,
        None => String::new(),
    }
}

fn type_only_exec(ds: &Vec<(Option<String>, bool)>, j: usize) -> (res: bool)
    ensures
        res == type_only_at(details_view(ds@), j as int),
{
    j < ds.len() && ds[j].1
}

fn binding_of_exec(nodes: &Vec<ParsedNode>, ds: &Vec<(Option<String>, bool)>, i: usize) -> (res: Option<String>)
    requires
        well_formed(parsed_views(nodes@)),
    ensures
        option_view(res) == binding_of(parsed_views(nodes@), details_view(ds@), i as int),
{
    let ghost ns = parsed_views(nodes@);
    let ks = children_of(nodes, i);
    proof {
        lemma_children_within(ns, i as int);
        assert(forall|m: int| 0 <= m < ks@.len() ==> index_view(ks@)[m] == ks@[m] as int);
    }
    match first_of_exec(nodes, &ks, NodeClass::BindingIdentifier) {
        Some(b) => name_at_exec(nodes, ds, b),
        None => None,
    }
}

fn declarator_name_exec(nodes: &Vec<ParsedNode>, ds: &Vec<(Option<String>, bool)>, d: usize) -> (res: Option<String>)
    requires
        well_formed(parsed_views(nodes@)),
    ensures
        option_view(res) == declarator_name(parsed_views(nodes@), details_view(ds@), d as int),
{
    let ghost ns = parsed_views(nodes@);
    let dk = children_of(nodes, d);
    proof {
        lemma_children_within(ns, d as int);
        assert(forall|m: int| 0 <= m < dk@.len() ==> index_view(dk@)[m] == dk@[m] as int);
    }
    if dk.len() > 0 && classify(&nodes[dk[0]].kind) == NodeClass::BindingIdentifier {
        name_at_exec(nodes, ds, dk[0])
    } else {
        None
    }
}

fn nodes_of_class_exec(nodes: &Vec<ParsedNode>, ks: &Vec<usize>, c: NodeClass, imports: bool) -> (res: Vec<usize>)
    requires
        forall|m: int| 0 <= m < ks@.len() ==> (#[trigger] ks@[m]) < nodes@.len(),
    ensures
        index_view(res@) == nodes_of_class(parsed_views(nodes@), index_view(ks@), c, imports),
        forall|m: int| 0 <= m < res@.len() ==> (#[trigger] res@[m]) < nodes@.len(),
{
    let ghost ns = parsed_views(nodes@);
    let mut out: Vec<usize> = Vec::new();
    let mut k: usize = 0;
    while k < ks.len()
        invariant
            k <= ks@.len(),
            ns == parsed_views(nodes@),
            forall|m: int| 0 <= m < ks@.len() ==> (#[trigger] ks@[m]) < nodes@.len(),
            forall|m: int| 0 <= m < out@.len() ==> (#[trigger] out@[m]) < nodes@.len(),
            index_view(out@) == nodes_of_class(ns, index_view(ks@).take(k as int), c, imports),
        decreases ks.len() - k,
    {
        let j = ks[k];
        proof {
            lemma_take_step(ks@, k as int);
        }
        let cj = classify(&nodes[j].kind);
        let keep = if imports {
            cj == NodeClass::ImportSpecifier || cj == NodeClass::ImportDefaultSpecifier || cj
                == NodeClass::ImportNamespaceSpecifier
        } else {
            cj == c
        };
        let ghost before = out@;
        if keep {
            out.push(j);
            proof {
                assert(index_view(out@) =~= index_view(before).push(j as int));
                assert forall|m: int| 0 <= m < out@.len() implies (#[trigger] out@[m]) < nodes@.len() by {
                    if m < before.len() {
                        assert(out@[m] == before[m]);
                    }
                }
            }
        }
        k = k + 1;
    }
    assert(index_view(ks@).take(ks@.len() as int) =~= index_view(ks@));
    out
}

fn import_model_exec(nodes: &Vec<ParsedNode>, ds: &Vec<(Option<String>, bool)>, i: usize) -> (res: ImportModel)
    requires
        well_formed(parsed_views(nodes@)),
        i < nodes@.len(),
    ensures
        import_is(res, parsed_views(nodes@), details_view(ds@), i as int),
{
    let ghost ns = parsed_views(nodes@);
    let ghost dv = details_view(ds@);
    let ks = children_of(nodes, i);
    proof {
        lemma_children_within(ns, i as int);
        assert(forall|m: int| 0 <= m < ks@.len() ==> index_view(ks@)[m] == ks@[m] as int);
    }
    let source = match first_of_exec(nodes, &ks, NodeClass::StringLiteral) {
        Some(l) => name_at_exec(nodes, ds, l),
        None => None,
    };
    let sps = nodes_of_class_exec(nodes, &ks, NodeClass::ImportSpecifier, true);
    let ghost spv = index_view(sps@);
    let mut specifiers: Vec<ImportSpecifierModel> = Vec::new();
    let mut k: usize = 0;
    while k < sps.len()
        invariant
            k <= sps@.len(),
            ns == parsed_views(nodes@),
            dv == details_view(ds@),
            well_formed(ns),
            spv == index_view(sps@),
            forall|m: int| 0 <= m < sps@.len() ==> (#[trigger] sps@[m]) < nodes@.len(),
            specifiers@.len() == k,
            forall|m: int| 0 <= m < k ==> import_specifier_is(#[trigger] specifiers@[m], ns, dv, spv[m]),
        decreases sps.len() - k,
    {
        let j = sps[k];
        assert(spv[k as int] == j as int);
        let local = or_empty(binding_of_exec(nodes, ds, j));
        let model = match classify(&nodes[j].kind) {
            NodeClass::ImportDefaultSpecifier => ImportSpecifierModel::Default(local),
            NodeClass::ImportNamespaceSpecifier => ImportSpecifierModel::Namespace(local),
            _ => ImportSpecifierModel::Named(local),
        };
        let ghost before = specifiers@;
        specifiers.push(model);
        proof {
            assert forall|m: int| 0 <= m < k + 1 implies import_specifier_is(#[trigger] specifiers@[m], ns, dv, spv[m]) by {
                if m < k {
                    assert(specifiers@[m] == before[m]);
                }
            }
        }
        k = k + 1;
    }
    ImportModel {
        source: or_empty(source),
        specifiers: Some(specifiers),
        type_only: type_only_exec(ds, i),
        start: nodes[i].start as usize,
    }
}

fn declaration_exec(nodes: &Vec<ParsedNode>, ds: &Vec<(Option<String>, bool)>, j: usize) -> (res: DeclarationModel)
    requires
        well_formed(parsed_views(nodes@)),
        j < nodes@.len(),
    ensures
        declaration_is(res, parsed_views(nodes@), details_view(ds@), j as int),
{
    let ghost ns = parsed_views(nodes@);
    let ghost dv = details_view(ds@);
    match classify(&nodes[j].kind) {
        NodeClass::Function => DeclarationModel::Function { name: binding_of_exec(nodes, ds, j) },
        NodeClass::Class => DeclarationModel::Class { name: binding_of_exec(nodes, ds, j) },
        NodeClass::InterfaceDeclaration => DeclarationModel::Interface { id: or_empty(binding_of_exec(nodes, ds, j)) },
        NodeClass::TypeAliasDeclaration => DeclarationModel::TypeAlias { id: or_empty(binding_of_exec(nodes, ds, j)) },
        NodeClass::VariableDeclaration => {
            let dk = children_of(nodes, j);
            let ghost dkv = index_view(dk@);
            proof {
                assert(forall|m: int| 0 <= m < dk@.len() ==> dkv[m] == dk@[m] as int);
            }
            let mut names: Vec<Option<String>> = Vec::new();
            let mut k: usize = 0;
            while k < dk.len()
                invariant
                    k <= dk@.len(),
                    ns == parsed_views(nodes@),
                    dv == details_view(ds@),
                    well_formed(ns),
                    dkv == index_view(dk@),
                    dkv == children(ns, j as int),
                    names@.len() == k,
                    forall|m: int| 0 <= m < k ==> option_view(#[trigger] names@[m]) == declarator_name(ns, dv, dkv[m]),
                decreases dk.len() - k,
            {
                assert(dkv[k as int] == dk@[k as int] as int);
                let n = declarator_name_exec(nodes, ds, dk[k]);
                let ghost before = names@;
                names.push(n);
                proof {
                    assert forall|m: int| 0 <= m < k + 1 implies option_view(#[trigger] names@[m]) == declarator_name(
                        ns,
                        dv,
                        dkv[m],
                    ) by {
                        if m < k {
                            assert(names@[m] == before[m]);
                        }
                    }
                }
                k = k + 1;
            }
            DeclarationModel::Variable { names }
        },
        _ => DeclarationModel::Other,
    }
}

fn default_exec(nodes: &Vec<ParsedNode>, ds: &Vec<(Option<String>, bool)>, i: usize) -> (res: DefaultExportModel)
    requires
        well_formed(parsed_views(nodes@)),
        i < nodes@.len(),
    ensures
        default_is(res, parsed_views(nodes@), details_view(ds@), i as int),
{
    let ghost ns = parsed_views(nodes@);
    let ks = children_of(nodes, i);
    proof {
        lemma_children_within(ns, i as int);
    }
    if ks.len() == 0 {
        return DefaultExportModel::Other;
    }
    let c = ks[0];
    assert(index_view(ks@)[0] == c as int);
    match classify(&nodes[c].kind) {
        NodeClass::Function => DefaultExportModel::Function { name: binding_of_exec(nodes, ds, c) },
        NodeClass::Class => DefaultExportModel::Class { name: binding_of_exec(nodes, ds, c) },
        NodeClass::InterfaceDeclaration => DefaultExportModel::Interface { id: or_empty(binding_of_exec(nodes, ds, c)) },
        _ => DefaultExportModel::Other,
    }
}

fn exported_name_exec(nodes: &Vec<ParsedNode>, ds: &Vec<(Option<String>, bool)>, j: usize) -> (res: String)
    ensures
        res@ == exported_name(parsed_views(nodes@), details_view(ds@), j as int),
{
    let c = children_of(nodes, j);
    proof {
        assert(forall|m: int| 0 <= m < c@.len() ==> index_view(c@)[m] == c@[m] as int);
    }
    let name = if c.len() >= 2 {
        name_at_exec(nodes, ds, c[1])
    } else if c.len() == 1 {
        name_at_exec(nodes, ds, c[0])
    } else {
        None
    };
    or_empty(name)
}

fn statement_model_exec(nodes: &Vec<ParsedNode>, ds: &Vec<(Option<String>, bool)>, i: usize) -> (res: StatementModel)
    requires
        well_formed(parsed_views(nodes@)),
        i < nodes@.len(),
    ensures
        statement_model_is(res, parsed_views(nodes@), details_view(ds@), i as int),
{
    let ghost ns = parsed_views(nodes@);
    let ghost dv = details_view(ds@);
    let start = nodes[i].start as usize;
    let ks = children_of(nodes, i);
    proof {
        lemma_children_within(ns, i as int);
        assert(forall|m: int| 0 <= m < ks@.len() ==> index_view(ks@)[m] == ks@[m] as int);
    }
    match classify(&nodes[i].kind) {
        NodeClass::ImportDeclaration => StatementModel::Import(import_model_exec(nodes, ds, i)),
        NodeClass::ExportDeclaration => {
            let declaration = if ks.len() > 0 {
                declaration_exec(nodes, ds, ks[0])
            } else {
                DeclarationModel::Other
            };
            StatementModel::ExportNamed { start, declaration: Some(declaration), specifiers: Vec::new() }
        },
        NodeClass::ExportNamedDeclaration | NodeClass::ExportFromDeclaration => {
            let sps = nodes_of_class_exec(nodes, &ks, NodeClass::ExportSpecifier, false);
            let ghost spv = index_view(sps@);
            let mut specifiers: Vec<ExportSpecifierModel> = Vec::new();
            let mut k: usize = 0;
            while k < sps.len()
                invariant
                    k <= sps@.len(),
                    ns == parsed_views(nodes@),
                    dv == details_view(ds@),
                    spv == index_view(sps@),
                    specifiers@.len() == k,
                    forall|m: int|
                        0 <= m < k ==> (#[trigger] specifiers@[m]).exported@ == exported_name(ns, dv, spv[m])
                            && specifiers@[m].type_only == type_only_at(dv, spv[m]),
                decreases sps.len() - k,
            {
                let j = sps[k];
                assert(spv[k as int] == j as int);
                let model = ExportSpecifierModel { exported: exported_name_exec(nodes, ds, j), type_only: type_only_exec(ds, j) };
                let ghost before = specifiers@;
                specifiers.push(model);
                proof {
                    assert forall|m: int|
                        0 <= m < k + 1 implies (#[trigger] specifiers@[m]).exported@ == exported_name(ns, dv, spv[m])
                            && specifiers@[m].type_only == type_only_at(dv, spv[m]) by {
                        if m < k {
                            assert(specifiers@[m] == before[m]);
                        }
                    }
                }
                k = k + 1;
            }
            StatementModel::ExportNamed { start, declaration: None, specifiers }
        },
        NodeClass::ExportDefaultDeclaration => StatementModel::ExportDefault { start, declaration: default_exec(nodes, ds, i) },
        NodeClass::ExportAllDeclaration => {
            let exported = if ks.len() >= 2 && classify(&nodes[ks[1]].kind) == NodeClass::StringLiteral {
                name_at_exec(nodes, ds, ks[0])
            } else {
                None
            };
            StatementModel::ExportAll { start, exported, type_only: type_only_exec(ds, i) }
        },
        _ => StatementModel::Other,
    }
}

/// The top-level statements of the program that `nodes` describe, with
/// the names and flags `ds` gives, in order.
fn statements_exec(nodes: &Vec<ParsedNode>, ds: &Vec<(Option<String>, bool)>) -> (res: Vec<StatementModel>)
    ensures
        statements_are(res@, parsed_views(nodes@), details_view(ds@)),
{
    let ghost ns = parsed_views(nodes@);
    let ghost dv = details_view(ds@);
    if nodes.len() == 0 {
        return Vec::new();
    }
    let ks = children_of(nodes, 0);
    proof {
        lemma_children_within(ns, 0);
        assert(forall|m: int| 0 <= m < ks@.len() ==> index_view(ks@)[m] == ks@[m] as int);
    }
    let body = program_body_exec(nodes, &ks);
    let ghost bv = index_view(body@);
    proof {
        lemma_program_body_within(ns, index_view(ks@), 0, ns.len() as int);
    }
    let mut out: Vec<StatementModel> = Vec::new();
    let mut k: usize = 0;
    while k < body.len()
        invariant
            k <= body@.len(),
            ns == parsed_views(nodes@),
            dv == details_view(ds@),
            well_formed(ns),
            bv == index_view(body@),
            bv == program_body(ns, children(ns, 0)),
            within(bv, 0, ns.len() as int),
            out@.len() == k,
            forall|m: int| 0 <= m < k ==> statement_model_is(#[trigger] out@[m], ns, dv, bv[m]),
        decreases body.len() - k,
    {
        let j = body[k];
        assert(bv[k as int] == j as int);
        let model = statement_model_exec(nodes, ds, j);
        let ghost before = out@;
        out.push(model);
        proof {
            assert forall|m: int| 0 <= m < k + 1 implies statement_model_is(#[trigger] out@[m], ns, dv, bv[m]) by {
                if m < k {
                    assert(out@[m] == before[m]);
                }
            }
        }
        k = k + 1;
    }
    out
}

/// The top-level statements of `source`, as far as imports and exports are
/// concerned, from oxc's parse of it.
pub fn top_level_statements(source: &str) -> (res: Vec<StatementModel>)
    ensures
        statements_are(res@, oxc_semantic_nodes(source@).1, oxc_node_details(source@)),
{
    let (_, nodes) = semantic_nodes(source);
    let ds = node_details(source);
    statements_exec(&nodes, &ds)
}

} // verus!
