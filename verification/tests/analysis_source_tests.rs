// The walk over a parsed file that the command-line tool makes, reporting
// to the library's analyzer, and the analysis of whole sources with it.
use ast_engine::analysis::{Analyzer, CalleeModel, FunctionModel, MethodModel};
use ast_engine::{AnalysisResult, ProjectGraph};
use oxc::{
    allocator::Allocator,
    ast::ast::{
        CallExpression, Class, Expression, FormalParameters, Function, MethodDefinition, TSInterfaceDeclaration,
        TSTypeAliasDeclaration, TSTypeParameterDeclaration, VariableDeclaration, VariableDeclarationKind,
    },
    ast_visit::{walk, Visit},
    parser::Parser,
    span::{GetSpan, SourceType, Span},
    syntax::scope::ScopeFlags,
};


/// oxc's walk over a program, reporting each declaration and call to the
/// library's analyzer.
struct Walker<'s> {
    source: &'s str,
    analyzer: Analyzer,
}

fn start_of(span: Span) -> usize {
    span.start as usize
}

fn param_names(params: &FormalParameters<'_>) -> Vec<Option<String>> {
    params
        .items
        .iter()
        .map(|param| param.pattern.get_identifier_name().map(|name| name.to_string()))
        .collect()
}

fn type_param_names(params: Option<&TSTypeParameterDeclaration<'_>>) -> Vec<String> {
    params
        .map(|params| params.params.iter().map(|p| p.name.name.to_string()).collect())
        .unwrap_or_default()
}

/// The callee of a call, as the library describes it.
fn callee_model(expression: &Expression<'_>) -> CalleeModel {
    if let Some(identifier) = expression.get_identifier_reference() {
        return CalleeModel::Identifier(identifier.name.to_string());
    }
    match expression.as_member_expression() {
        Some(member) => CalleeModel::Member {
            object: Box::new(callee_model(member.object())),
            property: member.static_property_name().map(|name| name.to_string()),
        },
        None => CalleeModel::Other,
    }
}

impl<'s, 'a> Visit<'a> for Walker<'s> {
    fn visit_variable_declaration(&mut self, it: &VariableDeclaration<'a>) {
        self.analyzer
            .visit_variable_declaration(it.kind == VariableDeclarationKind::Var, start_of(it.span));
        walk::walk_variable_declaration(self, it);
    }

    fn visit_function(&mut self, it: &Function<'a>, flags: ScopeFlags) {
        let model = FunctionModel {
            name: it.name().map(|name| name.to_string()),
            params: param_names(&it.params),
            return_type: it
                .return_type
                .as_ref()
                .map(|ret| ret.span.source_text(self.source).to_string()),
            type_params: type_param_names(it.type_parameters.as_deref()),
            start: start_of(it.span),
        };
        self.analyzer.enter_function(&model);
        walk::walk_function(self, it, flags);
        self.analyzer.leave_function();
    }

    fn visit_class(&mut self, it: &Class<'a>) {
        let name = it.id.as_ref().map(|id| id.name.to_string());
        self.analyzer.enter_class(&name, start_of(it.span));
        walk::walk_class(self, it);
        self.analyzer.leave_class();
    }

    fn visit_method_definition(&mut self, it: &MethodDefinition<'a>) {
        let model = MethodModel {
            key: it.key.name().map(|name| name.to_string()),
            params: param_names(&it.value.params),
            return_type: it
                .value
                .return_type
                .as_ref()
                .map(|ret| ret.span.source_text(self.source).to_string()),
            start: start_of(it.span),
        };
        self.analyzer.enter_method(&model);
        walk::walk_method_definition(self, it);
        self.analyzer.leave_method();
    }

    fn visit_ts_interface_declaration(&mut self, it: &TSInterfaceDeclaration<'a>) {
        let type_params = type_param_names(it.type_parameters.as_deref());
        self.analyzer
            .visit_ts_interface_declaration(it.id.name.as_str(), &type_params, start_of(it.span));
        walk::walk_ts_interface_declaration(self, it);
    }

    fn visit_ts_type_alias_declaration(&mut self, it: &TSTypeAliasDeclaration<'a>) {
        let type_params = type_param_names(it.type_parameters.as_deref());
        let annotation = it.type_annotation.span().source_text(self.source);
        self.analyzer.visit_ts_type_alias_declaration(
            it.id.name.as_str(),
            annotation,
            &type_params,
            start_of(it.span),
        );
        walk::walk_ts_type_alias_declaration(self, it);
    }

    fn visit_call_expression(&mut self, it: &CallExpression<'a>) {
        self.analyzer
            .visit_call_expression(&callee_model(&it.callee), start_of(it.span));
        walk::walk_call_expression(self, it);
    }
}

/// The walk over a source's tree.
fn walk_source(source: &str) -> Analyzer {
    let allocator = Allocator::default();
    let parser_return = Parser::new(&allocator, source, default_source_type()).parse();
    let mut walker = Walker { source, analyzer: Analyzer::new(source) };
    walker.visit_program(&parser_return.program);
    walker.analyzer
}

/// Analyses a file's source.
fn analyze_source(source: &str) -> AnalysisResult {
    ast_engine::analysis::analyze_source(source, walk_source(source))
}

/// Adds a file to a project graph with the walk over its code.
fn add(graph: &mut ProjectGraph, path: &str, code: &str) -> Result<(), String> {
    graph.add_file(path, code, walk_source(code))
}

/// The source type of analysed files: TypeScript with JSX, as a module.
fn default_source_type() -> SourceType {
    SourceType::from_path(std::path::Path::new("inline.tsx")).unwrap().with_module(true)
}

#[test]
fn test_analyze_empty_code() {
    let parsed = analyze_source("");
    assert_eq!(parsed.exports.len(), 0);
    assert_eq!(parsed.issues.len(), 0);
}

#[test]
fn test_analyze_function_export() {
    let code = "export function testFunction() { return 42; }";
    let parsed = analyze_source(code);
    assert_eq!(parsed.exports.len(), 1);
    assert_eq!(parsed.exports[0].name, "testFunction");
    assert_eq!(parsed.exports[0].kind, "function");
}

#[test]
fn test_analyze_multiple_exports() {
    let code = r#"
export const myVar = 123;
export function myFunc() {}
export class MyClass {}
        "#;
    let parsed = analyze_source(code);
    assert_eq!(parsed.exports.len(), 3);
}

#[test]
fn test_detect_var_declaration() {
    let code = r#"
var x = 1;
        "#;
    let parsed = analyze_source(code);
    assert_eq!(parsed.issues.len(), 1);
    assert_eq!(parsed.issues[0].category, "best-practices");
    assert!(parsed.issues[0].message.contains("var"));
}

#[test]
fn test_detect_console_log() {
    let code = r#"
function test() {
    console.log("debug");
}
        "#;
    let parsed = analyze_source(code);
    assert_eq!(parsed.issues.len(), 1);
    assert_eq!(parsed.issues[0].category, "dev-code");
    assert!(parsed.issues[0].message.contains("Console"));
}

#[test]
fn test_complex_typescript_structure() {
    let code = r#"
import type { User } from "./types";
import React, { useMemo } from "react";

/** User service */
export interface Service<T> {
  get(id: string): Promise<T>;
}

export type Maybe<T> = T | null;

export class UserService implements Service<User> {
  get(id: string): Promise<User> {
    return fetchUser(id);
  }
}

export function buildName(user: User): string {
  console.log(user.id);
  return user.name;
}
"#;
    let parsed = analyze_source(code);
    assert!(parsed.file_structure.imports.len() >= 2);
    assert!(parsed.file_structure.call_graph.edges.iter().any(|e| e.callee.contains("console")));
    assert!(parsed.exports.iter().any(|export| export.name == "buildName" && export.kind == "function"));
}

#[test]
fn test_analyze_ast() {
    let code = r#"export function test() { return 42; }"#;
    let parsed = analyze_source(code);
    assert!(parsed.file_structure.symbols.iter().any(|symbol| symbol.name.contains("test")));
}

#[test]
fn analysis_of_a_typescript_file_in_detail() {
    let code = r#"import type { User } from "./types";
import * as path from "path";

export interface Service<T> { get(id: string): Promise<T>; }
export type Maybe<T> = T | null;

export class UserService {
  get(id: string): Promise<User> {
    return fetchUser(id);
  }
}

export default function () {
  var legacy = 1;
  console.warn(legacy);
}
"#;
    let parsed = analyze_source(code);
    let structure = &parsed.file_structure;
    assert_eq!(structure.language, "tsx");
    assert_eq!(structure.imports.len(), 2);
    assert!(structure.imports[0].is_type_only);
    assert_eq!(structure.imports[0].specifiers, vec!["User".to_string()]);
    assert_eq!(structure.imports[1].specifiers, vec!["* as path".to_string()]);
    assert_eq!(structure.imports[1].location, Some((2, 0)));

    let exports: Vec<(&str, &str)> = parsed.exports.iter().map(|e| (e.name.as_str(), e.kind.as_str())).collect();
    assert_eq!(
        exports,
        vec![("Service", "interface"), ("Maybe", "type"), ("UserService", "class"), ("default", "function")]
    );
    assert_eq!(structure.exports.len(), 4);
    assert!(structure.exports.iter().all(|s| s.exported));

    assert_eq!(structure.interfaces[0].type_params, vec!["T".to_string()]);
    assert_eq!(structure.type_aliases[0].return_type, Some("T | null".to_string()));
    let method = structure.symbols.iter().find(|s| s.kind == "method").unwrap();
    assert_eq!(method.name, "UserService.get");
    assert_eq!(method.params, vec!["id".to_string()]);
    assert_eq!(method.return_type, Some(": Promise<User>".to_string()));

    let edges: Vec<(&str, &str)> =
        structure.call_graph.edges.iter().map(|e| (e.caller.as_str(), e.callee.as_str())).collect();
    // The walk enters the method, then the function that is its value.
    assert_eq!(edges, vec![("<anonymous@8>", "fetchUser"), ("<anonymous@13>", "console.warn")]);

    let issues: Vec<&str> = parsed.issues.iter().map(|i| i.category.as_str()).collect();
    assert_eq!(issues, vec!["best-practices", "dev-code"]);
}

#[test]
fn test_project_graph_napi_bindings() {
    let mut graph = ProjectGraph::new();
    let utils = r#"export function helper(): string { return \"ok\"; }"#;
    let app = r#"
import { helper } from './utils';
export function run() {
  return helper();
}
"#;
    add(&mut graph, "src/utils.ts", utils).unwrap();
    add(&mut graph, "src/app.ts", app).unwrap();

    let structure = graph.get_file_structure("src/app.ts").expect("app.ts should exist");
    assert_eq!(structure.language, "tsx");
    assert_eq!(structure.imports.len(), 1);

    let symbol_details = graph.find_symbol("run");
    assert!(!symbol_details.is_empty());
    assert_eq!(symbol_details[0].name, "run");

    let dependencies = graph.resolve_dependencies("src/app.ts");
    assert_eq!(dependencies[0].source, "src/utils.ts");
}

#[test]
fn test_project_graph_add_and_query_files() {
    let mut graph = ProjectGraph::new();
    let utils = r#"export function helper(): string { return \"ok\"; }"#;
    let app = r#"
import { helper } from "./utils";
export function run() {
  return helper();
}
"#;

    add(&mut graph, "src/utils.ts", utils).unwrap();
    add(&mut graph, "src/app.ts", app).unwrap();

    let files = graph.get_all_files();
    assert_eq!(
        files,
        vec!["src/app.ts".to_string(), "src/utils.ts".to_string()]
    );
    assert!(graph.get_file_structure("src/app.ts").is_some());
    assert!(graph.get_file_structure("src/missing.ts").is_none());
}

#[test]
fn test_project_graph_resolve_dependencies_cross_file() {
    let mut graph = ProjectGraph::new();
    add(&mut graph, "src/utils.ts", "export const helper = () => 1;").unwrap();
    add(
        &mut graph,
        "src/app.ts",
        "import { helper } from './utils'; export const run = () => helper();",
    )
    .unwrap();

    let deps = graph.resolve_dependencies("src/app.ts");
    assert_eq!(deps.len(), 1);
    assert_eq!(deps[0].source, "src/utils.ts");
    assert_eq!(deps[0].kind, "import");
}

#[test]
fn test_project_graph_find_symbol_and_clear() {
    let mut graph = ProjectGraph::new();
    add(
        &mut graph,
        "src/a.ts",
        "export interface User { id: string } export const userName = 'A';",
    )
    .unwrap();
    add(&mut graph, "src/b.ts", "export const userName = 'B';").unwrap();

    let user_name_symbols = graph.find_symbol("userName");
    assert_eq!(user_name_symbols.len(), 2);

    let user_symbols = graph.find_symbol("User");
    assert_eq!(user_symbols.len(), 1);
    assert_eq!(user_symbols[0].kind, "interface");

    graph.clear();
    assert!(graph.get_all_files().is_empty());
    assert!(graph.find_symbol("userName").is_empty());
}

#[test]
fn test_project_graph_repeated_add_uses_cache() {
    let mut graph = ProjectGraph::new();
    let code = "export const cached = 1;";
    add(&mut graph, "src/cache.ts", code).unwrap();
    add(&mut graph, "src/cache.ts", code).unwrap();

    let files = graph.get_all_files();
    assert_eq!(files, vec!["src/cache.ts".to_string()]);
    let found = graph.find_symbol("cached");
    assert_eq!(found.len(), 1);
}

#[test]
fn project_paths_are_normalized() {
    assert_eq!(ast_engine::normalize_project_path("./src/../lib/a.ts"), "lib/a.ts");
    assert_eq!(ast_engine::normalize_project_path("/root//x/./y/"), "/root/x/y");
    assert_eq!(ast_engine::normalize_project_path("../a"), "a");
    assert_eq!(ast_engine::normalize_project_path("a\\b"), "a/b");
    let mut graph = ProjectGraph::new();
    add(&mut graph, "./src/x.ts", "").unwrap();
    assert_eq!(graph.get_all_files(), vec!["src/x.ts".to_string()]);
    assert!(graph.get_file_structure("src/./x.ts").is_some());
}

#[test]
fn resolve_dependencies_prefers_index_files_and_skips_packages() {
    let mut graph = ProjectGraph::new();
    add(&mut graph, "src/lib/index.ts", "").unwrap();
    add(
        &mut graph,
        "src/main.ts",
        "import { x } from './lib'; import { useState } from 'react'; import './missing';",
    )
    .unwrap();
    let deps = graph.resolve_dependencies("src/main.ts");
    assert_eq!(deps.len(), 1);
    assert_eq!(deps[0].source, "src/lib/index.ts");
    assert_eq!(deps[0].specifiers, vec!["x".to_string()]);
    assert!(graph.resolve_dependencies("src/none.ts").is_empty());
}

#[test]
fn analysis_reports_parse_errors_and_comments() {
    let parsed = analyze_source("// note\nconst = ;");
    assert!(!parsed.issues.is_empty());
    assert_eq!(parsed.issues[0].category, "parse");
    assert_eq!(parsed.issues[0].severity, "error");
    assert_eq!(parsed.file_structure.comments, vec!["// note".to_string()]);
    assert_eq!(parsed.file_structure.language, "tsx");
}
