use ast_engine::analysis::{
    analysis_result, expression_name, extract_exports, extract_import, language_name, trim_text, Analyzer,
    CalleeModel, DeclarationModel, DefaultExportModel, ExportSpecifierModel, FunctionModel, ImportModel,
    ImportSpecifierModel, MethodModel, StatementModel,
};
use ast_engine::{compute_line_starts, ExportInfo, SymbolSignature};

fn named(start: usize, declaration: DeclarationModel) -> StatementModel {
    StatementModel::ExportNamed { start, declaration: Some(declaration), specifiers: Vec::new() }
}

fn member(object: CalleeModel, property: &str) -> CalleeModel {
    CalleeModel::Member { object: Box::new(object), property: Some(property.to_string()) }
}

fn ident(name: &str) -> CalleeModel {
    CalleeModel::Identifier(name.to_string())
}

#[test]
fn function_export_is_recorded_with_its_kind_and_location() {
    let source = "export function testFunction() { return 42; }";
    let starts = compute_line_starts(source);
    let mut exports: Vec<ExportInfo> = Vec::new();
    let mut signatures: Vec<SymbolSignature> = Vec::new();
    let stmt = named(0, DeclarationModel::Function { name: Some("testFunction".to_string()) });
    extract_exports(&stmt, &starts, &mut exports, &mut signatures);
    assert_eq!(exports.len(), 1);
    assert_eq!(exports[0].name, "testFunction");
    assert_eq!(exports[0].kind, "function");
    assert_eq!(exports[0].location, Some((1, 0)));
    assert_eq!(signatures.len(), 1);
    assert!(signatures[0].exported);
    assert_eq!(signatures[0].kind, "function");
}

#[test]
fn several_export_forms_are_recorded_in_order() {
    let source = "\nexport const myVar = 123;\nexport function myFunc() {}\nexport class MyClass {}\n";
    let starts = compute_line_starts(source);
    let statements = vec![
        named(1, DeclarationModel::Variable { names: vec![Some("myVar".to_string()), None] }),
        named(27, DeclarationModel::Function { name: Some("myFunc".to_string()) }),
        named(55, DeclarationModel::Class { name: Some("MyClass".to_string()) }),
        StatementModel::Other,
    ];
    let mut exports: Vec<ExportInfo> = Vec::new();
    let mut signatures: Vec<SymbolSignature> = Vec::new();
    for stmt in &statements {
        extract_exports(stmt, &starts, &mut exports, &mut signatures);
    }
    let names: Vec<(&str, &str)> = exports.iter().map(|e| (e.name.as_str(), e.kind.as_str())).collect();
    assert_eq!(names, vec![("myVar", "variable"), ("myFunc", "function"), ("MyClass", "class")]);
    assert_eq!(exports[1].location, Some((3, 0)));
    assert_eq!(exports[2].location, Some((4, 0)));
}

#[test]
fn export_lists_default_and_star_forms() {
    let source = "export { a, type B };\nexport default class {}\nexport type * as ns from './x';";
    let starts = compute_line_starts(source);
    let statements = vec![
        StatementModel::ExportNamed {
            start: 0,
            declaration: None,
            specifiers: vec![
                ExportSpecifierModel { exported: "a".to_string(), type_only: false },
                ExportSpecifierModel { exported: "B".to_string(), type_only: true },
            ],
        },
        StatementModel::ExportDefault { start: 22, declaration: DefaultExportModel::Class { name: None } },
        StatementModel::ExportAll { start: 46, exported: Some("ns".to_string()), type_only: true },
        StatementModel::ExportAll { start: 46, exported: None, type_only: false },
    ];
    let mut exports: Vec<ExportInfo> = Vec::new();
    let mut signatures: Vec<SymbolSignature> = Vec::new();
    for stmt in &statements {
        extract_exports(stmt, &starts, &mut exports, &mut signatures);
    }
    let found: Vec<(&str, &str)> = exports.iter().map(|e| (e.name.as_str(), e.kind.as_str())).collect();
    assert_eq!(
        found,
        vec![("a", "value"), ("B", "type"), ("default", "class"), ("ns", "type"), ("*", "value")]
    );
    assert_eq!(exports[2].location, Some((2, 0)));
    let kinds: Vec<&str> = signatures.iter().map(|s| s.kind.as_str()).collect();
    assert_eq!(kinds, vec!["value", "type", "class", "re-export", "re-export"]);
}

#[test]
fn imports_record_bindings_and_namespace_form() {
    let source = "import def, * as ns from 'mod';";
    let starts = compute_line_starts(source);
    let import = ImportModel {
        source: "mod".to_string(),
        specifiers: Some(vec![
            ImportSpecifierModel::Default("def".to_string()),
            ImportSpecifierModel::Namespace("ns".to_string()),
            ImportSpecifierModel::Named("x".to_string()),
        ]),
        type_only: false,
        start: 0,
    };
    let dependency = extract_import(&import, &starts);
    assert_eq!(dependency.source, "mod");
    assert_eq!(dependency.kind, "import");
    assert_eq!(dependency.specifiers, vec!["def".to_string(), "* as ns".to_string(), "x".to_string()]);
    assert!(!dependency.is_type_only);
    assert_eq!(dependency.location, Some((1, 0)));

    let side_effect = ImportModel { source: "./setup".to_string(), specifiers: None, type_only: true, start: 0 };
    let dependency = extract_import(&side_effect, &starts);
    assert!(dependency.specifiers.is_empty());
    assert!(dependency.is_type_only);
}

#[test]
fn var_declarations_and_console_calls_are_lint_issues() {
    let source = "\nvar x = 1;\nfunction test() {\n    console.log(\"debug\");\n}\n";
    let mut analyzer = Analyzer::new(source);
    analyzer.visit_variable_declaration(true, 1);
    analyzer.visit_variable_declaration(false, 1);
    analyzer.enter_function(&FunctionModel {
        name: Some("test".to_string()),
        params: Vec::new(),
        return_type: None,
        type_params: Vec::new(),
        start: 12,
    });
    analyzer.visit_call_expression(&member(ident("console"), "log"), 34);
    analyzer.leave_function();
    let result = analysis_result(&[], &[], analyzer, &[], Vec::new(), false, false);
    assert_eq!(result.issues.len(), 2);
    assert_eq!(result.issues[0].category, "best-practices");
    assert!(result.issues[0].message.contains("var"));
    assert_eq!(result.issues[0].location, Some((2, 0)));
    assert_eq!(result.issues[1].category, "dev-code");
    assert!(result.issues[1].message.contains("Console"));
    assert_eq!(result.issues[1].location, Some((4, 4)));
    let edges = &result.file_structure.call_graph.edges;
    assert_eq!(edges.len(), 1);
    assert_eq!(edges[0].caller, "test");
    assert_eq!(edges[0].callee, "console.log");
    assert_eq!(result.file_structure.language, "js");
}

#[test]
fn scopes_name_callers_methods_and_anonymous_functions() {
    let source = "a();\nclass C {\n  m(x, [y]): void { b(); }\n}\n(function () { c(); })();";
    let mut analyzer = Analyzer::new(source);
    analyzer.visit_call_expression(&ident("a"), 0);
    analyzer.enter_class(&Some("C".to_string()), 5);
    analyzer.enter_method(&MethodModel {
        key: Some("m".to_string()),
        params: vec![Some("x".to_string()), None],
        return_type: Some(": void ".to_string()),
        start: 17,
    });
    analyzer.visit_call_expression(&ident("b"), 35);
    analyzer.leave_method();
    analyzer.leave_class();
    analyzer.enter_function(&FunctionModel { name: None, params: Vec::new(), return_type: None, type_params: Vec::new(), start: 45 });
    analyzer.visit_call_expression(&CalleeModel::Other, 60);
    analyzer.visit_call_expression(&ident("c"), 60);
    analyzer.leave_function();
    analyzer.visit_call_expression(&member(CalleeModel::Other, "then"), 70);

    let result = analysis_result(&[], &[], analyzer, &[], Vec::new(), true, false);
    let structure = &result.file_structure;
    let symbols: Vec<(&str, &str)> = structure.symbols.iter().map(|s| (s.name.as_str(), s.kind.as_str())).collect();
    assert_eq!(symbols, vec![("C", "class"), ("C.m", "method"), ("<anonymous@5>", "function")]);
    assert_eq!(structure.symbols[1].params, vec!["x".to_string()]);
    assert_eq!(structure.symbols[1].return_type, Some(": void".to_string()));
    assert_eq!(structure.classes.len(), 1);
    let edges: Vec<(&str, &str)> =
        structure.call_graph.edges.iter().map(|e| (e.caller.as_str(), e.callee.as_str())).collect();
    assert_eq!(
        edges,
        vec![("<module>", "a"), ("C.m", "b"), ("<anonymous@5>", "c"), ("<module>", "<expr>.then")]
    );
    assert_eq!(structure.language, "ts");
}

#[test]
fn interfaces_and_type_aliases_are_symbols() {
    let source = "interface User<T> { id: T }\ntype Id =  string | number ;";
    let mut analyzer = Analyzer::new(source);
    analyzer.visit_ts_interface_declaration("User", &vec!["T".to_string()], 0);
    analyzer.visit_ts_type_alias_declaration("Id", "  string | number ", &Vec::new(), 28);
    let result = analysis_result(&[], &[], analyzer, &[], Vec::new(), true, true);
    let structure = &result.file_structure;
    assert_eq!(structure.interfaces.len(), 1);
    assert_eq!(structure.interfaces[0].kind, "interface");
    assert_eq!(structure.interfaces[0].type_params, vec!["T".to_string()]);
    assert_eq!(structure.type_aliases.len(), 1);
    assert_eq!(structure.type_aliases[0].return_type, Some("string | number".to_string()));
    assert_eq!(structure.type_aliases[0].location, Some((2, 0)));
    assert_eq!(structure.symbols.len(), 2);
    assert_eq!(structure.language, "tsx");
}

#[test]
fn analysis_result_orders_issues_and_collects_statements() {
    let source = "import { a } from './a';\nexport const b = a;";
    let analyzer = Analyzer::new(source);
    let statements = vec![
        StatementModel::Import(ImportModel {
            source: "./a".to_string(),
            specifiers: Some(vec![ImportSpecifierModel::Named("a".to_string())]),
            type_only: false,
            start: 0,
        }),
        named(25, DeclarationModel::Variable { names: vec![Some("b".to_string())] }),
    ];
    let result = analysis_result(
        &["unexpected token".to_string()],
        &["redeclared".to_string()],
        analyzer,
        &statements,
        vec!["// note".to_string()],
        false,
        true,
    );
    let issues: Vec<(&str, &str)> = result.issues.iter().map(|i| (i.category.as_str(), i.severity.as_str())).collect();
    assert_eq!(issues, vec![("parse", "error"), ("semantic", "error")]);
    assert_eq!(result.issues[0].message, "unexpected token");
    assert_eq!(result.issues[0].location, None);
    assert_eq!(result.exports.len(), 1);
    assert_eq!(result.exports[0].location, Some((2, 0)));
    assert_eq!(result.file_structure.imports.len(), 1);
    assert_eq!(result.file_structure.imports[0].source, "./a");
    assert_eq!(result.file_structure.exports.len(), 1);
    assert_eq!(result.file_structure.comments, vec!["// note".to_string()]);
    assert!(result.file_structure.jsdoc.is_empty());
    assert_eq!(result.file_structure.language, "jsx");
}

#[test]
fn text_helpers_trim_name_and_language() {
    assert_eq!(trim_text("  \t: Promise<void>\n "), ": Promise<void>");
    assert_eq!(trim_text(" \u{3000} "), "");
    assert_eq!(trim_text("x"), "x");
    assert_eq!(expression_name(&member(member(ident("a"), "b"), "c")), Some("a.b.c".to_string()));
    assert_eq!(
        expression_name(&CalleeModel::Member { object: Box::new(ident("o")), property: None }),
        Some("o.<computed>".to_string())
    );
    assert_eq!(expression_name(&CalleeModel::Other), None);
    assert_eq!(language_name(false, false), "js");
    assert_eq!(language_name(true, true), "tsx");
}

#[test]
fn trimming_agrees_with_the_standard_whitespace_test() {
    for code in 0u32..=0x3100 {
        if let Some(c) = char::from_u32(code) {
            let text = c.to_string();
            assert_eq!(trim_text(&text).is_empty(), c.is_whitespace(), "char {code:#x}");
        }
    }
}
