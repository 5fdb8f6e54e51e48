use ast_engine::analysis::{DeclarationModel, DefaultExportModel, ImportSpecifierModel, StatementModel};
use ast_engine::{PatternAtomicRule, Rule, RuleCore, RuleKind, RuleLanguage};
use ast_engine::{
    find_pattern, find_pattern_in_vue_sfc, parse_pattern, parse_tree, pattern_rule_matches, rewrite_with_fix,
    PatternNodeKind, SyntaxNode, TemplateFix,
};

fn kinds(node: &SyntaxNode) -> Vec<String> {
    node.children.iter().map(|c| c.kind.clone()).collect()
}

fn metavariable<'a>(pairs: &'a [(String, String)], name: &str) -> Option<&'a str> {
    pairs.iter().find(|(k, _)| k == name).map(|(_, v)| v.as_str())
}

#[test]
fn test_find_pattern_basic() {
    let code = "const x = 42;";
    let pattern = "const x = 42;";

    let matches = find_pattern(code, pattern).unwrap();

    assert_eq!(matches.len(), 1);
    assert_eq!(matches[0].text, "const x = 42;");
    assert!(matches[0].metavariables.is_empty());
}

#[test]
fn test_find_pattern_with_metavariables() {
    let code = "const value = fn(answer, foo, bar);";
    let pattern = "const value = fn($A, $$$B);";

    let matches = find_pattern(code, pattern).unwrap();

    assert_eq!(matches.len(), 1);
    assert_eq!(metavariable(&matches[0].metavariables, "A"), Some("answer"));
    assert_eq!(metavariable(&matches[0].metavariables, "B"), Some("foobar"));
}

#[test]
fn test_find_pattern_in_vue_sfc_offsets() {
    let source = r#"<template>
  <button @click="inc">{{ count }}</button>
</template>
<script setup lang="ts">
const count = 1;
console.log(count);
</script>
"#;

    let payload = find_pattern_in_vue_sfc(source, "const count = 1;\nconsole.log(count);").unwrap();
    let script = payload.script.as_ref().unwrap();
    assert_eq!(script.kind, "scriptSetup");

    let script_start = script.span.start as usize;
    let script_end = script.span.end as usize;
    assert!(script_start < script_end);
    assert!(source[script_start..script_end].contains("const count = 1;"));

    assert_eq!(payload.matches.len(), 1);
    let matched = &payload.matches[0];
    let relative_start = matched.relative_span.start as usize;
    let absolute_start = matched.absolute_span.start as usize;
    let absolute_end = matched.absolute_span.end as usize;
    assert_eq!(absolute_start, script_start + relative_start);
    let matched_text = &source[absolute_start..absolute_end];
    assert!(matched_text.contains("const count = 1;"));
    assert!(matched_text.contains("console.log(count);"));
}

#[test]
fn test_find_pattern_in_vue_sfc_without_script() {
    let source = r#"<template><div>no script</div></template>"#;
    let payload = find_pattern_in_vue_sfc(source, "console.log($A)").unwrap();
    assert!(payload.script.is_none());
    assert_eq!(payload.matches.len(), 0);
}

/// The pattern and the fix of a YAML rule.
fn rule_pattern_and_fix(yaml_rule: &str) -> (String, Option<String>) {
    let value: serde_yaml::Value = serde_yaml::from_str(yaml_rule).unwrap();
    let pattern = value["rule"]["pattern"].as_str().unwrap().to_string();
    let fix = value["fix"].as_str().map(|fix| fix.to_string());
    (pattern, fix)
}

/// `code` rewritten by a YAML pattern rule with a fix.
fn apply_rule(code: &str, yaml_rule: &str) -> String {
    let (pattern, fix) = rule_pattern_and_fix(yaml_rule);
    let rule = RuleCore {
        id: "rule".to_string(),
        language: RuleLanguage::Ts,
        rule: Rule { core: RuleKind::Pattern(PatternAtomicRule { pattern }) },
    };
    let matches = pattern_rule_matches(code, &rule).unwrap();
    let fix = TemplateFix::from(fix.expect("rule has a fix").as_str());
    rewrite_with_fix(code, &matches, Some(&fix)).unwrap().0
}

#[test]
fn test_apply_rule_simple() {
    let code = "console.log(foo);";
    let yaml_rule = r#"
id: no-console
language: ts
rule:
  pattern: console.log($A)
fix: logger.info($A)
"#;
    assert_eq!(apply_rule(code, yaml_rule), "logger.info(foo)");
}

#[test]
fn test_apply_rule_with_fix() {
    let code = "const value = fn(answer, foo, bar);";
    let yaml_rule = r#"
id: wrap-call
language: ts
rule:
  pattern: const value = fn($A, $$$B);
fix: const value = wrapped($A, $$$B);
"#;
    assert_eq!(apply_rule(code, yaml_rule), "const value = wrapped(answer, foobar);");
}

#[test]
fn only_pattern_rules_are_applied() {
    let rule = RuleCore {
        id: "rule".to_string(),
        language: RuleLanguage::Ts,
        rule: Rule { core: RuleKind::Kind(ast_engine::KindAtomicRule { kind: "CallExpression".to_string() }) },
    };
    assert_eq!(pattern_rule_matches("foo();", &rule).unwrap_err(), "Only pattern rules can be applied");
}

#[test]
fn source_with_syntax_errors_is_refused() {
    let err = parse_tree("const = ;").unwrap_err();
    assert!(err.starts_with("Invalid source: "));
    let err = parse_pattern("foo(").unwrap_err();
    assert!(err.starts_with("Invalid pattern: "));
    let err = find_pattern("let ok = 1;", "foo(").unwrap_err();
    assert!(err.starts_with("Invalid pattern: "));
}

#[test]
fn program_tree_has_one_node_per_statement() {
    let source = "import a from 'a';\nconst x = foo(y, ...z);\nfunction f() {}\nclass C { m() {} p = 1 }\nexport const e = 1;\nexport default class D {}\nfoo.bar();";
    let tree = parse_tree(source).unwrap();
    assert_eq!(tree.kind, "Program");
    assert_eq!(tree.text, source);
    assert_eq!(
        kinds(&tree),
        vec![
            "ImportDeclaration",
            "VariableDeclaration",
            "FunctionDeclaration",
            "ClassDeclaration",
            "ExportNamedDeclaration",
            "ExportDefaultDeclaration",
            "ExpressionStatement",
        ]
    );
    // const x = foo(y, ...z): the declaration, its initializer, the call.
    let var = &tree.children[1].children[0];
    assert_eq!(var.kind, "VariableDeclaration");
    let init = &var.children[0];
    assert_eq!(init.kind, "CallExpression");
    assert_eq!(init.text, "foo(y, ...z)");
    let call = &init.children[0];
    assert_eq!(kinds(call), vec!["Identifier", "Identifier"]);
    assert_eq!(call.children[0].identifier.as_deref(), Some("foo"));
    assert_eq!(call.children[1].identifier.as_deref(), Some("y"));
    // class C: the class with its one method, whose value is a function.
    let class = &tree.children[3].children[0];
    assert_eq!(class.kind, "Class");
    assert_eq!(kinds(class), vec!["MethodDefinition"]);
    assert_eq!(kinds(&class.children[0]), vec!["Function"]);
    // export const e = 1: the declaration inside the export.
    let exported = &tree.children[4].children[0];
    assert_eq!(exported.kind, "VariableDeclaration");
    assert_eq!(kinds(exported), vec!["VariableDeclaration"]);
    // foo.bar(): a call whose callee is a member expression.
    let statement = &tree.children[6];
    assert_eq!(kinds(statement), vec!["CallExpression"]);
    assert_eq!(kinds(&statement.children[0].children[0]), vec!["MemberExpression"]);
}

#[test]
fn pattern_of_one_statement_is_rooted_at_the_statement() {
    let pattern = parse_pattern("console.log($A)").unwrap();
    assert!(matches!(&pattern.kind, PatternNodeKind::Node { kind } if kind == "ExpressionStatement"));
    let pattern = parse_pattern("a(); b();").unwrap();
    assert!(matches!(&pattern.kind, PatternNodeKind::Node { kind } if kind == "Program"));
}

#[test]
fn top_level_statements_describe_imports_and_exports() {
    let source = "import type { A } from './a';\nimport d, * as ns from \"./b\";\nexport * as all from './c';\nexport { x as y, type Z };\nexport const p = 1, { q } = r;\nexport default function named() {}\nfoo();";
    let statements = ast_engine::source_tree::top_level_statements(source);
    assert_eq!(statements.len(), 7);
    match &statements[0] {
        StatementModel::Import(import) => {
            assert_eq!(import.source, "./a");
            assert!(import.type_only);
            assert_eq!(import.start, 0);
            let specifiers = import.specifiers.as_ref().unwrap();
            assert!(matches!(&specifiers[..], [ImportSpecifierModel::Named(n)] if n == "A"));
        },
        other => panic!("expected an import, got {other:?}"),
    }
    match &statements[1] {
        StatementModel::Import(import) => {
            assert_eq!(import.source, "./b");
            assert!(!import.type_only);
            let specifiers = import.specifiers.as_ref().unwrap();
            assert!(matches!(&specifiers[..], [ImportSpecifierModel::Default(d), ImportSpecifierModel::Namespace(n)] if d == "d" && n == "ns"));
        },
        other => panic!("expected an import, got {other:?}"),
    }
    assert!(matches!(&statements[2], StatementModel::ExportAll { exported: Some(name), type_only: false, .. } if name == "all"));
    match &statements[3] {
        StatementModel::ExportNamed { declaration: None, specifiers, .. } => {
            assert_eq!(specifiers.len(), 2);
            assert_eq!(specifiers[0].exported, "y");
            assert!(!specifiers[0].type_only);
            assert_eq!(specifiers[1].exported, "Z");
            assert!(specifiers[1].type_only);
        },
        other => panic!("expected a named export, got {other:?}"),
    }
    match &statements[4] {
        StatementModel::ExportNamed { declaration: Some(DeclarationModel::Variable { names }), .. } => {
            assert_eq!(names, &vec![Some("p".to_string()), None]);
        },
        other => panic!("expected an exported variable, got {other:?}"),
    }
    assert!(matches!(&statements[5], StatementModel::ExportDefault { declaration: DefaultExportModel::Function { name: Some(n) }, .. } if n == "named"));
    assert!(matches!(&statements[6], StatementModel::Other));
}
