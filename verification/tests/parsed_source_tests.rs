use std::path::Path;

use ast_engine::capture::EnvView;
use ast_engine::{
    empty_vue_sfc_search, pattern_match_payloads, rewrite_with_fix, vue_sfc_search_payload, TemplateFix,
    apply_span_replacements, evaluate_relational_rule, SpanReplacement, VueSfcExtractor, find_all_matches, FindAllMatches, identify_meta_variables, to_pattern_ast, AllMatcher,
    AnyMatcher, CapturedNode, CompositeMatcher, ConflictResolution, KindAtomicRule, MatchEnvironment,
    MatchStrictness, Matcher, NodeSpan, NotMatcher, PatternMatcher, PatternNode, PatternNodeKind,
    RelationalRule, RelationalRuleKind, Rule, RuleKind, SyntaxNode, WildcardNode,
};
use oxc::allocator::Allocator;
use oxc::ast::ast::{
    CallExpression, Class, ClassElement, Declaration, ExportDefaultDeclarationKind, Expression,
    Function, MethodDefinition, Program, Statement, TSInterfaceDeclaration, TSTypeAliasDeclaration,
    VariableDeclaration,
};
use oxc::parser::Parser;
use oxc::span::{GetSpan, SourceType, Span};

// The syntax tree of parsed source, built the way the command-line tool
// builds it: one node per program, statement, declaration, expression,
// function, class, method and call, with the children listed below.

fn node(kind: &str, span: Span, source: &str, children: Vec<SyntaxNode>) -> SyntaxNode {
    SyntaxNode {
        kind: kind.to_string(),
        text: span.source_text(source).to_string(),
        span: NodeSpan { start: span.start, end: span.end },
        identifier: None,
        children,
    }
}

fn program_tree(program: &Program<'_>, source: &str) -> SyntaxNode {
    let children = program.body.iter().map(|s| statement_tree(s, source)).collect();
    node("Program", program.span, source, children)
}

fn statement_kind(statement: &Statement<'_>) -> &'static str {
    match statement {
        Statement::ImportDeclaration(_) => "ImportDeclaration",
        Statement::VariableDeclaration(_) => "VariableDeclaration",
        Statement::FunctionDeclaration(_) => "FunctionDeclaration",
        Statement::ClassDeclaration(_) => "ClassDeclaration",
        Statement::ExpressionStatement(_) => "ExpressionStatement",
        Statement::ExportDeclaration(_)
        | Statement::ExportNamedDeclaration(_)
        | Statement::ExportFromDeclaration(_) => "ExportNamedDeclaration",
        Statement::ExportDefaultDeclaration(_) => "ExportDefaultDeclaration",
        Statement::ExportAllDeclaration(_) => "ExportAllDeclaration",
        Statement::TSInterfaceDeclaration(_) => "TSInterfaceDeclaration",
        Statement::TSTypeAliasDeclaration(_) => "TSTypeAliasDeclaration",
        _ => "Statement",
    }
}

fn statement_tree(statement: &Statement<'_>, source: &str) -> SyntaxNode {
    let children = match statement {
        Statement::ImportDeclaration(decl) => vec![node("ImportDeclaration", decl.span, source, Vec::new())],
        Statement::VariableDeclaration(decl) => vec![variable_tree(decl, source)],
        Statement::FunctionDeclaration(function) => vec![function_tree(function, source)],
        Statement::ClassDeclaration(class) => vec![class_tree(class, source)],
        Statement::ExpressionStatement(s) => vec![expression_tree(&s.expression, source)],
        Statement::ExportDeclaration(decl) => vec![declaration_tree(&decl.declaration, source)],
        Statement::ExportDefaultDeclaration(decl) => match &decl.declaration {
            ExportDefaultDeclarationKind::FunctionDeclaration(function) => vec![function_tree(function, source)],
            ExportDefaultDeclarationKind::ClassDeclaration(class) => vec![class_tree(class, source)],
            ExportDefaultDeclarationKind::TSInterfaceDeclaration(decl) => vec![interface_tree(decl, source)],
            _ => Vec::new(),
        },
        Statement::TSInterfaceDeclaration(decl) => vec![interface_tree(decl, source)],
        Statement::TSTypeAliasDeclaration(decl) => vec![type_alias_tree(decl, source)],
        _ => Vec::new(),
    };
    node(statement_kind(statement), statement.span(), source, children)
}

fn declaration_tree(declaration: &Declaration<'_>, source: &str) -> SyntaxNode {
    let (kind, children) = match declaration {
        Declaration::FunctionDeclaration(f) => ("FunctionDeclaration", vec![function_tree(f, source)]),
        Declaration::ClassDeclaration(c) => ("ClassDeclaration", vec![class_tree(c, source)]),
        Declaration::VariableDeclaration(d) => ("VariableDeclaration", vec![variable_tree(d, source)]),
        Declaration::TSInterfaceDeclaration(d) => ("TSInterfaceDeclaration", vec![interface_tree(d, source)]),
        Declaration::TSTypeAliasDeclaration(d) => ("TSTypeAliasDeclaration", vec![type_alias_tree(d, source)]),
        _ => ("Declaration", Vec::new()),
    };
    node(kind, declaration.span(), source, children)
}

fn expression_tree(expression: &Expression<'_>, source: &str) -> SyntaxNode {
    let kind = match expression {
        Expression::Identifier(_) => "Identifier",
        Expression::CallExpression(_) => "CallExpression",
        _ if expression.as_member_expression().is_some() => "MemberExpression",
        _ => "Expression",
    };
    let children = match expression {
        Expression::CallExpression(call) => vec![call_tree(call, source)],
        _ => Vec::new(),
    };
    let mut tree = node(kind, expression.span(), source, children);
    if let Expression::Identifier(identifier) = expression {
        tree.identifier = Some(identifier.name.to_string());
    }
    tree
}

fn variable_tree(decl: &VariableDeclaration<'_>, source: &str) -> SyntaxNode {
    let children = decl
        .declarations
        .iter()
        .filter_map(|declarator| declarator.init.as_ref())
        .map(|expression| expression_tree(expression, source))
        .collect();
    node("VariableDeclaration", decl.span, source, children)
}

fn function_tree(function: &Function<'_>, source: &str) -> SyntaxNode {
    node("Function", function.span, source, Vec::new())
}

fn class_tree(class: &Class<'_>, source: &str) -> SyntaxNode {
    let children = class
        .body
        .body
        .iter()
        .filter_map(|element| match element {
            ClassElement::MethodDefinition(method) => Some(method_tree(method, source)),
            _ => None,
        })
        .collect();
    node("Class", class.span, source, children)
}

fn method_tree(method: &MethodDefinition<'_>, source: &str) -> SyntaxNode {
    node("MethodDefinition", method.span, source, vec![function_tree(&method.value, source)])
}

fn interface_tree(decl: &TSInterfaceDeclaration<'_>, source: &str) -> SyntaxNode {
    node("TSInterfaceDeclaration", decl.span, source, Vec::new())
}

fn type_alias_tree(decl: &TSTypeAliasDeclaration<'_>, source: &str) -> SyntaxNode {
    node("TSTypeAliasDeclaration", decl.span, source, Vec::new())
}

fn call_tree(call: &CallExpression<'_>, source: &str) -> SyntaxNode {
    let mut children = vec![expression_tree(&call.callee, source)];
    children.extend(
        call.arguments
            .iter()
            .filter_map(|argument| argument.as_expression())
            .map(|expression| expression_tree(expression, source)),
    );
    node("CallExpression", call.span, source, children)
}

fn ts_type() -> SourceType {
    SourceType::from_path(Path::new("inline.ts")).unwrap()
}

/// The tree of `source` parsed as `source_type`.
fn parse_tree(source: &str, source_type: SourceType) -> SyntaxNode {
    let allocator = Allocator::default();
    let parsed = Parser::new(&allocator, source, source_type).parse();
    program_tree(&parsed.program, source)
}

fn ts_tree(source: &str) -> SyntaxNode {
    parse_tree(source, ts_type())
}

/// The target tree and the pattern tree, each parsed as a script.
fn target_and_pattern(target_source: &str, pattern_source: &str) -> (SyntaxNode, PatternNode) {
    let target = parse_tree(target_source, SourceType::default());
    let pattern = to_pattern_ast(&parse_tree(pattern_source, SourceType::default()));
    (target, pattern)
}

/// The call of `const x = call(..);`: first statement, its declaration,
/// the initialiser.
fn first_call(mut node: PatternNode) -> PatternNode {
    for _ in 0..3 {
        node = node.children.swap_remove(0);
    }
    node
}

fn count_kind(node: &PatternNode, target: &PatternNodeKind) -> usize {
    let mut count = usize::from(&node.kind == target);
    for child in &node.children {
        count += count_kind(child, target);
    }
    count
}

fn has_meta(kinds: &[((u32, u32), PatternNodeKind)], wanted: &PatternNodeKind) -> bool {
    kinds.iter().any(|(_, kind)| kind == wanted)
}

fn meta_var(name: &str) -> PatternNodeKind {
    PatternNodeKind::MetaVar(WildcardNode { name: name.to_string() })
}

fn multi_meta_var(name: &str) -> PatternNodeKind {
    PatternNodeKind::MultiMetaVar(WildcardNode { name: name.to_string() })
}

/// Matchers for the combinator tests: a pattern matcher, one that never
/// matches, one that binds the target under a name, one that asks a
/// binding to have a text, and one that binds and then fails.
enum TestMatcher {
    Pattern(PatternMatcher),
    Reject,
    Capture(&'static str),
    RequireCaptureText { name: &'static str, expected_text: &'static str },
    MutatingFailure,
}

impl Matcher for TestMatcher {
    // The specification of a matcher is read by the verifier alone; no
    // code runs it.
    fn match_spec(&self, _target: SyntaxNode, _pattern: PatternNode, _env: EnvView) -> Option<EnvView> {
        unreachable!()
    }

    fn match_node_with_env(&self, target: &SyntaxNode, pattern: &PatternNode, env: &mut MatchEnvironment) -> bool {
        match self {
            TestMatcher::Pattern(matcher) => matcher.match_node_with_env(target, pattern, env),
            TestMatcher::Reject => false,
            TestMatcher::Capture(name) => {
                env.insert_single_capture(name.to_string(), target.captured());
                true
            }
            TestMatcher::RequireCaptureText { name, expected_text } => env
                .get_single_capture(name)
                .map(|captured| captured.text == *expected_text)
                .unwrap_or(false),
            TestMatcher::MutatingFailure => {
                env.insert_single_capture("BROKEN".to_string(), target.captured());
                false
            }
        }
    }
}

fn pattern_default() -> TestMatcher {
    TestMatcher::Pattern(PatternMatcher::default())
}

#[test]
fn test_identify_meta_variables_detects_single_and_multi_capture() {
    let root = ts_tree("const value = fn($A, $$$B, $$$);");
    let meta_vars = identify_meta_variables(&root);
    assert_eq!(meta_vars.len(), 3);
    assert!(has_meta(meta_vars.entries(), &meta_var("A")));
    assert!(has_meta(meta_vars.entries(), &multi_meta_var("B")));
    assert!(has_meta(meta_vars.entries(), &PatternNodeKind::MultiWildcard));
}

#[test]
fn test_to_pattern_ast_marks_meta_variable_nodes() {
    let source = "const value = fn($A, $$$B);";
    let pattern = to_pattern_ast(&ts_tree(source));
    assert_eq!(count_kind(&pattern, &meta_var("A")), 1);
    assert_eq!(count_kind(&pattern, &multi_meta_var("B")), 1);
    assert_eq!(pattern.text, source);
}

#[test]
fn test_pattern_matcher_captures_single_and_multi_meta_var() {
    let target = ts_tree("const value = fn(answer, foo, bar);");
    let pattern = to_pattern_ast(&ts_tree("const value = fn($A, $$$B);"));
    let matcher = PatternMatcher::default();
    let env = matcher.match_node(&target, &pattern).expect("pattern should match target");
    assert_eq!(env.get_single_capture("A").unwrap().text, "answer");
    assert_eq!(env.get_multi_capture("B").unwrap().len(), 2);
    assert_eq!(env.get_multi_capture("B").unwrap()[0].text, "foo");
    assert_eq!(env.get_multi_capture("B").unwrap()[1].text, "bar");
}

#[test]
fn test_pattern_matcher_exposes_match_result_and_capture_queries() {
    let target = ts_tree("const value = fn(answer, foo, bar);");
    let pattern = to_pattern_ast(&ts_tree("const value = fn($A, $$$B);"));
    let matcher = PatternMatcher::default();
    let result = matcher.match_result(&target, &pattern);
    assert!(result.is_match());
    assert!(result.environment().has_single_capture("A"));
    assert!(result.environment().has_multi_capture("B"));
    assert_eq!(result.environment().get_single_capture("A").unwrap().text, "answer");
    assert_eq!(result.environment().get_multi_capture("B").unwrap().len(), 2);
}

#[test]
fn test_pattern_matcher_requires_consistent_meta_var_binding() {
    let pattern = to_pattern_ast(&ts_tree("const pair = fn($A, $A);"));
    let matcher = PatternMatcher::default();
    assert!(matcher.match_node(&ts_tree("const pair = fn(x, x);"), &pattern).is_some());
    assert!(matcher.match_node(&ts_tree("const pair = fn(x, y);"), &pattern).is_none());
}

#[test]
fn test_pattern_matcher_requires_consistent_multi_meta_var_binding() {
    let pattern = to_pattern_ast(&ts_tree("const value = fn($$$A, $$$A);"));
    let matcher = PatternMatcher::default();
    assert!(matcher.match_node(&ts_tree("const value = fn(x, y, x, y);"), &pattern).is_some());
    assert!(matcher.match_node(&ts_tree("const value = fn(x, y, x, z);"), &pattern).is_none());
}

#[test]
fn test_pattern_matcher_rejects_mixed_single_and_multi_capture_name() {
    let target = ts_tree("const value = fn(a, b);");
    let pattern = to_pattern_ast(&ts_tree("const value = fn($A, $$$A);"));
    assert!(PatternMatcher::default().match_node(&target, &pattern).is_none());
}

#[test]
fn test_pattern_matcher_relaxed_skips_whitespace_and_comments() {
    let target = ts_tree("const /*comment*/ value = 1;");
    let pattern = to_pattern_ast(&ts_tree("const value = 1;"));
    let matcher = PatternMatcher::new(MatchStrictness::Relaxed);
    assert!(matcher.match_node(&target, &pattern).is_some());
}

#[test]
fn test_pattern_matcher_ast_ignores_whitespace_and_comments() {
    let target = ts_tree("const /*comment*/ value = 1;");
    let pattern = to_pattern_ast(&ts_tree("const value = 1;"));
    let matcher = PatternMatcher::new(MatchStrictness::Ast);
    assert!(matcher.match_node(&target, &pattern).is_some());
}

#[test]
fn test_pattern_matcher_cst_requires_exact_text() {
    let target = ts_tree("const /*comment*/ value = 1;");
    let pattern = to_pattern_ast(&ts_tree("const value = 1;"));
    let matcher = PatternMatcher::new(MatchStrictness::Cst);
    assert!(matcher.match_node(&target, &pattern).is_none());
}

#[test]
fn test_pattern_matcher_signature_ignores_function_body() {
    let target = ts_tree("function foo(a) { return a + 1; }");
    let pattern = to_pattern_ast(&ts_tree("function foo(a) { return a + 2; }"));
    let matcher = PatternMatcher::new(MatchStrictness::Signature);
    assert!(matcher.match_node(&target, &pattern).is_some());
}

#[test]
fn test_pattern_matcher_template_supports_multi_wildcard() {
    let target = ts_tree("const value = fn(a, b, c);");
    let pattern = to_pattern_ast(&ts_tree("const value = fn($$$);"));
    let matcher = PatternMatcher::new(MatchStrictness::Template);
    assert!(matcher.match_node(&target, &pattern).is_some());
}

#[test]
fn tests_test_composite_matcher_keeps_capture_environment() {
    let target = ts_tree("const value = fn(answer);");
    let pattern = to_pattern_ast(&ts_tree("const value = fn($A);"));
    let mut composite = CompositeMatcher::new();
    composite.push(pattern_default());
    composite.push(pattern_default());
    let env = composite
        .match_node(&target, &pattern)
        .expect("composite matcher should match and preserve captures");
    assert_eq!(env.get_single_capture("A").unwrap().text, "answer");
}

#[test]
fn tests_test_all_matcher_requires_all_matchers() {
    let target = ts_tree("const value = fn(answer);");
    let pattern = to_pattern_ast(&ts_tree("const value = fn($A);"));
    let mut matcher = AllMatcher::new();
    matcher.push(pattern_default());
    matcher.push(TestMatcher::Capture("MARK"));
    let env = matcher
        .match_node(&target, &pattern)
        .expect("all matcher should match when all children match");
    assert!(env.has_single_capture("A"));
    assert!(env.has_single_capture("MARK"));

    let mut failing_matcher = AllMatcher::new();
    failing_matcher.push(pattern_default());
    failing_matcher.push(TestMatcher::Reject);
    assert!(failing_matcher.match_node(&target, &pattern).is_none());
}

fn preset_environment() -> MatchEnvironment {
    let mut baseline = MatchEnvironment::new();
    baseline.insert_single_capture(
        "PRE".to_string(),
        CapturedNode { kind: "Preset".to_string(), text: "preset".to_string(), span: NodeSpan { start: 0, end: 0 } },
    );
    baseline
}

#[test]
fn tests_test_any_matcher_accepts_first_success_and_keeps_failed_branch_side_effects_isolated() {
    let target = ts_tree("const value = fn(answer);");
    let pattern = to_pattern_ast(&ts_tree("const value = fn($A);"));
    let mut matcher = AnyMatcher::new();
    matcher.push(TestMatcher::Reject);
    matcher.push(pattern_default());
    let env = matcher
        .match_node(&target, &pattern)
        .expect("any matcher should match when one child matches");
    assert!(env.has_single_capture("A"));

    let mut baseline = preset_environment();
    let mut failing_any = AnyMatcher::new();
    failing_any.push(TestMatcher::Reject);
    failing_any.push(TestMatcher::Reject);
    let before = baseline.duplicate();
    assert!(!failing_any.match_node_with_env(&target, &pattern, &mut baseline));
    assert_eq!(baseline, before);
}

#[test]
fn tests_test_not_matcher_negates_without_mutating_environment() {
    let target = ts_tree("const value = fn(answer);");
    let pattern = to_pattern_ast(&ts_tree("const value = fn($A);"));
    let before = MatchEnvironment::new();
    let mut env = before.duplicate();
    let not_pattern = NotMatcher::new(pattern_default());
    assert!(!not_pattern.match_node_with_env(&target, &pattern, &mut env));
    assert_eq!(env, before);

    let mut env = MatchEnvironment::new();
    let not_reject = NotMatcher::new(TestMatcher::Reject);
    assert!(not_reject.match_node_with_env(&target, &pattern, &mut env));
    assert!(!env.has_single_capture("A"));
}

fn span_text(source: &str, span: NodeSpan) -> &str {
    &source[span.start as usize..span.end as usize]
}

#[test]
fn test_find_all_matches_prefers_outer_overlap() {
    let target_source = "const value = fn(fn(a));";
    let target = ts_tree(target_source);
    let pattern = first_call(to_pattern_ast(&ts_tree("const value = fn($$$A);")));
    let matcher = PatternMatcher::default();
    let results = find_all_matches(&matcher, &target, &pattern, ConflictResolution::PreferOuter);
    assert_eq!(results.len(), 1);
    assert_eq!(span_text(target_source, results[0].span), "fn(fn(a))");
    assert_eq!(results[0].environment.get_multi_capture("A").unwrap().len(), 1);
}

#[test]
fn test_find_all_matches_prefers_inner_overlap() {
    let target_source = "const value = fn(fn(a));";
    let target = ts_tree(target_source);
    let pattern = first_call(to_pattern_ast(&ts_tree("const value = fn($$$A);")));
    let matcher = PatternMatcher::default();
    let results = find_all_matches(&matcher, &target, &pattern, ConflictResolution::PreferInner);
    assert_eq!(results.len(), 1);
    assert_eq!(span_text(target_source, results[0].span), "fn(a)");
}

#[test]
fn test_find_all_matches_sorts_and_dedups_non_overlapping_matches() {
    let target_source = "const a = fn(1); const b = fn(2); const c = fn(3);";
    let target = ts_tree(target_source);
    let pattern = first_call(to_pattern_ast(&ts_tree("const value = fn($A);")));
    let matcher = PatternMatcher::default();
    let results = FindAllMatches(&matcher, &target, &pattern, ConflictResolution::PreferOuter);
    assert_eq!(results.len(), 3);
    assert_eq!(span_text(target_source, results[0].span), "fn(1)");
    assert_eq!(span_text(target_source, results[1].span), "fn(2)");
    assert_eq!(span_text(target_source, results[2].span), "fn(3)");
    assert_eq!(results[0].environment.get_single_capture("A").unwrap().text, "1");
    assert_eq!(results[1].environment.get_single_capture("A").unwrap().text, "2");
    assert_eq!(results[2].environment.get_single_capture("A").unwrap().text, "3");
}

#[test]
fn test_identify_meta_variables_rejects_non_conforming_names() {
    let root = ts_tree("const value = fn($a, $$$b, $1, $_OK);");
    let meta_vars = identify_meta_variables(&root);
    assert_eq!(meta_vars.len(), 1);
    assert!(has_meta(meta_vars.entries(), &meta_var("_OK")));
}

#[test]
fn composite_rules_tests_test_all_matcher_requires_all_matchers() {
    let (target, pattern) = target_and_pattern("const value = fn(answer);", "const value = fn($A);");
    let mut matcher = AllMatcher::new();
    matcher.push(pattern_default());
    matcher.push(TestMatcher::Capture("MARK"));
    let env = matcher
        .match_node(&target, &pattern)
        .expect("all matcher should match when all children match");
    assert!(env.has_single_capture("A"));
    assert!(env.has_single_capture("MARK"));

    let mut failing_matcher = AllMatcher::new();
    failing_matcher.push(pattern_default());
    failing_matcher.push(TestMatcher::Reject);
    assert!(failing_matcher.match_node(&target, &pattern).is_none());
}

#[test]
fn composite_rules_tests_test_any_matcher_accepts_first_success_and_keeps_failed_branch_side_effects_isolated() {
    let (target, pattern) = target_and_pattern("const value = fn(answer);", "const value = fn($A);");
    let mut matcher = AnyMatcher::new();
    matcher.push(TestMatcher::Reject);
    matcher.push(pattern_default());
    let env = matcher
        .match_node(&target, &pattern)
        .expect("any matcher should match when one child matches");
    assert!(env.has_single_capture("A"));

    let mut baseline = preset_environment();
    let mut failing_any = AnyMatcher::new();
    failing_any.push(TestMatcher::Reject);
    failing_any.push(TestMatcher::Reject);
    let before = baseline.duplicate();
    assert!(!failing_any.match_node_with_env(&target, &pattern, &mut baseline));
    assert_eq!(baseline, before);
}

#[test]
fn composite_rules_tests_test_composite_matcher_keeps_capture_environment() {
    let (target, pattern) = target_and_pattern("const value = fn(answer);", "const value = fn($A);");
    let mut composite = AllMatcher::new();
    composite.push(pattern_default());
    composite.push(pattern_default());
    let env = composite
        .match_node(&target, &pattern)
        .expect("composite matcher should match and preserve captures");
    assert_eq!(env.get_single_capture("A").unwrap().text, "answer");
}

#[test]
fn composite_rules_tests_test_not_matcher_negates_without_mutating_environment() {
    let (target, pattern) = target_and_pattern("const value = fn(answer);", "const value = fn($A);");
    let before = MatchEnvironment::new();
    let mut env = before.duplicate();
    let not_pattern = NotMatcher::new(pattern_default());
    assert!(!not_pattern.match_node_with_env(&target, &pattern, &mut env));
    assert_eq!(env, before);

    let mut env = MatchEnvironment::new();
    let not_reject = NotMatcher::new(TestMatcher::Reject);
    assert!(not_reject.match_node_with_env(&target, &pattern, &mut env));
    assert!(!env.has_single_capture("A"));
}

#[test]
fn test_single_and_multi_capture_are_recorded() {
    let (target, pattern) =
        target_and_pattern("const value = fn(alpha, beta, gamma);", "const value = fn($A, $$$ARGS);");
    let matcher = PatternMatcher::new(MatchStrictness::Template);
    let result = matcher.match_result(&target, &pattern);
    assert!(result.is_match());
    assert_eq!(
        result.environment().get_single_capture("A").map(|node| node.text.as_str()),
        Some("alpha")
    );
    let multi = result.environment().get_multi_capture("ARGS").expect("expected $$$ARGS capture");
    assert_eq!(multi.len(), 2);
    assert_eq!(multi[0].text, "beta");
    assert_eq!(multi[1].text, "gamma");
}

#[test]
fn test_repeated_meta_var_requires_consistent_binding() {
    let matcher = PatternMatcher::new(MatchStrictness::Template);
    let (target, pattern) = target_and_pattern("const value = pair(alpha, beta);", "const value = pair($A, $A);");
    assert!(!matcher.match_result(&target, &pattern).is_match());
    let (target, pattern) = target_and_pattern("const value = pair(alpha, alpha);", "const value = pair($A, $A);");
    assert!(matcher.match_result(&target, &pattern).is_match());
}

#[test]
fn test_relaxed_and_signature_modes_ignore_trivia_or_body() {
    let (target, pattern) = target_and_pattern(
        "function sum(a, b) { /* keep */ return a + b; }",
        "function sum(a,b){return a+b;}",
    );
    let relaxed = PatternMatcher::new(MatchStrictness::Relaxed);
    let cst = PatternMatcher::new(MatchStrictness::Cst);
    assert!(relaxed.match_result(&target, &pattern).is_match());
    assert!(!cst.match_result(&target, &pattern).is_match());

    let (target, pattern) = target_and_pattern(
        "function sum(a, b) { return a + b; }",
        "function sum(a,b){throw new Error('x');}",
    );
    let signature = PatternMatcher::new(MatchStrictness::Signature);
    assert!(signature.match_result(&target, &pattern).is_match());
}

#[test]
fn test_composite_matcher_keeps_environment_consistent() {
    let (target, pattern) = target_and_pattern("const value = fn(alpha);", "const value = fn($A);");
    let mut composite = CompositeMatcher::new();
    composite.push(TestMatcher::Pattern(PatternMatcher::new(MatchStrictness::Template)));
    composite.push(TestMatcher::RequireCaptureText { name: "A", expected_text: "alpha" });
    let matched = composite.match_result(&target, &pattern);
    assert!(matched.is_match());
    assert_eq!(
        matched.environment().get_single_capture("A").map(|node| node.text.as_str()),
        Some("alpha")
    );

    let mut composite = CompositeMatcher::new();
    composite.push(TestMatcher::Pattern(PatternMatcher::new(MatchStrictness::Template)));
    composite.push(TestMatcher::MutatingFailure);
    let mut env = MatchEnvironment::new();
    let matched = composite.match_node_with_env(&target, &pattern, &mut env);
    assert!(!matched);
    assert!(env.single_entries().is_empty());
}

#[test]
fn test_match_node_with_env_and_capture_records_single_and_multi() {
    let (target, pattern) =
        target_and_pattern("const value = fn(alpha, beta, gamma);", "const value = fn($A, $$$ARGS);");
    let matcher = PatternMatcher::new(MatchStrictness::Template);
    let mut env = MatchEnvironment::new();
    assert!(matcher.match_node_with_env_and_capture(&target, &pattern, &mut env));
    assert!(env.has_single_capture("A"));
    assert!(env.has_multi_capture("ARGS"));
    assert_eq!(env.get_single_capture("A").map(|captured| captured.text.as_str()), Some("alpha"));
    let multi = env.get_multi_capture("ARGS").expect("expected $$$ARGS capture");
    assert_eq!(multi.len(), 2);
    assert_eq!(multi[0].text, "beta");
    assert_eq!(multi[1].text, "gamma");
}

#[test]
fn test_repeated_single_meta_var_requires_same_content() {
    let matcher = PatternMatcher::new(MatchStrictness::Template);
    let (target, pattern) = target_and_pattern("const value = pair(alpha, beta);", "const value = pair($A, $A);");
    let mut env = MatchEnvironment::new();
    assert!(!matcher.match_node_with_env_and_capture(&target, &pattern, &mut env));
    let (target, pattern) = target_and_pattern("const value = pair(alpha, alpha);", "const value = pair($A, $A);");
    let mut env = MatchEnvironment::new();
    assert!(matcher.match_node_with_env_and_capture(&target, &pattern, &mut env));
}

#[test]
fn test_repeated_multi_meta_var_requires_same_sequence() {
    let matcher = PatternMatcher::new(MatchStrictness::Template);
    let (target, pattern) =
        target_and_pattern("const value = fn(alpha, beta, alpha, gamma);", "const value = fn($$$ARGS, $$$ARGS);");
    let mut env = MatchEnvironment::new();
    assert!(!matcher.match_node_with_env_and_capture(&target, &pattern, &mut env));

    let (target, pattern) =
        target_and_pattern("const value = fn(alpha, beta, alpha, beta);", "const value = fn($$$ARGS, $$$ARGS);");
    let mut env = MatchEnvironment::new();
    assert!(matcher.match_node_with_env_and_capture(&target, &pattern, &mut env));
    let captures = env.get_multi_capture("ARGS").expect("expected $$$ARGS capture");
    assert_eq!(captures.len(), 2);
    assert_eq!(captures[0].text, "alpha");
    assert_eq!(captures[1].text, "beta");
}

#[test]
fn test_mixed_single_and_multi_meta_var_with_same_name_fails() {
    let matcher = PatternMatcher::new(MatchStrictness::Template);
    let (target, pattern) = target_and_pattern("const value = fn(alpha, beta);", "const value = fn($A, $$$A);");
    let mut env = MatchEnvironment::new();
    assert!(!matcher.match_node_with_env_and_capture(&target, &pattern, &mut env));
    let (target, pattern) = target_and_pattern("const value = fn(alpha, beta);", "const value = fn($$$A, $A);");
    let mut env = MatchEnvironment::new();
    assert!(!matcher.match_node_with_env_and_capture(&target, &pattern, &mut env));
}

#[test]
fn prefer_outer_skips_overlapping_children() {
    let target_source = "const value = fn(fn(a));";
    let (target, pattern) = target_and_pattern(target_source, "const value = fn($$$A);");
    let pattern = first_call(pattern);
    let matcher = PatternMatcher::new(MatchStrictness::Template);
    let results = find_all_matches(&matcher, &target, &pattern, ConflictResolution::PreferOuter);
    assert_eq!(results.len(), 1);
    assert_eq!(span_text(target_source, results[0].span), "fn(fn(a))");
    assert_eq!(results[0].environment.get_multi_capture("A").unwrap().len(), 1);
}

#[test]
fn prefer_inner_selects_smallest_overlapping_match() {
    let target_source = "const value = fn(fn(a));";
    let (target, pattern) = target_and_pattern(target_source, "const value = fn($$$A);");
    let pattern = first_call(pattern);
    let matcher = PatternMatcher::new(MatchStrictness::Template);
    let results = matcher.find_all_matches(&target, &pattern, ConflictResolution::PreferInner);
    assert_eq!(results.len(), 1);
    assert_eq!(span_text(target_source, results[0].span), "fn(a)");
}

#[test]
fn non_overlapping_matches_are_sorted_by_source_position() {
    let (target, pattern) =
        target_and_pattern("const a = fn(1); const b = fn(2); const c = fn(3);", "const value = fn($A);");
    let pattern = first_call(pattern);
    let matcher = PatternMatcher::default();
    let results = find_all_matches(&matcher, &target, &pattern, ConflictResolution::PreferOuter);
    assert_eq!(results.len(), 3);
    assert!(results[0].span.start < results[1].span.start);
    assert!(results[1].span.start < results[2].span.start);
    assert_eq!(results[0].environment.get_single_capture("A").unwrap().text, "1");
    assert_eq!(results[1].environment.get_single_capture("A").unwrap().text, "2");
    assert_eq!(results[2].environment.get_single_capture("A").unwrap().text, "3");
}

fn kind_rule(kind: &str) -> Rule {
    Rule { core: RuleKind::Kind(KindAtomicRule { kind: kind.to_string() }) }
}

fn kind_evaluate(node: &SyntaxNode, rule: &Rule) -> bool {
    if let RuleKind::Kind(kind_rule) = &rule.core {
        node.kind == kind_rule.kind
    } else {
        false
    }
}

/// The first call node met in a pre-order walk, with its ancestors from
/// the root down.
fn find_call_expr<'a>(node: &'a SyntaxNode, path: &mut Vec<&'a SyntaxNode>) -> Option<(&'a SyntaxNode, Vec<&'a SyntaxNode>)> {
    if node.kind == "CallExpression" {
        return Some((node, path.clone()));
    }
    path.push(node);
    for child in &node.children {
        if let Some(found) = find_call_expr(child, path) {
            return Some(found);
        }
    }
    path.pop();
    None
}

#[test]
fn test_evaluate_relational_rule_inside() {
    let root = parse_tree("let a = console.log(1);", SourceType::default());
    let (target, ancestors) = find_call_expr(&root, &mut Vec::new()).unwrap();

    let rule = RelationalRule::new(RelationalRuleKind::Inside, kind_rule("VariableDeclaration"));
    assert!(
        evaluate_relational_rule(target, &ancestors, &rule, kind_evaluate),
        "CallExpression should be inside VariableDeclaration"
    );

    let rule_fail = RelationalRule::new(RelationalRuleKind::Inside, kind_rule("ClassDeclaration"));
    assert!(
        !evaluate_relational_rule(target, &ancestors, &rule_fail, kind_evaluate),
        "CallExpression should not be inside ClassDeclaration"
    );
}

#[test]
fn test_evaluate_relational_rule_has() {
    let root = parse_tree("let a = console.log(1);", SourceType::default());
    let target = root.children.iter().find(|child| child.kind == "VariableDeclaration").unwrap();

    let rule = RelationalRule::new(RelationalRuleKind::Has, kind_rule("CallExpression"));
    assert!(
        evaluate_relational_rule(target, &[], &rule, kind_evaluate),
        "VariableDeclaration should have CallExpression"
    );

    let rule_fail = RelationalRule::new(RelationalRuleKind::Has, kind_rule("ClassDeclaration"));
    assert!(
        !evaluate_relational_rule(target, &[], &rule_fail, kind_evaluate),
        "VariableDeclaration should not have ClassDeclaration"
    );
}

#[test]
fn test_identify_meta_variables_detects_all_wildcard_kinds() {
    let root = ts_tree("const value = fn($A, $$$ARGS, $$$);");
    let meta_vars = identify_meta_variables(&root);
    assert_eq!(meta_vars.len(), 3);
    assert!(has_meta(meta_vars.entries(), &meta_var("A")));
    assert!(has_meta(meta_vars.entries(), &multi_meta_var("ARGS")));
    assert!(has_meta(meta_vars.entries(), &PatternNodeKind::MultiWildcard));
}

#[test]
fn test_identify_meta_variables_rejects_invalid_capture_names() {
    let root = ts_tree("const value = fn($a, $$$b, $1, $$$1, $_OK);");
    let meta_vars = identify_meta_variables(&root);
    assert_eq!(meta_vars.len(), 1);
    assert!(has_meta(meta_vars.entries(), &meta_var("_OK")));
}

#[test]
fn test_identify_meta_variables_ignores_non_expression_identifier_contexts() {
    let root = ts_tree("const $A = 1; const value = obj.$A;");
    assert_eq!(identify_meta_variables(&root).len(), 0);
}

#[test]
fn test_to_pattern_ast_marks_meta_nodes_and_preserves_text() {
    let source = "const value = fn($A, $$$ARGS, $$$);";
    let pattern = to_pattern_ast(&ts_tree(source));
    assert_eq!(pattern.text, source);
    assert_eq!(pattern.span.start, 0);
    assert_eq!(pattern.span.end as usize, source.len());
    assert_eq!(count_kind(&pattern, &meta_var("A")), 1);
    assert_eq!(count_kind(&pattern, &multi_meta_var("ARGS")), 1);
    assert_eq!(count_kind(&pattern, &PatternNodeKind::MultiWildcard), 1);
}

/// Replaces every match of `pattern_source` in the script block of the
/// Vue file by `replacement_text`.
fn run_vue_sfc_replacement(vue_source: &str, pattern_source: &str, replacement_text: &str) -> String {
    let extractor = VueSfcExtractor::new(vue_source);
    let block = extractor.extract_script_block().expect("Failed to extract script block from Vue SFC");

    let target = ast_engine::parse_tree(block.content).expect("Target script parse failed");
    let pattern = ast_engine::parse_pattern(pattern_source).expect("pattern parse failed");
    let matcher = PatternMatcher::default();
    let matches = matcher.find_all_matches(&target, &pattern, ConflictResolution::PreferOuter);

    let mut replacements = Vec::new();
    for matched in matches {
        let abs_span = block
            .offset_map
            .relative_to_absolute_span(matched.span)
            .expect("Failed to map relative span to absolute span");
        replacements.push(SpanReplacement::new(abs_span, replacement_text));
    }
    apply_span_replacements(vue_source, &replacements).expect("Failed to apply span replacements")
}

#[test]
fn test_vue_sfc_complex_structure_replacement() {
    let source = r#"<template>
  <div class="container">
    <h1>{{ title }}</h1>
    <button @click="handleClick">Click me</button>
  </div>
</template>

<script setup lang="ts">
import { ref } from 'vue';

const title = ref('Hello Vue');

function handleClick() {
  console.log('Button clicked');
}
</script>

<style scoped>
.container {
  padding: 20px;
}
</style>
"#;

    let pattern = "const title = ref('Hello Vue');";
    let replacement = "const title = ref('Hello Rast');";

    let result = run_vue_sfc_replacement(source, pattern, replacement);

    let expected = r#"<template>
  <div class="container">
    <h1>{{ title }}</h1>
    <button @click="handleClick">Click me</button>
  </div>
</template>

<script setup lang="ts">
import { ref } from 'vue';

const title = ref('Hello Rast');

function handleClick() {
  console.log('Button clicked');
}
</script>

<style scoped>
.container {
  padding: 20px;
}
</style>
"#;

    assert_eq!(result, expected, "Failed to replace console.log in complex Vue SFC");
}

#[test]
fn test_vue_sfc_multiline_script_replacement() {
    let source = r#"<script setup>
const a = 1;
const b = 2;
const c = a + b;
</script>
<template>
  <div>{{ c }}</div>
</template>
"#;

    let pattern = "const b = 2;";
    let replacement = "const b = 42;";

    let result = run_vue_sfc_replacement(source, pattern, replacement);

    let expected = r#"<script setup>
const a = 1;
const b = 42;
const c = a + b;
</script>
<template>
  <div>{{ c }}</div>
</template>
"#;

    assert_eq!(result, expected, "Failed to replace multiline script content");
}

#[test]
fn test_vue_sfc_special_characters_replacement() {
    let source = r#"<template>
  <div>Test</div>
</template>
<script>
const msg = "Hello \"World\"";
const regex = /test\/ing/g;
</script>
"#;

    let pattern = r#"const msg = "Hello \"World\"";"#;
    let replacement = "const msg = 'Hello Vue';";

    let result = run_vue_sfc_replacement(source, pattern, replacement);

    let expected = r#"<template>
  <div>Test</div>
</template>
<script>
const msg = 'Hello Vue';
const regex = /test\/ing/g;
</script>
"#;

    assert_eq!(result, expected, "Failed to replace content with special characters");
}

#[test]
fn test_vue_sfc_multiple_matches_replacement() {
    let source = r#"<script setup lang="ts">
console.log("foo");
console.log("bar");
</script>
"#;

    let pattern = "console.log(\"foo\");";
    let replacement = "logger.info(\"foo\");";

    let result = run_vue_sfc_replacement(source, pattern, replacement);
    assert!(result.contains("logger.info(\"foo\");"), "Expected first console.log call to be replaced");
}
