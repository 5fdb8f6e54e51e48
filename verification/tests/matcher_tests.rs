use ast_engine::{
    find_all_matches, identify_meta_variables, normalize_signature_text, normalize_text, to_pattern_ast,
    ConflictResolution, MatchStrictness, NodeSpan, PatternMatcher, PatternNode, PatternNodeKind, SyntaxNode,
    WildcardNode,
};

fn leaf(kind: &str, text: &str, start: u32) -> SyntaxNode {
    SyntaxNode {
        kind: kind.to_string(),
        text: text.to_string(),
        span: NodeSpan { start, end: start + text.len() as u32 },
        identifier: None,
        children: Vec::new(),
    }
}

fn ident(name: &str, start: u32) -> SyntaxNode {
    let mut node = leaf("Identifier", name, start);
    node.identifier = Some(name.to_string());
    node
}

fn node(kind: &str, text: &str, start: u32, children: Vec<SyntaxNode>) -> SyntaxNode {
    SyntaxNode {
        kind: kind.to_string(),
        text: text.to_string(),
        span: NodeSpan { start, end: start + text.len() as u32 },
        identifier: None,
        children,
    }
}

fn pnode(kind: PatternNodeKind, text: &str, children: Vec<PatternNode>) -> PatternNode {
    PatternNode {
        kind,
        text: text.to_string(),
        span: NodeSpan { start: 0, end: text.len() as u32 },
        children,
    }
}

fn plain(kind: &str) -> PatternNodeKind {
    PatternNodeKind::Node { kind: kind.to_string() }
}

fn meta(name: &str) -> PatternNodeKind {
    PatternNodeKind::MetaVar(WildcardNode { name: name.to_string() })
}

fn multi(name: &str) -> PatternNodeKind {
    PatternNodeKind::MultiMetaVar(WildcardNode { name: name.to_string() })
}

// call(a, b): CallExpression with callee and two arguments.
fn call_tree() -> SyntaxNode {
    node(
        "CallExpression",
        "call(a, b)",
        0,
        vec![ident("call", 0), ident("a", 5), ident("b", 8)],
    )
}

#[test]
fn normalize_text_drops_comments_and_whitespace() {
    assert_eq!(normalize_text("a /* x */ b // y\n c"), "abc");
    assert_eq!(normalize_text("a / b"), "a/b");
    assert_eq!(normalize_text("/**/x"), "x");
    assert_eq!(normalize_signature_text("function f(a) { return a; }"), "functionf(a)");
    assert_eq!(normalize_signature_text("let x = 1"), "letx=1");
}

#[test]
fn meta_variable_binds_single_node() {
    let pattern = pnode(
        plain("CallExpression"),
        "call($A, b)",
        vec![pnode(plain("Identifier"), "call", vec![]), pnode(meta("A"), "$A", vec![]), pnode(plain("Identifier"), "b", vec![])],
    );
    let matcher = PatternMatcher::new(MatchStrictness::Ast);
    let env = matcher.match_node(&call_tree(), &pattern).expect("pattern matches");
    let bound = env.get_single_capture("A").expect("A is bound");
    assert_eq!(bound.text, "a");
    assert_eq!(bound.span, NodeSpan { start: 5, end: 6 });
}

#[test]
fn multi_meta_variable_binds_argument_list() {
    let pattern = pnode(
        plain("CallExpression"),
        "call($$$ARGS)",
        vec![pnode(plain("Identifier"), "call", vec![]), pnode(multi("ARGS"), "$$$ARGS", vec![])],
    );
    let matcher = PatternMatcher::default();
    let outcome = matcher.match_result(&call_tree(), &pattern);
    assert!(outcome.is_match());
    let args = outcome.environment().get_multi_capture("ARGS").expect("ARGS is bound");
    assert_eq!(args.len(), 2);
    assert_eq!(args[0].text, "a");
    assert_eq!(args[1].text, "b");
}

#[test]
fn repeated_meta_variable_must_agree() {
    let pattern = pnode(
        plain("CallExpression"),
        "call($A, $A)",
        vec![pnode(plain("Identifier"), "call", vec![]), pnode(meta("A"), "$A", vec![]), pnode(meta("A"), "$A", vec![])],
    );
    let matcher = PatternMatcher::new(MatchStrictness::Ast);
    assert!(matcher.match_node(&call_tree(), &pattern).is_none());
    let same = node("CallExpression", "call(a, a)", 0, vec![ident("call", 0), ident("a", 5), ident("a", 8)]);
    assert!(matcher.match_node(&same, &pattern).is_some());
}

#[test]
fn kind_mismatch_and_cst_text() {
    let pattern = pnode(plain("Identifier"), "a", vec![]);
    let matcher = PatternMatcher::new(MatchStrictness::Cst);
    assert!(matcher.match_node(&leaf("Identifier", "a", 0), &pattern).is_some());
    assert!(matcher.match_node(&leaf("StringLiteral", "a", 0), &pattern).is_none());
    assert!(matcher.match_node(&leaf("Identifier", "a ", 0), &pattern).is_none());
    let relaxed = PatternMatcher::new(MatchStrictness::Relaxed);
    assert!(relaxed.match_node(&leaf("Identifier", "a ", 0), &pattern).is_some());
    assert_eq!(relaxed.strictness(), MatchStrictness::Relaxed);
}

#[test]
fn failed_match_leaves_environment_unchanged() {
    let matcher = PatternMatcher::default();
    let mut env = ast_engine::MatchEnvironment::new();
    let pattern = pnode(plain("StringLiteral"), "x", vec![]);
    assert!(!matcher.match_node_with_env(&leaf("Identifier", "x", 0), &pattern, &mut env));
    assert!(!env.has_single_capture("X"));
    let bind = pnode(meta("X"), "$X", vec![]);
    assert!(matcher.match_node_with_env(&leaf("Identifier", "x", 0), &bind, &mut env));
    assert!(env.has_single_capture("X"));
}

#[test]
fn to_pattern_ast_marks_wildcards() {
    let source = node("CallExpression", "f($A, $$$REST)", 0, vec![ident("f", 0), ident("$A", 2), ident("$$$REST", 6)]);
    let vars = identify_meta_variables(&source);
    assert_eq!(vars.len(), 2);
    assert!(matches!(vars.get((2, 4)), Some(PatternNodeKind::MetaVar(WildcardNode { name })) if name == "A"));
    let pattern = to_pattern_ast(&source);
    assert_eq!(pattern.kind, plain("CallExpression"));
    assert_eq!(pattern.children.len(), 3);
    assert_eq!(pattern.children[0].kind, plain("Identifier"));
    assert_eq!(pattern.children[1].kind, meta("A"));
    assert_eq!(pattern.children[2].kind, multi("REST"));
}

#[test]
fn find_all_matches_resolves_nested_matches() {
    // g(g(x)): both calls match g($A); they overlap.
    let inner = node("CallExpression", "g(x)", 2, vec![ident("g", 2), ident("x", 4)]);
    let outer = node("CallExpression", "g(g(x))", 0, vec![ident("g", 0), inner]);
    let program = node("Program", "g(g(x))", 0, vec![outer]);
    let pattern = pnode(
        plain("CallExpression"),
        "g($A)",
        vec![pnode(plain("Identifier"), "g", vec![]), pnode(meta("A"), "$A", vec![])],
    );
    let matcher = PatternMatcher::default();
    let outer_first = find_all_matches(&matcher, &program, &pattern, ConflictResolution::PreferOuter);
    assert_eq!(outer_first.len(), 1);
    assert_eq!(outer_first[0].span, NodeSpan { start: 0, end: 7 });
    let inner_first = find_all_matches(&matcher, &program, &pattern, ConflictResolution::PreferInner);
    assert_eq!(inner_first.len(), 1);
    assert_eq!(inner_first[0].span, NodeSpan { start: 2, end: 6 });
    assert_eq!(inner_first[0].environment.get_single_capture("A").unwrap().text, "x");
}

#[test]
fn find_all_matches_reports_disjoint_matches_in_order() {
    let first = node("CallExpression", "g(a)", 0, vec![ident("g", 0), ident("a", 2)]);
    let second = node("CallExpression", "g(b)", 5, vec![ident("g", 5), ident("b", 7)]);
    let program = node("Program", "g(a);g(b)", 0, vec![second, first]);
    let pattern = pnode(
        plain("CallExpression"),
        "g($A)",
        vec![pnode(plain("Identifier"), "g", vec![]), pnode(meta("A"), "$A", vec![])],
    );
    let results = find_all_matches(&PatternMatcher::default(), &program, &pattern, ConflictResolution::default());
    assert_eq!(results.len(), 2);
    assert_eq!(results[0].span.start, 0);
    assert_eq!(results[1].span.start, 5);
}
