use ast_engine::analysis::Analyzer;
use ast_engine::{
    apply_fix_to_matches, rewrite_with_fix, apply_span_replacements, apply_text_diffs, find_all_matches, generate_replacement,
    generate_text_diffs, MatchEnvironment, NodeSpan, PatternMatcher, PatternNode, PatternNodeKind,
    ProjectGraph, SpanMutatorError, SpanReplacement, SyntaxNode, TemplateFix, WildcardNode,
};

fn leaf(kind: &str, text: &str, start: u32) -> SyntaxNode {
    SyntaxNode {
        kind: kind.to_string(),
        text: text.to_string(),
        span: NodeSpan { start, end: start + text.len() as u32 },
        identifier: None,
        children: Vec::new(),
    }
}

#[test]
fn generated_diffs_apply_like_replacements() {
    let source = "let a = 1;\nlet b = 2;\n";
    let replacements = vec![
        SpanReplacement::new(NodeSpan { start: 8, end: 9 }, "10"),
        SpanReplacement::new(NodeSpan { start: 11, end: 21 }, "").with_trivia_absorption(),
    ];
    let diffs = generate_text_diffs(source, &replacements).unwrap();
    let via_diffs = apply_text_diffs(source, &diffs).unwrap();
    let direct = apply_span_replacements(source, &replacements).unwrap();
    assert_eq!(via_diffs, direct);
    assert_eq!(direct, "let a = 10;\n");
}

#[test]
fn error_messages_name_the_spans() {
    assert_eq!(
        SpanMutatorError::InvalidSpan { start: 5, end: 2 }.message(),
        "Invalid span range: start (5) > end (2)"
    );
    assert_eq!(
        SpanMutatorError::OutOfBounds { span: NodeSpan { start: 0, end: 40 }, text_len: 12 }.message(),
        "Span [0, 40) is out of bounds for source length 12"
    );
    assert_eq!(
        SpanMutatorError::OverlappingSpans {
            left: NodeSpan { start: 1, end: 3 },
            right: NodeSpan { start: 2, end: 4 }
        }
        .message(),
        "Overlapping spans detected: [1, 3) and [2, 4)"
    );
    assert_eq!(
        SpanMutatorError::InvalidCharBoundary { span: NodeSpan { start: 1, end: 2 } }.message(),
        "Span [1, 2) does not align to UTF-8 char boundary"
    );
    assert_eq!(
        SpanMutatorError::SourceMismatch { span: NodeSpan { start: 0, end: 100 } }.message(),
        "Source text does not match expected original content at span [0, 100)"
    );
}

#[test]
fn template_without_bindings_renders_itself() {
    let text = "foo($A, $$$REST) + $";
    let fix = TemplateFix::from(text);
    assert_eq!(generate_replacement(&fix, &MatchEnvironment::new()), text);
}

#[test]
fn lone_meta_variable_matches_any_node() {
    let pattern = PatternNode {
        kind: PatternNodeKind::MetaVar(WildcardNode { name: "X".to_string() }),
        text: "$X".to_string(),
        span: NodeSpan { start: 0, end: 2 },
        children: Vec::new(),
    };
    for kind in ["Identifier", "CallExpression", "Program"] {
        let node = leaf(kind, "whatever", 3);
        let env = PatternMatcher::default().match_node(&node, &pattern).expect("matches");
        let bound = env.get_single_capture("X").expect("X bound");
        assert_eq!(bound.kind, kind);
        assert_eq!(bound.span, NodeSpan { start: 3, end: 11 });
    }
}

#[test]
fn lone_sequence_wildcard_matches_no_node() {
    let pattern = PatternNode {
        kind: PatternNodeKind::MultiWildcard,
        text: "$$$".to_string(),
        span: NodeSpan { start: 0, end: 3 },
        children: Vec::new(),
    };
    assert!(PatternMatcher::default().match_node(&leaf("Identifier", "a", 0), &pattern).is_none());
}

#[test]
fn rewrite_with_fix_replaces_each_match() {
    let call = |text: &str, arg: &str, start: u32| SyntaxNode {
        kind: "CallExpression".to_string(),
        text: text.to_string(),
        span: NodeSpan { start, end: start + text.len() as u32 },
        identifier: None,
        children: vec![leaf("Identifier", "foo", start), leaf("StringLiteral", arg, start + 4)],
    };
    let source = "foo(\"a\"); foo(\"b\");";
    let program = SyntaxNode {
        kind: "Program".to_string(),
        text: source.to_string(),
        span: NodeSpan { start: 0, end: source.len() as u32 },
        identifier: None,
        children: vec![call("foo(\"a\")", "\"a\"", 0), call("foo(\"b\")", "\"b\"", 10)],
    };
    let pattern = PatternNode {
        kind: PatternNodeKind::Node { kind: "CallExpression".to_string() },
        text: "foo($A)".to_string(),
        span: NodeSpan { start: 0, end: 7 },
        children: vec![
            PatternNode {
                kind: PatternNodeKind::Node { kind: "Identifier".to_string() },
                text: "foo".to_string(),
                span: NodeSpan { start: 0, end: 3 },
                children: Vec::new(),
            },
            PatternNode {
                kind: PatternNodeKind::MetaVar(WildcardNode { name: "A".to_string() }),
                text: "$A".to_string(),
                span: NodeSpan { start: 4, end: 6 },
                children: Vec::new(),
            },
        ],
    };
    let matches = find_all_matches(&PatternMatcher::default(), &program, &pattern, Default::default());
    assert_eq!(matches.len(), 2);
    let fix = TemplateFix::from("bar($A)");
    let updated = apply_fix_to_matches(source, &matches, &fix).unwrap();
    assert_eq!(updated, "bar(\"a\"); bar(\"b\");");
    let (rewritten, found, rewrites) = rewrite_with_fix(source, &matches, Some(&fix)).unwrap();
    assert_eq!((rewritten.as_str(), found, rewrites), ("bar(\"a\"); bar(\"b\");", 2, 2));
    let (unchanged, found, rewrites) = rewrite_with_fix(source, &matches, None).unwrap();
    assert_eq!((unchanged.as_str(), found, rewrites), (source, 2, 0));
}

/// Adds `code` under `path`, with a walk over it that also saw an interface
/// named `extra`, where one is given.
fn add(graph: &mut ProjectGraph, path: &str, code: &str, extra: Option<&str>) {
    let mut walked = Analyzer::new(code);
    if let Some(name) = extra {
        walked.visit_ts_interface_declaration(name, &Vec::new(), 0);
    }
    graph.add_file(path, code, walked).unwrap();
}

#[test]
fn added_file_is_found_and_new_code_replaces_it() {
    let mut graph = ProjectGraph::new();
    add(&mut graph, "src/a.ts", "export const one = 1;", None);
    assert_eq!(graph.find_symbol("one").len(), 1);
    add(&mut graph, "src/a.ts", "export const two = 2;", None);
    assert_eq!(graph.get_all_files(), vec!["src/a.ts".to_string()]);
    assert_eq!(graph.find_symbol("two").len(), 1);
    assert!(graph.find_symbol("one").is_empty());
    let structure = graph.get_file_structure("./src/a.ts").unwrap();
    assert_eq!(structure.exports[0].name, "two");
}

#[test]
fn same_code_again_keeps_the_first_structure() {
    let mut graph = ProjectGraph::new();
    let code = "export const one = 1;";
    add(&mut graph, "src/a.ts", code, None);
    add(&mut graph, "src/a.ts", code, Some("Extra"));
    assert_eq!(graph.find_symbol("one").len(), 1);
    assert!(graph.find_symbol("Extra").is_empty());
    add(&mut graph, "src/b.ts", code, Some("Extra"));
    assert_eq!(graph.find_symbol("Extra").len(), 1);
}

#[test]
fn a_match_keeps_earlier_bindings() {
    let meta = |name: &str| PatternNode {
        kind: PatternNodeKind::MetaVar(WildcardNode { name: name.to_string() }),
        text: format!("${name}"),
        span: NodeSpan { start: 0, end: 2 },
        children: Vec::new(),
    };
    let call = |children: Vec<PatternNode>| PatternNode {
        kind: PatternNodeKind::Node { kind: "CallExpression".to_string() },
        text: "f($A, $B)".to_string(),
        span: NodeSpan { start: 0, end: 9 },
        children,
    };
    let mut target = leaf("CallExpression", "f(x, y)", 0);
    target.children = vec![leaf("Identifier", "x", 2), leaf("Identifier", "y", 5)];

    let mut env = MatchEnvironment::new();
    let matcher = PatternMatcher::default();
    assert!(matcher.match_node_with_env(&leaf("Identifier", "x", 20), &meta("A"), &mut env));
    assert!(matcher.match_node_with_env(&target, &call(vec![meta("A"), meta("B")]), &mut env));
    assert_eq!(env.get_single_capture("A").unwrap().span, NodeSpan { start: 20, end: 21 });
    assert_eq!(env.get_single_capture("B").unwrap().text, "y");

    // A is bound to `x`, so a call whose first argument is `y` does not match.
    let mut other = leaf("CallExpression", "f(y, y)", 0);
    other.children = vec![leaf("Identifier", "y", 2), leaf("Identifier", "y", 5)];
    assert!(!matcher.match_node_with_env(&other, &call(vec![meta("A"), meta("B")]), &mut env));
    assert_eq!(env.get_single_capture("A").unwrap().text, "x");
}

#[test]
fn same_code_again_after_other_paths_changes_nothing() {
    let mut graph = ProjectGraph::new();
    add(&mut graph, "src/a.ts", "export const one = 1;", None);
    add(&mut graph, "src/b.ts", "export const two = 2;", None);
    add(&mut graph, "./src/a.ts", "export const one = 1;", Some("Three"));
    assert_eq!(graph.get_all_files(), vec!["src/a.ts".to_string(), "src/b.ts".to_string()]);
    assert_eq!(graph.find_symbol("one").len(), 1);
    assert!(graph.find_symbol("Three").is_empty());
    graph.clear();
    add(&mut graph, "z.ts", "", None);
    add(&mut graph, "lib/../a.ts", "", None);
    assert_eq!(graph.get_all_files(), vec!["a.ts".to_string(), "z.ts".to_string()]);
}
