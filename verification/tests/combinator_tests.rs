use ast_engine::{
    AllMatcher, AnyMatcher, CompositeMatcher, MatchEnvironment, MatchStrictness, Matcher, NodeSpan, NotMatcher,
    PatternMatcher, PatternNode, PatternNodeKind, SyntaxNode, WildcardNode,
};

fn leaf(kind: &str, text: &str) -> SyntaxNode {
    SyntaxNode {
        kind: kind.to_string(),
        text: text.to_string(),
        span: NodeSpan { start: 0, end: text.len() as u32 },
        identifier: None,
        children: Vec::new(),
    }
}

fn plain(kind: &str, text: &str) -> PatternNode {
    PatternNode {
        kind: PatternNodeKind::Node { kind: kind.to_string() },
        text: text.to_string(),
        span: NodeSpan { start: 0, end: text.len() as u32 },
        children: Vec::new(),
    }
}

fn meta(name: &str) -> PatternNode {
    PatternNode {
        kind: PatternNodeKind::MetaVar(WildcardNode { name: name.to_string() }),
        text: format!("${name}"),
        span: NodeSpan { start: 0, end: 2 },
        children: Vec::new(),
    }
}

#[test]
fn all_matcher_needs_every_matcher() {
    let mut all = AllMatcher::new();
    all.push(PatternMatcher::new(MatchStrictness::Ast));
    all.push(PatternMatcher::new(MatchStrictness::Cst));
    let pattern = plain("Identifier", "a");
    let mut env = MatchEnvironment::new();
    assert!(all.match_node_with_env(&leaf("Identifier", "a"), &pattern, &mut env));
    // Relaxed text agrees, exact text does not.
    assert!(!all.match_node_with_env(&leaf("Identifier", "a "), &pattern, &mut env));
    let empty: AllMatcher<PatternMatcher> = AllMatcher::new();
    assert!(empty.match_result(&leaf("Other", "x"), &pattern).is_match());
}

#[test]
fn any_matcher_takes_first_match_and_composite_acts_as_all() {
    let mut any = AnyMatcher::new();
    any.push(PatternMatcher::new(MatchStrictness::Cst));
    any.push(PatternMatcher::new(MatchStrictness::Relaxed));
    let pattern = plain("Identifier", "a");
    assert!(any.match_result(&leaf("Identifier", "a "), &pattern).is_match());
    assert!(!any.match_result(&leaf("StringLiteral", "a"), &pattern).is_match());
    let nothing: AnyMatcher<PatternMatcher> = AnyMatcher::new();
    assert!(!nothing.match_result(&leaf("Identifier", "a"), &pattern).is_match());

    let mut composite = CompositeMatcher::new();
    composite.push(PatternMatcher::default());
    let outcome = composite.match_result(&leaf("Identifier", "q"), &meta("Q"));
    assert!(outcome.is_match());
    assert_eq!(outcome.environment().get_single_capture("Q").unwrap().text, "q");
}

#[test]
fn not_matcher_negates_and_keeps_bindings() {
    let not = NotMatcher::new(PatternMatcher::default());
    let mut env = MatchEnvironment::new();
    assert!(not.match_node_with_env(&leaf("Identifier", "a"), &plain("StringLiteral", "a"), &mut env));
    assert!(!not.match_node_with_env(&leaf("Identifier", "a"), &meta("A"), &mut env));
    assert!(!env.has_single_capture("A"));
}
