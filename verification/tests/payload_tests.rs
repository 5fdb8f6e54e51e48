use ast_engine::capture::CapturedNode;
use ast_engine::{
    empty_vue_sfc_search, pattern_match_payloads, scan_outcome, text_report_lines, ReportItem, vue_sfc_search_payload, MatchResult, VueSfcExtractor,
    env_to_metavariables, evaluate_relational_rule, parse_extensions, slice_span_text, KindAtomicRule, MatchEnvironment,
    NodeSpan, RelationalRule, RelationalRuleKind, Rule, RuleKind, SyntaxNode,
};

fn captured(text: &str, start: u32) -> CapturedNode {
    CapturedNode {
        kind: "Identifier".to_string(),
        text: text.to_string(),
        span: NodeSpan { start, end: start + text.len() as u32 },
    }
}

#[test]
fn parse_extensions_defaults_and_trims() {
    assert_eq!(parse_extensions(None), vec!["js", "ts", "jsx", "tsx"]);
    assert_eq!(parse_extensions(Some(" .vue, ts ,,..jsx,".to_string())), vec!["vue", "ts", "jsx"]);
    assert_eq!(parse_extensions(Some("js".to_string())), vec!["js"]);
    assert!(parse_extensions(Some(" , . ,".to_string())).is_empty());
}

#[test]
fn slice_span_text_checks_bounds_and_boundaries() {
    let source = "héllo world";
    assert_eq!(slice_span_text(source, NodeSpan { start: 7, end: 12 }), Ok("world".to_string()));
    assert_eq!(slice_span_text(source, NodeSpan { start: 0, end: 1 }), Ok("h".to_string()));
    assert_eq!(
        slice_span_text(source, NodeSpan { start: 0, end: 40 }),
        Err("Invalid match span".to_string())
    );
    assert_eq!(
        slice_span_text(source, NodeSpan { start: 5, end: 2 }),
        Err("Invalid match span".to_string())
    );
    assert_eq!(
        slice_span_text(source, NodeSpan { start: 2, end: 4 }),
        Err("Match span is not UTF-8 boundary".to_string())
    );
}

#[test]
fn metavariables_prefer_single_bindings_and_join_sequences() {
    let mut env = MatchEnvironment::new();
    env.insert_single_capture("A".to_string(), captured("x", 0));
    env.insert_multi_capture("ARGS".to_string(), vec![captured("a", 2), captured(",", 3), captured("b", 4)]);
    env.insert_multi_capture("A".to_string(), vec![captured("ignored", 9)]);
    let mut vars = env_to_metavariables(&env);
    vars.sort();
    assert_eq!(
        vars,
        vec![("A".to_string(), "x".to_string()), ("ARGS".to_string(), "a,b".to_string())]
    );
}

fn leaf(kind: &str) -> SyntaxNode {
    SyntaxNode {
        kind: kind.to_string(),
        text: kind.to_string(),
        span: NodeSpan { start: 0, end: 1 },
        identifier: None,
        children: Vec::new(),
    }
}

#[test]
fn relational_rules_look_at_ancestors_and_descendants() {
    let mut body = leaf("BlockStatement");
    body.children.push(leaf("ReturnStatement"));
    let mut function = leaf("Function");
    function.children.push(body);
    let rule = |kind: &str| Rule { core: RuleKind::Kind(KindAtomicRule { kind: kind.to_string() }) };
    let kind_is = |node: &SyntaxNode, rule: &Rule| match &rule.core {
        RuleKind::Kind(k) => node.kind == k.kind,
        _ => false,
    };
    let has_return = RelationalRule::new(RelationalRuleKind::Has, rule("ReturnStatement"));
    assert!(evaluate_relational_rule(&function, &[], &has_return, kind_is));
    let has_class = RelationalRule::new(RelationalRuleKind::Has, rule("Class"));
    assert!(!evaluate_relational_rule(&function, &[], &has_class, kind_is));
    let inside_function = RelationalRule::new(RelationalRuleKind::Inside, rule("Function"));
    let ret = leaf("ReturnStatement");
    assert!(evaluate_relational_rule(&ret, &[&function], &inside_function, kind_is));
    assert!(!evaluate_relational_rule(&ret, &[], &inside_function, kind_is));
}

fn match_at(start: u32, end: u32, binding: Option<(&str, &str)>) -> MatchResult {
    let mut environment = MatchEnvironment::new();
    if let Some((name, text)) = binding {
        environment.insert_single_capture(name.to_string(), captured(text, start));
    }
    MatchResult { span: NodeSpan { start, end }, environment }
}

#[test]
fn pattern_match_payloads_report_each_match_or_the_first_refusal() {
    let source = "foo(1); bar(2);";
    let matches = vec![match_at(0, 6, Some(("A", "1"))), match_at(8, 14, None)];
    let payloads = pattern_match_payloads(source, &matches).unwrap();
    assert_eq!(payloads.len(), 2);
    assert_eq!((payloads[0].span.start, payloads[0].span.end), (0, 6));
    assert_eq!(payloads[0].text, "foo(1)");
    assert_eq!(payloads[0].metavariables, vec![("A".to_string(), "1".to_string())]);
    assert_eq!(payloads[1].text, "bar(2)");
    assert!(payloads[1].metavariables.is_empty());

    let bad = vec![match_at(0, 6, None), match_at(8, 99, None), match_at(9, 3, None)];
    assert_eq!(pattern_match_payloads(source, &bad).unwrap_err(), "Invalid match span");
    assert!(pattern_match_payloads(source, &[]).unwrap().is_empty());
}

#[test]
fn vue_search_payload_maps_spans_into_the_component() {
    let source = "<template><p/></template>\n<script setup>\nconst a = f(1);\n</script>\n";
    let extractor = VueSfcExtractor::new(source);
    let block = extractor.extract_script_block().unwrap();
    let rel = block.content.find("f(1)").unwrap() as u32;
    let matches = vec![match_at(rel, rel + 4, Some(("X", "1")))];
    let payload = vue_sfc_search_payload(source, &block, &matches).unwrap();
    let script = payload.script.unwrap();
    assert_eq!(script.kind, "scriptSetup");
    let script_start = source.find("\nconst").unwrap() as u32;
    assert_eq!(script.span.start, script_start);
    assert_eq!(payload.matches.len(), 1);
    let found = &payload.matches[0];
    assert_eq!((found.relative_span.start, found.relative_span.end), (rel, rel + 4));
    assert_eq!(found.absolute_span.start, script_start + rel);
    assert_eq!(found.text, "f(1)");
    assert_eq!((found.location.line, found.location.column), (3, 10));
    assert_eq!(found.metavariables, vec![("X".to_string(), "1".to_string())]);

    let outside = vec![match_at(0, 500, None)];
    assert_eq!(
        vue_sfc_search_payload(source, &block, &outside).unwrap_err(),
        "Failed to map relative span to absolute Vue SFC offset"
    );
    let empty = empty_vue_sfc_search();
    assert!(empty.script.is_none() && empty.matches.is_empty());
}

#[test]
fn scan_outcome_writes_only_real_rewrites_outside_dry_runs() {
    let (write, result) = scan_outcome("a.ts".to_string(), "x", "y", 2, 2, false);
    assert!(write);
    assert_eq!((result.path.as_str(), result.matches, result.modifications), ("a.ts", 2, Some(2)));
    let (write, result) = scan_outcome("a.ts".to_string(), "x", "y", 2, 2, true);
    assert!(!write);
    assert_eq!(result.modifications, None);
    let (write, _) = scan_outcome("a.ts".to_string(), "x", "x", 1, 1, false);
    assert!(!write);
    let (write, result) = scan_outcome("b.ts".to_string(), "x", "y", 0, 0, false);
    assert!(!write);
    assert_eq!(result.modifications, Some(0));
}

#[test]
fn text_report_lists_each_item_with_what_it_has() {
    let items = vec![
        ReportItem { path: Some("src/a.ts".to_string()), matches: Some(3), modifications: Some(12) },
        ReportItem { path: Some("b.js".to_string()), matches: Some(0), modifications: None },
        ReportItem { path: None, matches: None, modifications: None },
    ];
    assert_eq!(
        text_report_lines(&items),
        vec![
            "File: src/a.ts".to_string(),
            "  Matches: 3".to_string(),
            "  Modifications: 12".to_string(),
            "File: b.js".to_string(),
            "  Matches: 0".to_string(),
        ]
    );
    assert!(text_report_lines(&[]).is_empty());
}
