use ast_engine::capture::{CapturedNode, MatchEnvironment};
use ast_engine::span::NodeSpan;
use ast_engine::text_interpolation::{generate_replacement, TemplateFix};

#[test]
fn test_pure_text_replacement() {
    let template = TemplateFix::from("console.log('hello')");
    let env = MatchEnvironment::default();
    let result = generate_replacement(&template, &env);
    assert_eq!(result, "console.log('hello')");
}

#[test]
fn test_single_meta_var_replacement() {
    let template = TemplateFix::from("console.log($MSG)");
    let mut env = MatchEnvironment::default();
    env.insert_single_capture(
        "MSG".to_string(),
        CapturedNode {
            kind: "StringLiteral".to_string(),
            text: "world".to_string(),
            span: NodeSpan { start: 0, end: 0 },
        },
    );

    let result = generate_replacement(&template, &env);
    assert_eq!(result, "console.log(world)");
}

#[test]
fn test_multi_meta_var_replacement() {
    let template = TemplateFix::from("return $$$ARGS;");
    let mut env = MatchEnvironment::default();
    env.insert_multi_capture(
        "ARGS".to_string(),
        vec![
            CapturedNode {
                kind: "Identifier".to_string(),
                text: "a".to_string(),
                span: NodeSpan { start: 0, end: 0 },
            },
            CapturedNode {
                kind: "Identifier".to_string(),
                text: "b".to_string(),
                span: NodeSpan { start: 0, end: 0 },
            },
            CapturedNode {
                kind: "Identifier".to_string(),
                text: "c".to_string(),
                span: NodeSpan { start: 0, end: 0 },
            },
        ],
    );

    let result = generate_replacement(&template, &env);
    assert_eq!(result, "return abc;");
}

#[test]
fn test_mixed_meta_vars() {
    let template = TemplateFix::from("$FUNC($ARGS)");
    let mut env = MatchEnvironment::default();
    env.insert_single_capture(
        "FUNC".to_string(),
        CapturedNode {
            kind: "Identifier".to_string(),
            text: "console.log".to_string(),
            span: NodeSpan { start: 0, end: 0 },
        },
    );
    env.insert_multi_capture(
        "ARGS".to_string(),
        vec![
            CapturedNode {
                kind: "StringLiteral".to_string(),
                text: "'hello'".to_string(),
                span: NodeSpan { start: 0, end: 0 },
            },
            CapturedNode {
                kind: "StringLiteral".to_string(),
                text: "'world'".to_string(),
                span: NodeSpan { start: 0, end: 0 },
            },
        ],
    );

    let result = generate_replacement(&template, &env);
    assert_eq!(result, "console.log('hello''world')");
}

#[test]
fn test_replacement_ignores_unmatched_meta_var() {
    let template = TemplateFix::from("console.log($UNKNOWN)");
    let mut env = MatchEnvironment::default();
    env.insert_single_capture(
        "KNOWN".to_string(),
        CapturedNode {
            kind: "Identifier".to_string(),
            text: "value".to_string(),
            span: NodeSpan { start: 0, end: 0 },
        },
    );

    let result = generate_replacement(&template, &env);
    assert_eq!(result, "console.log($UNKNOWN)");
}

#[test]
fn dollar_sign_without_placeholder_is_plain_text() {
    assert_eq!(TemplateFix::from("cost: $5"), TemplateFix::Text("cost: $5".to_string()));
    assert_eq!(TemplateFix::from("$ $a $$"), TemplateFix::Text("$ $a $$".to_string()));
    assert!(matches!(TemplateFix::from("cost: $A"), TemplateFix::Template { .. }));
}
