use ast_engine::{is_valid_meta_capture_name, wildcard_kind_from_identifier, PatternNodeKind, WildcardNode};

#[test]
fn test_is_valid_meta_capture_name_accepts_uppercase_or_underscore() {
    assert!(is_valid_meta_capture_name("A"));
    assert!(is_valid_meta_capture_name("_"));
    assert!(is_valid_meta_capture_name("A_1"));

    assert!(!is_valid_meta_capture_name(""));
    assert!(!is_valid_meta_capture_name("a"));
    assert!(!is_valid_meta_capture_name("1A"));
    assert!(!is_valid_meta_capture_name("A-b"));
}

#[test]
fn test_wildcard_kind_from_identifier_maps_supported_forms() {
    assert!(matches!(
        wildcard_kind_from_identifier("$A"),
        Some(PatternNodeKind::MetaVar(WildcardNode { name })) if name == "A"
    ));
    assert!(matches!(
        wildcard_kind_from_identifier("$$$ARGS"),
        Some(PatternNodeKind::MultiMetaVar(WildcardNode { name })) if name == "ARGS"
    ));
    assert!(matches!(
        wildcard_kind_from_identifier("$$$"),
        Some(PatternNodeKind::MultiWildcard)
    ));
    assert!(wildcard_kind_from_identifier("$a").is_none());
}

#[test]
fn wildcard_kind_rejects_invalid_names_and_plain_identifiers() {
    assert!(wildcard_kind_from_identifier("$$$args").is_none());
    assert!(wildcard_kind_from_identifier("value").is_none());
    assert!(wildcard_kind_from_identifier("$").is_none());
    assert!(matches!(
        wildcard_kind_from_identifier("$$A"),
        None
    ));
    assert!(matches!(
        wildcard_kind_from_identifier("$_X9"),
        Some(PatternNodeKind::MetaVar(WildcardNode { name })) if name == "_X9"
    ));
}
