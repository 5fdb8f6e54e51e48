//! Rast AST engine: the text, span, pattern and project-graph logic of the
//! JavaScript/TypeScript rewrite toolkit, with its behaviour stated in Verus
//! contracts and proved.

pub mod span;
pub mod line_index;
pub mod text;
pub mod order;
pub mod span_mutator;
pub mod capture;
pub mod text_interpolation;
pub mod vue_sfc;
pub mod wildcard_parsing;
pub mod syntax;
pub mod matcher;
pub mod overlap_resolution;
pub mod paths;
pub mod project_graph;
pub mod yaml_schema;
pub mod relational_rules;
pub mod payload;
pub mod extensions;
pub mod rewrite;
pub mod combinators;
pub mod analysis;
pub mod source_tree;

pub use capture::{CapturedNode, MatchEnvironment, MatchOutcome, MatchStrictness};
pub use line_index::{compute_line_starts, offset_to_line_col};
pub use span::NodeSpan;
pub use span_mutator::{
    apply_span_replacements, apply_text_diffs, generate_text_diffs, SpanMutatorError,
    SpanReplacement, TextDiff,
};
pub use text_interpolation::{generate_replacement, TemplateFix, TemplateFragment};
pub use vue_sfc::{
    ExtractedScriptBlock, VueSfcBlockPresence, VueSfcExtractor, VueSfcOffsetMap, VueSfcScriptKind,
};
pub use wildcard_parsing::{
    is_valid_meta_capture_name, wildcard_kind_from_identifier, PatternNode, PatternNodeKind,
    WildcardNode,
};
pub use matcher::{normalize_signature_text, normalize_text, PatternMatcher};
pub use overlap_resolution::{find_all_matches, ConflictResolution, FindAllMatches, MatchResult};
pub use syntax::SyntaxNode;
pub use source_tree::{find_pattern, find_pattern_in_vue_sfc, parse_pattern, parse_tree, pattern_rule_matches};
pub use wildcard_parsing::{identify_meta_variables, to_pattern_ast, MetaVariables};
pub use paths::{normalize_project_path, resolve_import_candidates};
pub use project_graph::{
    AnalysisResult, CallEdge, CallGraph, DependencyInfo, ExportInfo, FileStructure, LintIssue, ProjectGraph,
    SymbolSignature,
};
pub use relational_rules::{evaluate_relational_rule, RelationalRule, RelationalRuleKind};
pub use yaml_schema::{
    AllCompositeRule, AnyCompositeRule, HasRelationalRule, InsideRelationalRule, KindAtomicRule,
    NotCompositeRule, PatternAtomicRule, RegexAtomicRule, Rule, RuleCore, RuleKind, RuleLanguage,
};
pub use payload::{
    empty_vue_sfc_search, env_to_metavariables, pattern_match_payloads, scan_outcome, slice_span_text,
    text_report_lines, vue_sfc_search_payload,
    PatternMatchPayload, ReportItem, ScanResult, SerializableLocation, SerializableSpan, VueSfcPatternMatchPayload,
    VueSfcPatternSearchPayload, VueSfcScriptPayload,
};
pub use extensions::parse_extensions;
pub use rewrite::{apply_fix_to_matches, fix_matches, rewrite_with_fix};
pub use combinators::{AllMatcher, AnyMatcher, CompositeMatcher, Matcher, NotMatcher};
