//! The rule schema: a rule's id, language, and the tree of conditions a
//! node must meet.
use vstd::prelude::*;

verus! {

/// One rule of a rule file: its id, the language it applies to, and its
/// condition.
#[derive(Debug, PartialEq, Eq)]
pub struct RuleCore {
    pub id: String,
    pub language: RuleLanguage,
    pub rule: Rule,
}

/// The languages a rule may name.
#[derive(Debug, Clone, Copy, PartialEq, Eq, Structural)]
pub enum RuleLanguage {
    Js,
    Jsx,
    Ts,
    Tsx,
    Javascript,
    Typescript,
}

/// A condition on a node.
#[derive(Debug, PartialEq, Eq)]
pub struct Rule {
    pub core: RuleKind,
}

/// The kinds of condition.
#[derive(Debug, PartialEq, Eq)]
pub enum RuleKind {
    /// The node matches a code pattern.
    Pattern(PatternAtomicRule),
    /// The node's text matches a regular expression.
    Regex(RegexAtomicRule),
    /// The node has a kind.
    Kind(KindAtomicRule),
    /// Every sub-condition holds.
    All(AllCompositeRule),
    /// Some sub-condition holds.
    Any(AnyCompositeRule),
    /// The sub-condition does not hold.
    Not(NotCompositeRule),
    /// Some ancestor meets the sub-condition.
    Inside(InsideRelationalRule),
    /// Some descendant meets the sub-condition.
    Has(HasRelationalRule),
}

#[derive(Debug, PartialEq, Eq)]
pub struct PatternAtomicRule {
    pub pattern: String,
}

#[derive(Debug, PartialEq, Eq)]
pub struct RegexAtomicRule {
    pub regex: String,
}

#[derive(Debug, PartialEq, Eq)]
pub struct KindAtomicRule {
    pub kind: String,
}

#[derive(Debug, PartialEq, Eq)]
pub struct AllCompositeRule {
    pub all: Vec<Rule>,
}

#[derive(Debug, PartialEq, Eq)]
pub struct AnyCompositeRule {
    pub any: Vec<Rule>,
}

#[derive(Debug, PartialEq, Eq)]
pub struct NotCompositeRule {
    pub not: Box<Rule>,
}

#[derive(Debug, PartialEq, Eq)]
pub struct InsideRelationalRule {
    pub inside: Box<Rule>,
}

#[derive(Debug, PartialEq, Eq)]
pub struct HasRelationalRule {
    pub has: Box<Rule>,
}

} // verus!
