//! Relational conditions: a node inside, or having, a node that meets a rule.
use vstd::prelude::*;
use crate::syntax::SyntaxNode;
use crate::yaml_schema::Rule;

verus! {

/// Whether the related node is an ancestor or a descendant.
#[derive(Debug, Clone, Copy, PartialEq, Eq, Structural)]
pub enum RelationalRuleKind {
    Inside,
    Has,
}

/// A relation together with the rule the related node must meet.
#[derive(Debug, PartialEq, Eq)]
pub struct RelationalRule {
    pub kind: RelationalRuleKind,
    pub rule: Rule,
}

impl RelationalRule {
    /// The rule `kind` over `rule`.
    pub fn new(kind: RelationalRuleKind, rule: Rule) -> (res: Self)
        ensures
            res.kind == kind,
            res.rule == rule,
    {
        RelationalRule { kind, rule }
    }
}

/// `d` is a node of the tree under `node`, `node` itself excluded.
pub open spec fn is_descendant(d: SyntaxNode, node: SyntaxNode) -> bool
    decreases node,
{
    exists|i: int| 0 <= i < node.children@.len() && (#[trigger] node.children@[i] == d || is_descendant(d, node.children@[i]))
}

/// `d` is one of the children of `node` from `k` on, or under one of them.
pub open spec fn under_children_from(d: SyntaxNode, node: SyntaxNode, k: int) -> bool {
    exists|i: int| k <= i < node.children@.len() && (#[trigger] node.children@[i] == d || is_descendant(d, node.children@[i]))
}

/// Visits the descendants of `node`: each child from the last to the first,
/// and the descendants of each child right after it, stopping at the first
/// node on which `evaluate` returns true.
fn has_descendant<F: Fn(&SyntaxNode, &Rule) -> bool>(node: &SyntaxNode, rule: &Rule, evaluate: &F) -> (res: bool)
    requires
        forall|n: &SyntaxNode, r: &Rule| #[trigger] evaluate.requires((n, r)),
    ensures
        res ==> exists|d: SyntaxNode| is_descendant(d, *node) && #[trigger] evaluate.ensures((&d, rule), true),
        !res ==> forall|d: SyntaxNode| is_descendant(d, *node) ==> #[trigger] evaluate.ensures((&d, rule), false),
    decreases *node,
{
    let mut k = node.children.len();
    while k > 0
        invariant
            forall|n: &SyntaxNode, r: &Rule| #[trigger] evaluate.requires((n, r)),
            0 <= k <= node.children@.len(),
            forall|d: SyntaxNode| #[trigger] evaluate.ensures((&d, rule), false) || !under_children_from(d, *node, k as int),
        decreases k,
    {
        k = k - 1;
        let child = &node.children[k];
        if evaluate(child, rule) {
            assert(is_descendant(*child, *node));
            return true;
        }
        let found = has_descendant(child, rule, evaluate);
        proof {
            if !found {
                assert forall|d: SyntaxNode| #[trigger] evaluate.ensures((&d, rule), false) || !under_children_from(d, *node, k as int) by {
                    if under_children_from(d, *node, k as int) {
                        let i = choose|i: int| k <= i < node.children@.len() && (#[trigger] node.children@[i] == d || is_descendant(d, node.children@[i]));
                        if i > k {
                            assert(under_children_from(d, *node, k + 1));
                        }
                    }
                }
            }
        }
        if found {
            proof {
                let d = choose|d: SyntaxNode| is_descendant(d, *child) && #[trigger] evaluate.ensures((&d, rule), true);
                assert(is_descendant(d, *node));
            }
            return true;
        }
    }
    proof {
        assert forall|d: SyntaxNode| is_descendant(d, *node) implies #[trigger] evaluate.ensures((&d, rule), false) by {
            assert(under_children_from(d, *node, 0));
        }
    }
    false
}

/// Whether the relation holds for `target`: for `Inside`, whether
/// `evaluate` returns true on one of `ancestors` (tried from the last, the
/// nearest, to the first); for `Has`, on one of the descendants of
/// `target`. Where it returns true, `evaluate` returned true on that node;
/// where it returns false, `evaluate` returned false on every node tried.
pub fn evaluate_relational_rule<F: Fn(&SyntaxNode, &Rule) -> bool>(
    target: &SyntaxNode,
    ancestors: &[&SyntaxNode],
    rule: &RelationalRule,
    evaluate: F,
) -> (res: bool)
    requires
        forall|n: &SyntaxNode, r: &Rule| #[trigger] evaluate.requires((n, r)),
    ensures
        rule.kind == RelationalRuleKind::Inside ==> (res ==> exists|i: int|
            0 <= i < ancestors@.len() && #[trigger] evaluate.ensures((ancestors@[i], &rule.rule), true)),
        rule.kind == RelationalRuleKind::Inside ==> (!res ==> forall|i: int|
            0 <= i < ancestors@.len() ==> #[trigger] evaluate.ensures((ancestors@[i], &rule.rule), false)),
        rule.kind == RelationalRuleKind::Has ==> (res ==> exists|d: SyntaxNode|
            is_descendant(d, *target) && #[trigger] evaluate.ensures((&d, &rule.rule), true)),
        rule.kind == RelationalRuleKind::Has ==> (!res ==> forall|d: SyntaxNode|
            is_descendant(d, *target) ==> #[trigger] evaluate.ensures((&d, &rule.rule), false)),
{
    match rule.kind {
        RelationalRuleKind::Inside => {
            let mut k = ancestors.len();
            while k > 0
                invariant
                    forall|n: &SyntaxNode, r: &Rule| #[trigger] evaluate.requires((n, r)),
                    0 <= k <= ancestors@.len(),
                    rule.kind == RelationalRuleKind::Inside,
                    forall|i: int| k <= i < ancestors@.len() ==> #[trigger] evaluate.ensures((ancestors@[i], &rule.rule), false),
                decreases k,
            {
                k = k - 1;
                if evaluate(ancestors[k], &rule.rule) {
                    return true;
                }
            }
            false
        },
        RelationalRuleKind::Has => has_descendant(target, &rule.rule, &evaluate),
    }
}

} // verus!
