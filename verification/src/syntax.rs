//! The syntax tree that patterns are matched against: each node's kind,
//! source text, span, identifier name (for identifier expressions) and
//! children, as plain values.
use vstd::prelude::*;
use crate::capture::{CapturedNode, CapturedNodeView};
use crate::span::NodeSpan;

verus! {

/// A node of a parsed source tree.
#[derive(Debug, PartialEq, Eq)]
pub struct SyntaxNode {
    /// The node's kind, such as `CallExpression`.
    pub kind: String,
    /// The source text that the node spans.
    pub text: String,
    pub span: NodeSpan,
    /// The name, where the node is an identifier expression.
    pub identifier: Option<String>,
    pub children: Vec<SyntaxNode>,
}

/// What a capture of `node` records: its kind, text and span.
pub open spec fn capture_of(node: SyntaxNode) -> CapturedNodeView {
    CapturedNodeView { kind: node.kind@, text: node.text@, span: node.span }
}

impl SyntaxNode {
    /// The captured form of this node.
    pub fn captured(&self) -> (res: CapturedNode)
        ensures
            res@ == capture_of(*self),
    {
        CapturedNode { kind: self.kind.clone(), text: self.text.clone(), span: self.span }
    }
}

} // verus!
