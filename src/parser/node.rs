use vstd::prelude::*;

use crate::syntax_kind::SyntaxKind;

verus! {

/// A node of the syntax tree.
#[derive(Debug, PartialEq)]
pub enum Node {
    Literal { kind: SyntaxKind, value: i32, raw: String },
    Expr { kind: SyntaxKind, left: Box<Node>, op: SyntaxKind, right: Box<Node> },
}

impl Clone for Node {
    fn clone(&self) -> (r: Self)
        ensures
            r == *self,
        decreases self,
    {
        match self {
            Node::Literal { kind, value, raw } => Node::Literal {
                kind: *kind,
                value: *value,
                raw: raw.clone(),
            },
            Node::Expr { kind, left, op, right } => {
                let l: &Node = left;
                let r: &Node = right;
                Node::Expr {
                    kind: *kind,
                    left: Box::new(l.clone()),
                    op: *op,
                    right: Box::new(r.clone()),
                }
            },
        }
    }
}

/// A syntax tree as a mathematical value.
pub enum NodeView {
    Literal { kind: SyntaxKind, value: i32, raw: Seq<char> },
    Expr { kind: SyntaxKind, left: Box<NodeView>, op: SyntaxKind, right: Box<NodeView> },
}

pub open spec fn node_view(n: Node) -> NodeView
    decreases n,
{
    match n {
        Node::Literal { kind, value, raw } => NodeView::Literal { kind, value, raw: raw@ },
        Node::Expr { kind, left, op, right } => NodeView::Expr {
            kind,
            left: Box::new(node_view(*left)),
            op,
            right: Box::new(node_view(*right)),
        },
    }
}

} // verus!
