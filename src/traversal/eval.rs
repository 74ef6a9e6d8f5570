use vstd::prelude::*;

use crate::parser::node::{node_view, Node, NodeView};
use crate::syntax_kind::{SyntaxKind, MINUS, PLUS, SLASH, STAR};

verus! {

pub open spec fn is_binary_op(op: SyntaxKind) -> bool {
    op == PLUS || op == MINUS || op == STAR || op == SLASH
}

/// Division that rounds toward zero.
pub open spec fn trunc_div(a: int, b: int) -> int {
    let q = (if a < 0 { -a } else { a }) / (if b < 0 { -b } else { b });
    if (a < 0) != (b < 0) {
        -q
    } else {
        q
    }
}

pub open spec fn apply_op(op: SyntaxKind, a: int, b: int) -> int {
    if op == PLUS {
        a + b
    } else if op == MINUS {
        a - b
    } else if op == STAR {
        a * b
    } else {
        trunc_div(a, b)
    }
}

/// The value of a tree in unbounded integers.
pub open spec fn value_of(n: NodeView) -> int
    decreases n,
{
    match n {
        NodeView::Literal { value, .. } => value as int,
        NodeView::Expr { left, op, right, .. } => apply_op(op, value_of(*left), value_of(*right)),
    }
}

/// Every operator of the tree is a binary operator, no divisor is zero, and
/// every subtree's value fits an `i32`.
pub open spec fn evaluable(n: NodeView) -> bool
    decreases n,
{
    match n {
        NodeView::Literal { .. } => true,
        NodeView::Expr { left, op, right, .. } => {
            &&& evaluable(*left)
            &&& evaluable(*right)
            &&& is_binary_op(op)
            &&& (op == SLASH ==> value_of(*right) != 0)
            &&& i32::MIN <= value_of(n) <= i32::MAX
        },
    }
}

/// Evaluates a syntax tree.
pub struct Executor;

impl Executor {
    pub fn new() -> Self {
        Executor
    }

    pub fn eval(&mut self, node: &Node) -> (r: i32)
        requires
            evaluable(node_view(*node)),
        ensures
            r == value_of(node_view(*node)),
    {
        self.visit(node)
    }

    /// Evaluates the left operand fully before the right one.
    fn visit(&mut self, node: &Node) -> (r: i32)
        requires
            evaluable(node_view(*node)),
        ensures
            r == value_of(node_view(*node)),
        decreases node,
    {
        match node {
            Node::Literal { value, .. } => *value,
            Node::Expr { left, op, right, .. } => {
                let l = self.visit(left);
                let rv = self.visit(right);
                let ghost v = value_of(node_view(*node));
                if *op == PLUS {
                    l + rv
                } else if *op == MINUS {
                    l - rv
                } else if *op == STAR {
                    assert(v == l * rv);
                    l * rv
                } else {
                    assert(v == trunc_div(l as int, rv as int));
                    match l.checked_div(rv) {
                        Some(q) => q,
                        None => 0,
                    }
                }
            },
        }
    }
}

} // verus!
