use vstd::prelude::*;

use crate::parser::node::{node_view, Node, NodeView};
use crate::syntax_kind::{priority_of, text_of, SyntaxKind};

verus! {

/// The right operand of `op` is printed in parentheses: it binds more
/// loosely than `op`, or it is a negative number.
pub open spec fn needs_paren(op: SyntaxKind, right: NodeView) -> bool {
    match right {
        NodeView::Expr { op: next_op, .. } => priority_of(text_of(op)) > priority_of(
            text_of(next_op),
        ),
        NodeView::Literal { raw, .. } => raw.len() > 0 && raw[0] == '-',
    }
}

/// The canonical text of a tree.
pub open spec fn format_spec(n: NodeView) -> Seq<char>
    decreases n,
{
    match n {
        NodeView::Literal { raw, .. } => raw,
        NodeView::Expr { left, op, right, .. } => format_spec(*left) + seq![' '] + text_of(op)
            + seq![' '] + if needs_paren(op, *right) {
            seq!['('] + format_spec(*right) + seq![')']
        } else {
            format_spec(*right)
        },
    }
}

/// Prints a syntax tree with single spaces around operators and only the
/// parentheses that its structure needs.
pub struct Formatter {
    output: String,
}

impl Formatter {
    pub closed spec fn output_view(&self) -> Seq<char> {
        self.output@
    }

    pub fn new() -> (r: Self)
        ensures
            r.output_view() == Seq::<char>::empty(),
    {
        Formatter { output: String::new() }
    }

    /// Appends the text of `node` to what was printed before, and returns it all.
    pub fn format(&mut self, node: &Node) -> (r: &str)
        ensures
            final(self).output_view() == old(self).output_view() + format_spec(node_view(*node)),
            r@ == final(self).output_view(),
    {
        self.visit(node);
        self.output.as_str()
    }

    fn push(&mut self, str: &str)
        ensures
            final(self).output_view() == old(self).output_view() + str@,
    {
        self.output.append(str)
    }

    /// Prints `node` wrapped in parentheses.
    fn push_paren_expr(&mut self, node: &Node)
        ensures
            final(self).output_view() == old(self).output_view() + seq!['('] + format_spec(
                node_view(*node),
            ) + seq![')'],
        decreases node, 1nat,
    {
        proof {
            reveal_strlit("(");
            reveal_strlit(")");
        }
        self.push("(");
        self.visit(node);
        self.push(")");
    }

    fn ws(&mut self)
        ensures
            final(self).output_view() == old(self).output_view() + seq![' '],
    {
        proof {
            reveal_strlit(" ");
        }
        self.push(" ");
    }

    fn visit(&mut self, node: &Node)
        ensures
            final(self).output_view() == old(self).output_view() + format_spec(node_view(*node)),
        decreases node, 0nat,
    {
        let ghost before = self.output_view();
        match node {
            Node::Literal { raw, .. } => {
                self.push(raw.as_str());
            },
            Node::Expr { left, op, right, .. } => {
                let l: &Node = left;
                let r: &Node = right;
                self.visit(l);
                self.ws();
                let op_text = op.into_str();
                self.push(op_text);
                self.ws();
                let ghost mid = self.output_view();
                let paren = match r {
                    Node::Expr { op: next_op, .. } => SyntaxKind::get_op_priority(op_text)
                        > SyntaxKind::get_op_priority(next_op.into_str()),
                    Node::Literal { raw, .. } => raw.as_str().unicode_len() > 0
                        && raw.as_str().get_char(0) == '-',
                };
                assert(paren == needs_paren(*op, node_view(*r)));
                if paren {
                    self.push_paren_expr(r);
                } else {
                    self.visit(r);
                }
                assert(self.output_view() =~= before + format_spec(node_view(*node)));
            },
        }
    }
}

} // verus!
