//! Arithmetic expressions over integers: a lexer built on a finite automaton,
//! a parser built from combinators, and two traversals of the syntax tree,
//! evaluation and canonical printing.
use vstd::prelude::*;

pub mod lexer;
pub mod parser;
pub mod round_trip;
pub mod syntax_kind;
pub mod traversal;

pub use lexer::lex;
pub use parser::{syntax, Node};

use lexer::dfa::lex_spec;
use parser::node::{node_view, NodeView};
use parser::syntax_spec;
use traversal::eval::{evaluable, value_of, Executor};
use traversal::format::{format_spec, Formatter};

verus! {

/// The tree that the text `s` describes, or the error message of the step
/// that rejected it.
pub open spec fn build_spec(s: Seq<char>) -> Result<NodeView, Seq<char>> {
    match lex_spec(s) {
        Ok(ts) => syntax_spec(ts),
        Err(m) => Err(m),
    }
}

/// Builds a syntax tree from the text of an expression.
pub fn build_ast(expr: &str) -> (r: Result<Node, String>)
    ensures
        match build_spec(expr@) {
            Ok(n) => r is Ok && node_view(r->Ok_0) == n,
            Err(m) => r is Err && r->Err_0@ == m,
        },
{
    match lex(expr) {
        Ok(tokens) => syntax(tokens),
        Err(e) => Err(e),
    }
}

/// The value of the expression that a tree describes.
pub fn eval(root: &Node) -> (r: i32)
    requires
        evaluable(node_view(*root)),
    ensures
        r == value_of(node_view(*root)),
{
    Executor::new().eval(root)
}

/// The canonical text of the expression that a tree describes.
pub fn format(root: &Node) -> (r: String)
    ensures
        r@ == format_spec(node_view(*root)),
{
    let mut f = Formatter::new();
    let text = f.format(root);
    String::from_str(text)
}

} // verus!
