use vstd::prelude::*;

pub mod grammar;
pub mod node;
pub mod parser_combinator;

pub use node::Node;

use crate::lexer::{stream_view, TokenStream, TokenView};
use crate::parser::grammar::{expr, expr_spec};
use crate::parser::node::{node_view, NodeView};
use crate::parser::parser_combinator::Parser;

verus! {

/// The texts of the tokens, one after another.
pub open spec fn concat_texts(ts: Seq<TokenView>) -> Seq<char>
    decreases ts.len(),
{
    if ts.len() == 0 {
        Seq::empty()
    } else {
        concat_texts(ts.drop_last()) + ts.last().1
    }
}

pub open spec fn syntax_error_message(ts: Seq<TokenView>) -> Seq<char> {
    "panic at parsing `"@ + concat_texts(ts) + "`"@
}

/// The tree that the tokens `ts` parse to, where the expression takes all of
/// them; otherwise the error message, which names the tokens left unread.
pub open spec fn syntax_spec(ts: Seq<TokenView>) -> Result<NodeView, Seq<char>> {
    match expr_spec(ts) {
        Some((rest, n)) => if rest.len() == 0 {
            Ok(n)
        } else {
            Err(syntax_error_message(rest))
        },
        None => Err(syntax_error_message(ts)),
    }
}

/// The message for the tokens that could not be parsed.
fn syntax_error(tokens: &TokenStream) -> (r: String)
    ensures
        r@ == syntax_error_message(stream_view(tokens@)),
{
    let mut msg = String::from_str("panic at parsing `");
    let mut i: usize = 0;
    let ghost ts = stream_view(tokens@);
    while i < tokens.len()
        invariant
            i <= tokens.len(),
            ts == stream_view(tokens@),
            msg@ == "panic at parsing `"@ + concat_texts(ts.subrange(0, i as int)),
        decreases tokens.len() - i,
    {
        assert(ts.subrange(0, i + 1).drop_last() =~= ts.subrange(0, i as int));
        msg.append(tokens[i].1.as_str());
        i += 1;
        assert(msg@ =~= "panic at parsing `"@ + concat_texts(ts.subrange(0, i as int)));
    }
    assert(ts.subrange(0, tokens.len() as int) =~= ts);
    msg.append("`");
    msg
}

/// Builds a syntax tree from a token stream. The expression must take every
/// token: where it cannot be parsed, or tokens are left after it, the error
/// names the tokens that were not consumed.
pub fn syntax(tokens: TokenStream) -> (r: Result<Node, String>)
    ensures
        match syntax_spec(stream_view(tokens@)) {
            Ok(n) => r is Ok && node_view(r->Ok_0) == n,
            Err(m) => r is Err && r->Err_0@ == m,
        },
{
    match expr().parse(tokens) {
        Ok((rest, n)) => {
            if rest.len() == 0 {
                Ok(n)
            } else {
                Err(syntax_error(&rest))
            }
        },
        Err(output) => Err(syntax_error(&output)),
    }
}

} // verus!
