use vstd::prelude::*;

pub mod dfa;
pub mod states;

use crate::lexer::dfa::{lex_spec, DFA};
use crate::syntax_kind::SyntaxKind;

verus! {

/// A token: its kind and the exact text it was read from.
pub type Token = (SyntaxKind, String);

pub type TokenStream = Vec<Token>;

/// A token as a mathematical value.
pub type TokenView = (SyntaxKind, Seq<char>);

pub open spec fn token_view(t: Token) -> TokenView {
    (t.0, t.1@)
}

pub open spec fn stream_view(ts: Seq<Token>) -> Seq<TokenView> {
    ts.map_values(|t: Token| token_view(t))
}

/// A copy of a token stream, equal to it element by element.
pub fn clone_stream(ts: &TokenStream) -> (r: TokenStream)
    ensures
        r@ == ts@,
{
    let mut r: TokenStream = Vec::new();
    let mut i: usize = 0;
    while i < ts.len()
        invariant
            i <= ts.len(),
            r@ == ts@.subrange(0, i as int),
        decreases ts.len() - i,
    {
        let k = ts[i].0;
        let text = ts[i].1.clone();
        r.push((k, text));
        i += 1;
        assert(r@ =~= ts@.subrange(0, i as int));
    }
    assert(r@ =~= ts@);
    r
}

/// Turns the text of an expression into tokens, or an error message that
/// names the position where the text stopped being valid.
pub fn lex(code: &str) -> (r: Result<TokenStream, String>)
    ensures
        match lex_spec(code@) {
            Ok(ts) => r is Ok && stream_view(r->Ok_0@) == ts,
            Err(m) => r is Err && r->Err_0@ == m,
        },
{
    let mut tokenizer = DFA::new(String::from_str(code));
    match tokenizer.run() {
        Ok(_) => Ok(tokenizer.token_stream()),
        Err(err) => Err(err),
    }
}

} // verus!
