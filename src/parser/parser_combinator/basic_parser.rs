use vstd::prelude::*;

use crate::lexer::{Token, TokenStream};
use crate::parser::parser_combinator::traits::{Parser, ParserResult};
use crate::syntax_kind::SyntaxKind;

verus! {

/// Reads any one token.
pub struct Atom;

pub fn atom() -> Atom {
    Atom
}

impl Parser<Token> for Atom {
    open spec fn ready(&self) -> bool {
        true
    }

    open spec fn outcome(&self, input: Seq<Token>, r: ParserResult<Token>) -> bool {
        if input.len() > 0 {
            r is Ok && r->Ok_0.0@ == input.drop_first() && r->Ok_0.1 == input[0]
        } else {
            r is Err && r->Err_0@ == input
        }
    }

    fn parse(&self, input: TokenStream) -> (r: ParserResult<Token>) {
        let mut input = input;
        if input.len() == 0 {
            return Err(input);
        }
        let ghost before = input@;
        let first = input.remove(0);
        assert(input@ =~= before.drop_first());
        Ok((input, first))
    }
}

/// Reads one token of the kind `expect`.
pub struct SingleToken {
    pub expect: SyntaxKind,
}

pub fn single_token(expect: SyntaxKind) -> (r: SingleToken)
    ensures
        r.expect == expect,
{
    SingleToken { expect }
}

impl Parser<Token> for SingleToken {
    open spec fn ready(&self) -> bool {
        true
    }

    open spec fn outcome(&self, input: Seq<Token>, r: ParserResult<Token>) -> bool {
        if input.len() > 0 && input[0].0 == self.expect {
            r is Ok && r->Ok_0.0@ == input.drop_first() && r->Ok_0.1 == input[0]
        } else {
            r is Err && r->Err_0@ == input
        }
    }

    fn parse(&self, input: TokenStream) -> (r: ParserResult<Token>) {
        if input.len() > 0 && input[0].0 == self.expect {
            atom().parse(input)
        } else {
            Err(input)
        }
    }
}

} // verus!
