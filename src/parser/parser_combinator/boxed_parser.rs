use vstd::prelude::*;

use crate::lexer::{Token, TokenStream};
use crate::parser::parser_combinator::traits::{Parser, ParserResult};

verus! {

/// A parser kept on the heap; it parses as the parser it holds.
pub struct BoxedParser<P> {
    pub parser: Box<P>,
}

impl<P> BoxedParser<P> {
    pub fn new(parser: P) -> (r: Self)
        ensures
            *r.parser == parser,
    {
        BoxedParser { parser: Box::new(parser) }
    }
}

impl<P, O> Parser<O> for BoxedParser<P> where P: Parser<O> {
    open spec fn ready(&self) -> bool {
        (*self.parser).ready()
    }

    open spec fn outcome(&self, input: Seq<Token>, r: ParserResult<O>) -> bool {
        (*self.parser).outcome(input, r)
    }

    fn parse(&self, input: TokenStream) -> (r: ParserResult<O>) {
        self.parser.parse(input)
    }
}

} // verus!
