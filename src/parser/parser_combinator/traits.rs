use vstd::prelude::*;

use crate::lexer::{Token, TokenStream};
use crate::parser::parser_combinator::combinator::{AndThen, Either, Mapped};

verus! {

/// The result of one parse: the tokens left and the value read, or on a
/// rejection the tokens that were handed in, unconsumed.
pub type ParserResult<Output> = Result<(TokenStream, Output), TokenStream>;

/// Something that reads a value from the front of a token stream.
pub trait Parser<Output>: Sized {
    /// The parser can run: each function it holds accepts every argument.
    spec fn ready(&self) -> bool;

    /// `r` is a possible result of parsing `input`.
    spec fn outcome(&self, input: Seq<Token>, r: ParserResult<Output>) -> bool;

    fn parse(&self, input: TokenStream) -> (r: ParserResult<Output>)
        requires
            self.ready(),
        ensures
            self.outcome(input@, r),
    ;

    /// This parser, with `map_fn` applied to what it reads.
    fn map<MapFn, NewOutput>(self, map_fn: MapFn) -> (r: Mapped<Self, MapFn, Output>) where
        MapFn: Fn(Output) -> NewOutput,

        ensures
            r.parser == self,
            r.map_fn == map_fn,
    {
        Mapped { parser: self, map_fn, output: core::marker::PhantomData }
    }

    /// This parser, followed by the parser that `next_fn` builds from what it reads.
    fn and_then<NextFn, NextParser>(self, next_fn: NextFn) -> (r: AndThen<Self, NextFn, Output>) where
        NextFn: Fn(Output) -> NextParser,

        ensures
            r.parser == self,
            r.next_fn == next_fn,
    {
        AndThen { parser: self, next_fn, output: core::marker::PhantomData }
    }

    /// This parser, or `other_parser` on the same input where this one rejects.
    fn or<OtherParser>(self, other_parser: OtherParser) -> (r: Either<Self, OtherParser>)
        ensures
            r.first == self,
            r.second == other_parser,
    {
        Either { first: self, second: other_parser }
    }
}

} // verus!
