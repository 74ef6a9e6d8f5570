use vstd::prelude::*;

use crate::lexer::{clone_stream, Token, TokenStream};
use crate::parser::parser_combinator::traits::{Parser, ParserResult};

verus! {

/// A parser whose value is passed through `map_fn`.
pub struct Mapped<P, F, O> {
    pub parser: P,
    pub map_fn: F,
    pub output: core::marker::PhantomData<O>,
}

pub fn map<P, Output, MapFn, NewOutput>(parser: P, map_fn: MapFn) -> (r: Mapped<P, MapFn, Output>) where
    P: Parser<Output>,
    MapFn: Fn(Output) -> NewOutput,

    ensures
        r.parser == parser,
        r.map_fn == map_fn,
{
    Mapped { parser, map_fn, output: core::marker::PhantomData }
}

impl<P, F, O, N> Parser<N> for Mapped<P, F, O> where P: Parser<O>, F: Fn(O) -> N {
    open spec fn ready(&self) -> bool {
        &&& self.parser.ready()
        &&& forall|o: O| self.map_fn.requires((o,))
    }

    open spec fn outcome(&self, input: Seq<Token>, r: ParserResult<N>) -> bool {
        exists|r0: ParserResult<O>|
            #[trigger] self.parser.outcome(input, r0) && match r0 {
                Ok((rest, o)) => r is Ok && r->Ok_0.0 == rest && self.map_fn.ensures((o,), r->Ok_0.1),
                Err(e) => r == Err::<(TokenStream, N), TokenStream>(e),
            }
    }

    fn parse(&self, input: TokenStream) -> (r: ParserResult<N>) {
        let r0 = self.parser.parse(input);
        let ghost g0 = r0;
        match r0 {
            Ok((rest, o)) => {
                let v = (self.map_fn)(o);
                let r = Ok((rest, v));
                assert(self.parser.outcome(input@, g0));
                r
            },
            Err(e) => {
                assert(self.parser.outcome(input@, g0));
                Err(e)
            },
        }
    }
}

/// A parser followed by the parser that `next_fn` builds from its value.
pub struct AndThen<P, F, O> {
    pub parser: P,
    pub next_fn: F,
    pub output: core::marker::PhantomData<O>,
}

pub fn and_then<CurParser, CurOutput, NextFn, NextParser, NextOutput>(
    cur_parser: CurParser,
    next_fn: NextFn,
) -> (r: AndThen<CurParser, NextFn, CurOutput>) where
    CurParser: Parser<CurOutput>,
    NextFn: Fn(CurOutput) -> NextParser,
    NextParser: Parser<NextOutput>,

    ensures
        r.parser == cur_parser,
        r.next_fn == next_fn,
{
    AndThen { parser: cur_parser, next_fn, output: core::marker::PhantomData }
}

impl<P, F, O, Q, N> Parser<N> for AndThen<P, F, O> where
    P: Parser<O>,
    F: Fn(O) -> Q,
    Q: Parser<N>,
 {
    open spec fn ready(&self) -> bool {
        &&& self.parser.ready()
        &&& forall|o: O| self.next_fn.requires((o,))
        &&& forall|o: O, q: Q| #[trigger] self.next_fn.ensures((o,), q) ==> q.ready()
    }

    open spec fn outcome(&self, input: Seq<Token>, r: ParserResult<N>) -> bool {
        exists|r0: ParserResult<O>|
            #[trigger] self.parser.outcome(input, r0) && match r0 {
                Ok((rest, o)) => exists|q: Q|
                    #[trigger] self.next_fn.ensures((o,), q) && q.outcome(rest@, r),
                Err(e) => r == Err::<(TokenStream, N), TokenStream>(e),
            }
    }

    fn parse(&self, input: TokenStream) -> (r: ParserResult<N>) {
        let r0 = self.parser.parse(input);
        let ghost g0 = r0;
        match r0 {
            Ok((rest, o)) => {
                let q = (self.next_fn)(o);
                let r = q.parse(rest);
                assert(self.parser.outcome(input@, g0));
                r
            },
            Err(e) => {
                assert(self.parser.outcome(input@, g0));
                Err(e)
            },
        }
    }
}

/// A parser whose success is kept only where `judge_fn` accepts its value.
pub struct Judge<P, J, O> {
    pub parser: P,
    pub judge_fn: J,
    pub output: core::marker::PhantomData<O>,
}

pub fn judge<P, Output, JudgeFn>(parser: P, judge_fn: JudgeFn) -> (r: Judge<P, JudgeFn, Output>) where
    P: Parser<Output>,
    JudgeFn: Fn(&Output) -> bool,

    ensures
        r.parser == parser,
        r.judge_fn == judge_fn,
{
    Judge { parser, judge_fn, output: core::marker::PhantomData }
}

impl<P, J, O> Parser<O> for Judge<P, J, O> where P: Parser<O>, J: Fn(&O) -> bool {
    open spec fn ready(&self) -> bool {
        &&& self.parser.ready()
        &&& forall|o: &O| self.judge_fn.requires((o,))
    }

    open spec fn outcome(&self, input: Seq<Token>, r: ParserResult<O>) -> bool {
        exists|r0: ParserResult<O>|
            #[trigger] self.parser.outcome(input, r0) && match r0 {
                Ok((rest, o)) => exists|b: bool|
                    #[trigger] self.judge_fn.ensures((&o,), b) && if b {
                        r == r0
                    } else {
                        r is Err && r->Err_0@ == input
                    },
                Err(_) => r is Err && r->Err_0@ == input,
            }
    }

    fn parse(&self, input: TokenStream) -> (r: ParserResult<O>) {
        let r0 = self.parser.parse(clone_stream(&input));
        let ghost g0 = r0;
        match r0 {
            Ok((rest, o)) => {
                let b = (self.judge_fn)(&o);
                assert(self.parser.outcome(input@, g0));
                if b {
                    Ok((rest, o))
                } else {
                    Err(input)
                }
            },
            Err(_) => {
                assert(self.parser.outcome(input@, g0));
                Err(input)
            },
        }
    }
}

/// The first parser, or the second on the same input where the first rejects.
pub struct Either<First, Second> {
    pub first: First,
    pub second: Second,
}

pub fn either<First, Second, Output>(parser1: First, parser2: Second) -> (r: Either<First, Second>) where
    First: Parser<Output>,
    Second: Parser<Output>,

    ensures
        r.first == parser1,
        r.second == parser2,
{
    Either { first: parser1, second: parser2 }
}

impl<First, Second, O> Parser<O> for Either<First, Second> where First: Parser<O>, Second: Parser<O> {
    open spec fn ready(&self) -> bool {
        self.first.ready() && self.second.ready()
    }

    open spec fn outcome(&self, input: Seq<Token>, r: ParserResult<O>) -> bool {
        exists|r1: ParserResult<O>|
            #[trigger] self.first.outcome(input, r1) && if r1 is Ok {
                r == r1
            } else {
                self.second.outcome(input, r)
            }
    }

    fn parse(&self, input: TokenStream) -> (r: ParserResult<O>) {
        let r1 = self.first.parse(clone_stream(&input));
        let ghost g1 = r1;
        match r1 {
            Ok(ok) => {
                assert(self.first.outcome(input@, g1));
                Ok(ok)
            },
            Err(_) => {
                let r = self.second.parse(input);
                assert(self.first.outcome(input@, g1));
                r
            },
        }
    }
}

/// `items` are read one by one, each by a parse that consumed tokens, on the
/// way from the tokens `from` to the tokens `to`.
pub open spec fn chain<P: Parser<O>, O>(p: P, from: Seq<Token>, to: Seq<Token>, items: Seq<O>) -> bool
    decreases items.len(),
{
    if items.len() == 0 {
        to == from
    } else {
        exists|mid: TokenStream|
            #[trigger] p.outcome(from, Ok((mid, items[0]))) && mid@.len() < from.len() && chain(
                p,
                mid@,
                to,
                items.drop_first(),
            )
    }
}

/// Where the repetition stops: a rejection, or a success that consumed nothing.
pub open spec fn stops<O>(input: Seq<Token>, r: ParserResult<O>) -> bool {
    r is Err || r->Ok_0.0@.len() >= input.len()
}

proof fn lemma_chain_extend<P: Parser<O>, O>(
    p: P,
    from: Seq<Token>,
    to: Seq<Token>,
    items: Seq<O>,
    next: TokenStream,
    item: O,
)
    requires
        chain(p, from, to, items),
        p.outcome(to, Ok((next, item))),
        next@.len() < to.len(),
    ensures
        chain(p, from, next@, items.push(item)),
    decreases items.len(),
{
    let pushed = items.push(item);
    if items.len() == 0 {
        assert(pushed[0] == item);
        assert(pushed.drop_first() =~= items);
        assert(chain(p, next@, next@, pushed.drop_first()));
        assert(p.outcome(from, Ok((next, pushed[0]))));
    } else {
        let mid = choose|mid: TokenStream|
            #[trigger] p.outcome(from, Ok((mid, items[0]))) && mid@.len() < from.len() && chain(
                p,
                mid@,
                to,
                items.drop_first(),
            );
        lemma_chain_extend(p, mid@, to, items.drop_first(), next, item);
        assert(pushed.drop_first() =~= items.drop_first().push(item));
        assert(pushed[0] == items[0]);
        assert(p.outcome(from, Ok((mid, pushed[0]))));
    }
}

/// A parser applied again and again, collecting what it reads. It never
/// rejects: it stops at the first rejection, or at a success that consumed
/// no token, and hands back the tokens as they were before that attempt.
pub struct ZeroOrMore<P, O> {
    pub parser: P,
    pub output: core::marker::PhantomData<O>,
}

pub fn zero_or_more<P, Output>(parser: P) -> (r: ZeroOrMore<P, Output>) where P: Parser<Output>
    ensures
        r.parser == parser,
{
    ZeroOrMore { parser, output: core::marker::PhantomData }
}

impl<P, O> Parser<Vec<O>> for ZeroOrMore<P, O> where P: Parser<O> {
    open spec fn ready(&self) -> bool {
        self.parser.ready()
    }

    open spec fn outcome(&self, input: Seq<Token>, r: ParserResult<Vec<O>>) -> bool {
        &&& r is Ok
        &&& chain(self.parser, input, r->Ok_0.0@, r->Ok_0.1@)
        &&& exists|last: ParserResult<O>|
            #[trigger] self.parser.outcome(r->Ok_0.0@, last) && stops(r->Ok_0.0@, last)
    }

    fn parse(&self, input: TokenStream) -> (r: ParserResult<Vec<O>>) {
        let ghost start = input@;
        let mut cur = input;
        let mut result: Vec<O> = Vec::new();
        loop
            invariant
                self.parser.ready(),
                start == input@,
                chain(self.parser, start, cur@, result@),
            decreases cur@.len(),
        {
            let before = cur.len();
            let attempt = self.parser.parse(clone_stream(&cur));
            let ghost g = attempt;
            match attempt {
                Ok((next_input, item)) => {
                    if next_input.len() >= before {
                        assert(self.parser.outcome(cur@, g));
                        assert(stops(cur@, g));
                        return Ok((cur, result));
                    }
                    proof {
                        lemma_chain_extend(self.parser, start, cur@, result@, next_input, item);
                    }
                    cur = next_input;
                    result.push(item);
                },
                Err(_) => {
                    assert(self.parser.outcome(cur@, g));
                    assert(stops(cur@, g));
                    let r = Ok((cur, result));
                    assert(chain(self.parser, input@, r->Ok_0.0@, r->Ok_0.1@));
                    assert(self.parser.outcome(r->Ok_0.0@, g));
                    return r;
                },
            }
        }
    }
}

} // verus!
