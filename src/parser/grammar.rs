use vstd::prelude::*;

use crate::lexer::{clone_stream, stream_view, token_view, Token, TokenStream, TokenView};
use crate::parser::node::{node_view, Node, NodeView};
use crate::parser::parser_combinator::{either, single_token, Parser, ParserResult};
use crate::syntax_kind::{
    SyntaxKind, ADD_EXPR, CLOSE_PAREN, DIV_EXPR, MINUS, MUL_EXPR, NUM, OPEN_PAREN, PLUS, SLASH,
    STAR, SUB_EXPR, UNKNOW,
};

verus! {

pub open spec fn is_digit(c: char) -> bool {
    '0' <= c && c <= '9'
}

pub open spec fn digit_value(c: char) -> int {
    (c as u32) as int - ('0' as u32) as int
}

/// The number that a run of decimal digits denotes.
pub open spec fn digits_value(s: Seq<char>) -> int
    decreases s.len(),
{
    if s.len() == 0 {
        0
    } else {
        digits_value(s.drop_last()) * 10 + digit_value(s.last())
    }
}

pub open spec fn all_digits(s: Seq<char>) -> bool {
    s.len() > 0 && forall|i: int| 0 <= i < s.len() ==> is_digit(#[trigger] s[i])
}

/// The integer that a text denotes: decimal digits after an optional sign.
pub open spec fn integer_of(s: Seq<char>) -> Option<int> {
    if s.len() > 0 && (s[0] == '-' || s[0] == '+') {
        if all_digits(s.drop_first()) {
            Some(
                if s[0] == '-' {
                    -digits_value(s.drop_first())
                } else {
                    digits_value(s.drop_first())
                },
            )
        } else {
            None
        }
    } else if all_digits(s) {
        Some(digits_value(s))
    } else {
        None
    }
}

/// The value of a number token, where it fits an `i32`.
pub open spec fn literal_value(s: Seq<char>) -> Option<i32> {
    match integer_of(s) {
        Some(v) => if i32::MIN <= v <= i32::MAX {
            Some(v as i32)
        } else {
            None
        },
        None => None,
    }
}

/// The node kind of a binary operator.
pub open spec fn expr_kind(op: SyntaxKind) -> SyntaxKind {
    if op == PLUS {
        ADD_EXPR
    } else if op == MINUS {
        SUB_EXPR
    } else if op == STAR {
        MUL_EXPR
    } else if op == SLASH {
        DIV_EXPR
    } else {
        UNKNOW
    }
}

/// The left-leaning tree of `left` followed by the operator and operand pairs.
pub open spec fn fold_pairs(left: NodeView, pairs: Seq<(SyntaxKind, NodeView)>) -> NodeView
    decreases pairs.len(),
{
    if pairs.len() == 0 {
        left
    } else {
        NodeView::Expr {
            kind: expr_kind(pairs.last().0),
            left: Box::new(fold_pairs(left, pairs.drop_last())),
            op: pairs.last().0,
            right: Box::new(pairs.last().1),
        }
    }
}

/// What a grammar rule reads from the front of the tokens: the tokens left
/// and the tree, or `None` where the rule rejects.
pub type Parsed = Option<(Seq<TokenView>, NodeView)>;

/// `Literal -> NUM`
pub open spec fn literal_spec(ts: Seq<TokenView>) -> Parsed {
    if ts.len() > 0 && ts[0].0 == NUM && literal_value(ts[0].1) is Some {
        Some(
            (
                ts.drop_first(),
                NodeView::Literal { kind: NUM, value: literal_value(ts[0].1)->0, raw: ts[0].1 },
            ),
        )
    } else {
        None
    }
}

/// `Factor -> Literal | "(" Expr ")"`
pub open spec fn factor_spec(ts: Seq<TokenView>) -> Parsed
    decreases ts.len(), 0nat,
{
    match literal_spec(ts) {
        Some(r) => Some(r),
        None => if ts.len() > 0 && ts[0].0 == OPEN_PAREN {
            match expr_spec(ts.drop_first()) {
                Some((rest, n)) => if rest.len() > 0 && rest[0].0 == CLOSE_PAREN {
                    Some((rest.drop_first(), n))
                } else {
                    None
                },
                None => None,
            }
        } else {
            None
        },
    }
}

/// `(("*" | "/") Factor)*`, as the pairs read and the tokens left.
pub open spec fn term_pairs(ts: Seq<TokenView>) -> (Seq<TokenView>, Seq<(SyntaxKind, NodeView)>)
    decreases ts.len(), 1nat,
{
    if ts.len() > 0 && (ts[0].0 == STAR || ts[0].0 == SLASH) {
        match factor_spec(ts.drop_first()) {
            Some((rest, right)) => if rest.len() < ts.len() {
                let (last, more) = term_pairs(rest);
                (last, seq![(ts[0].0, right)] + more)
            } else {
                (ts, Seq::empty())
            },
            None => (ts, Seq::empty()),
        }
    } else {
        (ts, Seq::empty())
    }
}

/// `Term -> Factor (("*" | "/") Factor)*`
pub open spec fn term_spec(ts: Seq<TokenView>) -> Parsed
    decreases ts.len(), 2nat,
{
    match factor_spec(ts) {
        Some((rest, left)) => if rest.len() < ts.len() {
            let (last, pairs) = term_pairs(rest);
            Some((last, fold_pairs(left, pairs)))
        } else {
            None
        },
        None => None,
    }
}

/// `(("+" | "-") Term)*`, as the pairs read and the tokens left.
pub open spec fn expr_pairs(ts: Seq<TokenView>) -> (Seq<TokenView>, Seq<(SyntaxKind, NodeView)>)
    decreases ts.len(), 3nat,
{
    if ts.len() > 0 && (ts[0].0 == PLUS || ts[0].0 == MINUS) {
        match term_spec(ts.drop_first()) {
            Some((rest, right)) => if rest.len() < ts.len() {
                let (last, more) = expr_pairs(rest);
                (last, seq![(ts[0].0, right)] + more)
            } else {
                (ts, Seq::empty())
            },
            None => (ts, Seq::empty()),
        }
    } else {
        (ts, Seq::empty())
    }
}

/// `Expr -> Term (("+" | "-") Term)*`
pub open spec fn expr_spec(ts: Seq<TokenView>) -> Parsed
    decreases ts.len(), 4nat,
{
    match term_spec(ts) {
        Some((rest, left)) => if rest.len() < ts.len() {
            let (last, pairs) = expr_pairs(rest);
            Some((last, fold_pairs(left, pairs)))
        } else {
            None
        },
        None => None,
    }
}

/// `r` is what a rule that reads `expected` gives on `input`: the tree and
/// a shorter rest, or a rejection that hands `input` back.
pub open spec fn parsed_as(input: Seq<Token>, r: ParserResult<Node>, expected: Parsed) -> bool {
    match expected {
        Some((rest, n)) => {
            &&& r is Ok
            &&& stream_view(r->Ok_0.0@) == rest
            &&& node_view(r->Ok_0.1) == n
            &&& r->Ok_0.0@.len() < input.len()
        },
        None => r is Err && r->Err_0@ == input,
    }
}

pub open spec fn pairs_view(ps: Seq<(SyntaxKind, Node)>) -> Seq<(SyntaxKind, NodeView)> {
    ps.map_values(|p: (SyntaxKind, Node)| (p.0, node_view(p.1)))
}

proof fn lemma_view_drop_first(s: Seq<Token>)
    requires
        s.len() > 0,
    ensures
        stream_view(s.drop_first()) == stream_view(s).drop_first(),
        stream_view(s)[0] == token_view(s[0]),
{
    assert(stream_view(s.drop_first()) =~= stream_view(s).drop_first());
}

proof fn lemma_digits_nonneg(s: Seq<char>)
    requires
        forall|i: int| 0 <= i < s.len() ==> is_digit(#[trigger] s[i]),
    ensures
        digits_value(s) >= 0,
    decreases s.len(),
{
    if s.len() > 0 {
        lemma_digits_nonneg(s.drop_last());
        assert(is_digit(s[s.len() - 1]));
    }
}

/// A prefix of a run of digits denotes no more than the whole run.
proof fn lemma_prefix_value(s: Seq<char>, k: int)
    requires
        0 <= k <= s.len(),
        forall|i: int| 0 <= i < s.len() ==> is_digit(#[trigger] s[i]),
    ensures
        digits_value(s.subrange(0, k)) <= digits_value(s),
    decreases s.len(),
{
    if k < s.len() {
        lemma_prefix_value(s.drop_last(), k);
        assert(s.drop_last().subrange(0, k) =~= s.subrange(0, k));
        lemma_digits_nonneg(s.drop_last());
        assert(is_digit(s[s.len() - 1]));
    } else {
        assert(s.subrange(0, k) =~= s);
    }
}

/// The value of a number token's text, where it fits an `i32`.
fn parse_number(text: &str) -> (r: Option<i32>)
    ensures
        r == literal_value(text@),
{
    let n = text.unicode_len();
    if n == 0 {
        return None;
    }
    let first = text.get_char(0);
    let signed = first == '-' || first == '+';
    let start: usize = if signed {
        1
    } else {
        0
    };
    if start == n {
        assert(!all_digits(text@.drop_first()));
        return None;
    }
    let ghost ds = text@.subrange(start as int, n as int);
    proof {
        if signed {
            assert(ds =~= text@.drop_first());
        } else {
            assert(ds =~= text@);
        }
    }
    let mut acc: i64 = 0;
    let mut i: usize = start;
    assert(ds.subrange(0, 0) =~= Seq::<char>::empty());
    while i < n
        invariant
            n == text@.len(),
            start <= i <= n,
            ds == text@.subrange(start as int, n as int),
            first == text@[0],
            signed == (first == '-' || first == '+'),
            signed ==> ds == text@.drop_first(),
            !signed ==> ds == text@,
            acc == digits_value(ds.subrange(0, i - start)),
            0 <= acc <= 2147483648,
            forall|j: int| 0 <= j < i - start ==> is_digit(#[trigger] ds[j]),
        decreases n - i,
    {
        let c = text.get_char(i);
        assert(c == ds[i - start]);
        if !('0' <= c && c <= '9') {
            assert(!is_digit(ds[i - start]));
            assert(!all_digits(ds));
            return None;
        }
        acc = acc * 10 + (c as u32 - '0' as u32) as i64;
        assert(ds.subrange(0, i + 1 - start).drop_last() =~= ds.subrange(0, i - start));
        i += 1;
        if acc > 2147483648 {
            proof {
                assert forall|j: int| 0 <= j < i - start implies is_digit(#[trigger] ds.subrange(0, i - start)[j]) by {}
                if all_digits(ds) {
                    lemma_prefix_value(ds, i - start);
                    assert(digits_value(ds) > 2147483648);
                }
            }
            return None;
        }
    }
    assert(ds.subrange(0, n - start) =~= ds);
    assert(all_digits(ds));
    if first == '-' {
        Some((0 - acc) as i32)
    } else if acc > 2147483647 {
        None
    } else {
        Some(acc as i32)
    }
}

fn expr_kind_of(op: SyntaxKind) -> (r: SyntaxKind)
    ensures
        r == expr_kind(op),
{
    if op == PLUS {
        ADD_EXPR
    } else if op == MINUS {
        SUB_EXPR
    } else if op == STAR {
        MUL_EXPR
    } else if op == SLASH {
        DIV_EXPR
    } else {
        UNKNOW
    }
}

/// Builds the left-leaning tree of `expr` followed by the pairs in `node_list`,
/// so that `a - b - c` groups as `(a - b) - c`.
fn build_expr_node(expr: Node, node_list: Vec<(SyntaxKind, Node)>) -> (r: Node)
    ensures
        node_view(r) == fold_pairs(node_view(expr), pairs_view(node_list@)),
    decreases node_list@.len(),
{
    let mut node_list = node_list;
    if node_list.len() == 0 {
        assert(pairs_view(node_list@) =~= Seq::empty());
        return expr;
    }
    let ghost all = node_list@;
    let (op, right) = node_list.pop().unwrap();
    assert(pairs_view(all).drop_last() =~= pairs_view(node_list@));
    let left = build_expr_node(expr, node_list);
    Node::Expr { kind: expr_kind_of(op), left: Box::new(left), op, right: Box::new(right) }
}

// The rules below are recursive functions rather than values composed from
// `zero_or_more`, `and_then` and `map`: `Factor` refers back to `Expr`, and a
// recursion that passes through a combinator's `Parser::parse` runs through a
// trait implementation, a cycle that Verus refuses as possible
// nontermination. So the rules call each other directly, with an explicit
// measure (the number of tokens, then the rule's level), and use the kernel
// where no recursion passes through it: `single_token` for every token read,
// and `either` for the choice of operator. Each repetition is the loop of
// `zero_or_more`, with the same stopping rule, and its result is proved equal
// to the rule's specification (`term_pairs`, `expr_pairs`).

/// Reads a number token whose text denotes an `i32`; any other token,
/// including a number too large for an `i32`, is rejected.
fn parse_literal(input: TokenStream) -> (r: ParserResult<Node>)
    ensures
        parsed_as(input@, r, literal_spec(stream_view(input@))),
{
    if input.len() == 0 || !(input[0].0 == NUM) {
        return Err(input);
    }
    proof {
        lemma_view_drop_first(input@);
    }
    let value = match parse_number(input[0].1.as_str()) {
        Some(v) => v,
        None => {
            return Err(input);
        },
    };
    match single_token(NUM).parse(input) {
        Ok((rest, token)) => Ok((rest, Node::Literal { kind: NUM, value, raw: token.1 })),
        Err(e) => Err(e),
    }
}

/// `Factor -> Literal | "(" Expr ")"`, trying the literal first.
fn parse_factor(input: TokenStream) -> (r: ParserResult<Node>)
    ensures
        parsed_as(input@, r, factor_spec(stream_view(input@))),
    decreases input@.len(), 0nat,
{
    match parse_literal(clone_stream(&input)) {
        Ok(ok) => {
            return Ok(ok);
        },
        Err(_) => {},
    }
    match single_token(OPEN_PAREN).parse(clone_stream(&input)) {
        Ok((after_open, _)) => {
            proof {
                lemma_view_drop_first(input@);
            }
            match parse_expr(after_open) {
                Ok((rest, node)) => {
                    let ghost rest_seq = rest@;
                    match single_token(CLOSE_PAREN).parse(rest) {
                        Ok((after_close, _)) => {
                            proof {
                                lemma_view_drop_first(rest_seq);
                            }
                            Ok((after_close, node))
                        },
                        Err(_) => {
                            proof {
                                if rest_seq.len() > 0 {
                                    lemma_view_drop_first(rest_seq);
                                }
                            }
                            Err(input)
                        },
                    }
                },
                Err(_) => Err(input),
            }
        },
        Err(_) => {
            proof {
                if input@.len() > 0 {
                    lemma_view_drop_first(input@);
                }
            }
            Err(input)
        },
    }
}

/// `Term -> Factor (("*" | "/") Factor)*`; the repetition stops at the
/// first pair that cannot be read.
fn parse_term(input: TokenStream) -> (r: ParserResult<Node>)
    ensures
        parsed_as(input@, r, term_spec(stream_view(input@))),
    decreases input@.len(), 2nat,
{
    let (rest, left) = match parse_factor(input) {
        Ok(ok) => ok,
        Err(e) => {
            return Err(e);
        },
    };
    let ghost rest0 = stream_view(rest@);
    let mut cur = rest;
    let mut node_list: Vec<(SyntaxKind, Node)> = Vec::new();
    assert(pairs_view(node_list@) + term_pairs(rest0).1 =~= term_pairs(rest0).1);
    loop
        invariant
            cur@.len() < input@.len(),
            term_pairs(rest0) == ({
                let (last, more) = term_pairs(stream_view(cur@));
                (last, pairs_view(node_list@) + more)
            }),
        ensures
            cur@.len() < input@.len(),
            term_pairs(rest0) == ({
                let (last, more) = term_pairs(stream_view(cur@));
                (last, pairs_view(node_list@) + more)
            }),
            term_pairs(stream_view(cur@)).1 == Seq::<(SyntaxKind, NodeView)>::empty(),
            term_pairs(stream_view(cur@)).0 == stream_view(cur@),
        decreases cur@.len(),
    {
        let op_result = either(single_token(STAR), single_token(SLASH)).parse(clone_stream(&cur));
        let op = match op_result {
            Ok((_, token)) => token.0,
            Err(_) => {
                proof {
                    if cur@.len() > 0 {
                        lemma_view_drop_first(cur@);
                    }
                }
                break ;
            },
        };
        proof {
            lemma_view_drop_first(cur@);
        }
        let mut after_op = clone_stream(&cur);
        after_op.remove(0);
        assert(after_op@ =~= cur@.drop_first());
        match parse_factor(after_op) {
            Ok((next, right)) => {
                let ghost old_list = node_list@;
                node_list.push((op, right));
                assert(pairs_view(node_list@) =~= pairs_view(old_list).push((op, node_view(right))));
                assert(pairs_view(node_list@) + term_pairs(stream_view(next@)).1 =~= pairs_view(old_list) + (seq![(op, node_view(right))] + term_pairs(stream_view(next@)).1));
                cur = next;
            },
            Err(_) => {
                break ;
            },
        }
    }
    assert(pairs_view(node_list@) + Seq::<(SyntaxKind, NodeView)>::empty() =~= pairs_view(node_list@));
    Ok((cur, build_expr_node(left, node_list)))
}

/// `Expr -> Term (("+" | "-") Term)*`; the repetition stops at the first
/// pair that cannot be read.
fn parse_expr(input: TokenStream) -> (r: ParserResult<Node>)
    ensures
        parsed_as(input@, r, expr_spec(stream_view(input@))),
    decreases input@.len(), 4nat,
{
    let (rest, left) = match parse_term(input) {
        Ok(ok) => ok,
        Err(e) => {
            return Err(e);
        },
    };
    let ghost rest0 = stream_view(rest@);
    let mut cur = rest;
    let mut node_list: Vec<(SyntaxKind, Node)> = Vec::new();
    assert(pairs_view(node_list@) + expr_pairs(rest0).1 =~= expr_pairs(rest0).1);
    loop
        invariant
            cur@.len() < input@.len(),
            expr_pairs(rest0) == ({
                let (last, more) = expr_pairs(stream_view(cur@));
                (last, pairs_view(node_list@) + more)
            }),
        ensures
            cur@.len() < input@.len(),
            expr_pairs(rest0) == ({
                let (last, more) = expr_pairs(stream_view(cur@));
                (last, pairs_view(node_list@) + more)
            }),
            expr_pairs(stream_view(cur@)).1 == Seq::<(SyntaxKind, NodeView)>::empty(),
            expr_pairs(stream_view(cur@)).0 == stream_view(cur@),
        decreases cur@.len(),
    {
        let op_result = either(single_token(PLUS), single_token(MINUS)).parse(clone_stream(&cur));
        let op = match op_result {
            Ok((_, token)) => token.0,
            Err(_) => {
                proof {
                    if cur@.len() > 0 {
                        lemma_view_drop_first(cur@);
                    }
                }
                break ;
            },
        };
        proof {
            lemma_view_drop_first(cur@);
        }
        let mut after_op = clone_stream(&cur);
        after_op.remove(0);
        assert(after_op@ =~= cur@.drop_first());
        match parse_term(after_op) {
            Ok((next, right)) => {
                let ghost old_list = node_list@;
                node_list.push((op, right));
                assert(pairs_view(node_list@) =~= pairs_view(old_list).push((op, node_view(right))));
                assert(pairs_view(node_list@) + expr_pairs(stream_view(next@)).1 =~= pairs_view(old_list) + (seq![(op, node_view(right))] + expr_pairs(stream_view(next@)).1));
                cur = next;
            },
            Err(_) => {
                break ;
            },
        }
    }
    assert(pairs_view(node_list@) + Seq::<(SyntaxKind, NodeView)>::empty() =~= pairs_view(node_list@));
    Ok((cur, build_expr_node(left, node_list)))
}

/// The parser of the rule `Literal -> NUM`.
pub struct LiteralParser;

pub fn literal() -> LiteralParser {
    LiteralParser
}

impl Parser<Node> for LiteralParser {
    open spec fn ready(&self) -> bool {
        true
    }

    open spec fn outcome(&self, input: Seq<Token>, r: ParserResult<Node>) -> bool {
        parsed_as(input, r, literal_spec(stream_view(input)))
    }

    fn parse(&self, input: TokenStream) -> (r: ParserResult<Node>) {
        parse_literal(input)
    }
}

/// The parser of the rule `Expr -> Term (("+" | "-") Term)*`.
pub struct ExprParser;

pub fn expr() -> ExprParser {
    ExprParser
}

impl Parser<Node> for ExprParser {
    open spec fn ready(&self) -> bool {
        true
    }

    open spec fn outcome(&self, input: Seq<Token>, r: ParserResult<Node>) -> bool {
        parsed_as(input, r, expr_spec(stream_view(input)))
    }

    fn parse(&self, input: TokenStream) -> (r: ParserResult<Node>) {
        parse_expr(input)
    }
}

} // verus!
