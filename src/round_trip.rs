//! Laws that tie the lexer, the parser and the formatter together: the
//! canonical text of a tree builds that tree again.
use vstd::prelude::*;

use crate::lexer::dfa::{lex_spec, merge_spec, push_spec, scan, step, Scan};
use crate::lexer::states::{next_state, ERROR, NUM as NUM_STATE, OPERATOR, START, ZERO};
use crate::build_spec;
use crate::lexer::TokenView;
use crate::parser::syntax_spec;
use crate::parser::grammar::{
    expr_kind, expr_pairs, expr_spec, factor_spec, fold_pairs, is_digit, literal_spec, literal_value,
    term_pairs, term_spec,
};
use crate::parser::node::NodeView;
use crate::syntax_kind::{
    operator_of, text_of, SyntaxKind, CLOSE_PAREN, MINUS, NUM, OPEN_PAREN, PLUS, SLASH, STAR,
};
use crate::traversal::eval::{is_binary_op, value_of};
use crate::traversal::format::{format_spec, needs_paren};

verus! {

/// Decimal digits with no leading zero, as the lexer accepts them.
pub open spec fn canonical_digits(d: Seq<char>) -> bool {
    &&& d.len() > 0
    &&& forall|i: int| 0 <= i < d.len() ==> is_digit(#[trigger] d[i])
    &&& d.len() > 1 ==> d[0] != '0'
}

/// The text of a number as the lexer writes it: canonical digits, perhaps
/// after a minus sign.
pub open spec fn canonical_number(raw: Seq<char>) -> bool {
    canonical_digits(raw) || (raw.len() > 1 && raw[0] == '-' && canonical_digits(raw.drop_first()))
}

/// The tokens of the canonical text of a tree.
pub open spec fn tokens_of(t: NodeView) -> Seq<TokenView>
    decreases t,
{
    match t {
        NodeView::Literal { raw, .. } => seq![(NUM, raw)],
        NodeView::Expr { left, op, right, .. } => tokens_of(*left) + seq![(op, text_of(op))] + if needs_paren(
            op,
            *right,
        ) {
            seq![(OPEN_PAREN, seq!['('])] + tokens_of(*right) + seq![(CLOSE_PAREN, seq![')'])]
        } else {
            tokens_of(*right)
        },
    }
}

/// The tokens of the right operand of `op`, parenthesised where the formatter
/// puts parentheses.
pub open spec fn operand_tokens(op: SyntaxKind, right: NodeView) -> Seq<TokenView> {
    if needs_paren(op, right) {
        seq![(OPEN_PAREN, seq!['('])] + tokens_of(right) + seq![(CLOSE_PAREN, seq![')'])]
    } else {
        tokens_of(right)
    }
}

/// How tightly an operator binds.
pub open spec fn op_prec(op: SyntaxKind) -> nat {
    if op == STAR || op == SLASH {
        2
    } else {
        1
    }
}

/// How tightly a tree binds as an operand: a literal is atomic.
pub open spec fn tree_prec(t: NodeView) -> nat {
    match t {
        NodeView::Literal { .. } => 3,
        NodeView::Expr { op, .. } => op_prec(op),
    }
}

/// The tree satisfies the invariants of the data model: each literal's text
/// is a number as the lexer writes it and denotes the literal's value, and
/// each node's kind matches its binary operator.
pub open spec fn valid_tree(t: NodeView) -> bool
    decreases t,
{
    match t {
        NodeView::Literal { kind, value, raw } => kind == NUM && canonical_number(raw)
            && literal_value(raw) == Some(value),
        NodeView::Expr { kind, left, op, right } => {
            &&& is_binary_op(op)
            &&& kind == expr_kind(op)
            &&& valid_tree(*left)
            &&& valid_tree(*right)
        },
    }
}

/// The canonical text of the tree groups as the tree does: no left operand
/// binds more loosely than its operator, and a right operand that is not
/// parenthesised binds more tightly.
pub open spec fn grouped(t: NodeView) -> bool
    decreases t,
{
    match t {
        NodeView::Literal { .. } => true,
        NodeView::Expr { left, op, right, .. } => {
            &&& grouped(*left)
            &&& grouped(*right)
            &&& tree_prec(*left) >= op_prec(op)
            &&& (needs_paren(op, *right) || tree_prec(*right) > op_prec(op))
        },
    }
}

pub open spec fn well_grouped(t: NodeView) -> bool {
    valid_tree(t) && grouped(t)
}

// ---------------------------------------------------------------------------
// Lexing the canonical text
// ---------------------------------------------------------------------------
/// The scan after reading the characters `w`, which start at position `at`.
pub open spec fn run_chars(st: Scan, w: Seq<char>, at: nat) -> Scan
    decreases w.len(),
{
    if w.len() == 0 {
        st
    } else {
        match run_chars(st, w.drop_last(), at) {
            Scan::Running { state, cache, toks } => step(
                state,
                cache,
                toks,
                w.last(),
                (at + w.len() - 1) as nat,
            ),
            failed => failed,
        }
    }
}

proof fn lemma_scan_is_run(s: Seq<char>, n: nat, toks0: Seq<TokenView>)
    requires
        n <= s.len(),
    ensures
        scan(s, n, toks0) == run_chars(
            Scan::Running { state: START, cache: Seq::empty(), toks: toks0 },
            s.subrange(0, n as int),
            0,
        ),
    decreases n,
{
    if n > 0 {
        lemma_scan_is_run(s, (n - 1) as nat, toks0);
        assert(s.subrange(0, n as int).drop_last() =~= s.subrange(0, n - 1));
    }
}

proof fn lemma_run_concat(st: Scan, a: Seq<char>, b: Seq<char>, at: nat)
    requires
        run_chars(st, a, at) is Running,
    ensures
        run_chars(st, a + b, at) == run_chars(run_chars(st, a, at), b, at + a.len()),
    decreases b.len(),
{
    if b.len() == 0 {
        assert(a + b =~= a);
    } else {
        lemma_run_concat(st, a, b.drop_last(), at);
        assert((a + b).drop_last() =~= a + b.drop_last());
        assert((a + b).last() == b.last());
    }
}

/// A scan about to read a token, after the tokens `e`: either between
/// tokens, or with a one-character operator not yet emitted.
pub open spec fn ready(st: Scan, e: Seq<TokenView>) -> bool {
    match st {
        Scan::Running { state, cache, toks } => (state == START && cache.len() == 0 && toks == e)
            || (state == OPERATOR && operator_of(cache) is Some && e == toks.push(
            (operator_of(cache)->0, cache),
        )),
        _ => false,
    }
}

/// After the tokens `e`, a sign would start a number: nothing before it, an
/// opening parenthesis, or a binary operator after an operand.
pub open spec fn operand_pos(e: Seq<TokenView>) -> bool {
    ||| e.len() == 0
    ||| e.last().0 == OPEN_PAREN
    ||| (is_binary_op(e.last().0) && e.len() >= 2 && (e[e.len() - 2].0 == NUM || e[e.len()
        - 2].0 == CLOSE_PAREN))
}

/// A scan with one token pending, which is emitted to give the tokens `e`.
pub open spec fn pending(st: Scan, e: Seq<TokenView>) -> bool {
    match st {
        Scan::Running { state, cache, toks } => (state == OPERATOR || state == ZERO || state
            == NUM_STATE) && push_spec(toks, cache) == e,
        _ => false,
    }
}

proof fn lemma_run_one(st: Scan, c: char, at: nat)
    ensures
        run_chars(st, seq![c], at) == match st {
            Scan::Running { state, cache, toks } => step(state, cache, toks, c, at),
            failed => failed,
        },
{
    assert(seq![c].drop_last() =~= Seq::<char>::empty());
    assert(run_chars(st, Seq::<char>::empty(), at) == st);
}

/// Reading a character that starts a token, from a ready scan.
proof fn lemma_start_token(st: Scan, e: Seq<TokenView>, c: char, at: nat)
    requires
        ready(st, e),
        c != ' ',
        next_state(c, st->Running_state) != ERROR,
    ensures
        run_chars(st, seq![c], at) == (Scan::Running {
            state: next_state(c, st->Running_state),
            cache: seq![c],
            toks: e,
        }),
{
    lemma_run_one(st, c, at);
    assert(Seq::<char>::empty().push(c) =~= seq![c]);
    if let Scan::Running { state, cache, toks } = st {
        let ns = next_state(c, state);
        if state == START {
            assert(cache =~= Seq::<char>::empty());
            assert(step(state, cache, toks, c, at) == (Scan::Running {
                state: ns,
                cache: seq![c],
                toks: e,
            }));
        } else {
            assert(push_spec(toks, cache) == e);
            assert(step(state, cache, toks, c, at) == (Scan::Running {
                state: ns,
                cache: seq![c],
                toks: e,
            }));
        }
    }
}

proof fn lemma_digits(st: Scan, e: Seq<TokenView>, d: Seq<char>, at: nat)
    requires
        ready(st, e),
        canonical_digits(d),
    ensures
        run_chars(st, d, at) == (Scan::Running {
            state: if d[0] == '0' {
                ZERO
            } else {
                NUM_STATE
            },
            cache: d,
            toks: e,
        }),
    decreases d.len(),
{
    assert(is_digit(d[0]));
    if d.len() == 1 {
        assert(seq![d[0]] =~= d);
        lemma_start_token(st, e, d[0], at);
        assert(Seq::<char>::empty().push(d.last()) =~= d);
    } else {
        let p = d.drop_last();
        assert(p[0] == d[0]);
        assert forall|i: int| 0 <= i < p.len() implies is_digit(#[trigger] p[i]) by {
            assert(p[i] == d[i]);
        }
        lemma_digits(st, e, p, at);
        assert(is_digit(d[d.len() - 1]));
        assert(p.push(d.last()) =~= d);
    }
}

proof fn lemma_literal(st: Scan, e: Seq<TokenView>, raw: Seq<char>, at: nat)
    requires
        ready(st, e),
        operand_pos(e),
        canonical_number(raw),
    ensures
        pending(run_chars(st, raw, at), e.push((NUM, raw))),
{
    if canonical_digits(raw) {
        lemma_digits(st, e, raw, at);
        assert(is_digit(raw[0]));
        assert(operator_of(raw) is None);
    } else {
        let d = raw.drop_first();
        assert(raw =~= seq!['-'] + d);
        lemma_start_token(st, e, '-', at);
        let st1 = run_chars(st, seq!['-'], at);
        assert(st1 == (Scan::Running { state: OPERATOR, cache: seq!['-'], toks: e }));
        lemma_run_concat(st, seq!['-'], d, at);
        let e1 = e.push((MINUS, seq!['-']));
        assert(ready(st1, e1));
        lemma_digits(st1, e1, d, at + 1);
        assert(is_digit(d[0]));
        assert(operator_of(d) is None);
        assert(e1.drop_last() =~= e);
        assert(merge_spec(e1, d) == (e, seq!['-'] + d));
    }
}

proof fn lemma_after_pending(st: Scan, e: Seq<TokenView>, c: char, at: nat)
    requires
        pending(st, e),
        c == ' ' || c == ')',
    ensures
        run_chars(st, seq![c], at) == (Scan::Running {
            state: if c == ' ' {
                START
            } else {
                OPERATOR
            },
            cache: if c == ' ' {
                Seq::<char>::empty()
            } else {
                seq![c]
            },
            toks: e,
        }),
{
    lemma_run_one(st, c, at);
    assert(Seq::<char>::empty().push(c) =~= seq![c]);
}

proof fn lemma_tokens_last(t: NodeView)
    ensures
        tokens_of(t).len() > 0,
        tokens_of(t).last().0 == NUM || tokens_of(t).last().0 == CLOSE_PAREN,
    decreases t,
{
    if let NodeView::Expr { left, op, right, .. } = t {
        lemma_tokens_last(*left);
        lemma_tokens_last(*right);
    }
}

proof fn lemma_binop_text(op: SyntaxKind)
    requires
        is_binary_op(op),
    ensures
        text_of(op).len() == 1,
        text_of(op) == seq![text_of(op)[0]],
        operator_of(text_of(op)) == Some(op),
        next_state(text_of(op)[0], START) == OPERATOR,
        text_of(op)[0] != ' ',
{
    assert(text_of(op) =~= seq![text_of(op)[0]]);
}

/// Lexing `left op ` after the left operand's text, from a ready scan.
proof fn lemma_lex_prefix(left: NodeView, op: SyntaxKind, st: Scan, e: Seq<TokenView>, at: nat)
    requires
        well_grouped(left),
        is_binary_op(op),
        ready(st, e),
        operand_pos(e),
        pending(run_chars(st, format_spec(left), at), e + tokens_of(left)),
    ensures
        ({
            let e2 = (e + tokens_of(left)).push((op, text_of(op)));
            &&& run_chars(st, format_spec(left) + seq![' '] + text_of(op) + seq![' '], at) == (
            Scan::Running { state: START, cache: Seq::empty(), toks: e2 })
            &&& operand_pos(e2)
        }),
{
    let fl = format_spec(left);
    let text = text_of(op);
    let el = e + tokens_of(left);
    let a1 = fl + seq![' '];
    lemma_run_concat(st, fl, seq![' '], at);
    lemma_after_pending(run_chars(st, fl, at), el, ' ', at + fl.len());
    let r1 = Scan::Running { state: START, cache: Seq::empty(), toks: el };
    assert(run_chars(st, a1, at) == r1);
    lemma_binop_text(op);
    let a2 = a1 + text;
    lemma_run_concat(st, a1, text, at);
    lemma_start_token(r1, el, text[0], at + a1.len());
    let r2 = Scan::Running { state: OPERATOR, cache: text, toks: el };
    assert(run_chars(st, a2, at) == r2);
    let e2 = el.push((op, text));
    assert(pending(r2, e2));
    lemma_run_concat(st, a2, seq![' '], at);
    lemma_after_pending(r2, e2, ' ', at + a2.len());
    lemma_tokens_last(left);
    assert(e2[e2.len() - 2] == tokens_of(left).last());
}

/// Lexing `(right)` after the tokens `e`.
proof fn lemma_lex_paren(right: NodeView, e: Seq<TokenView>, at: nat)
    requires
        well_grouped(right),
        operand_pos(e),
    ensures
        pending(
            run_chars(
                Scan::Running { state: START, cache: Seq::empty(), toks: e },
                seq!['('] + format_spec(right) + seq![')'],
                at,
            ),
            e.push((OPEN_PAREN, seq!['('])) + tokens_of(right) + seq![(CLOSE_PAREN, seq![')'])],
        ),
    decreases right, 2nat,
{
    let r3 = Scan::Running { state: START, cache: Seq::empty(), toks: e };
    let open = seq!['('];
    let fr = format_spec(right);
    lemma_start_token(r3, e, '(', at);
    let r4 = Scan::Running { state: OPERATOR, cache: open, toks: e };
    let e3 = e.push((OPEN_PAREN, open));
    assert(ready(r4, e3));
    lemma_lex_tree(right, r4, e3, at + 1);
    lemma_run_concat(r3, open, fr, at);
    let inner = run_chars(r3, open + fr, at);
    lemma_run_concat(r3, open + fr, seq![')'], at);
    lemma_after_pending(inner, e3 + tokens_of(right), ')', at + (open + fr).len());
    assert((e3 + tokens_of(right)).push((CLOSE_PAREN, seq![')'])) =~= e3 + tokens_of(right)
        + seq![(CLOSE_PAREN, seq![')'])]);
}

/// Lexing the canonical text of a tree, from a scan ready after the tokens
/// `e`, leaves the tree's tokens with the last one pending.
proof fn lemma_lex_tree(t: NodeView, st: Scan, e: Seq<TokenView>, at: nat)
    requires
        well_grouped(t),
        ready(st, e),
        operand_pos(e),
    ensures
        pending(run_chars(st, format_spec(t), at), e + tokens_of(t)),
    decreases t, 1nat,
{
    match t {
        NodeView::Literal { raw, .. } => {
            lemma_literal(st, e, raw, at);
            assert(e.push((NUM, raw)) =~= e + tokens_of(t));
        },
        NodeView::Expr { left, op, right, .. } => {
            let fl = format_spec(*left);
            let text = text_of(op);
            let fr = format_spec(*right);
            let paren = needs_paren(op, *right);
            let x = if paren {
                seq!['('] + fr + seq![')']
            } else {
                fr
            };
            let a3 = fl + seq![' '] + text + seq![' '];
            assert(format_spec(t) == a3 + x);
            lemma_lex_tree(*left, st, e, at);
            lemma_lex_prefix(*left, op, st, e, at);
            let e2 = (e + tokens_of(*left)).push((op, text));
            lemma_run_concat(st, a3, x, at);
            if paren {
                lemma_lex_paren(*right, e2, at + a3.len());
                assert(e2.push((OPEN_PAREN, seq!['('])) + tokens_of(*right) + seq![
                    (CLOSE_PAREN, seq![')']),
                ] =~= e + tokens_of(t));
            } else {
                lemma_lex_tree(*right, Scan::Running { state: START, cache: Seq::empty(), toks: e2 }, e2, at + a3.len());
                assert(e2 + tokens_of(*right) =~= e + tokens_of(t));
            }
        },
    }
}

/// Lexing the canonical text of a tree gives the tree's tokens.
pub proof fn lemma_lex_format(t: NodeView)
    requires
        well_grouped(t),
    ensures
        lex_spec(format_spec(t)) == Ok::<Seq<TokenView>, Seq<char>>(tokens_of(t)),
{
    let s = format_spec(t);
    let st = Scan::Running { state: START, cache: Seq::empty(), toks: Seq::empty() };
    lemma_lex_tree(t, st, Seq::empty(), 0);
    lemma_scan_is_run(s, s.len(), Seq::empty());
    assert(s.subrange(0, s.len() as int) =~= s);
    assert(Seq::<TokenView>::empty() + tokens_of(t) =~= tokens_of(t));
    lemma_format_nonempty(t);
}

proof fn lemma_format_nonempty(t: NodeView)
    requires
        well_grouped(t),
    ensures
        format_spec(t).len() > 0,
    decreases t,
{
    if let NodeView::Expr { left, .. } = t {
        lemma_format_nonempty(*left);
    }
}

// ---------------------------------------------------------------------------
// Parsing the tokens of a tree
// ---------------------------------------------------------------------------
pub open spec fn height(t: NodeView) -> nat
    decreases t,
{
    match t {
        NodeView::Literal { .. } => 0,
        NodeView::Expr { left, right, .. } => 1 + if height(*left) >= height(*right) {
            height(*left)
        } else {
            height(*right)
        },
    }
}

/// The tokens of operator and operand pairs, as they follow a first operand.
pub open spec fn pair_tokens(ps: Seq<(SyntaxKind, NodeView)>) -> Seq<TokenView>
    decreases ps.len(),
{
    if ps.len() == 0 {
        Seq::empty()
    } else {
        seq![(ps[0].0, text_of(ps[0].0))] + operand_tokens(ps[0].0, ps[0].1) + pair_tokens(
            ps.drop_first(),
        )
    }
}

/// The left spine of the operators that bind with strength `lvl`: the first
/// operand and the pairs that follow it.
pub open spec fn spine(t: NodeView, lvl: nat) -> (NodeView, Seq<(SyntaxKind, NodeView)>)
    decreases t,
{
    match t {
        NodeView::Expr { left, op, right, .. } => if op_prec(op) == lvl {
            let (h, ps) = spine(*left, lvl);
            (h, ps.push((op, *right)))
        } else {
            (t, Seq::empty())
        },
        _ => (t, Seq::empty()),
    }
}

proof fn lemma_pair_tokens_push(ps: Seq<(SyntaxKind, NodeView)>, p: (SyntaxKind, NodeView))
    ensures
        pair_tokens(ps.push(p)) == pair_tokens(ps) + seq![(p.0, text_of(p.0))] + operand_tokens(
            p.0,
            p.1,
        ),
    decreases ps.len(),
{
    let single = seq![(p.0, text_of(p.0))] + operand_tokens(p.0, p.1);
    if ps.len() == 0 {
        assert(ps.push(p).drop_first() =~= Seq::<(SyntaxKind, NodeView)>::empty());
        assert(pair_tokens(Seq::<(SyntaxKind, NodeView)>::empty()) == Seq::<TokenView>::empty());
        assert(pair_tokens(ps.push(p)) =~= single);
        assert(pair_tokens(ps) + single =~= single);
    } else {
        lemma_pair_tokens_push(ps.drop_first(), p);
        assert(ps.push(p).drop_first() =~= ps.drop_first().push(p));
        assert(ps.push(p)[0] == ps[0]);
        assert(pair_tokens(ps.push(p)) =~= pair_tokens(ps) + single);
    }
}

/// The pairs of the spine bind with strength `lvl`, and each right operand
/// is parenthesised or binds more tightly.
pub open spec fn spine_pairs_ok(ps: Seq<(SyntaxKind, NodeView)>, lvl: nat, hb: nat) -> bool {
    forall|i: int|
        0 <= i < ps.len() ==> {
            let (op, r) = #[trigger] ps[i];
            &&& is_binary_op(op)
            &&& op_prec(op) == lvl
            &&& well_grouped(r)
            &&& height(r) < hb
            &&& (needs_paren(op, r) || tree_prec(r) > lvl)
        }
}

proof fn lemma_spine(t: NodeView, lvl: nat)
    requires
        lvl == 1 || lvl == 2,
        well_grouped(t),
        tree_prec(t) >= lvl,
    ensures
        ({
            let (h, ps) = spine(t, lvl);
            &&& fold_pairs(h, ps) == t
            &&& tokens_of(t) == tokens_of(h) + pair_tokens(ps)
            &&& well_grouped(h)
            &&& tree_prec(h) > lvl
            &&& height(h) <= height(t)
            &&& (ps.len() > 0 ==> height(h) < height(t))
            &&& spine_pairs_ok(ps, lvl, height(t) + 1)
            &&& (ps.len() > 0 ==> height(h) < height(t) && spine_pairs_ok(ps, lvl, height(t)))
        }),
    decreases t,
{
    match t {
        NodeView::Expr { left, op, right, .. } => {
            if op_prec(op) == lvl {
                lemma_spine(*left, lvl);
                let (h, ps0) = spine(*left, lvl);
                let ps = ps0.push((op, *right));
                lemma_pair_tokens_push(ps0, (op, *right));
                assert(ps.drop_last() =~= ps0);
                assert(tokens_of(t) =~= tokens_of(h) + pair_tokens(ps));
                assert forall|i: int| 0 <= i < ps.len() implies ({
                    let (o, r) = #[trigger] ps[i];
                    &&& is_binary_op(o)
                    &&& op_prec(o) == lvl
                    &&& well_grouped(r)
                    &&& height(r) < height(t)
                    &&& (needs_paren(o, r) || tree_prec(r) > lvl)
                }) by {
                    if i < ps0.len() {
                        assert(ps[i] == ps0[i]);
                    }
                }
                assert(spine(t, lvl) == (h, ps));
                assert(fold_pairs(h, ps) == t);
                assert(well_grouped(h));
                assert(tree_prec(h) > lvl);
                assert(height(h) < height(t));
                assert(spine_pairs_ok(ps, lvl, height(t)));
                assert(spine_pairs_ok(ps, lvl, height(t) + 1));
            } else {
                assert(spine(t, lvl) == (t, Seq::<(SyntaxKind, NodeView)>::empty()));
                lemma_spine_trivial(t, lvl);
                assert(tree_prec(t) > lvl);
            }
        },
        _ => {
            lemma_spine_trivial(t, lvl);
        },
    }
}

proof fn lemma_spine_trivial(t: NodeView, lvl: nat)
    requires
        spine(t, lvl) == (t, Seq::<(SyntaxKind, NodeView)>::empty()),
    ensures
        fold_pairs(t, Seq::<(SyntaxKind, NodeView)>::empty()) == t,
        tokens_of(t) == tokens_of(t) + pair_tokens(Seq::<(SyntaxKind, NodeView)>::empty()),
        spine_pairs_ok(Seq::<(SyntaxKind, NodeView)>::empty(), lvl, height(t) + 1),
{
    assert(pair_tokens(Seq::<(SyntaxKind, NodeView)>::empty()) == Seq::<TokenView>::empty());
    assert(tokens_of(t) + Seq::<TokenView>::empty() =~= tokens_of(t));
}

pub open spec fn expr_stop(r: Seq<TokenView>) -> bool {
    r.len() == 0 || r[0].0 == CLOSE_PAREN
}

pub open spec fn term_stop(r: Seq<TokenView>) -> bool {
    r.len() == 0 || !(r[0].0 == STAR || r[0].0 == SLASH)
}

proof fn lemma_factor_literal(t: NodeView, r: Seq<TokenView>)
    requires
        well_grouped(t),
        t is Literal,
    ensures
        factor_spec(tokens_of(t) + r) == Some((r, t)),
{
    let ts = tokens_of(t) + r;
    assert(ts.drop_first() =~= r);
    assert(ts[0] == tokens_of(t)[0]);
    assert(literal_spec(ts) == Some((r, t)));
}

proof fn lemma_factor_paren(t: NodeView, r: Seq<TokenView>)
    requires
        well_grouped(t),
    ensures
        factor_spec(seq![(OPEN_PAREN, seq!['('])] + tokens_of(t) + seq![(CLOSE_PAREN, seq![')'])] + r)
            == Some((r, t)),
    decreases height(t), 4nat, 0nat,
{
    let close = seq![(CLOSE_PAREN, seq![')'])] + r;
    let ts = seq![(OPEN_PAREN, seq!['('])] + tokens_of(t) + seq![(CLOSE_PAREN, seq![')'])] + r;
    assert(ts.drop_first() =~= tokens_of(t) + close);
    assert(ts[0].0 == OPEN_PAREN);
    lemma_expr(t, close);
    assert(close.drop_first() =~= r);
    assert(literal_spec(ts) is None);
}

proof fn lemma_term_paren(t: NodeView, r: Seq<TokenView>)
    requires
        well_grouped(t),
        term_stop(r),
    ensures
        term_spec(seq![(OPEN_PAREN, seq!['('])] + tokens_of(t) + seq![(CLOSE_PAREN, seq![')'])] + r)
            == Some((r, t)),
    decreases height(t), 5nat, 0nat,
{
    lemma_factor_paren(t, r);
    assert(term_pairs(r) == (r, Seq::<(SyntaxKind, NodeView)>::empty()));
}

proof fn lemma_term_pairs(ps: Seq<(SyntaxKind, NodeView)>, r: Seq<TokenView>, hb: nat)
    requires
        spine_pairs_ok(ps, 2, hb),
        term_stop(r),
    ensures
        term_pairs(pair_tokens(ps) + r) == (r, ps),
    decreases hb, 1nat, ps.len(),
{
    if ps.len() == 0 {
        assert(pair_tokens(ps) + r =~= r);
        assert(term_pairs(r) == (r, Seq::<(SyntaxKind, NodeView)>::empty()));
        assert(ps =~= Seq::<(SyntaxKind, NodeView)>::empty());
    } else {
        let (op, right) = ps[0];
        let tail = ps.drop_first();
        let rest = pair_tokens(tail) + r;
        let ts = pair_tokens(ps) + r;
        assert(ts =~= seq![(op, text_of(op))] + (operand_tokens(op, right) + rest));
        assert(ts.drop_first() =~= operand_tokens(op, right) + rest);
        assert(ts[0].0 == op);
        assert(spine_pairs_ok(tail, 2, hb)) by {
            assert forall|i: int| 0 <= i < tail.len() implies #[trigger] tail[i] == ps[i + 1] by {}
        }
        lemma_term_pairs(tail, r, hb);
        if needs_paren(op, right) {
            lemma_factor_paren(right, rest);
            assert(operand_tokens(op, right) + rest =~= seq![(OPEN_PAREN, seq!['('])] + tokens_of(right) + seq![(CLOSE_PAREN, seq![')'])] + rest);
        } else {
            lemma_factor_literal(right, rest);
        }
        assert(seq![(op, right)] + tail =~= ps);
    }
}

proof fn lemma_expr_pairs(ps: Seq<(SyntaxKind, NodeView)>, r: Seq<TokenView>, hb: nat)
    requires
        spine_pairs_ok(ps, 1, hb),
        expr_stop(r),
    ensures
        expr_pairs(pair_tokens(ps) + r) == (r, ps),
    decreases hb, 1nat, ps.len(),
{
    if ps.len() == 0 {
        assert(pair_tokens(ps) + r =~= r);
        assert(ps =~= Seq::<(SyntaxKind, NodeView)>::empty());
    } else {
        let (op, right) = ps[0];
        let tail = ps.drop_first();
        let rest = pair_tokens(tail) + r;
        let ts = pair_tokens(ps) + r;
        assert(ts =~= seq![(op, text_of(op))] + (operand_tokens(op, right) + rest));
        assert(ts.drop_first() =~= operand_tokens(op, right) + rest);
        assert(ts[0].0 == op);
        assert(spine_pairs_ok(tail, 1, hb)) by {
            assert forall|i: int| 0 <= i < tail.len() implies #[trigger] tail[i] == ps[i + 1] by {}
        }
        lemma_expr_pairs(tail, r, hb);
        if tail.len() > 0 {
            assert(rest[0] == pair_tokens(tail)[0]);
            assert(spine_pairs_ok(tail, 1, hb));
            let t0 = tail[0];
            assert(is_binary_op(t0.0) && op_prec(t0.0) == 1);
        }
        assert(term_stop(rest));
        if needs_paren(op, right) {
            lemma_term_paren(right, rest);
            assert(operand_tokens(op, right) + rest =~= seq![(OPEN_PAREN, seq!['('])] + tokens_of(right) + seq![(CLOSE_PAREN, seq![')'])] + rest);
        } else {
            lemma_term(right, rest);
        }
        assert(seq![(op, right)] + tail =~= ps);
    }
}

proof fn lemma_term(t: NodeView, r: Seq<TokenView>)
    requires
        well_grouped(t),
        tree_prec(t) >= 2,
        term_stop(r),
    ensures
        term_spec(tokens_of(t) + r) == Some((r, t)),
    decreases height(t), 2nat, 0nat,
{
    lemma_spine(t, 2);
    let (h, ps) = spine(t, 2);
    let rest = pair_tokens(ps) + r;
    let ts = tokens_of(t) + r;
    assert(ts =~= tokens_of(h) + rest);
    lemma_factor_literal(h, rest);
    if ps.len() > 0 {
        lemma_term_pairs(ps, r, height(t));
    } else {
        assert(rest =~= r);
        assert(term_pairs(r) == (r, Seq::<(SyntaxKind, NodeView)>::empty()));
    }
    assert(term_pairs(rest) == (r, ps));
}

proof fn lemma_expr(t: NodeView, r: Seq<TokenView>)
    requires
        well_grouped(t),
        expr_stop(r),
    ensures
        expr_spec(tokens_of(t) + r) == Some((r, t)),
    decreases height(t), 3nat, 0nat,
{
    let ts = tokens_of(t) + r;
    lemma_tokens_last(t);
    if tree_prec(t) >= 2 {
        lemma_term(t, r);
        assert(expr_pairs(r) == (r, Seq::<(SyntaxKind, NodeView)>::empty()));
        assert(fold_pairs(t, Seq::<(SyntaxKind, NodeView)>::empty()) == t);
    } else {
        lemma_spine(t, 1);
        let (h, ps) = spine(t, 1);
        assert(ps.len() > 0);
        let rest = pair_tokens(ps) + r;
        assert(ts =~= tokens_of(h) + rest);
        let first_pair = ps[0];
        assert(is_binary_op(first_pair.0) && op_prec(first_pair.0) == 1);
        assert(rest[0] == (first_pair.0, text_of(first_pair.0)));
        lemma_term(h, rest);
        lemma_expr_pairs(ps, r, height(t));
    }
}

/// Parsing the tokens of a tree gives the tree back, with nothing left.
pub proof fn lemma_parse_tokens(t: NodeView)
    requires
        well_grouped(t),
    ensures
        expr_spec(tokens_of(t)) == Some((Seq::<TokenView>::empty(), t)),
{
    lemma_expr(t, Seq::empty());
    assert(tokens_of(t) + Seq::<TokenView>::empty() =~= tokens_of(t));
}

// ---------------------------------------------------------------------------
// What the lexer and the parser produce
// ---------------------------------------------------------------------------
/// Every number token that denotes an `i32` is written as the lexer writes
/// numbers.
pub open spec fn tokens_ok(ts: Seq<TokenView>) -> bool {
    forall|i: int|
        0 <= i < ts.len() ==> (#[trigger] ts[i]).0 == NUM ==> (literal_value(ts[i].1) is Some
            ==> canonical_number(ts[i].1))
}

/// What the text of the token being read looks like in each state.
pub open spec fn cache_ok(state: usize, cache: Seq<char>) -> bool {
    &&& state == START || state == OPERATOR || state == ZERO || state == NUM_STATE
    &&& state == START ==> cache.len() == 0
    &&& state == OPERATOR ==> operator_of(cache) is Some
    &&& state == ZERO ==> cache == seq!['0']
    &&& state == NUM_STATE ==> canonical_digits(cache) && cache[0] != '0'
}

proof fn lemma_push_ok(toks: Seq<TokenView>, state: usize, cache: Seq<char>)
    requires
        tokens_ok(toks),
        cache_ok(state, cache),
    ensures
        tokens_ok(push_spec(toks, cache)),
{
    if operator_of(cache) is None {
        let (rest, num) = merge_spec(toks, cache);
        assert(tokens_ok(rest)) by {
            if rest.len() < toks.len() {
                assert forall|i: int| 0 <= i < rest.len() implies #[trigger] rest[i] == toks[i] by {}
            }
        }
        if cache.len() == 0 {
            assert(num.len() == 0 || num =~= seq!['-']);
            assert(num.len() > 0 ==> num.drop_first() =~= Seq::<char>::empty());
        } else {
            assert(canonical_digits(cache));
            assert(num == cache || num == seq!['-'] + cache);
            assert((seq!['-'] + cache).drop_first() =~= cache);
        }
        let pushed = rest.push((NUM, num));
        assert forall|i: int| 0 <= i < pushed.len() && (#[trigger] pushed[i]).0 == NUM && literal_value(pushed[i].1) is Some
            implies canonical_number(pushed[i].1) by {
            if i < rest.len() {
                assert(pushed[i] == rest[i]);
            }
        }
    } else {
        let pushed = toks.push((operator_of(cache)->0, cache));
        assert forall|i: int| 0 <= i < pushed.len() && (#[trigger] pushed[i]).0 == NUM && literal_value(pushed[i].1) is Some
            implies canonical_number(pushed[i].1) by {
            if i < toks.len() {
                assert(pushed[i] == toks[i]);
            }
        }
    }
}

proof fn lemma_step_ok(state: usize, cache: Seq<char>, toks: Seq<TokenView>, c: char, at: nat)
    requires
        tokens_ok(toks),
        cache_ok(state, cache),
    ensures
        match step(state, cache, toks, c, at) {
            Scan::Running { state, cache, toks } => tokens_ok(toks) && cache_ok(state, cache),
            _ => true,
        },
{
    let ns = next_state(c, state);
    if ns != ERROR {
        let flush = crate::lexer::states::is_accepting(state) && (ns != state || state == OPERATOR);
        if flush {
            lemma_push_ok(toks, state, cache);
        }
        let cache1 = if flush {
            Seq::<char>::empty()
        } else {
            cache
        };
        if c != ' ' {
            let cache2 = cache1.push(c);
            if ns == OPERATOR {
                assert(cache1.len() == 0);
                assert(cache2 =~= seq![c]);
            } else if ns == ZERO {
                assert(cache1.len() == 0);
                assert(cache2 =~= seq!['0']);
            } else {
                assert(ns == NUM_STATE);
                assert(cache2[0] == if cache1.len() == 0 { c } else { cache1[0] });
                assert forall|i: int| 0 <= i < cache2.len() implies is_digit(#[trigger] cache2[i]) by {
                    if i < cache1.len() {
                        assert(cache2[i] == cache1[i]);
                    }
                }
            }
        }
    }
}

proof fn lemma_scan_ok(s: Seq<char>, n: nat, toks0: Seq<TokenView>)
    requires
        tokens_ok(toks0),
    ensures
        match scan(s, n, toks0) {
            Scan::Running { state, cache, toks } => tokens_ok(toks) && cache_ok(state, cache),
            _ => true,
        },
    decreases n,
{
    if n > 0 {
        lemma_scan_ok(s, (n - 1) as nat, toks0);
        if let Scan::Running { state, cache, toks } = scan(s, (n - 1) as nat, toks0) {
            lemma_step_ok(state, cache, toks, s[n - 1], (n - 1) as nat);
        }
    }
}

/// The number tokens that the lexer gives are written as it writes numbers.
proof fn lemma_lex_ok(s: Seq<char>)
    requires
        lex_spec(s) is Ok,
    ensures
        tokens_ok(lex_spec(s)->Ok_0),
{
    lemma_scan_ok(s, s.len(), Seq::empty());
    if let Scan::Running { state, cache, toks } = scan(s, s.len(), Seq::empty()) {
        lemma_push_ok(toks, state, cache);
    }
}

pub open spec fn pairs_valid(ps: Seq<(SyntaxKind, NodeView)>) -> bool {
    forall|i: int| 0 <= i < ps.len() ==> is_binary_op((#[trigger] ps[i]).0) && valid_tree(ps[i].1)
}

proof fn lemma_tokens_ok_drop_first(ts: Seq<TokenView>)
    requires
        tokens_ok(ts),
        ts.len() > 0,
    ensures
        tokens_ok(ts.drop_first()),
{
    assert forall|i: int| 0 <= i < ts.drop_first().len() implies #[trigger] ts.drop_first()[i] == ts[i + 1] by {}
}

proof fn lemma_fold_valid(left: NodeView, ps: Seq<(SyntaxKind, NodeView)>)
    requires
        valid_tree(left),
        pairs_valid(ps),
    ensures
        valid_tree(fold_pairs(left, ps)),
    decreases ps.len(),
{
    if ps.len() > 0 {
        assert(pairs_valid(ps.drop_last())) by {
            assert forall|i: int| 0 <= i < ps.drop_last().len() implies #[trigger] ps.drop_last()[i] == ps[i] by {}
        }
        lemma_fold_valid(left, ps.drop_last());
        assert(ps.last() == ps[ps.len() - 1]);
    }
}

proof fn lemma_pairs_valid_cons(p: (SyntaxKind, NodeView), ps: Seq<(SyntaxKind, NodeView)>)
    requires
        is_binary_op(p.0),
        valid_tree(p.1),
        pairs_valid(ps),
    ensures
        pairs_valid(seq![p] + ps),
{
    let all = seq![p] + ps;
    assert forall|i: int| 0 <= i < all.len() implies is_binary_op((#[trigger] all[i]).0) && valid_tree(all[i].1) by {
        if i > 0 {
            assert(all[i] == ps[i - 1]);
        }
    }
}

proof fn lemma_factor_valid(ts: Seq<TokenView>)
    requires
        tokens_ok(ts),
    ensures
        factor_spec(ts) matches Some((rest, n)) ==> valid_tree(n) && tokens_ok(rest),
    decreases ts.len(), 0nat,
{
    if ts.len() > 0 {
        lemma_tokens_ok_drop_first(ts);
        assert(ts[0] == ts[0]);
        if literal_spec(ts) is None && ts[0].0 == OPEN_PAREN {
            lemma_expr_valid(ts.drop_first());
            if let Some((rest, n)) = expr_spec(ts.drop_first()) {
                if rest.len() > 0 {
                    lemma_tokens_ok_drop_first(rest);
                }
            }
        }
    }
}

proof fn lemma_term_pairs_valid(ts: Seq<TokenView>)
    requires
        tokens_ok(ts),
    ensures
        tokens_ok(term_pairs(ts).0),
        pairs_valid(term_pairs(ts).1),
    decreases ts.len(), 1nat,
{
    if ts.len() > 0 && (ts[0].0 == STAR || ts[0].0 == SLASH) {
        lemma_tokens_ok_drop_first(ts);
        lemma_factor_valid(ts.drop_first());
        if let Some((rest, right)) = factor_spec(ts.drop_first()) {
            if rest.len() < ts.len() {
                lemma_term_pairs_valid(rest);
                lemma_pairs_valid_cons((ts[0].0, right), term_pairs(rest).1);
            }
        }
    }
}

proof fn lemma_term_valid(ts: Seq<TokenView>)
    requires
        tokens_ok(ts),
    ensures
        term_spec(ts) matches Some((rest, n)) ==> valid_tree(n) && tokens_ok(rest),
    decreases ts.len(), 2nat,
{
    lemma_factor_valid(ts);
    if let Some((rest, left)) = factor_spec(ts) {
        if rest.len() < ts.len() {
            lemma_term_pairs_valid(rest);
            lemma_fold_valid(left, term_pairs(rest).1);
        }
    }
}

proof fn lemma_expr_pairs_valid(ts: Seq<TokenView>)
    requires
        tokens_ok(ts),
    ensures
        tokens_ok(expr_pairs(ts).0),
        pairs_valid(expr_pairs(ts).1),
    decreases ts.len(), 3nat,
{
    if ts.len() > 0 && (ts[0].0 == PLUS || ts[0].0 == MINUS) {
        lemma_tokens_ok_drop_first(ts);
        lemma_term_valid(ts.drop_first());
        if let Some((rest, right)) = term_spec(ts.drop_first()) {
            if rest.len() < ts.len() {
                lemma_expr_pairs_valid(rest);
                lemma_pairs_valid_cons((ts[0].0, right), expr_pairs(rest).1);
            }
        }
    }
}

proof fn lemma_expr_valid(ts: Seq<TokenView>)
    requires
        tokens_ok(ts),
    ensures
        expr_spec(ts) matches Some((rest, n)) ==> valid_tree(n) && tokens_ok(rest),
    decreases ts.len(), 4nat,
{
    lemma_term_valid(ts);
    if let Some((rest, left)) = term_spec(ts) {
        if rest.len() < ts.len() {
            lemma_expr_pairs_valid(rest);
            lemma_fold_valid(left, expr_pairs(rest).1);
        }
    }
}

/// Every tree built from a text satisfies the invariants of the data model.
pub proof fn lemma_build_valid(e: Seq<char>)
    requires
        build_spec(e) is Ok,
    ensures
        valid_tree(build_spec(e)->Ok_0),
{
    lemma_lex_ok(e);
    lemma_expr_valid(lex_spec(e)->Ok_0);
}

// ---------------------------------------------------------------------------
// Laws
// ---------------------------------------------------------------------------
/// The canonical text of a well-grouped tree builds that same tree again.
pub proof fn lemma_build_format(t: NodeView)
    requires
        well_grouped(t),
    ensures
        build_spec(format_spec(t)) == Ok::<NodeView, Seq<char>>(t),
{
    lemma_lex_format(t);
    lemma_parse_tokens(t);
    assert(syntax_spec(tokens_of(t)) == Ok::<NodeView, Seq<char>>(t));
}

/// Round trip: where the tree built from the text `e` is grouped as its
/// canonical text reads, that text builds a tree again, and that tree has
/// the same value.
pub proof fn lemma_round_trip(e: Seq<char>)
    requires
        build_spec(e) is Ok,
        grouped(build_spec(e)->Ok_0),
    ensures
        build_spec(format_spec(build_spec(e)->Ok_0)) is Ok,
        value_of(build_spec(format_spec(build_spec(e)->Ok_0))->Ok_0) == value_of(
            build_spec(e)->Ok_0,
        ),
{
    lemma_build_valid(e);
    lemma_build_format(build_spec(e)->Ok_0);
}

/// Idempotence: where the tree built from the text `e` is grouped as its
/// canonical text reads, formatting is a fixed point: that text, built and
/// formatted again, is the same text.
pub proof fn lemma_format_idempotent(e: Seq<char>)
    requires
        build_spec(e) is Ok,
        grouped(build_spec(e)->Ok_0),
    ensures
        build_spec(format_spec(build_spec(e)->Ok_0)) is Ok,
        format_spec(build_spec(format_spec(build_spec(e)->Ok_0))->Ok_0) == format_spec(
            build_spec(e)->Ok_0,
        ),
{
    lemma_build_valid(e);
    lemma_build_format(build_spec(e)->Ok_0);
}

} // verus!
