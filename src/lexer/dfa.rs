use vstd::prelude::*;

use crate::lexer::states::{
    is_accepting, is_terminator, next_state, transition, ERROR, NUM as NUM_STATE, START,
};
use crate::lexer::{clone_stream, stream_view, TokenStream, TokenView};
use crate::syntax_kind::{
    operator_of, SyntaxKind, MINUS, NUM, OPEN_PAREN, PLUS, SLASH, STAR,
};

verus! {

/// Where the automaton stands after a prefix of the input.
pub enum Scan {
    /// No error so far: the current state, the text of the token being read,
    /// and the tokens completed so far.
    Running { state: usize, cache: Seq<char>, toks: Seq<TokenView> },
    /// The character at `at` led to the error state.
    Failed { at: nat, cache: Seq<char>, toks: Seq<TokenView> },
}

pub open spec fn is_sign(k: SyntaxKind) -> bool {
    k == PLUS || k == MINUS
}

/// Kinds after which a sign cannot be a binary operator.
pub open spec fn is_operand_prefix(k: SyntaxKind) -> bool {
    k == PLUS || k == MINUS || k == STAR || k == SLASH || k == OPEN_PAREN
}

pub open spec fn signed(sign: SyntaxKind, text: Seq<char>) -> Seq<char> {
    if sign == MINUS {
        seq!['-'] + text
    } else {
        text
    }
}

/// Folds a sign that cannot be a binary operator into the number `text`
/// about to be emitted: the tokens left and the number's new text.
pub open spec fn merge_spec(toks: Seq<TokenView>, text: Seq<char>) -> (Seq<TokenView>, Seq<char>) {
    let len = toks.len();
    if len >= 2 && is_operand_prefix(toks[len - 2].0) && is_sign(toks[len - 1].0) {
        (toks.drop_last(), signed(toks[len - 1].0, text))
    } else if len == 1 && is_sign(toks[0].0) {
        (toks.drop_last(), signed(toks[0].0, text))
    } else {
        (toks, text)
    }
}

/// The tokens after the completed text `text` is emitted: an operator as it
/// is, anything else as a number, with a sign folded in.
pub open spec fn push_spec(toks: Seq<TokenView>, text: Seq<char>) -> Seq<TokenView> {
    match operator_of(text) {
        Some(k) => toks.push((k, text)),
        None => {
            let (rest, num) = merge_spec(toks, text);
            rest.push((NUM, num))
        },
    }
}

/// One character of input read in a running scan.
pub open spec fn step(state: usize, cache: Seq<char>, toks: Seq<TokenView>, c: char, at: nat) -> Scan {
    let ns = next_state(c, state);
    if ns == ERROR {
        Scan::Failed { at, cache, toks }
    } else {
        let flush = is_accepting(state) && (ns != state || state == crate::lexer::states::OPERATOR);
        let toks1 = if flush {
            push_spec(toks, cache)
        } else {
            toks
        };
        let cache1 = if flush {
            Seq::<char>::empty()
        } else {
            cache
        };
        let cache2 = if c != ' ' {
            cache1.push(c)
        } else {
            cache1
        };
        Scan::Running { state: ns, cache: cache2, toks: toks1 }
    }
}

/// The scan of the first `n` characters of `s`, starting after the tokens `toks0`.
pub open spec fn scan(s: Seq<char>, n: nat, toks0: Seq<TokenView>) -> Scan
    decreases n,
{
    if n == 0 {
        Scan::Running { state: START, cache: Seq::empty(), toks: toks0 }
    } else {
        match scan(s, (n - 1) as nat, toks0) {
            Scan::Running { state, cache, toks } => step(state, cache, toks, s[n - 1], (n - 1) as nat),
            failed => failed,
        }
    }
}

pub open spec fn digit_char(d: nat) -> char {
    if d == 0 {
        '0'
    } else if d == 1 {
        '1'
    } else if d == 2 {
        '2'
    } else if d == 3 {
        '3'
    } else if d == 4 {
        '4'
    } else if d == 5 {
        '5'
    } else if d == 6 {
        '6'
    } else if d == 7 {
        '7'
    } else if d == 8 {
        '8'
    } else {
        '9'
    }
}

/// The decimal notation of `n`.
pub open spec fn decimal(n: nat) -> Seq<char>
    decreases n,
{
    if n < 10 {
        seq![digit_char(n)]
    } else {
        decimal(n / 10) + seq![digit_char(n % 10)]
    }
}

pub open spec fn empty_message() -> Seq<char> {
    "an empty string was received"@
}

pub open spec fn unexpected_message(at: nat, cache: Seq<char>) -> Seq<char> {
    "unexpected token at the "@ + decimal(at) + " of the input, current cache: "@ + cache
}

/// The tokens at the end of the input: the text being read, if there is any,
/// is emitted as the last token.
pub open spec fn flush_spec(toks: Seq<TokenView>, cache: Seq<char>) -> Seq<TokenView> {
    if cache.len() == 0 {
        toks
    } else {
        push_spec(toks, cache)
    }
}

/// What a run over `s` gives, starting after the tokens `toks0`: the tokens,
/// or the error message.
pub open spec fn run_spec(s: Seq<char>, toks0: Seq<TokenView>) -> Result<Seq<TokenView>, Seq<char>> {
    if s.len() == 0 {
        Err(empty_message())
    } else {
        match scan(s, s.len(), toks0) {
            Scan::Running { cache, toks, .. } => Ok(flush_spec(toks, cache)),
            Scan::Failed { at, cache, .. } => Err(unexpected_message(at, cache)),
        }
    }
}

/// What lexing `s` gives.
pub open spec fn lex_spec(s: Seq<char>) -> Result<Seq<TokenView>, Seq<char>> {
    run_spec(s, Seq::empty())
}

/// The tokens that a run over `s` leaves behind.
pub open spec fn run_tokens(s: Seq<char>, toks0: Seq<TokenView>) -> Seq<TokenView> {
    if s.len() == 0 {
        toks0
    } else {
        match scan(s, s.len(), toks0) {
            Scan::Running { cache, toks, .. } => flush_spec(toks, cache),
            Scan::Failed { toks, .. } => toks,
        }
    }
}

/// Once a scan has failed, reading more characters changes nothing.
proof fn lemma_failed_stays(s: Seq<char>, m: nat, n: nat, toks0: Seq<TokenView>)
    requires
        m <= n,
        scan(s, m, toks0) is Failed,
    ensures
        scan(s, n, toks0) == scan(s, m, toks0),
    decreases n - m,
{
    if m < n {
        lemma_failed_stays(s, m, (n - 1) as nat, toks0);
    }
}

fn digit_str(d: usize) -> (r: &'static str)
    requires
        d < 10,
    ensures
        r@ == seq![digit_char(d as nat)],
{
    if d == 0 {
        proof { reveal_strlit("0"); }
        "0"
    } else if d == 1 {
        proof { reveal_strlit("1"); }
        "1"
    } else if d == 2 {
        proof { reveal_strlit("2"); }
        "2"
    } else if d == 3 {
        proof { reveal_strlit("3"); }
        "3"
    } else if d == 4 {
        proof { reveal_strlit("4"); }
        "4"
    } else if d == 5 {
        proof { reveal_strlit("5"); }
        "5"
    } else if d == 6 {
        proof { reveal_strlit("6"); }
        "6"
    } else if d == 7 {
        proof { reveal_strlit("7"); }
        "7"
    } else if d == 8 {
        proof { reveal_strlit("8"); }
        "8"
    } else {
        proof { reveal_strlit("9"); }
        "9"
    }
}

/// Appends the decimal notation of `n` to `out`.
fn push_decimal(out: &mut String, n: usize)
    ensures
        final(out)@ == old(out)@ + decimal(n as nat),
    decreases n,
{
    if n >= 10 {
        push_decimal(out, n / 10);
    }
    out.append(digit_str(n % 10));
    assert(final(out)@ =~= old(out)@ + decimal(n as nat));
}

fn unexpected_token(at: usize, cache: &str) -> (r: String)
    ensures
        r@ == unexpected_message(at as nat, cache@),
{
    let mut msg = String::from_str("unexpected token at the ");
    push_decimal(&mut msg, at);
    msg.append(" of the input, current cache: ");
    msg.append(cache);
    assert(msg@ =~= unexpected_message(at as nat, cache@));
    msg
}

/// Deterministic finite automaton over the characters of an expression.
///
/// States `START`, `OPERATOR`, `ZERO`, `NUM` and the absorbing `ERROR`;
/// inputs: operator characters, the space, `0`, and `1`-`9`.
///
/// |          | op | ws | 0 | 1-9 |
/// |----------|----|----|---|-----|
/// | START    | OP | ST | Z | N   |
/// | OPERATOR | OP | ST | Z | N   |
/// | ZERO     | OP | ST | E | E   |
/// | NUM      | OP | ST | N | N   |
pub struct DFA {
    code: String,
    token_stream: TokenStream,
}

impl DFA {
    pub closed spec fn code_view(&self) -> Seq<char> {
        self.code@
    }

    pub closed spec fn tokens_view(&self) -> Seq<TokenView> {
        stream_view(self.token_stream@)
    }

    pub fn new(code: String) -> (r: Self)
        ensures
            r.code_view() == code@,
            r.tokens_view() == Seq::<TokenView>::empty(),
    {
        let r = DFA { code, token_stream: Vec::new() };
        assert(r.tokens_view() =~= Seq::<TokenView>::empty());
        r
    }

    pub fn token_stream(&self) -> (r: TokenStream)
        ensures
            stream_view(r@) == self.tokens_view(),
    {
        clone_stream(&self.token_stream)
    }

    /// Reads the whole input, appending its tokens to the stream.
    pub fn run(&mut self) -> (r: Result<(), String>)
        ensures
            final(self).code_view() == old(self).code_view(),
            final(self).tokens_view() == run_tokens(old(self).code_view(), old(self).tokens_view()),
            match run_spec(old(self).code_view(), old(self).tokens_view()) {
                Ok(_) => r is Ok,
                Err(m) => r is Err && r->Err_0@ == m,
            },
    {
        let code = self.code.clone();
        let n = code.as_str().unicode_len();
        if n == 0 {
            return Err(String::from_str("an empty string was received"));
        }
        let ghost s = code@;
        let ghost toks0 = self.tokens_view();
        let mut idx: usize = 0;
        let mut state: usize = START;
        let mut start: usize = 0;
        assert(s.subrange(0, 0) =~= Seq::<char>::empty());
        while idx < n
            invariant
                n == s.len(),
                s == code@,
                code@ == old(self).code_view(),
                self.code_view() == old(self).code_view(),
                toks0 == old(self).tokens_view(),
                idx <= n,
                start <= idx,
                state != ERROR,
                state <= NUM_STATE,
                state == START ==> start == idx,
                scan(s, idx as nat, toks0) == (Scan::Running {
                    state,
                    cache: s.subrange(start as int, idx as int),
                    toks: self.tokens_view(),
                }),
            decreases n - idx,
        {
            let c = code.as_str().get_char(idx);
            let ns = transition(c, state);
            if ns == ERROR {
                let msg = unexpected_token(idx, code.as_str().substring_char(start, idx));
                proof {
                    lemma_failed_stays(s, (idx + 1) as nat, s.len(), toks0);
                }
                return Err(msg);
            }
            let ghost cache = s.subrange(start as int, idx as int);
            let ghost state0 = state;
            let ghost toks_before = self.tokens_view();
            if is_terminator(state) && (ns != state || state == crate::lexer::states::OPERATOR) {
                let text = code.as_str().substring_char(start, idx);
                self.push_token(text);
                start = idx;
            }
            if c == ' ' {
                start = idx + 1;
            }
            idx += 1;
            state = ns;
            proof {
                let next = step(state0, cache, toks_before, c, (idx - 1) as nat);
                assert(scan(s, idx as nat, toks0) == next);
                if let Scan::Running { cache: c2, .. } = next {
                    assert(s.subrange(start as int, idx as int) =~= c2);
                }
            }
        }
        if start < n {
            let text = code.as_str().substring_char(start, n);
            self.push_token(text);
        }
        Ok(())
    }

    /// Emits the completed text `text` as a token.
    fn push_token(&mut self, text: &str)
        ensures
            final(self).code_view() == old(self).code_view(),
            final(self).tokens_view() == push_spec(old(self).tokens_view(), text@),
    {
        match SyntaxKind::from_operator(text) {
            Some(kind) => {
                self.token_stream.push((kind, String::from_str(text)));
                assert(self.tokens_view() =~= old(self).tokens_view().push((kind, text@)));
            },
            None => {
                let num = self.try_merge(String::from_str(text));
                let ghost mid = self.tokens_view();
                self.token_stream.push((NUM, num));
                assert(self.tokens_view() =~= mid.push((NUM, num@)));
            },
        }
    }

    /// Folds a preceding sign into the number `text` where the sign cannot be
    /// a binary operator.
    fn try_merge(&mut self, text: String) -> (r: String)
        ensures
            final(self).code_view() == old(self).code_view(),
            (final(self).tokens_view(), r@) == merge_spec(old(self).tokens_view(), text@),
    {
        let len = self.token_stream.len();
        if len >= 2 {
            let k1 = self.token_stream[len - 2].0;
            let k2 = self.token_stream[len - 1].0;
            if (k1 == PLUS || k1 == MINUS || k1 == STAR || k1 == SLASH || k1 == OPEN_PAREN) && (
            k2 == PLUS || k2 == MINUS) {
                self.token_stream.pop();
                assert(self.tokens_view() =~= old(self).tokens_view().drop_last());
                if k2 == MINUS {
                    let mut r = String::from_str("-");
                    r.append(text.as_str());
                    proof { reveal_strlit("-"); }
                    assert(r@ =~= signed(k2, text@));
                    return r;
                }
                return text;
            }
            text
        } else if len == 1 {
            let k1 = self.token_stream[0].0;
            if k1 == PLUS || k1 == MINUS {
                self.token_stream.pop();
                assert(self.tokens_view() =~= old(self).tokens_view().drop_last());
                if k1 == MINUS {
                    let mut r = String::from_str("-");
                    r.append(text.as_str());
                    proof { reveal_strlit("-"); }
                    assert(r@ =~= signed(k1, text@));
                    return r;
                }
                return text;
            }
            text
        } else {
            text
        }
    }
}

} // verus!
