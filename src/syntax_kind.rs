use vstd::prelude::*;

verus! {

/// The kind of a token or of an AST node.
#[derive(Debug, PartialEq, Eq, Structural, Copy, Clone)]
pub enum SyntaxKind {
    Num,
    AddExpr,
    SubExpr,
    MulExpr,
    DivExpr,
    OpenParen,
    CloseParen,
    Plus,
    Minus,
    Star,
    Slash,
    Unknow,
}

// node kinds
pub const NUM: SyntaxKind = SyntaxKind::Num;

pub const ADD_EXPR: SyntaxKind = SyntaxKind::AddExpr;

pub const SUB_EXPR: SyntaxKind = SyntaxKind::SubExpr;

pub const MUL_EXPR: SyntaxKind = SyntaxKind::MulExpr;

pub const DIV_EXPR: SyntaxKind = SyntaxKind::DivExpr;

// token kinds
pub const OPEN_PAREN: SyntaxKind = SyntaxKind::OpenParen;

pub const CLOSE_PAREN: SyntaxKind = SyntaxKind::CloseParen;

pub const PLUS: SyntaxKind = SyntaxKind::Plus;

pub const MINUS: SyntaxKind = SyntaxKind::Minus;

pub const STAR: SyntaxKind = SyntaxKind::Star;

pub const SLASH: SyntaxKind = SyntaxKind::Slash;

// anything else
pub const UNKNOW: SyntaxKind = SyntaxKind::Unknow;

/// The operator kind that a one-character text stands for, if any.
pub open spec fn operator_of(s: Seq<char>) -> Option<SyntaxKind> {
    if s.len() != 1 {
        None
    } else if s[0] == '(' {
        Some(OPEN_PAREN)
    } else if s[0] == ')' {
        Some(CLOSE_PAREN)
    } else if s[0] == '+' {
        Some(PLUS)
    } else if s[0] == '-' {
        Some(MINUS)
    } else if s[0] == '*' {
        Some(STAR)
    } else if s[0] == '/' {
        Some(SLASH)
    } else {
        None
    }
}

/// Binding strength of an operator text: `*` and `/` bind tighter than `+` and `-`.
pub open spec fn priority_of(s: Seq<char>) -> usize {
    if s =~= seq!['*'] || s =~= seq!['/'] {
        2
    } else if s =~= seq!['+'] || s =~= seq!['-'] {
        1
    } else {
        usize::MAX
    }
}

/// The text of an operator kind.
pub open spec fn text_of(k: SyntaxKind) -> Seq<char> {
    if k == OPEN_PAREN {
        seq!['(']
    } else if k == CLOSE_PAREN {
        seq![')']
    } else if k == PLUS {
        seq!['+']
    } else if k == MINUS {
        seq!['-']
    } else if k == STAR {
        seq!['*']
    } else if k == SLASH {
        seq!['/']
    } else {
        seq!['u', 'n', 'k', 'n', 'o', 'w']
    }
}

impl SyntaxKind {
    /// The operator kind of a text such as `"("` or `"+"`, or `None`.
    pub fn from_operator(str: &str) -> (r: Option<SyntaxKind>)
        ensures
            r == operator_of(str@),
    {
        if str.unicode_len() != 1 {
            return None;
        }
        let c = str.get_char(0);
        if c == '(' {
            Some(OPEN_PAREN)
        } else if c == ')' {
            Some(CLOSE_PAREN)
        } else if c == '+' {
            Some(PLUS)
        } else if c == '-' {
            Some(MINUS)
        } else if c == '*' {
            Some(STAR)
        } else if c == '/' {
            Some(SLASH)
        } else {
            None
        }
    }

    /// The priority of an operator text; a higher priority binds tighter.
    pub fn get_op_priority(str: &str) -> (r: usize)
        ensures
            r == priority_of(str@),
    {
        if str.unicode_len() != 1 {
            return usize::MAX;
        }
        let c = str.get_char(0);
        assert(str@ =~= seq![c]);
        if c == '*' || c == '/' {
            2
        } else if c == '+' || c == '-' {
            1
        } else {
            usize::MAX
        }
    }

    /// The text of an operator kind; `"unknow"` for any other kind.
    pub fn into_str(self) -> (r: &'static str)
        ensures
            r@ == text_of(self),
    {
        if self == OPEN_PAREN {
            proof { reveal_strlit("("); }
            "("
        } else if self == CLOSE_PAREN {
            proof { reveal_strlit(")"); }
            ")"
        } else if self == PLUS {
            proof { reveal_strlit("+"); }
            "+"
        } else if self == MINUS {
            proof { reveal_strlit("-"); }
            "-"
        } else if self == STAR {
            proof { reveal_strlit("*"); }
            "*"
        } else if self == SLASH {
            proof { reveal_strlit("/"); }
            "/"
        } else {
            proof { reveal_strlit("unknow"); }
            "unknow"
        }
    }
}

} // verus!
