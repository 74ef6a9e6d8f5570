use vstd::prelude::*;

verus! {

pub const ERROR: usize = 0;

pub const START: usize = 1;

pub const OPERATOR: usize = 2;

pub const ZERO: usize = 3;

pub const NUM: usize = 4;

/// Characters that form a token of their own.
pub open spec fn is_op_char(c: char) -> bool {
    c == '-' || c == '+' || c == '*' || c == '/' || c == '(' || c == ')'
}

pub open spec fn is_nonzero_digit(c: char) -> bool {
    '1' <= c && c <= '9'
}

/// A state in which the characters read so far end a token.
pub open spec fn is_accepting(state: usize) -> bool {
    state == OPERATOR || state == ZERO || state == NUM
}

/// The transition table of the automaton; `ERROR` absorbs, and so does any
/// character outside the four input classes.
pub open spec fn next_state(c: char, state: usize) -> usize {
    if state == ERROR || state > NUM {
        ERROR
    } else if is_op_char(c) {
        OPERATOR
    } else if c == ' ' {
        START
    } else if c == '0' {
        if state == ZERO {
            ERROR
        } else if state == NUM {
            NUM
        } else {
            ZERO
        }
    } else if is_nonzero_digit(c) {
        if state == ZERO {
            ERROR
        } else {
            NUM
        }
    } else {
        ERROR
    }
}

/// Whether `state` is one in which a token may end.
pub fn is_terminator(state: usize) -> (r: bool)
    ensures
        r == is_accepting(state),
{
    state == OPERATOR || state == ZERO || state == NUM
}

/// One step of the automaton on the character `c`.
pub fn transition(c: char, state: usize) -> (r: usize)
    ensures
        r == next_state(c, state),
{
    if state == ERROR || state > NUM {
        return ERROR;
    }
    let is_op = c == '-' || c == '+' || c == '*' || c == '/' || c == '(' || c == ')';
    if is_op {
        OPERATOR
    } else if c == ' ' {
        START
    } else if c == '0' {
        if state == ZERO {
            ERROR
        } else if state == NUM {
            NUM
        } else {
            ZERO
        }
    } else if '1' <= c && c <= '9' {
        if state == ZERO {
            ERROR
        } else {
            NUM
        }
    } else {
        ERROR
    }
}

} // verus!
