use arith::lex;
use arith::parser::grammar::{expr, literal};
use arith::parser::parser_combinator::Parser;
use arith::parser::Node;
use arith::parser::Node::{Expr, Literal};
use arith::syntax_kind::{ADD_EXPR, DIV_EXPR, MINUS, MUL_EXPR, NUM, PLUS, SLASH, STAR, SUB_EXPR};

fn get_number() -> (Box<Node>, Box<Node>, Box<Node>, Box<Node>, Box<Node>) {
    let one = Box::new(Literal {
        kind: NUM,
        value: 1,
        raw: "1".to_string(),
    });
    let two = Box::new(Literal {
        kind: NUM,
        value: 2,
        raw: "2".to_string(),
    });
    let three = Box::new(Literal {
        kind: NUM,
        value: 3,
        raw: "3".to_string(),
    });
    let four = Box::new(Literal {
        kind: NUM,
        value: 4,
        raw: "4".to_string(),
    });
    let five = Box::new(Literal {
        kind: NUM,
        value: 5,
        raw: "5".to_string(),
    });
    (one, two, three, four, five)
}
fn get_expr() -> (Box<Node>, Box<Node>, Box<Node>) {
    let (one, two, three, four, _) = get_number();
    let one_plus_two = Box::new(Expr {
        kind: ADD_EXPR,
        left: one.clone(),
        op: PLUS,
        right: two.clone(),
    });
    let two_plus_three = Box::new(Expr {
        kind: ADD_EXPR,
        left: two.clone(),
        op: PLUS,
        right: three.clone(),
    });
    let three_plus_four = Box::new(Expr {
        kind: ADD_EXPR,
        left: three.clone(),
        op: PLUS,
        right: four.clone(),
    });
    (one_plus_two, two_plus_three, three_plus_four)
}

#[test]
fn test_literal() {
    let input = lex("1").unwrap();
    assert_eq!(
        Ok((
            vec![],
            Literal {
                kind: NUM,
                value: 1,
                raw: "1".to_string()
            }
        )),
        literal().parse(input)
    );
}

#[test]
fn test_expr() {
    let (one, two, three, _, _) = get_number();
    let (one_plus_two, _, _) = get_expr();

    let input = lex("1 + 2 - 3").unwrap();
    assert_eq!(
        Ok((
            vec![],
            Expr {
                kind: SUB_EXPR,
                left: one_plus_two.clone(),
                op: MINUS,
                right: three.clone()
            }
        )),
        expr().parse(input)
    );
    let input = lex("1 * 2 / 3").unwrap();
    assert_eq!(
        Ok((
            vec![],
            Expr {
                kind: DIV_EXPR,
                left: Box::new(Expr {
                    kind: MUL_EXPR,
                    left: one.clone(),
                    op: STAR,
                    right: two.clone()
                }),
                op: SLASH,
                right: three.clone()
            }
        )),
        expr().parse(input)
    );

    let input = lex("( 1 )").unwrap();
    assert_eq!(
        Ok((
            vec![],
            Literal {
                kind: NUM,
                value: 1,
                raw: "1".to_string()
            }
        )),
        expr().parse(input)
    );
}

#[test]
fn mul_precedence_over_add_and_sub() {
    let (one, two, three, four, _) = get_number();
    let (one_plus_two, _, _) = get_expr();

    let input = lex("1 + 2 * 3").unwrap();
    assert_eq!(
        Ok((
            vec![],
            Expr {
                kind: ADD_EXPR,
                left: one.clone(),
                op: PLUS,
                right: Box::new(Expr {
                    kind: MUL_EXPR,
                    left: two.clone(),
                    op: STAR,
                    right: three.clone()
                })
            }
        )),
        expr().parse(input)
    );

    let input = lex("1 + 2 - 3 * 4").unwrap();
    assert_eq!(
        Ok((
            vec![],
            Expr {
                kind: SUB_EXPR,
                left: one_plus_two.clone(),
                op: MINUS,
                right: Box::new(Expr {
                    kind: MUL_EXPR,
                    left: three.clone(),
                    op: STAR,
                    right: four.clone()
                })
            }
        )),
        expr().parse(input)
    );

    let input = lex("1 + 2 * 3 * 4").unwrap();
    assert_eq!(
        Ok((
            vec![],
            Expr {
                kind: ADD_EXPR,
                left: one.clone(),
                op: PLUS,
                right: Box::new(Expr {
                    kind: MUL_EXPR,
                    left: Box::new(Expr {
                        kind: MUL_EXPR,
                        left: two.clone(),
                        op: STAR,
                        right: three.clone()
                    }),
                    op: STAR,
                    right: four.clone()
                })
            }
        )),
        expr().parse(input)
    );
}

#[test]
fn div_precedence_over_add_and_sub() {
    let (one, two, three, four, _) = get_number();
    let (one_plus_two, _, _) = get_expr();

    let input = lex("1 + 2 / 3").unwrap();
    assert_eq!(
        Ok((
            vec![],
            Expr {
                kind: ADD_EXPR,
                left: one.clone(),
                op: PLUS,
                right: Box::new(Expr {
                    kind: DIV_EXPR,
                    left: two.clone(),
                    op: SLASH,
                    right: three.clone()
                })
            }
        )),
        expr().parse(input)
    );

    let input = lex("1 + 2 - 3 / 4").unwrap();
    assert_eq!(
        Ok((
            vec![],
            Expr {
                kind: SUB_EXPR,
                left: one_plus_two.clone(),
                op: MINUS,
                right: Box::new(Expr {
                    kind: DIV_EXPR,
                    left: three.clone(),
                    op: SLASH,
                    right: four.clone()
                })
            }
        )),
        expr().parse(input)
    );

    let input = lex("1 + 2 / 3 / 4").unwrap();
    assert_eq!(
        Ok((
            vec![],
            Expr {
                kind: ADD_EXPR,
                left: one.clone(),
                op: PLUS,
                right: Box::new(Expr {
                    kind: DIV_EXPR,
                    left: Box::new(Expr {
                        kind: DIV_EXPR,
                        left: two.clone(),
                        op: SLASH,
                        right: three.clone()
                    }),
                    op: SLASH,
                    right: four.clone()
                })
            }
        )),
        expr().parse(input)
    );
}

#[test]
fn paren_expr_have_the_highest_priority() {
    let (one, _, _, _, _) = get_number();
    let (_, two_plus_three, _) = get_expr();

    let input = lex("1 * ( 2 + 3 )").unwrap();
    assert_eq!(
        Ok((
            vec![],
            Expr {
                kind: MUL_EXPR,
                left: one.clone(),
                op: STAR,
                right: two_plus_three.clone()
            }
        )),
        expr().parse(input)
    );
}

#[test]
fn allow_to_nest_paren() {
    let (one, two, _, _, _) = get_number();
    let (_, _, three_plus_four) = get_expr();

    let input = lex("1 * ( 2 + ( 3 + 4 ) )").unwrap();
    assert_eq!(
        Ok((
            vec![],
            Expr {
                kind: MUL_EXPR,
                left: one.clone(),
                op: STAR,
                right: Box::new(Expr {
                    kind: ADD_EXPR,
                    left: two.clone(),
                    op: PLUS,
                    right: three_plus_four.clone()
                })
            }
        )),
        expr().parse(input)
    );
}
