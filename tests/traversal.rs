use arith::parser::Node;
use arith::syntax_kind::{ADD_EXPR, NUM, PLUS, SLASH, DIV_EXPR};
use arith::traversal::eval::Executor;
use arith::traversal::format::Formatter;
use arith::{build_ast, eval, lex, syntax};

fn get_node(code: &str) -> Node {
    syntax(lex(code).unwrap()).unwrap()
}

#[test]
fn lib_smoke() {
    let expr = "1 * 2 + (3 / (4  + (-5)))";
    let ast = build_ast(expr).unwrap();
    assert_eq!(-1, eval(&ast));
    assert_eq!("1 * 2 + 3 / (4 + (-5))", arith::format(&ast));
}

#[test]
fn eval_smoke() {
    let mut e = Executor::new();

    assert_eq!(3, e.eval(&get_node("2 + 1")));
    assert_eq!(1, e.eval(&get_node("2 - 1")));
    assert_eq!(2, e.eval(&get_node("2 * 1")));
    assert_eq!(2, e.eval(&get_node("2 / 1")));

    assert_eq!(7, e.eval(&get_node("1 + 2 * 3")));
    assert_eq!(5, e.eval(&get_node("1 * ( 2 + 3 )")));
    assert_eq!(14, e.eval(&get_node("1 * ( 2 * ( 3 + 4 ))")));
}

#[test]
fn format_smoke() {
    let mut f = Formatter::new();
    assert_eq!("1 * (2 + 3)", f.format(&get_node("1*(2+3)")));

    let mut f = Formatter::new();
    assert_eq!("1 * 2 + 3", f.format(&get_node("1*2+3")));

    let mut f = Formatter::new();
    assert_eq!("1 * (2 + 3) * 4", f.format(&get_node("1*(2+3)*4")));

    let mut f = Formatter::new();
    assert_eq!("1 * 2 * (3 + 4)", f.format(&get_node("1* ( 2 * ( 3 + 4))")));
}

#[test]
fn allow_negative() {
    let mut f = Formatter::new();
    assert_eq!("1 + (-1)", f.format(&get_node("1+(-1)")));

    let mut f = Formatter::new();
    assert_eq!("-1 + 1", f.format(&get_node("-1+1")));
}

#[test]
fn precedence() {
    assert_eq!(7, eval(&build_ast("1+2*3").unwrap()));
    assert_eq!(9, eval(&build_ast("(1+2)*3").unwrap()));
}

#[test]
fn left_associativity() {
    let ast = build_ast("1-2-3").unwrap();
    assert_eq!("1 - 2 - 3", arith::format(&ast));
    assert_eq!(-4, eval(&ast));
}

#[test]
fn formatter_parenthesization() {
    assert_eq!("1 * (2 + 3)", arith::format(&build_ast("1*(2+3)").unwrap()));
    assert_eq!("1 + (-1)", arith::format(&build_ast("1+(-1)").unwrap()));
}

#[test]
fn empty_and_garbage_input() {
    assert!(lex("").is_err());
    assert!(build_ast("(1+2").is_err());
    assert_eq!(
        Err("panic at parsing `(1+2`".to_string()),
        build_ast("(1+2")
    );
    assert_eq!(Err("an empty string was received".to_string()), build_ast(""));
}

#[test]
fn division_truncates_toward_zero() {
    assert_eq!(-2, eval(&build_ast("-7/3").unwrap()));
    assert_eq!(-2, eval(&build_ast("7/-3").unwrap()));
    assert_eq!(2, eval(&build_ast("-7/(-3)").unwrap()));
    assert_eq!(2, eval(&build_ast("7/3").unwrap()));
}

#[test]
fn literal_raw_text_is_printed() {
    assert_eq!("-0 * 5", arith::format(&build_ast("-0*5").unwrap()));
    assert_eq!("10 / 2", arith::format(&build_ast("+10/2").unwrap()));
}

#[test]
fn formatting_appends_to_earlier_output() {
    let mut f = Formatter::new();
    assert_eq!("1 + 2", f.format(&get_node("1+2")));
    assert_eq!("1 + 23", f.format(&get_node("3")));
}

#[test]
fn number_out_of_range_is_not_a_literal() {
    assert!(build_ast("2147483648").is_err());
    assert_eq!(i32::MAX, eval(&build_ast("2147483647").unwrap()));
    assert_eq!(i32::MIN, eval(&build_ast("-2147483648").unwrap()));
}

#[test]
fn tokens_after_the_expression_are_an_error() {
    assert_eq!(Err("panic at parsing `2`".to_string()), build_ast("1 2"));
    assert_eq!(Err("panic at parsing `)`".to_string()), build_ast("1+2)"));
    assert_eq!(
        Err("panic at parsing `+`".to_string()),
        syntax(lex("1 + ").unwrap()).map(|_| ())
    );
    assert_eq!(Err("panic at parsing ``".to_string()), build_ast(" "));
    assert_eq!(
        Node::Literal {
            kind: NUM,
            value: 1,
            raw: "1".to_string()
        },
        build_ast("1 ").unwrap()
    );
    assert_eq!(3, eval(&build_ast("1 + 2 ").unwrap()));
}

#[test]
fn reformatting_is_stable() {
    for text in ["1-(2-3)", "(1+2)*3", "1*(2+3)*4", "-1+(-2)*(3-4)", "8/(4/2)"] {
        let once = arith::format(&build_ast(text).unwrap());
        let twice = arith::format(&build_ast(&once).unwrap());
        assert_eq!(once, twice);
    }
}

#[test]
fn reformatted_text_keeps_its_value() {
    for text in ["1+2*3", "3 * 4 - 4", "1*(2+3)", "1+(-1)", "2*(3-(-4))/5"] {
        let ast = build_ast(text).unwrap();
        let again = build_ast(&arith::format(&ast)).unwrap();
        assert_eq!(eval(&ast), eval(&again));
    }
}

#[test]
fn tree_shape_of_division() {
    assert_eq!(
        Node::Expr {
            kind: ADD_EXPR,
            left: Box::new(Node::Literal {
                kind: NUM,
                value: 1,
                raw: "1".to_string()
            }),
            op: PLUS,
            right: Box::new(Node::Expr {
                kind: DIV_EXPR,
                left: Box::new(Node::Literal {
                    kind: NUM,
                    value: 6,
                    raw: "6".to_string()
                }),
                op: SLASH,
                right: Box::new(Node::Literal {
                    kind: NUM,
                    value: -2,
                    raw: "-2".to_string()
                }),
            }),
        },
        build_ast("1 + 6 / -2").unwrap()
    );
}

#[test]
fn left_operand_is_never_parenthesized() {
    let ast = build_ast("(1+2)*3").unwrap();
    assert_eq!("1 + 2 * 3", arith::format(&ast));
    assert_eq!(9, eval(&ast));
    assert_eq!(7, eval(&build_ast(&arith::format(&ast)).unwrap()));
}

#[test]
fn right_operand_of_equal_priority_is_not_parenthesized() {
    let ast = build_ast("1-(2-3)").unwrap();
    assert_eq!("1 - 2 - 3", arith::format(&ast));
    assert_eq!(2, eval(&ast));
}

#[test]
fn reformatting_a_left_operand_can_move_parentheses() {
    let once = arith::format(&build_ast("(1-(-2))*4").unwrap());
    assert_eq!("1 - (-2) * 4", once);
    let twice = arith::format(&build_ast(&once).unwrap());
    assert_eq!("1 - -2 * 4", twice);
}
