use arith::lex;
use arith::lexer::dfa::DFA;
use arith::lexer::TokenStream;
use arith::syntax_kind::{SyntaxKind, CLOSE_PAREN, MINUS, NUM, OPEN_PAREN, PLUS, SLASH, STAR};

fn dfa_lex(code: &str) -> Result<TokenStream, ()> {
    let mut dfa = DFA::new(code.to_string());
    if dfa.run().is_ok() {
        Ok(dfa.token_stream())
    } else {
        Err(())
    }
}

#[test]
fn basic_test() {
    assert_eq!(vec![(NUM, "123".to_string())], dfa_lex("+123").unwrap());
    assert_eq!(vec![(NUM, "-123".to_string())], dfa_lex("-123").unwrap());
    assert_eq!(vec![(NUM, "123".to_string())], dfa_lex("123").unwrap());

    assert_eq!(
        vec![
            (NUM, "123".to_string()),
            (PLUS, "+".to_string()),
            (NUM, "-456".to_string())
        ],
        dfa_lex("123+-456").unwrap()
    );
    assert_eq!(
        vec![
            (NUM, "123".to_string()),
            (PLUS, "+".to_string()),
            (NUM, "-456".to_string())
        ],
        dfa_lex("+123+-456").unwrap()
    );
    assert_eq!(
        vec![
            (NUM, "123".to_string()),
            (PLUS, "+".to_string()),
            (NUM, "456".to_string())
        ],
        dfa_lex("+123+456").unwrap()
    );
}

#[test]
fn allow_positive_zero_and_negative_zero() {
    assert_eq!(vec![(NUM, "0".to_string())], dfa_lex("0").unwrap());
    assert_eq!(vec![(NUM, "-0".to_string())], dfa_lex("-0").unwrap());
    assert_eq!(vec![(NUM, "0".to_string())], dfa_lex("0").unwrap());
}

#[test]
fn allow_suffix_zero() {
    assert_eq!(vec![(NUM, "100".to_string())], dfa_lex("+100").unwrap());
    assert_eq!(vec![(NUM, "-100".to_string())], dfa_lex("-100").unwrap());
    assert_eq!(vec![(NUM, "100".to_string())], dfa_lex("100").unwrap());
}

#[test]
fn panic_at_prefix_zero() {
    assert!(dfa_lex("+001").is_err());
    assert!(dfa_lex("-001").is_err());
    assert!(dfa_lex("001").is_err());
}

#[test]
fn mod_smoke() {
    assert_eq!(
        vec![
            (OPEN_PAREN, "(".to_string()),
            (NUM, "1".to_string()),
            (PLUS, "+".to_string()),
            (NUM, "2".to_string()),
            (CLOSE_PAREN, ")".to_string()),
            (PLUS, "+".to_string()),
            (NUM, "3".to_string()),
        ],
        lex("(1 + 2) + 3").unwrap()
    );
    assert_eq!(
        vec![
            (NUM, "1".to_string()),
            (PLUS, "+".to_string()),
            (OPEN_PAREN, "(".to_string()),
            (NUM, "2".to_string()),
            (PLUS, "+".to_string()),
            (NUM, "3".to_string()),
            (CLOSE_PAREN, ")".to_string()),
        ],
        lex("1 + (2 + 3)").unwrap()
    );
    assert_eq!(
        vec![
            (OPEN_PAREN, "(".to_string()),
            (NUM, "1".to_string()),
            (CLOSE_PAREN, ")".to_string()),
            (PLUS, "+".to_string()),
            (OPEN_PAREN, "(".to_string()),
            (NUM, "2".to_string()),
            (CLOSE_PAREN, ")".to_string()),
            (PLUS, "+".to_string()),
            (OPEN_PAREN, "(".to_string()),
            (NUM, "3".to_string()),
            (CLOSE_PAREN, ")".to_string()),
        ],
        lex("(1) + (2) + (3)").unwrap()
    );
    assert_eq!(
        vec![
            (OPEN_PAREN, "(".to_string()),
            (NUM, "-1".to_string()),
            (CLOSE_PAREN, ")".to_string()),
            (PLUS, "+".to_string()),
            (OPEN_PAREN, "(".to_string()),
            (NUM, "-2".to_string()),
            (CLOSE_PAREN, ")".to_string()),
            (PLUS, "+".to_string()),
            (OPEN_PAREN, "(".to_string()),
            (NUM, "-3".to_string()),
            (CLOSE_PAREN, ")".to_string()),
        ],
        lex("(-1) + (-2) + (-3)").unwrap()
    );
}

#[test]
fn test_from_operator() {
    assert!(SyntaxKind::from_operator("(").is_some());
    assert!(SyntaxKind::from_operator(")").is_some());
    assert!(SyntaxKind::from_operator("+").is_some());
    assert!(SyntaxKind::from_operator("-").is_some());
    assert!(SyntaxKind::from_operator("*").is_some());
    assert!(SyntaxKind::from_operator("/").is_some());
}

#[test]
fn test_marco() {
    assert_eq!(SyntaxKind::from_operator("(").unwrap(), OPEN_PAREN);
    assert_eq!(SyntaxKind::from_operator(")").unwrap(), CLOSE_PAREN);
    assert_eq!(SyntaxKind::from_operator("+").unwrap(), PLUS);
    assert_eq!(SyntaxKind::from_operator("-").unwrap(), MINUS);
    assert_eq!(SyntaxKind::from_operator("*").unwrap(), STAR);
    assert_eq!(SyntaxKind::from_operator("/").unwrap(), SLASH);
}

#[test]
fn leading_zero_rejected() {
    assert_eq!(vec![(NUM, "0".to_string())], lex("0").unwrap());
    assert!(lex("00").is_err());
    assert!(lex("01").is_err());
    assert!(lex("-00").is_err());
}

#[test]
fn sign_folding() {
    assert_eq!(vec![(NUM, "123".to_string())], lex("+123").unwrap());
    assert_eq!(vec![(NUM, "-123".to_string())], lex("-123").unwrap());
    assert_eq!(
        vec![
            (NUM, "1".to_string()),
            (PLUS, "+".to_string()),
            (NUM, "-2".to_string())
        ],
        lex("1+-2").unwrap()
    );
    assert_eq!(
        vec![
            (NUM, "1".to_string()),
            (PLUS, "+".to_string()),
            (NUM, "2".to_string())
        ],
        lex("1++2").unwrap()
    );
}

#[test]
fn sign_after_number_stays_an_operator() {
    assert_eq!(
        vec![
            (NUM, "1".to_string()),
            (MINUS, "-".to_string()),
            (NUM, "2".to_string())
        ],
        lex("1-2").unwrap()
    );
    assert_eq!(
        vec![
            (NUM, "2".to_string()),
            (STAR, "*".to_string()),
            (NUM, "-3".to_string())
        ],
        lex("2*-3").unwrap()
    );
}

#[test]
fn empty_input_is_rejected() {
    assert_eq!(Err("an empty string was received".to_string()), lex(""));
}

#[test]
fn unexpected_character_message() {
    assert_eq!(
        Err("unexpected token at the 2 of the input, current cache: 12".to_string()),
        lex("12x")
    );
    assert_eq!(
        Err("unexpected token at the 13 of the input, current cache: 0".to_string()),
        lex("1 + 2 + 3 + 05")
    );
}

#[test]
fn trailing_space_leaves_no_token() {
    assert_eq!(vec![(NUM, "1".to_string())], lex("1 ").unwrap());
    assert_eq!(
        vec![(NUM, "1".to_string()), (PLUS, "+".to_string())],
        lex("1 + ").unwrap()
    );
    assert_eq!(Vec::<(SyntaxKind, String)>::new(), lex("   ").unwrap());
}

#[test]
fn priorities_and_texts() {
    assert_eq!(2, SyntaxKind::get_op_priority("*"));
    assert_eq!(2, SyntaxKind::get_op_priority("/"));
    assert_eq!(1, SyntaxKind::get_op_priority("+"));
    assert_eq!(1, SyntaxKind::get_op_priority("-"));
    assert_eq!(usize::MAX, SyntaxKind::get_op_priority("x"));
    assert_eq!("(", OPEN_PAREN.into_str());
    assert_eq!("/", SLASH.into_str());
    assert_eq!("unknow", NUM.into_str());
    assert!(SyntaxKind::from_operator("1").is_none());
    assert!(SyntaxKind::from_operator("++").is_none());
}
