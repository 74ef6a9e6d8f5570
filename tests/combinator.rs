use arith::lexer::Token;
use arith::parser::parser_combinator::{
    and_then, atom, either, judge, single_token, zero_or_more, BoxedParser, Parser,
};
use arith::syntax_kind::{MINUS, NUM, PLUS};

#[test]
fn test_atom() {
    let input = vec![(NUM, "1".to_string()), (NUM, "2".to_string())];
    assert_eq!(
        Ok((vec![(NUM, "2".to_string())], (NUM, "1".to_string()))),
        atom().parse(input)
    );
}

#[test]
fn test_single_token() {
    let input = vec![(PLUS, "+".to_string())];
    assert_eq!(
        Ok((vec![], (PLUS, "+".to_string()))),
        single_token(PLUS).parse(input)
    )
}

#[test]
fn test_map() {
    let input = vec![(NUM, "1".to_string()), (NUM, "2".to_string())];
    assert_eq!(
        Ok((vec![(NUM, "2".to_string())], (PLUS, "+".to_string()))),
        arith::parser::parser_combinator::combinator::map(atom(), |_| (PLUS, "+".to_string())).parse(input)
    );
}

#[test]
fn test_and_then() {
    let input = vec![(NUM, "1".to_string()), (NUM, "2".to_string())];
    assert_eq!(
        Ok((vec![], (NUM, "2".to_string()))),
        and_then(atom(), |_| { atom() }).parse(input)
    )
}

#[test]
fn test_judge() {
    let input = vec![(PLUS, "+".to_string())];
    assert_eq!(
        Ok((vec![], (PLUS, "+".to_string()))),
        judge(atom(), |(kind, _): &Token| *kind == PLUS).parse(input)
    )
}

#[test]
fn test_either() {
    let input = vec![(NUM, "1".to_string())];
    let number_parser = judge(atom(), |(kind, _): &Token| *kind == NUM);
    let plus_parser = judge(atom(), |(kind, _): &Token| *kind == PLUS);
    assert_eq!(
        Ok((vec![], (NUM, "1".to_string()))),
        either(number_parser, plus_parser).parse(input)
    )
}

#[test]
fn test_zero_or_more() {
    let num_one = (NUM, "1".to_string());

    let num_parser = judge(atom(), |(kind, text): &Token| *kind == NUM && text == "1");
    let input = vec![];
    assert_eq!(Ok((vec![], vec![])), zero_or_more(num_parser).parse(input));

    let num_parser = judge(atom(), |(kind, text): &Token| *kind == NUM && text == "1");
    let input = vec![num_one.clone(), num_one.clone(), num_one.clone()];
    assert_eq!(
        Ok((
            vec![],
            vec![num_one.clone(), num_one.clone(), num_one.clone()]
        )),
        zero_or_more(num_parser).parse(input)
    );
}

#[test]
fn test_chained_call() {
    let input = vec![(NUM, "1".to_string())];
    assert_eq!(
        Ok((vec![], (PLUS, "+".to_string()))),
        atom().map(|_| (PLUS, "+".to_string())).parse(input)
    );
}

#[test]
fn att() {
    let input = vec![
        (NUM, "1".to_string()),
        (PLUS, "+".to_string()),
        (NUM, "2".to_string()),
    ];
    assert_eq!(
        Ok((
            vec![(PLUS, "+".to_string()), (NUM, "2".to_string())],
            (PLUS, "1".to_string())
        )),
        judge(atom(), |(kind, _): &Token| *kind == NUM)
            .map(|(_, text)| (PLUS, text))
            .parse(input)
    )
}

#[test]
fn atom_on_empty_input_rejects() {
    let input: Vec<Token> = vec![];
    assert_eq!(Err(vec![]), atom().parse(input));
}

#[test]
fn rejection_hands_the_input_back() {
    let input = vec![(NUM, "1".to_string()), (PLUS, "+".to_string())];
    assert_eq!(Err(input.clone()), single_token(PLUS).parse(input.clone()));
    assert_eq!(
        Err(input.clone()),
        either(single_token(PLUS), single_token(MINUS)).parse(input.clone())
    );
    assert_eq!(
        Err(input.clone()),
        judge(atom(), |(kind, _): &Token| *kind == PLUS).parse(input.clone())
    );
    assert_eq!(
        Err(input.clone()),
        arith::parser::parser_combinator::combinator::map(single_token(PLUS), |t: Token| t.1).parse(input.clone())
    );
}

#[test]
fn either_falls_back_on_the_same_input() {
    let input = vec![(MINUS, "-".to_string()), (NUM, "4".to_string())];
    assert_eq!(
        Ok((vec![(NUM, "4".to_string())], (MINUS, "-".to_string()))),
        single_token(PLUS).or(single_token(MINUS)).parse(input)
    );
}

#[test]
fn and_then_reports_the_failing_stage() {
    let input = vec![(NUM, "1".to_string()), (NUM, "2".to_string())];
    assert_eq!(
        Err(vec![(NUM, "2".to_string())]),
        atom().and_then(|_| single_token(PLUS)).parse(input)
    );
}

#[test]
fn zero_or_more_stops_at_the_first_failure() {
    let input = vec![
        (PLUS, "+".to_string()),
        (PLUS, "+".to_string()),
        (NUM, "3".to_string()),
        (PLUS, "+".to_string()),
    ];
    assert_eq!(
        Ok((
            vec![(NUM, "3".to_string()), (PLUS, "+".to_string())],
            vec![(PLUS, "+".to_string()), (PLUS, "+".to_string())]
        )),
        zero_or_more(single_token(PLUS)).parse(input)
    );
}

#[test]
fn boxed_parser_parses_as_the_parser_it_holds() {
    let input = vec![(PLUS, "+".to_string()), (NUM, "7".to_string())];
    assert_eq!(
        Ok((vec![(NUM, "7".to_string())], (PLUS, "+".to_string()))),
        BoxedParser::new(single_token(PLUS)).parse(input.clone())
    );
    assert_eq!(Err(input.clone()), BoxedParser::new(single_token(NUM)).parse(input));
}
