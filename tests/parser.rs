use risp::parser::{parse, Object, ParseError};

#[test]
fn parser_test_add() {
    let list = parse("(+ 1 2)").unwrap();
    assert_eq!(
        list,
        Object::List(vec![
            Object::Symbol("+".to_string()),
            Object::Integer(1),
            Object::Integer(2),
        ])
    );
}

#[test]
fn parser_test_area_of_a_circle() {
    let program = "(
                         (define r 10)
                         (define pi 314)
                         (* pi (* r r))
                       )";
    let list = parse(program).unwrap();
    assert_eq!(
        list,
        Object::List(vec![
            Object::List(vec![
                Object::Symbol("define".to_string()),
                Object::Symbol("r".to_string()),
                Object::Integer(10),
            ]),
            Object::List(vec![
                Object::Symbol("define".to_string()),
                Object::Symbol("pi".to_string()),
                Object::Integer(314),
            ]),
            Object::List(vec![
                Object::Symbol("*".to_string()),
                Object::Symbol("pi".to_string()),
                Object::List(vec![
                    Object::Symbol("*".to_string()),
                    Object::Symbol("r".to_string()),
                    Object::Symbol("r".to_string()),
                ]),
            ]),
        ])
    );
}

#[test]
fn unbalanced_input_is_rejected() {
    assert_eq!(parse("(+ 1 2"), Err(ParseError::Unclosed));
    assert_eq!(parse("((a)"), Err(ParseError::Unclosed));
}

#[test]
fn program_must_open_with_a_paren() {
    assert_eq!(parse("+ 1 2"), Err(ParseError::ExpectedLParen));
    assert_eq!(parse(")"), Err(ParseError::ExpectedLParen));
    assert_eq!(parse(""), Err(ParseError::ExpectedLParen));
}

#[test]
fn empty_list_parses() {
    assert_eq!(parse("()"), Ok(Object::List(vec![])));
}

#[test]
fn duplicate_is_equal() {
    let o = parse("((lambda (x) (* x x)) 3 foo)").unwrap();
    assert_eq!(o.duplicate(), o);
    assert_eq!(o.clone(), o);
}

#[test]
fn text_after_the_root_list_is_rejected() {
    assert_eq!(parse("(+ 1 2))"), Err(ParseError::TrailingTokens));
    assert_eq!(parse("(define x 1) (define y 2)"), Err(ParseError::TrailingTokens));
    assert_eq!(parse("(a) b"), Err(ParseError::TrailingTokens));
    assert!(parse("(a)  \n").is_ok());
}
