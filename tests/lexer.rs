use risp::lexer::{tokenize, Token};

#[test]
fn lexer_test_add() {
    let tokens = tokenize("(+ 1 2)").unwrap_or(vec![]);
    assert_eq!(
        tokens,
        vec![
            Token::LParen,
            Token::Symbol("+".to_string()),
            Token::Integer(1),
            Token::Integer(2),
            Token::RParen,
        ]
    );
}

#[test]
fn test_area_of_circle() {
    let program = "
            (
                (define r 10)
                (define pi 314)
                (* pi (* r r))
            )
        ";
    let tokens = tokenize(program).unwrap_or(vec![]);
    assert_eq!(
        tokens,
        vec![
            Token::LParen,
            Token::LParen,
            Token::Symbol("define".to_string()),
            Token::Symbol("r".to_string()),
            Token::Integer(10),
            Token::RParen,
            Token::LParen,
            Token::Symbol("define".to_string()),
            Token::Symbol("pi".to_string()),
            Token::Integer(314),
            Token::RParen,
            Token::LParen,
            Token::Symbol("*".to_string()),
            Token::Symbol("pi".to_string()),
            Token::LParen,
            Token::Symbol("*".to_string()),
            Token::Symbol("r".to_string()),
            Token::Symbol("r".to_string()),
            Token::RParen,
            Token::RParen,
            Token::RParen
        ]
    )
}

#[test]
fn signed_and_out_of_range_literals() {
    let tokens = tokenize("-5 +7 - + 9223372036854775807 9223372036854775808 -9223372036854775808 1a").unwrap();
    assert_eq!(
        tokens,
        vec![
            Token::Integer(-5),
            Token::Integer(7),
            Token::Symbol("-".to_string()),
            Token::Symbol("+".to_string()),
            Token::Integer(i64::MAX),
            Token::Symbol("9223372036854775808".to_string()),
            Token::Integer(i64::MIN),
            Token::Symbol("1a".to_string()),
        ]
    );
}

#[test]
fn whitespace_and_adjacent_parens() {
    let tokens = tokenize("\t(a\n(b))\r\n()").unwrap();
    assert_eq!(
        tokens,
        vec![
            Token::LParen,
            Token::Symbol("a".to_string()),
            Token::LParen,
            Token::Symbol("b".to_string()),
            Token::RParen,
            Token::RParen,
            Token::LParen,
            Token::RParen,
        ]
    );
}

#[test]
fn empty_text_has_no_tokens() {
    assert_eq!(tokenize("   ").unwrap(), vec![]);
    assert_eq!(tokenize("").unwrap(), vec![]);
}
