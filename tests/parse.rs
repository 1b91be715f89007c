use risp::parse::tokenize;

#[test]
fn test_tokenize() {
    let res = tokenize("(+ 10 5)".to_string());
    assert_eq!(res, ["(", "+", "10", "5", ")"]);
}

#[test]
fn words_split_on_any_whitespace() {
    let res = tokenize("(define  x\t(f y))".to_string());
    assert_eq!(res, ["(", "define", "x", "(", "f", "y", ")", ")"]);
}
