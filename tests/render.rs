use risp::env::Env;
use risp::eval::eval;
use risp::parser::{parse, Object};

#[test]
fn atoms_render() {
    assert_eq!(Object::Void.render(), "Void");
    assert_eq!(Object::Integer(0).render(), "0");
    assert_eq!(Object::Integer(31400).render(), "31400");
    assert_eq!(Object::Integer(-42).render(), "-42");
    assert_eq!(Object::Integer(i64::MIN).render(), "-9223372036854775808");
    assert_eq!(Object::Integer(i64::MAX).render(), "9223372036854775807");
    assert_eq!(Object::Bool(true).render(), "true");
    assert_eq!(Object::Bool(false).render(), "false");
    assert_eq!(Object::Symbol("sqr".to_string()).render(), "sqr");
}

#[test]
fn lists_render_and_read_back() {
    let text = "(define f (g 1 -2) ())";
    let o = parse(text).unwrap();
    assert_eq!(o.render(), text);
    assert_eq!(parse(&o.render()).unwrap(), o);
    assert_eq!(Object::List(vec![]).render(), "()");
}

#[test]
fn lambda_renders_params_then_body() {
    let mut env = Env::new();
    let l = eval("(lambda (a b) (+ a b))", &mut env).unwrap();
    assert_eq!(l.render(), "Lambda(a b ) + a b");
}
