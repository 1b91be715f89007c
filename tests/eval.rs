use risp::env::Env;
use risp::eval::{eval, eval_obj, eval_obj_with_depth, eval_with_depth, EvalError};
use risp::parser::{Object, ParseError};

#[test]
fn test_simple_add() {
    let mut env = Env::new();
    let result = eval("(+ 1 2)", &mut env).unwrap();
    assert_eq!(result, Object::Integer(3));
}

#[test]
fn eval_test_area_of_a_circle() {
    let mut env = Env::new();
    let program = "(
                        (define r 10)
                        (define pi 314)
                        (* pi (* r r))
                      )";
    let result = eval(program, &mut env).unwrap();
    assert_eq!(
        result,
        Object::List(vec![Object::Integer((314 * 10 * 10) as i64)])
    );
}

#[test]
fn test_sqr_function() {
    let mut env = Env::new();
    let program = "(
                        (define sqr (lambda (r) (* r r))) 
                        (sqr 10)
                       )";
    let result = eval(program, &mut env).unwrap();
    assert_eq!(
        result,
        Object::List(vec![Object::Integer((10 * 10) as i64)])
    );
}

#[test]
fn test_fibonaci() {
    let mut env = Env::new();
    let program = "
            (
                (define fib (lambda (n) (if (< n 2) 1 (+ (fib (- n 1)) (fib (- n 2))))))
                (fib 10)
            )
        ";

    let result = eval(program, &mut env).unwrap();
    assert_eq!(result, Object::List(vec![Object::Integer((89) as i64)]));
}

#[test]
fn test_factorial() {
    let mut env = Env::new();
    let program = "
            (
                (define fact (lambda (n) (if (< n 1) 1 (* n (fact (- n 1))))))
                (fact 5)
            )
        ";

    let result = eval(program, &mut env).unwrap();
    assert_eq!(result, Object::List(vec![Object::Integer((120) as i64)]));
}

#[test]
fn test_circle_area_function() {
    let mut env = Env::new();
    let program = "
            (
                (define pi 314)
                (define r 10)
                (define sqr (lambda (r) (* r r)))
                (define area (lambda (r) (* pi (sqr r))))
                (area r)
            )
        ";

    let result = eval(program, &mut env).unwrap();
    assert_eq!(
        result,
        Object::List(vec![Object::Integer((314 * 10 * 10) as i64)])
    );
}

fn run(program: &str) -> Result<Object, EvalError> {
    let mut env = Env::new();
    eval(program, &mut env)
}

#[test]
fn unbound_symbol_is_an_error() {
    assert_eq!(run("(+ x 1)"), Err(EvalError::UnboundSymbol("x".to_string())));
    assert_eq!(run("(foo 1 2)"), Err(EvalError::UnboundSymbol("foo".to_string())));
}

#[test]
fn division_truncates_toward_zero() {
    assert_eq!(run("(/ 7 2)"), Ok(Object::Integer(3)));
    assert_eq!(run("(/ -7 2)"), Ok(Object::Integer(-3)));
    assert_eq!(run("(/ 7 -2)"), Ok(Object::Integer(-3)));
    assert_eq!(run("(/ -7 -2)"), Ok(Object::Integer(3)));
    assert_eq!(run("(/ -9223372036854775808 2)"), Ok(Object::Integer(-4611686018427387904)));
}

#[test]
fn comparisons_give_booleans() {
    assert_eq!(run("(< 1 2)"), Ok(Object::Bool(true)));
    assert_eq!(run("(> 1 2)"), Ok(Object::Bool(false)));
    assert_eq!(run("(= 2 2)"), Ok(Object::Bool(true)));
    assert_eq!(run("(!= 2 2)"), Ok(Object::Bool(false)));
    assert_eq!(run("(!= (+ 1 1) 3)"), Ok(Object::Bool(true)));
}

#[test]
fn arithmetic_results() {
    assert_eq!(run("(- 2 5)"), Ok(Object::Integer(-3)));
    assert_eq!(run("(* -4 6)"), Ok(Object::Integer(-24)));
}

#[test]
fn self_evaluation_is_stable() {
    let mut env = Env::new();
    env.set("k", Object::Integer(7));
    let once = eval_obj(&Object::Integer(42), &mut env).unwrap();
    let twice = eval_obj(&once, &mut env).unwrap();
    assert_eq!(once, Object::Integer(42));
    assert_eq!(twice, once);
    let b = eval_obj(&Object::Bool(false), &mut env).unwrap();
    assert_eq!(eval_obj(&b, &mut env).unwrap(), Object::Bool(false));
    let k1 = eval_obj(&Object::Symbol("k".to_string()), &mut env).unwrap();
    let k2 = eval_obj(&Object::Symbol("k".to_string()), &mut env).unwrap();
    assert_eq!(k1, Object::Integer(7));
    assert_eq!(k2, k1);
    assert_eq!(eval_obj(&k1, &mut env).unwrap(), k1);
}

#[test]
fn lambda_body_sees_the_callers_scope() {
    // Free names in a body resolve where the call happens, not where the
    // lambda was defined.
    let program = "((define x 1)
                     (define f (lambda () (+ x 0)))
                     (define g (lambda (x) (f)))
                     (g 5)
                     (f))";
    assert_eq!(
        run(program),
        Ok(Object::List(vec![Object::Integer(5), Object::Integer(1)]))
    );
}

#[test]
fn definitions_persist_across_evaluations() {
    let mut env = Env::new();
    assert_eq!(eval("((define n 4))", &mut env), Ok(Object::List(vec![])));
    assert_eq!(eval("(* n n)", &mut env), Ok(Object::Integer(16)));
}

#[test]
fn each_error_kind() {
    assert_eq!(run("(+ 1 2"), Err(EvalError::Parse(ParseError::Unclosed)));
    assert_eq!(run("(/ 1 0)"), Err(EvalError::DivisionByZero));
    assert_eq!(run("(+ 9223372036854775807 1)"), Err(EvalError::Overflow));
    assert_eq!(run("(/ -9223372036854775808 -1)"), Err(EvalError::Overflow));
    assert_eq!(run("(if (< 1 2) 1)"), Err(EvalError::Arity));
    assert_eq!(run("(+ 1 2 3)"), Err(EvalError::Arity));
    assert_eq!(run("(if 1 2 3)"), Err(EvalError::TypeMismatch));
    assert_eq!(run("(define 1 2)"), Err(EvalError::TypeMismatch));
    assert_eq!(run("(lambda (1) (x))"), Err(EvalError::TypeMismatch));
    assert_eq!(run("(lambda (x) x)"), Err(EvalError::TypeMismatch));
    assert_eq!(run("(())"), Err(EvalError::EmptyList));
    assert_eq!(run("((define x 1) (x 2))"), Err(EvalError::NotALambda("x".to_string())));
    assert_eq!(run("((define f (lambda (a b) (+ a b))) (f 1))"), Err(EvalError::Arity));
    assert_eq!(
        run("((define f (lambda (n) (f n))) (f 1))"),
        Err(EvalError::TooDeep)
    );
}

#[test]
fn if_evaluates_only_the_taken_branch() {
    assert_eq!(run("(if (< 1 2) 10 undefined)"), Ok(Object::Integer(10)));
    assert_eq!(run("(if (> 1 2) undefined 20)"), Ok(Object::Integer(20)));
}

#[test]
fn lambda_form_builds_a_lambda() {
    assert_eq!(
        run("(lambda (a b) (+ a b))"),
        Ok(Object::Lambda(
            vec!["a".to_string(), "b".to_string()],
            vec![
                Object::Symbol("+".to_string()),
                Object::Symbol("a".to_string()),
                Object::Symbol("b".to_string()),
            ]
        ))
    );
}

#[test]
fn depth_bound_is_chosen_by_the_caller() {
    let fact = "((define fact (lambda (n) (if (< n 1) 1 (* n (fact (- n 1)))))) (fact 5))";
    let mut env = Env::new();
    assert_eq!(eval_with_depth(fact, &mut env, 3), Err(EvalError::TooDeep));
    let mut env = Env::new();
    assert_eq!(
        eval_with_depth(fact, &mut env, 6),
        Ok(Object::List(vec![Object::Integer(120)]))
    );
    let mut env = Env::new();
    assert_eq!(eval_obj_with_depth(&Object::Integer(9), &mut env, 0), Ok(Object::Integer(9)));
}

#[test]
fn trailing_text_is_a_parse_error() {
    assert_eq!(run("(+ 1 2))"), Err(EvalError::Parse(ParseError::TrailingTokens)));
}
