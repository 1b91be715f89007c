//! Evaluation of parsed programs against an environment.
use crate::env::{bind, bindings_map, lookup, string_eq, Env, Scopes};
use crate::lexer::lexemes;
use crate::parser::{
    lemma_lambda_view, lemma_list_view, names_view, objects_view, parse, parse_lexemes, Object,
    ParseError, Sexp,
};
use vstd::prelude::*;

verus! {

/// How deeply lambda calls may nest, by default, before evaluation gives
/// up; `eval_with_depth` takes another bound, for a thread with a larger
/// stack.
pub const MAX_DEPTH: u32 = 128;

/// Why an evaluation failed.
#[derive(Debug, PartialEq)]
pub enum EvalError {
    /// The program text did not parse.
    Parse(ParseError),
    /// A symbol that no scope binds.
    UnboundSymbol(String),
    /// A call whose head is bound to something other than a lambda.
    NotALambda(String),
    /// A form or a call with the wrong number of parts.
    Arity,
    /// An operand, condition, definition target, parameter list or body of
    /// the wrong kind.
    TypeMismatch,
    /// The empty list, which has no form to evaluate.
    EmptyList,
    DivisionByZero,
    /// An arithmetic result outside the range of `i64`.
    Overflow,
    /// Lambda calls nested deeper than `MAX_DEPTH`.
    TooDeep,
}

/// The mathematical value of an `EvalError`.
pub enum Fault {
    Parse(ParseError),
    UnboundSymbol(Seq<char>),
    NotALambda(Seq<char>),
    Arity,
    TypeMismatch,
    EmptyList,
    DivisionByZero,
    Overflow,
    TooDeep,
}

impl View for EvalError {
    type V = Fault;

    open spec fn view(&self) -> Fault {
        match self {
            EvalError::Parse(p) => Fault::Parse(*p),
            EvalError::UnboundSymbol(s) => Fault::UnboundSymbol(s@),
            EvalError::NotALambda(s) => Fault::NotALambda(s@),
            EvalError::Arity => Fault::Arity,
            EvalError::TypeMismatch => Fault::TypeMismatch,
            EvalError::EmptyList => Fault::EmptyList,
            EvalError::DivisionByZero => Fault::DivisionByZero,
            EvalError::Overflow => Fault::Overflow,
            EvalError::TooDeep => Fault::TooDeep,
        }
    }
}

pub open spec fn result_view(r: Result<Object, EvalError>) -> Result<Sexp, Fault> {
    match r {
        Ok(o) => Ok(o@),
        Err(e) => Err(e@),
    }
}

/// The binary operators.
#[derive(Clone, Copy)]
pub enum Op {
    Add,
    Sub,
    Mul,
    Div,
    Lt,
    Gt,
    Eq,
    Ne,
}

/// What a list whose head is a symbol stands for.
#[derive(Clone, Copy)]
pub enum Form {
    Binary(Op),
    If,
    Define,
    Lambda,
    Call,
}

pub open spec fn form_of(s: Seq<char>) -> Form {
    if s == seq!['+'] {
        Form::Binary(Op::Add)
    } else if s == seq!['-'] {
        Form::Binary(Op::Sub)
    } else if s == seq!['*'] {
        Form::Binary(Op::Mul)
    } else if s == seq!['/'] {
        Form::Binary(Op::Div)
    } else if s == seq!['<'] {
        Form::Binary(Op::Lt)
    } else if s == seq!['>'] {
        Form::Binary(Op::Gt)
    } else if s == seq!['='] {
        Form::Binary(Op::Eq)
    } else if s == seq!['!', '='] {
        Form::Binary(Op::Ne)
    } else if s == seq!['i', 'f'] {
        Form::If
    } else if s == seq!['d', 'e', 'f', 'i', 'n', 'e'] {
        Form::Define
    } else if s == seq!['l', 'a', 'm', 'b', 'd', 'a'] {
        Form::Lambda
    } else {
        Form::Call
    }
}

pub open spec fn abs(a: int) -> int {
    if a < 0 {
        -a
    } else {
        a
    }
}

/// Division rounding toward zero.
pub open spec fn trunc_div(a: int, b: int) -> int {
    if (a >= 0) == (b > 0) || a == 0 {
        abs(a) / abs(b)
    } else {
        -(abs(a) / abs(b))
    }
}

pub open spec fn in_i64(v: int) -> bool {
    i64::MIN <= v <= i64::MAX
}

pub open spec fn integer_result(v: int) -> Result<Sexp, Fault> {
    if in_i64(v) {
        Ok(Sexp::Integer(v as i64))
    } else {
        Err(Fault::Overflow)
    }
}

/// Applies an operator to two integers.
pub open spec fn apply_op(op: Op, a: i64, b: i64) -> Result<Sexp, Fault> {
    match op {
        Op::Add => integer_result(a + b),
        Op::Sub => integer_result(a - b),
        Op::Mul => integer_result(a * b),
        Op::Div => if b == 0 {
            Err(Fault::DivisionByZero)
        } else {
            integer_result(trunc_div(a as int, b as int))
        },
        Op::Lt => Ok(Sexp::Bool(a < b)),
        Op::Gt => Ok(Sexp::Bool(a > b)),
        Op::Eq => Ok(Sexp::Bool(a == b)),
        Op::Ne => Ok(Sexp::Bool(a != b)),
    }
}

/// An operator applied to two operand values: both must be integers.
pub open spec fn binary_result(op: Op, l: Sexp, r: Sexp) -> Result<Sexp, Fault> {
    match (l, r) {
        (Sexp::Integer(a), Sexp::Integer(b)) => apply_op(op, a, b),
        _ => Err(Fault::TypeMismatch),
    }
}

pub open spec fn all_symbols(ps: Seq<Sexp>) -> bool {
    forall|i: int| 0 <= i < ps.len() ==> (#[trigger] ps[i]) is Symbol
}

/// The lambda that a parameter list and a body make: the parameters must be
/// a list of symbols and the body a list.
pub open spec fn lambda_of(params: Sexp, body: Sexp) -> Result<Sexp, Fault> {
    match (params, body) {
        (Sexp::List(ps), Sexp::List(b)) => if all_symbols(ps) {
            Ok(Sexp::Lambda(Seq::new(ps.len(), |i: int| ps[i]->Symbol_0), b))
        } else {
            Err(Fault::TypeMismatch)
        },
        _ => Err(Fault::TypeMismatch),
    }
}

/// The value of a `lambda` form: exactly a parameter list and a body.
pub open spec fn lambda_form(items: Seq<Sexp>) -> Result<Sexp, Fault> {
    if items.len() != 3 {
        Err(Fault::Arity)
    } else {
        lambda_of(items[1], items[2])
    }
}

/// Evaluates `e` in `env`, where at most `fuel` lambda calls may still
/// nest; gives the result and the environment after it.
pub open spec fn eval_spec(fuel: nat, e: Sexp, env: Scopes) -> (Result<Sexp, Fault>, Scopes)
    decreases fuel, e, 0nat,
{
    match e {
        Sexp::Void => (Ok(Sexp::Void), env),
        Sexp::Integer(_) => (Ok(e), env),
        Sexp::Bool(_) => (Ok(e), env),
        Sexp::Lambda(_, _) => (Ok(Sexp::Void), env),
        Sexp::Symbol(s) => match lookup(env, s) {
            Some(v) => (Ok(v), env),
            None => (Err(Fault::UnboundSymbol(s)), env),
        },
        Sexp::List(items) => eval_list_spec(fuel, items, env),
    }
}

/// Evaluates the list `items`: a form or call where its head is a symbol,
/// else a sequence of forms.
pub open spec fn eval_list_spec(fuel: nat, items: Seq<Sexp>, env: Scopes) -> (
    Result<Sexp, Fault>,
    Scopes,
)
    decreases fuel, items, items.len() + 1,
{
    if items.len() == 0 {
        (Err(Fault::EmptyList), env)
    } else {
        match items[0] {
            Sexp::Symbol(s) => match form_of(s) {
                Form::Binary(op) => if items.len() != 3 {
                    (Err(Fault::Arity), env)
                } else {
                    let (l, env1) = eval_spec(fuel, items[1], env);
                    match l {
                        Err(f) => (Err(f), env1),
                        Ok(lv) => {
                            let (r, env2) = eval_spec(fuel, items[2], env1);
                            match r {
                                Err(f) => (Err(f), env2),
                                Ok(rv) => (binary_result(op, lv, rv), env2),
                            }
                        },
                    }
                },
                Form::If => if items.len() != 4 {
                    (Err(Fault::Arity), env)
                } else {
                    let (c, env1) = eval_spec(fuel, items[1], env);
                    match c {
                        Err(f) => (Err(f), env1),
                        Ok(Sexp::Bool(b)) => if b {
                            eval_spec(fuel, items[2], env1)
                        } else {
                            eval_spec(fuel, items[3], env1)
                        },
                        Ok(_) => (Err(Fault::TypeMismatch), env1),
                    }
                },
                Form::Define => if items.len() != 3 {
                    (Err(Fault::Arity), env)
                } else {
                    match items[1] {
                        Sexp::Symbol(name) => {
                            let (v, env1) = eval_spec(fuel, items[2], env);
                            match v {
                                Err(f) => (Err(f), env1),
                                Ok(val) => (Ok(Sexp::Void), bind(env1, name, val)),
                            }
                        },
                        _ => (Err(Fault::TypeMismatch), env),
                    }
                },
                Form::Lambda => (lambda_form(items), env),
                Form::Call => match lookup(env, s) {
                    None => (Err(Fault::UnboundSymbol(s)), env),
                    Some(Sexp::Lambda(params, body)) => if items.len() != params.len() + 1 {
                        (Err(Fault::Arity), env)
                    } else if fuel == 0 {
                        (Err(Fault::TooDeep), env)
                    } else {
                        let (args, env1) = eval_args_spec(fuel, items, 1, env, seq![]);
                        match args {
                            Err(f) => (Err(f), env1),
                            Ok(vals) => {
                                let (r, env2) = eval_spec(
                                    (fuel - 1) as nat,
                                    Sexp::List(body),
                                    env1.push(bindings_map(params, vals)),
                                );
                                (r, env2.drop_last())
                            },
                        }
                    },
                    Some(_) => (Err(Fault::NotALambda(s)), env),
                },
            },
            _ => eval_forms_spec(fuel, items, 0, env, seq![]),
        }
    }
}

/// Evaluates `items` from position `i` on, in turn, in one environment,
/// adding each result that is not `Void` to `acc`.
pub open spec fn eval_forms_spec(
    fuel: nat,
    items: Seq<Sexp>,
    i: int,
    env: Scopes,
    acc: Seq<Sexp>,
) -> (Result<Sexp, Fault>, Scopes)
    decreases fuel, items, items.len() - i,
{
    if i < 0 || i >= items.len() {
        (Ok(Sexp::List(acc)), env)
    } else {
        let (r, env1) = eval_spec(fuel, items[i], env);
        match r {
            Err(f) => (Err(f), env1),
            Ok(v) => eval_forms_spec(
                fuel,
                items,
                i + 1,
                env1,
                if v is Void {
                    acc
                } else {
                    acc.push(v)
                },
            ),
        }
    }
}

/// Evaluates the arguments `items[i..]` of a call, in turn, after `acc`.
pub open spec fn eval_args_spec(
    fuel: nat,
    items: Seq<Sexp>,
    i: int,
    env: Scopes,
    acc: Seq<Sexp>,
) -> (Result<Seq<Sexp>, Fault>, Scopes)
    decreases fuel, items, items.len() - i,
{
    if i < 0 || i >= items.len() {
        (Ok(acc), env)
    } else {
        let (r, env1) = eval_spec(fuel, items[i], env);
        match r {
            Err(f) => (Err(f), env1),
            Ok(v) => eval_args_spec(fuel, items, i + 1, env1, acc.push(v)),
        }
    }
}

/// Tells which form a symbol heads.
fn form_kind(s: &str) -> (r: Form)
    ensures
        r == form_of(s@),
{
    proof {
        reveal_strlit("+");
        assert("+"@ =~= seq!['+']);
        reveal_strlit("-");
        assert("-"@ =~= seq!['-']);
        reveal_strlit("*");
        assert("*"@ =~= seq!['*']);
        reveal_strlit("/");
        assert("/"@ =~= seq!['/']);
        reveal_strlit("<");
        assert("<"@ =~= seq!['<']);
        reveal_strlit(">");
        assert(">"@ =~= seq!['>']);
        reveal_strlit("=");
        assert("="@ =~= seq!['=']);
        reveal_strlit("!=");
        assert("!="@ =~= seq!['!', '=']);
        reveal_strlit("if");
        assert("if"@ =~= seq!['i', 'f']);
        reveal_strlit("define");
        assert("define"@ =~= seq!['d', 'e', 'f', 'i', 'n', 'e']);
        reveal_strlit("lambda");
        assert("lambda"@ =~= seq!['l', 'a', 'm', 'b', 'd', 'a']);
    }
    if string_eq(s, "+") {
        Form::Binary(Op::Add)
    } else if string_eq(s, "-") {
        Form::Binary(Op::Sub)
    } else if string_eq(s, "*") {
        Form::Binary(Op::Mul)
    } else if string_eq(s, "/") {
        Form::Binary(Op::Div)
    } else if string_eq(s, "<") {
        Form::Binary(Op::Lt)
    } else if string_eq(s, ">") {
        Form::Binary(Op::Gt)
    } else if string_eq(s, "=") {
        Form::Binary(Op::Eq)
    } else if string_eq(s, "!=") {
        Form::Binary(Op::Ne)
    } else if string_eq(s, "if") {
        Form::If
    } else if string_eq(s, "define") {
        Form::Define
    } else if string_eq(s, "lambda") {
        Form::Lambda
    } else {
        Form::Call
    }
}

fn checked_integer(v: i128) -> (r: Result<Object, EvalError>)
    ensures
        result_view(r) == integer_result(v as int),
{
    if v < i64::MIN as i128 || v > i64::MAX as i128 {
        Err(EvalError::Overflow)
    } else {
        Ok(Object::Integer(v as i64))
    }
}

/// Applies an operator to two integers.
fn apply_binary(op: Op, a: i64, b: i64) -> (r: Result<Object, EvalError>)
    ensures
        result_view(r) == apply_op(op, a, b),
{
    match op {
        Op::Add => checked_integer(a as i128 + b as i128),
        Op::Sub => checked_integer(a as i128 - b as i128),
        Op::Mul => {
            assert(-0x4000_0000_0000_0000_0000_0000_0000_0000 <= (a as int) * (b as int)
                <= 0x4000_0000_0000_0000_0000_0000_0000_0000) by (nonlinear_arith)
                requires
                    i64::MIN <= a <= i64::MAX,
                    i64::MIN <= b <= i64::MAX,
            ;
            checked_integer(a as i128 * b as i128)
        },
        Op::Div => {
            if b == 0 {
                Err(EvalError::DivisionByZero)
            } else {
                let ua: u64 = if a < 0 {
                    (0 - a as i128) as u64
                } else {
                    a as u64
                };
                let ub: u64 = if b < 0 {
                    (0 - b as i128) as u64
                } else {
                    b as u64
                };
                let m = ua / ub;
                if (a >= 0) == (b > 0) || a == 0 {
                    checked_integer(m as i128)
                } else {
                    checked_integer(0 - m as i128)
                }
            }
        },
        Op::Lt => Ok(Object::Bool(a < b)),
        Op::Gt => Ok(Object::Bool(a > b)),
        Op::Eq => Ok(Object::Bool(a == b)),
        Op::Ne => Ok(Object::Bool(a != b)),
    }
}

/// The spec-level evaluation that an exec evaluation of `list` must match.
pub open spec fn list_outcome(fuel: u32, list: Seq<Object>, env: Scopes) -> (
    Result<Sexp, Fault>,
    Scopes,
) {
    eval_list_spec(fuel as nat, objects_view(list), env)
}

/// Evaluates `obj` in `env`, with `fuel` nested lambda calls left.
fn eval_in(obj: &Object, env: &mut Env, fuel: u32) -> (r: Result<Object, EvalError>)
    requires
        old(env).wf(),
    ensures
        final(env).wf(),
        final(env)@.len() == old(env)@.len(),
        (result_view(r), final(env)@) == eval_spec(fuel as nat, obj@, old(env)@),
    decreases fuel, obj, 0nat,
{
    match obj {
        Object::Void => Ok(Object::Void),
        Object::Lambda(_params, _body) => Ok(Object::Void),
        Object::Bool(b) => Ok(Object::Bool(*b)),
        Object::Integer(n) => Ok(Object::Integer(*n)),
        Object::Symbol(s) => eval_symbol(s.as_str(), env),
        Object::List(list) => {
            proof {
                lemma_list_view(*list);
            }
            eval_list(list, env, fuel)
        },
    }
}

/// The value bound to `s`, or an unbound-symbol error.
fn eval_symbol(s: &str, env: &Env) -> (r: Result<Object, EvalError>)
    requires
        env.wf(),
    ensures
        result_view(r) == eval_spec(0, Sexp::Symbol(s@), env@).0,
{
    match env.get(s) {
        Some(v) => Ok(v),
        None => Err(EvalError::UnboundSymbol(s.to_owned())),
    }
}

fn eval_list(list: &Vec<Object>, env: &mut Env, fuel: u32) -> (r: Result<Object, EvalError>)
    requires
        old(env).wf(),
    ensures
        final(env).wf(),
        final(env)@.len() == old(env)@.len(),
        (result_view(r), final(env)@) == list_outcome(fuel, list@, old(env)@),
    decreases fuel, list, 2nat,
{
    let ghost items = objects_view(list@);
    if list.len() == 0 {
        return Err(EvalError::EmptyList);
    }
    match &list[0] {
        Object::Symbol(s) => {
            match form_kind(s.as_str()) {
                Form::Binary(op) => eval_binary_op(op, list, env, fuel),
                Form::If => eval_if(list, env, fuel),
                Form::Define => eval_define(list, env, fuel),
                Form::Lambda => {
                    proof {
                        assert(items[0] == Sexp::Symbol(s@));
                    }
                    eval_function_definition(list)
                },
                Form::Call => eval_function_call(s.as_str(), list, env, fuel),
            }
        },
        _ => {
            let ghost env0 = env@;
            let mut out: Vec<Object> = Vec::new();
            let mut i: usize = 0;
            assert(objects_view(out@) =~= seq![]);
            while i < list.len()
                invariant
                    env0 == old(env)@,
                    items == objects_view(list@),
                    !(items[0] is Symbol),
                    list@.len() > 0,
                    i <= list@.len(),
                    env.wf(),
                    env@.len() == env0.len(),
                    eval_forms_spec(fuel as nat, items, 0, env0, seq![]) == eval_forms_spec(
                        fuel as nat,
                        items,
                        i as int,
                        env@,
                        objects_view(out@),
                    ),
                decreases list@.len() - i,
            {
                proof {
                    vstd::std_specs::vec::axiom_vec_index_decreases(*list, i as int);
                }
                let ghost acc = objects_view(out@);
                match eval_in(&list[i], env, fuel) {
                    Ok(v) => {
                        match v {
                            Object::Void => {},
                            _ => {
                                out.push(v);
                                assert(objects_view(out@) =~= acc.push(v@));
                            },
                        }
                    },
                    Err(e) => {
                        return Err(e);
                    },
                }
                i = i + 1;
            }
            proof {
                lemma_list_view(out);
            }
            Ok(Object::List(out))
        },
    }
}

fn eval_if(list: &Vec<Object>, env: &mut Env, fuel: u32) -> (r: Result<Object, EvalError>)
    requires
        old(env).wf(),
        list@.len() > 0,
        list@[0] matches Object::Symbol(s) && form_of(s@) == Form::If,
    ensures
        final(env).wf(),
        final(env)@.len() == old(env)@.len(),
        (result_view(r), final(env)@) == list_outcome(fuel, list@, old(env)@),
    decreases fuel, list, 1nat,
{
    let ghost items = objects_view(list@);
    if list.len() != 4 {
        return Err(EvalError::Arity);
    }
    proof {
        vstd::std_specs::vec::axiom_vec_index_decreases(*list, 1);
        vstd::std_specs::vec::axiom_vec_index_decreases(*list, 2);
        vstd::std_specs::vec::axiom_vec_index_decreases(*list, 3);
    }
    let cond = match eval_in(&list[1], env, fuel) {
        Ok(Object::Bool(b)) => b,
        Ok(_) => return Err(EvalError::TypeMismatch),
        Err(e) => return Err(e),
    };
    if cond {
        eval_in(&list[2], env, fuel)
    } else {
        eval_in(&list[3], env, fuel)
    }
}

fn eval_define(list: &Vec<Object>, env: &mut Env, fuel: u32) -> (r: Result<Object, EvalError>)
    requires
        old(env).wf(),
        list@.len() > 0,
        list@[0] matches Object::Symbol(s) && form_of(s@) == Form::Define,
    ensures
        final(env).wf(),
        final(env)@.len() == old(env)@.len(),
        (result_view(r), final(env)@) == list_outcome(fuel, list@, old(env)@),
    decreases fuel, list, 1nat,
{
    let ghost items = objects_view(list@);
    if list.len() != 3 {
        return Err(EvalError::Arity);
    }
    let name: &str = match &list[1] {
        Object::Symbol(s) => s.as_str(),
        _ => return Err(EvalError::TypeMismatch),
    };
    proof {
        vstd::std_specs::vec::axiom_vec_index_decreases(*list, 2);
    }
    let val = match eval_in(&list[2], env, fuel) {
        Ok(v) => v,
        Err(e) => return Err(e),
    };
    proof {
        env.lemma_wf_len();
    }
    env.set(name, val);
    Ok(Object::Void)
}

fn eval_binary_op(op: Op, list: &Vec<Object>, env: &mut Env, fuel: u32) -> (r: Result<
    Object,
    EvalError,
>)
    requires
        old(env).wf(),
        list@.len() > 0,
        list@[0] matches Object::Symbol(s) && form_of(s@) == Form::Binary(op),
    ensures
        final(env).wf(),
        final(env)@.len() == old(env)@.len(),
        (result_view(r), final(env)@) == list_outcome(fuel, list@, old(env)@),
    decreases fuel, list, 1nat,
{
    let ghost items = objects_view(list@);
    if list.len() != 3 {
        return Err(EvalError::Arity);
    }
    proof {
        vstd::std_specs::vec::axiom_vec_index_decreases(*list, 1);
        vstd::std_specs::vec::axiom_vec_index_decreases(*list, 2);
    }
    let left = match eval_in(&list[1], env, fuel) {
        Ok(v) => v,
        Err(e) => return Err(e),
    };
    let right = match eval_in(&list[2], env, fuel) {
        Ok(v) => v,
        Err(e) => return Err(e),
    };
    let a = match left {
        Object::Integer(n) => n,
        _ => return Err(EvalError::TypeMismatch),
    };
    let b = match right {
        Object::Integer(n) => n,
        _ => return Err(EvalError::TypeMismatch),
    };
    apply_binary(op, a, b)
}

#[verifier::loop_isolation(false)]
fn eval_function_definition(list: &Vec<Object>) -> (r: Result<Object, EvalError>)
    requires
        list@.len() > 0,
        list@[0] matches Object::Symbol(s) && form_of(s@) == Form::Lambda,
    ensures
        result_view(r) == lambda_form(objects_view(list@)),
{
    let ghost items = objects_view(list@);
    if list.len() != 3 {
        return Err(EvalError::Arity);
    }
    let ps = match &list[1] {
        Object::List(ps) => ps,
        _ => {
            assert(!(items[1] is List));
            return Err(EvalError::TypeMismatch);
        },
    };
    proof {
        lemma_list_view(*ps);
    }
    let ghost pv = objects_view(ps@);
    assert(items[1] == Sexp::List(pv));
    let mut params: Vec<String> = Vec::new();
    let mut i: usize = 0;
    while i < ps.len()
        invariant
            pv == objects_view(ps@),
            i <= ps@.len(),
            params@.len() == i,
            forall|m: int| 0 <= m < i ==> pv[m] is Symbol,
            forall|m: int| 0 <= m < i ==> (#[trigger] params@[m])@ == pv[m]->Symbol_0,
        decreases ps@.len() - i,
    {
        match &ps[i] {
            Object::Symbol(s) => params.push(s.clone()),
            _ => {
                assert(!all_symbols(pv)) by {
                    assert(!(pv[i as int] is Symbol));
                }
                return Err(EvalError::TypeMismatch);
            },
        }
        i = i + 1;
    }
    let body = match &list[2] {
        Object::List(b) => {
            proof {
                lemma_list_view(*b);
            }
            Object::copy_all(b, &list[2])
        },
        _ => return Err(EvalError::TypeMismatch),
    };
    proof {
        lemma_lambda_view(params, body);
        assert(names_view(params@) =~= Seq::new(pv.len(), |m: int| pv[m]->Symbol_0));
    }
    Ok(Object::Lambda(params, body))
}

#[verifier::loop_isolation(false)]
fn eval_function_call(s: &str, list: &Vec<Object>, env: &mut Env, fuel: u32) -> (r: Result<
    Object,
    EvalError,
>)
    requires
        old(env).wf(),
        list@.len() > 0,
        list@[0] matches Object::Symbol(h) && h@ == s@ && form_of(s@) == Form::Call,
    ensures
        final(env).wf(),
        final(env)@.len() == old(env)@.len(),
        (result_view(r), final(env)@) == list_outcome(fuel, list@, old(env)@),
    decreases fuel, list, 1nat,
{
    let ghost items = objects_view(list@);
    let ghost env0 = env@;
    let (params, body) = match env.get(s) {
        None => return Err(EvalError::UnboundSymbol(s.to_owned())),
        Some(Object::Lambda(params, body)) => (params, body),
        Some(_) => return Err(EvalError::NotALambda(s.to_owned())),
    };
    proof {
        lemma_lambda_view(params, body);
    }
    if list.len() - 1 != params.len() {
        return Err(EvalError::Arity);
    }
    if fuel == 0 {
        return Err(EvalError::TooDeep);
    }
    let mut vals: Vec<Object> = Vec::new();
    let mut i: usize = 1;
    assert(objects_view(vals@) =~= seq![]);
    while i < list.len()
        invariant
            env0 == old(env)@,
            items == objects_view(list@),
            1 <= i <= list@.len(),
            vals@.len() == i - 1,
            env.wf(),
            env@.len() == env0.len(),
            eval_args_spec(fuel as nat, items, 1, env0, seq![]) == eval_args_spec(
                fuel as nat,
                items,
                i as int,
                env@,
                objects_view(vals@),
            ),
        decreases list@.len() - i,
    {
        proof {
            vstd::std_specs::vec::axiom_vec_index_decreases(*list, i as int);
        }
        let ghost acc = objects_view(vals@);
        match eval_in(&list[i], env, fuel) {
            Ok(v) => {
                vals.push(v);
                assert(objects_view(vals@) =~= acc.push(v@));
            },
            Err(e) => return Err(e),
        }
        i = i + 1;
    }
    let ghost env1 = env@;
    let ghost pn = names_view(params@);
    let ghost vv = objects_view(vals@);
    env.push_scope();
    let mut k: usize = 0;
    assert(bindings_map(pn.subrange(0, 0), vv.subrange(0, 0)) == Map::<Seq<char>, Sexp>::empty());
    while k < params.len()
        invariant
            pn == names_view(params@),
            vv == objects_view(vals@),
            vals@.len() == params@.len(),
            k <= params@.len(),
            env.wf(),
            env@ == env1.push(bindings_map(pn.subrange(0, k as int), vv.subrange(0, k as int))),
        decreases params@.len() - k,
    {
        let v = vals[k].duplicate();
        env.set(params[k].as_str(), v);
        proof {
            assert(pn.subrange(0, k + 1).drop_last() =~= pn.subrange(0, k as int));
            assert(vv.subrange(0, k + 1).drop_last() =~= vv.subrange(0, k as int));
            assert(env@ =~= env1.push(
                bindings_map(pn.subrange(0, k + 1), vv.subrange(0, k + 1)),
            ));
        }
        k = k + 1;
    }
    proof {
        assert(pn.subrange(0, pn.len() as int) =~= pn);
        assert(vv.subrange(0, vv.len() as int) =~= vv);
        lemma_list_view(body);
    }
    let call = Object::List(body);
    let r = eval_in(&call, env, fuel - 1);
    env.pop_scope();
    r
}

/// Evaluates `obj` in `env`, allowing lambda calls to nest `depth` deep.
/// Definitions in `obj` stay in the innermost scope of `env`.
pub fn eval_obj_with_depth(obj: &Object, env: &mut Env, depth: u32) -> (r: Result<
    Object,
    EvalError,
>)
    requires
        old(env).wf(),
    ensures
        final(env).wf(),
        (result_view(r), final(env)@) == eval_spec(depth as nat, obj@, old(env)@),
{
    eval_in(obj, env, depth)
}

/// Parses `program` and evaluates it in `env`, allowing lambda calls to
/// nest `depth` deep. A program that does not parse leaves `env` as it was.
pub fn eval_with_depth(program: &str, env: &mut Env, depth: u32) -> (r: Result<
    Object,
    EvalError,
>)
    requires
        old(env).wf(),
    ensures
        final(env).wf(),
        match parse_lexemes(lexemes(program@)) {
            Ok(e) => (result_view(r), final(env)@) == eval_spec(depth as nat, e, old(env)@),
            Err(p) => r == Err::<Object, EvalError>(EvalError::Parse(p)) && final(env)@ == old(
                env,
            )@,
        },
{
    match parse(program) {
        Ok(o) => eval_in(&o, env, depth),
        Err(p) => Err(EvalError::Parse(p)),
    }
}

/// Evaluates `obj` in `env`, allowing lambda calls to nest `MAX_DEPTH` deep.
/// Definitions in `obj` stay in the innermost scope of `env`.
pub fn eval_obj(obj: &Object, env: &mut Env) -> (r: Result<Object, EvalError>)
    requires
        old(env).wf(),
    ensures
        final(env).wf(),
        (result_view(r), final(env)@) == eval_spec(MAX_DEPTH as nat, obj@, old(env)@),
{
    eval_in(obj, env, MAX_DEPTH)
}

/// Parses `program` and evaluates it in `env`. A program that does not
/// parse leaves `env` as it was.
pub fn eval(program: &str, env: &mut Env) -> (r: Result<Object, EvalError>)
    requires
        old(env).wf(),
    ensures
        final(env).wf(),
        match parse_lexemes(lexemes(program@)) {
            Ok(e) => (result_view(r), final(env)@) == eval_spec(MAX_DEPTH as nat, e, old(env)@),
            Err(p) => r == Err::<Object, EvalError>(EvalError::Parse(p)) && final(env)@ == old(
                env,
            )@,
        },
{
    eval_with_depth(program, env, MAX_DEPTH)
}

/// The form `(op x y)`.
pub open spec fn binary_form(op: Seq<char>, x: Sexp, y: Sexp) -> Sexp {
    Sexp::List(seq![Sexp::Symbol(op), x, y])
}

/// Looking up a symbol that no scope binds fails with an unbound-symbol
/// error naming it, and leaves the environment as it was; so does calling
/// it, whatever the arguments.
pub proof fn lemma_unbound_symbol(fuel: nat, name: Seq<char>, args: Seq<Sexp>, env: Scopes)
    requires
        lookup(env, name) is None,
    ensures
        eval_spec(fuel, Sexp::Symbol(name), env) == (
        Err::<Sexp, Fault>(Fault::UnboundSymbol(name)),
        env,
        ),
        form_of(name) == Form::Call ==> eval_spec(
            fuel,
            Sexp::List(seq![Sexp::Symbol(name)] + args),
            env,
        ) == (Err::<Sexp, Fault>(Fault::UnboundSymbol(name)), env),
{
    let items = seq![Sexp::Symbol(name)] + args;
    assert(items[0] == Sexp::Symbol(name));
}

/// Division rounds toward zero: `q * b` lies between zero and `a`, less
/// than `|b|` away from `a`.
pub proof fn lemma_trunc_div(a: int, b: int)
    requires
        b != 0,
    ensures
        abs(trunc_div(a, b) * b) <= abs(a) < abs(trunc_div(a, b) * b) + abs(b),
        a >= 0 ==> trunc_div(a, b) * b >= 0,
        a <= 0 ==> trunc_div(a, b) * b <= 0,
{
    let m = abs(a) / abs(b);
    vstd::arithmetic::div_mod::lemma_fundamental_div_mod(abs(a), abs(b));
    assert(0 <= abs(a) % abs(b) < abs(b)) by {
        vstd::arithmetic::div_mod::lemma_mod_bound(abs(a), abs(b));
    }
    assert(m >= 0) by {
        vstd::arithmetic::div_mod::lemma_div_pos_is_pos(abs(a), abs(b));
    }
    assert(abs(m * b) == m * abs(b)) by (nonlinear_arith)
        requires
            m >= 0,
    ;
    let q = trunc_div(a, b);
    assert(q == m || q == -m);
    assert(abs(q * b) == m * abs(b)) by (nonlinear_arith)
        requires
            q == m || q == -m,
            abs(m * b) == m * abs(b),
            m >= 0,
    ;
    assert(abs(b) * m == m * abs(b)) by (nonlinear_arith);
    if a > 0 {
        assert(q * b >= 0) by (nonlinear_arith)
            requires
                q == (if b > 0 { m } else { -m }),
                m >= 0,
        ;
    } else if a < 0 {
        assert(q * b <= 0) by (nonlinear_arith)
            requires
                q == (if b > 0 { -m } else { m }),
                m >= 0,
        ;
    } else {
        assert(m == 0);
        assert(q == 0);
    }
}

/// Every binary operator form whose operands evaluate to integers: the
/// comparisons give a `Bool` that compares them, and `/` divides rounding
/// toward zero; both operands are evaluated, left first.
pub proof fn lemma_binary_forms(
    fuel: nat,
    x: Sexp,
    y: Sexp,
    env: Scopes,
    a: i64,
    env1: Scopes,
    b: i64,
    env2: Scopes,
)
    requires
        eval_spec(fuel, x, env) == (Ok::<Sexp, Fault>(Sexp::Integer(a)), env1),
        eval_spec(fuel, y, env1) == (Ok::<Sexp, Fault>(Sexp::Integer(b)), env2),
    ensures
        eval_spec(fuel, binary_form(seq!['<'], x, y), env) == (
        Ok::<Sexp, Fault>(Sexp::Bool(a < b)),
        env2,
        ),
        eval_spec(fuel, binary_form(seq!['>'], x, y), env) == (
        Ok::<Sexp, Fault>(Sexp::Bool(a > b)),
        env2,
        ),
        eval_spec(fuel, binary_form(seq!['='], x, y), env) == (
        Ok::<Sexp, Fault>(Sexp::Bool(a == b)),
        env2,
        ),
        eval_spec(fuel, binary_form(seq!['!', '='], x, y), env) == (
        Ok::<Sexp, Fault>(Sexp::Bool(a != b)),
        env2,
        ),
        b != 0 && !(a == i64::MIN && b == -1) ==> eval_spec(
            fuel,
            binary_form(seq!['/'], x, y),
            env,
        ) == (Ok::<Sexp, Fault>(Sexp::Integer(trunc_div(a as int, b as int) as i64)), env2),
        b != 0 ==> abs(trunc_div(a as int, b as int) * b) <= abs(a as int) < abs(
            trunc_div(a as int, b as int) * b,
        ) + abs(b as int),
        b != 0 && a >= 0 ==> trunc_div(a as int, b as int) * b >= 0,
        b != 0 && a <= 0 ==> trunc_div(a as int, b as int) * b <= 0,
        b == 0 ==> eval_spec(fuel, binary_form(seq!['/'], x, y), env) == (
        Err::<Sexp, Fault>(Fault::DivisionByZero),
        env2,
        ),
{
    assert forall|c: char, d: char| c != d implies #[trigger] seq![c] != #[trigger] seq![d] by {
        assert(seq![c][0] != seq![d][0]);
    }
    assert(seq!['!', '='] != seq!['+'] && seq!['!', '='] != seq!['-'] && seq!['!', '='] != seq![
        '*',
    ] && seq!['!', '='] != seq!['/'] && seq!['!', '='] != seq!['>'] && seq!['!', '='] != seq![
        '=',
    ]) by {
        assert(seq!['!', '='].len() == 2);
    }
    if b != 0 {
        lemma_trunc_div(a as int, b as int);
        if !(a == i64::MIN && b == -1) {
            let q = trunc_div(a as int, b as int);
            let m = abs(a as int) / abs(b as int);
            assert(m <= abs(a as int)) by {
                vstd::arithmetic::div_mod::lemma_div_is_ordered_by_denominator(abs(a as int), 1, abs(b as int));
            }
            if abs(b as int) == 1 {
                assert(m == abs(a as int));
            } else {
                assert(m <= abs(a as int) / 2) by {
                    vstd::arithmetic::div_mod::lemma_div_is_ordered_by_denominator(abs(a as int), 2, abs(b as int));
                }
            }
            assert(in_i64(q));
        }
    }
}

/// Self-evaluation is stable: an integer or a boolean evaluates to itself
/// and changes nothing, and so evaluating it again gives the same; a bound
/// symbol evaluates to its value and changes nothing, so evaluating it a
/// second time in the same environment gives an identical value.
pub proof fn lemma_evaluation_stable(fuel: nat, e: Sexp, env: Scopes)
    requires
        e is Integer || e is Bool || (e matches Sexp::Symbol(s) && lookup(env, s) is Some),
    ensures
        eval_spec(fuel, e, env).1 == env,
        eval_spec(fuel, e, eval_spec(fuel, e, env).1) == eval_spec(fuel, e, env),
        (e is Integer || e is Bool) ==> eval_spec(fuel, e, env) == (Ok::<Sexp, Fault>(e), env),
        eval_spec(fuel, e, env).0 matches Ok(v) && ((v is Integer || v is Bool) ==> eval_spec(
            fuel,
            v,
            env,
        ) == (Ok::<Sexp, Fault>(v), env)),
{
}

} // verus!
