//! Building the nested list structure of a program from its tokens.
use crate::lexer::{lexemes, token_views, tokenize, Lexeme, Token};
use vstd::prelude::*;

verus! {

/// Why a text is not a program.
#[derive(Debug, PartialEq)]
pub enum ParseError {
    /// The text does not start with an open parenthesis.
    ExpectedLParen,
    /// The tokens ran out before a list was closed.
    Unclosed,
    /// Tokens follow the close of the program's list.
    TrailingTokens,
}

/// A value of the language, and a parsed program.
#[derive(Debug, PartialEq)]
pub enum Object {
    Void,
    Integer(i64),
    Bool(bool),
    Symbol(String),
    /// Parameter names and body forms.
    Lambda(Vec<String>, Vec<Object>),
    List(Vec<Object>),
}

/// The mathematical value of an `Object`.
pub enum Sexp {
    Void,
    Integer(i64),
    Bool(bool),
    Symbol(Seq<char>),
    Lambda(Seq<Seq<char>>, Seq<Sexp>),
    List(Seq<Sexp>),
}

pub open spec fn names_view(v: Seq<String>) -> Seq<Seq<char>> {
    v.map_values(|s: String| s@)
}

/// The value of `o`, part by part.
pub open spec fn sexp_of(o: Object) -> Sexp
    decreases o,
{
    match o {
        Object::Void => Sexp::Void,
        Object::Integer(n) => Sexp::Integer(n),
        Object::Bool(b) => Sexp::Bool(b),
        Object::Symbol(s) => Sexp::Symbol(s@),
        Object::Lambda(params, body) => Sexp::Lambda(
            names_view(params@),
            Seq::new(
                body@.len(),
                |i: int|
                    if 0 <= i < body@.len() {
                        sexp_of(body@[i])
                    } else {
                        Sexp::Void
                    },
            ),
        ),
        Object::List(items) => Sexp::List(
            Seq::new(
                items@.len(),
                |i: int|
                    if 0 <= i < items@.len() {
                        sexp_of(items@[i])
                    } else {
                        Sexp::Void
                    },
            ),
        ),
    }
}

impl View for Object {
    type V = Sexp;

    open spec fn view(&self) -> Sexp {
        sexp_of(*self)
    }
}

pub open spec fn objects_view(v: Seq<Object>) -> Seq<Sexp> {
    v.map_values(|o: Object| o@)
}

pub proof fn lemma_list_view(items: Vec<Object>)
    ensures
        Object::List(items)@ == Sexp::List(objects_view(items@)),
{
    let l = Object::List(items)@->List_0;
    assert(l.len() == items@.len());
    assert forall|i: int| 0 <= i < items@.len() implies l[i] == objects_view(items@)[i] by {
        assert(l[i] == items@[i]@);
    }
    assert(l =~= objects_view(items@));
}

pub proof fn lemma_lambda_view(params: Vec<String>, body: Vec<Object>)
    ensures
        Object::Lambda(params, body)@ == Sexp::Lambda(names_view(params@), objects_view(body@)),
{
    let l = Object::Lambda(params, body)@->Lambda_1;
    assert(l.len() == body@.len());
    assert forall|i: int| 0 <= i < body@.len() implies l[i] == objects_view(body@)[i] by {
        assert(l[i] == body@[i]@);
    }
    assert(l =~= objects_view(body@));
}

pub fn copy_names(v: &Vec<String>) -> (r: Vec<String>)
    ensures
        names_view(r@) == names_view(v@),
{
    let mut r: Vec<String> = Vec::new();
    let mut i: usize = 0;
    while i < v.len()
        invariant
            i <= v@.len(),
            names_view(r@) == names_view(v@.subrange(0, i as int)),
        decreases v@.len() - i,
    {
        let ghost before = names_view(r@);
        r.push(v[i].clone());
        assert(names_view(r@) =~= before.push(v@[i as int]@));
        assert(names_view(v@.subrange(0, i + 1)) =~= names_view(v@.subrange(0, i as int)).push(
            v@[i as int]@,
        ));
        i = i + 1;
    }
    assert(v@.subrange(0, v@.len() as int) =~= v@);
    r
}

impl Object {
    /// A copy of this value, equal to it in every part.
    pub fn duplicate(&self) -> (r: Object)
        ensures
            r@ == self@,
        decreases self,
    {
        match self {
            Object::Void => Object::Void,
            Object::Integer(n) => Object::Integer(*n),
            Object::Bool(b) => Object::Bool(*b),
            Object::Symbol(s) => Object::Symbol(s.clone()),
            Object::Lambda(params, body) => {
                let p = copy_names(params);
                let b = Object::copy_all(body, self);
                proof {
                    lemma_lambda_view(*params, *body);
                    lemma_lambda_view(p, b);
                }
                Object::Lambda(p, b)
            },
            Object::List(items) => {
                let c = Object::copy_all(items, self);
                proof {
                    lemma_list_view(*items);
                    lemma_list_view(c);
                }
                Object::List(c)
            },
        }
    }

    /// Copies the elements of `v`, a part of `whole`.
    pub(crate) fn copy_all(v: &Vec<Object>, whole: &Object) -> (r: Vec<Object>)
        requires
            (whole matches Object::List(items) && items == *v) || (whole matches Object::Lambda(
                _,
                body,
            ) && body == *v),
        ensures
            objects_view(r@) == objects_view(v@),
        decreases whole, 0nat,
    {
        let mut r: Vec<Object> = Vec::new();
        let mut i: usize = 0;
        while i < v.len()
            invariant
                i <= v@.len(),
                (whole matches Object::List(items) && items == *v) || (whole matches Object::Lambda(
                    _,
                    body,
                ) && body == *v),
                objects_view(r@) == objects_view(v@.subrange(0, i as int)),
            decreases v@.len() - i,
        {
            let ghost before = objects_view(r@);
            proof {
                vstd::std_specs::vec::axiom_vec_index_decreases(*v, i as int);
            }
            let e = v[i].duplicate();
            r.push(e);
            assert(objects_view(r@) =~= before.push(v@[i as int]@));
            assert(objects_view(v@.subrange(0, i + 1)) =~= objects_view(
                v@.subrange(0, i as int),
            ).push(v@[i as int]@));
            i = i + 1;
        }
        assert(v@.subrange(0, v@.len() as int) =~= v@);
        r
    }
}

impl Clone for Object {
    fn clone(&self) -> Self {
        self.duplicate()
    }
}

/// Reads list items from position `i` on, after `acc`, up to the close
/// parenthesis that ends the list; gives the list and the position after it.
pub open spec fn read_items(t: Seq<Lexeme>, i: int, acc: Seq<Sexp>) -> Option<(Sexp, int)>
    decreases t.len() - i,
{
    if i < 0 || i >= t.len() {
        None
    } else {
        match t[i] {
            Lexeme::RParen => Some((Sexp::List(acc), i + 1)),
            Lexeme::Integer(n) => read_items(t, i + 1, acc.push(Sexp::Integer(n))),
            Lexeme::Symbol(s) => read_items(t, i + 1, acc.push(Sexp::Symbol(s))),
            Lexeme::LParen => match read_items(t, i + 1, seq![]) {
                Some((e, j)) => if i < j <= t.len() {
                    read_items(t, j, acc.push(e))
                } else {
                    None
                },
                None => None,
            },
        }
    }
}

/// The program that a token sequence holds: one list, from an opening
/// parenthesis to its matching close, which must be the last token.
pub open spec fn parse_lexemes(t: Seq<Lexeme>) -> Result<Sexp, ParseError> {
    if t.len() == 0 || t[0] != Lexeme::LParen {
        Err(ParseError::ExpectedLParen)
    } else {
        match read_items(t, 1, seq![]) {
            Some((e, j)) => if j == t.len() {
                Ok(e)
            } else {
                Err(ParseError::TrailingTokens)
            },
            None => Err(ParseError::Unclosed),
        }
    }
}

/// How much a lexeme opens: one for an open parenthesis, minus one for a
/// close, none otherwise.
pub open spec fn depth_change(l: Lexeme) -> int {
    match l {
        Lexeme::LParen => 1,
        Lexeme::RParen => -1,
        _ => 0,
    }
}

/// Open parentheses less close parentheses in `t[i..j]`.
pub open spec fn balance(t: Seq<Lexeme>, i: int, j: int) -> int
    decreases j - i,
{
    if j <= i {
        0
    } else {
        balance(t, i, j - 1) + depth_change(t[j - 1])
    }
}

proof fn lemma_balance_split(t: Seq<Lexeme>, i: int, m: int, k: int)
    requires
        i <= m <= k,
    ensures
        balance(t, i, k) == balance(t, i, m) + balance(t, m, k),
    decreases k - m,
{
    if k > m {
        lemma_balance_split(t, i, m, k - 1);
    }
}

/// A list read from `i` on ends at the first close parenthesis that brings
/// the depth below where it started.
proof fn lemma_read_items_balanced(t: Seq<Lexeme>, i: int, acc: Seq<Sexp>)
    requires
        read_items(t, i, acc) is Some,
    ensures
        ({
            let j = read_items(t, i, acc)->Some_0.1;
            &&& i < j <= t.len()
            &&& balance(t, i, j) == -1
            &&& forall|k: int| i <= k < j ==> balance(t, i, k) >= 0
        }),
    decreases t.len() - i,
{
    let j = read_items(t, i, acc)->Some_0.1;
    match t[i] {
        Lexeme::RParen => {
            assert(balance(t, i, i + 1) == balance(t, i, i) + depth_change(t[i]));
        },
        Lexeme::LParen => {
            let (e1, j1) = read_items(t, i + 1, seq![])->Some_0;
            lemma_read_items_balanced(t, i + 1, seq![]);
            lemma_read_items_balanced(t, j1, acc.push(e1));
            assert(balance(t, i, i + 1) == balance(t, i, i) + depth_change(t[i]));
            lemma_balance_split(t, i, i + 1, j1);
            lemma_balance_split(t, i, j1, j);
            assert forall|k: int| i <= k < j implies balance(t, i, k) >= 0 by {
                if k > i && k <= j1 {
                    lemma_balance_split(t, i, i + 1, k);
                } else if k > j1 {
                    lemma_balance_split(t, i, j1, k);
                }
            }
        },
        _ => {
            let acc2 = if t[i] is Integer {
                acc.push(Sexp::Integer(t[i]->Integer_0))
            } else {
                acc.push(Sexp::Symbol(t[i]->Symbol_0))
            };
            lemma_read_items_balanced(t, i + 1, acc2);
            assert(balance(t, i, i + 1) == balance(t, i, i) + depth_change(t[i]));
            lemma_balance_split(t, i, i + 1, j);
            assert forall|k: int| i <= k < j implies balance(t, i, k) >= 0 by {
                if k > i {
                    lemma_balance_split(t, i, i + 1, k);
                }
            }
        },
    }
}

/// Unbalanced input is refused: where the first token opens a list and the
/// depth of parentheses never comes back to zero, the program is unclosed.
pub proof fn lemma_unclosed_rejected(t: Seq<Lexeme>)
    requires
        t.len() > 0,
        t[0] == Lexeme::LParen,
        forall|k: int| 1 <= k <= t.len() ==> #[trigger] balance(t, 0, k) > 0,
    ensures
        parse_lexemes(t) == Err::<Sexp, ParseError>(ParseError::Unclosed),
{
    if read_items(t, 1, seq![]) is Some {
        lemma_read_items_balanced(t, 1, seq![]);
        let j = read_items(t, 1, seq![])->Some_0.1;
        assert(balance(t, 0, 1) == balance(t, 0, 0) + depth_change(t[0]));
        lemma_balance_split(t, 0, 1, j);
        assert(balance(t, 0, j) > 0);
    }
}

/// Reads the items of a list whose open parenthesis stands just before
/// `pos`, up to its close.
fn parse_list(tokens: &Vec<Token>, pos: usize) -> (r: Result<(Object, usize), ParseError>)
    requires
        pos <= tokens@.len(),
    ensures
        match read_items(token_views(tokens@), pos as int, seq![]) {
            Some((e, j)) => r matches Ok((o, k)) && o@ == e && k == j && pos < k <= tokens@.len(),
            None => r == Err::<(Object, usize), ParseError>(ParseError::Unclosed),
        },
    decreases tokens@.len() - pos,
{
    let ghost t = token_views(tokens@);
    let n = tokens.len();
    let mut list: Vec<Object> = Vec::new();
    let mut i = pos;
    assert(objects_view(list@) =~= seq![]);
    while i < n
        invariant
            n == tokens@.len(),
            t == token_views(tokens@),
            pos <= i <= n,
            read_items(t, pos as int, seq![]) == read_items(t, i as int, objects_view(list@)),
        decreases n - i,
    {
        let ghost acc = objects_view(list@);
        match &tokens[i] {
            Token::RParen => {
                proof {
                    lemma_list_view(list);
                }
                return Ok((Object::List(list), i + 1));
            },
            Token::Integer(n) => {
                list.push(Object::Integer(*n));
                assert(objects_view(list@) =~= acc.push(Sexp::Integer(*n)));
                i = i + 1;
            },
            Token::Symbol(s) => {
                list.push(Object::Symbol(s.clone()));
                assert(objects_view(list@) =~= acc.push(Sexp::Symbol(s@)));
                i = i + 1;
            },
            Token::LParen => {
                let (sub, j) = parse_list(tokens, i + 1)?;
                list.push(sub);
                assert(objects_view(list@) =~= acc.push(sub@));
                i = j;
            },
        }
    }
    Err(ParseError::Unclosed)
}

/// Parses a program: its tokens must start with an open parenthesis, the
/// list it opens must be closed, and nothing may follow that close.
pub fn parse(program: &str) -> (r: Result<Object, ParseError>)
    ensures
        match parse_lexemes(lexemes(program@)) {
            Ok(e) => r matches Ok(o) && o@ == e,
            Err(err) => r == Err::<Object, ParseError>(err),
        },
{
    let tokens = match tokenize(program) {
        Ok(v) => v,
        Err(_) => return Err(ParseError::Unclosed),
    };
    if tokens.len() == 0 {
        return Err(ParseError::ExpectedLParen);
    }
    match &tokens[0] {
        Token::LParen => {},
        _ => return Err(ParseError::ExpectedLParen),
    }
    match parse_list(&tokens, 1) {
        Ok((o, k)) => if k == tokens.len() {
            Ok(o)
        } else {
            Err(ParseError::TrailingTokens)
        },
        Err(e) => Err(e),
    }
}

} // verus!
