//! Rendering values as text.
use crate::parser::{lemma_lambda_view, lemma_list_view, names_view, objects_view, Object, Sexp};
use vstd::prelude::*;
use vstd::string::StringExecFns;

verus! {

pub open spec fn digit_char(d: int) -> char {
    ('0' as int + d) as char
}

/// The decimal digits of a natural number, most significant first.
pub open spec fn decimal(n: nat) -> Seq<char>
    decreases n,
{
    if n < 10 {
        seq![digit_char(n as int)]
    } else {
        decimal(n / 10).push(digit_char((n % 10) as int))
    }
}

/// An integer in decimal, with a minus sign where it is negative.
pub open spec fn integer_text(n: i64) -> Seq<char> {
    if n < 0 {
        seq!['-'] + decimal((-(n as int)) as nat)
    } else {
        decimal(n as nat)
    }
}

/// The text of a value: `Void`, an integer in decimal, `true` or `false`,
/// a symbol's name, a list's elements between parentheses separated by
/// spaces, and a lambda as `Lambda(` with each parameter followed by a
/// space, `)`, then each body form after a space.
pub open spec fn render_spec(e: Sexp) -> Seq<char>
    decreases e, 1nat, 0int,
{
    match e {
        Sexp::Void => seq!['V', 'o', 'i', 'd'],
        Sexp::Integer(n) => integer_text(n),
        Sexp::Bool(b) => if b {
            seq!['t', 'r', 'u', 'e']
        } else {
            seq!['f', 'a', 'l', 's', 'e']
        },
        Sexp::Symbol(s) => s,
        Sexp::Lambda(params, body) => seq!['L', 'a', 'm', 'b', 'd', 'a', '('] + params_text(
            params,
            params.len() as int,
        ) + seq![')'] + body_text(body, body.len() as int),
        Sexp::List(items) => seq!['('] + items_text(items, items.len() as int) + seq![')'],
    }
}

/// The first `n` parameter names, each followed by a space.
pub open spec fn params_text(params: Seq<Seq<char>>, n: int) -> Seq<char>
    decreases n,
{
    if n <= 0 || n > params.len() {
        seq![]
    } else {
        params_text(params, n - 1) + params[n - 1] + seq![' ']
    }
}

/// The first `n` body forms, each after a space.
pub open spec fn body_text(body: Seq<Sexp>, n: int) -> Seq<char>
    decreases body, 0nat, n,
{
    if n <= 0 || n > body.len() {
        seq![]
    } else {
        body_text(body, n - 1) + seq![' '] + render_spec(body[n - 1])
    }
}

/// The first `n` items, separated by single spaces.
pub open spec fn items_text(items: Seq<Sexp>, n: int) -> Seq<char>
    decreases items, 0nat, n,
{
    if n <= 0 || n > items.len() {
        seq![]
    } else if n == 1 {
        render_spec(items[0])
    } else {
        items_text(items, n - 1) + seq![' '] + render_spec(items[n - 1])
    }
}

fn digit_str(d: u64) -> (r: &'static str)
    requires
        d < 10,
    ensures
        r@ == seq![digit_char(d as int)],
{
    proof {
        reveal_strlit("0");
        reveal_strlit("1");
        reveal_strlit("2");
        reveal_strlit("3");
        reveal_strlit("4");
        reveal_strlit("5");
        reveal_strlit("6");
        reveal_strlit("7");
        reveal_strlit("8");
        reveal_strlit("9");
    }
    let r = if d == 0 {
        "0"
    } else if d == 1 {
        "1"
    } else if d == 2 {
        "2"
    } else if d == 3 {
        "3"
    } else if d == 4 {
        "4"
    } else if d == 5 {
        "5"
    } else if d == 6 {
        "6"
    } else if d == 7 {
        "7"
    } else if d == 8 {
        "8"
    } else {
        "9"
    };
    assert(r@ =~= seq![digit_char(d as int)]);
    r
}

fn append_decimal(out: &mut String, m: u64)
    ensures
        final(out)@ == old(out)@ + decimal(m as nat),
    decreases m,
{
    if m >= 10 {
        append_decimal(out, m / 10);
    }
    out.append(digit_str(m % 10));
    assert(out@ =~= old(out)@ + decimal(m as nat));
}

fn append_str(out: &mut String, s: &str)
    ensures
        final(out)@ == old(out)@ + s@,
{
    out.append(s);
}

impl Object {
    /// Appends the text of this value to `out`.
    pub fn render_into(&self, out: &mut String)
        ensures
            final(out)@ == old(out)@ + render_spec(self@),
        decreases self,
    {
        match self {
            Object::Void => {
                proof {
                    reveal_strlit("Void");
                }
                append_str(out, "Void");
                assert(out@ =~= old(out)@ + render_spec(self@));
            },
            Object::Integer(n) => {
                if *n < 0 {
                    proof {
                        reveal_strlit("-");
                    }
                    append_str(out, "-");
                    let m: u64 = (0 - *n as i128) as u64;
                    append_decimal(out, m);
                } else {
                    append_decimal(out, *n as u64);
                }
                assert(out@ =~= old(out)@ + render_spec(self@));
            },
            Object::Bool(b) => {
                proof {
                    reveal_strlit("true");
                    reveal_strlit("false");
                }
                if *b {
                    append_str(out, "true");
                } else {
                    append_str(out, "false");
                }
                assert(out@ =~= old(out)@ + render_spec(self@));
            },
            Object::Symbol(s) => {
                append_str(out, s.as_str());
            },
            Object::Lambda(params, body) => {
                proof {
                    lemma_lambda_view(*params, *body);
                    reveal_strlit("Lambda(");
                    reveal_strlit(")");
                }
                let ghost ps = names_view(params@);
                let ghost bs = objects_view(body@);
                append_str(out, "Lambda(");
                let ghost start = out@;
                let mut i: usize = 0;
                while i < params.len()
                    invariant
                        ps == names_view(params@),
                        i <= params@.len(),
                        out@ == start + params_text(ps, i as int),
                    decreases params@.len() - i,
                {
                    proof {
                        reveal_strlit(" ");
                        assert(" "@ =~= seq![' ']);
                        assert(ps[i as int] == params@[i as int]@);
                    }
                    append_str(out, params[i].as_str());
                    append_str(out, " ");
                    assert(out@ =~= start + params_text(ps, i + 1));
                    i = i + 1;
                }
                append_str(out, ")");
                let ghost mid = out@;
                let mut j: usize = 0;
                while j < body.len()
                    invariant
                        bs == objects_view(body@),
                        j <= body@.len(),
                        out@ == mid + body_text(bs, j as int),
                        self matches Object::Lambda(_, b) && b == *body,
                    decreases body@.len() - j,
                {
                    proof {
                        vstd::std_specs::vec::axiom_vec_index_decreases(*body, j as int);
                        reveal_strlit(" ");
                        assert(" "@ =~= seq![' ']);
                        assert(bs[j as int] == body@[j as int]@);
                    }
                    append_str(out, " ");
                    body[j].render_into(out);
                    assert(out@ =~= mid + body_text(bs, j + 1));
                    j = j + 1;
                }
                assert(out@ =~= old(out)@ + render_spec(self@));
            },
            Object::List(items) => {
                proof {
                    lemma_list_view(*items);
                    reveal_strlit("(");
                    reveal_strlit(")");
                }
                let ghost xs = objects_view(items@);
                append_str(out, "(");
                let ghost start = out@;
                let mut i: usize = 0;
                while i < items.len()
                    invariant
                        xs == objects_view(items@),
                        i <= items@.len(),
                        out@ == start + items_text(xs, i as int),
                        self matches Object::List(v) && v == *items,
                    decreases items@.len() - i,
                {
                    proof {
                        vstd::std_specs::vec::axiom_vec_index_decreases(*items, i as int);
                        reveal_strlit(" ");
                        assert(" "@ =~= seq![' ']);
                        assert(xs[i as int] == items@[i as int]@);
                    }
                    if i > 0 {
                        append_str(out, " ");
                    }
                    items[i].render_into(out);
                    assert(out@ =~= start + items_text(xs, i + 1));
                    i = i + 1;
                }
                append_str(out, ")");
                assert(out@ =~= old(out)@ + render_spec(self@));
            },
        }
    }

    /// The text of this value.
    pub fn render(&self) -> (r: String)
        ensures
            r@ == render_spec(self@),
    {
        let mut out = String::new();
        self.render_into(&mut out);
        assert(out@ =~= render_spec(self@));
        out
    }
}

} // verus!
