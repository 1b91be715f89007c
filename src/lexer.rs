//! Splitting source text into words and classifying them as tokens.
use vstd::prelude::*;

verus! {

/// One lexical unit of a program.
#[derive(Debug, PartialEq)]
pub enum Token {
    Integer(i64),
    Symbol(String),
    LParen,
    RParen,
}

/// Tokenizing never fails for this grammar; the type is kept for callers
/// that handle a lexing failure uniformly with other errors.
#[derive(Debug)]
pub struct TokenError {
    pub ch: char,
}

/// The characters that `char::is_whitespace` accepts (Unicode White_Space).
pub open spec fn is_space(c: char) -> bool {
    ('\t' <= c <= '\r') || c == ' ' || c == '\u{85}' || c == '\u{a0}' || c == '\u{1680}'
        || ('\u{2000}' <= c <= '\u{200a}') || c == '\u{2028}' || c == '\u{2029}'
        || c == '\u{202f}' || c == '\u{205f}' || c == '\u{3000}'
}

pub open spec fn is_paren(c: char) -> bool {
    c == '(' || c == ')'
}

/// A character that belongs to a word: neither whitespace nor a parenthesis.
pub open spec fn is_word_char(c: char) -> bool {
    !is_space(c) && !is_paren(c)
}

/// The words of `s`: every parenthesis on its own, and every maximal run of
/// word characters, in order; whitespace only separates. This is what
/// surrounding each parenthesis with spaces and then splitting on whitespace
/// gives.
pub open spec fn words(s: Seq<char>) -> Seq<Seq<char>>
    decreases s.len(),
{
    if s.len() == 0 {
        seq![]
    } else {
        let p = s.drop_last();
        let c = s.last();
        let w = words(p);
        if is_space(c) {
            w
        } else if is_paren(c) {
            w.push(seq![c])
        } else if p.len() > 0 && is_word_char(p.last()) {
            w.update(w.len() - 1, w.last().push(c))
        } else {
            w.push(seq![c])
        }
    }
}

/// `s` with a space put on each side of every parenthesis.
pub open spec fn pad_parens(s: Seq<char>) -> Seq<char>
    decreases s.len(),
{
    if s.len() == 0 {
        seq![]
    } else if is_paren(s.last()) {
        pad_parens(s.drop_last()) + seq![' ', s.last(), ' ']
    } else {
        pad_parens(s.drop_last()).push(s.last())
    }
}

/// The maximal runs of non-whitespace characters of `s`, in order.
pub open spec fn split_whitespace(s: Seq<char>) -> Seq<Seq<char>>
    decreases s.len(),
{
    if s.len() == 0 {
        seq![]
    } else {
        let p = s.drop_last();
        let c = s.last();
        let w = split_whitespace(p);
        if is_space(c) {
            w
        } else if p.len() > 0 && !is_space(p.last()) {
            w.update(w.len() - 1, w.last().push(c))
        } else {
            w.push(seq![c])
        }
    }
}

proof fn lemma_pad_parens_last(p: Seq<char>)
    ensures
        p.len() == 0 ==> pad_parens(p).len() == 0,
        p.len() > 0 ==> pad_parens(p).len() > 0 && (is_paren(p.last()) ==> pad_parens(p).last()
            == ' ') && (!is_paren(p.last()) ==> pad_parens(p).last() == p.last()),
{
}

/// The words of a text are what surrounding each parenthesis with spaces
/// and then splitting on whitespace gives.
pub proof fn lemma_words_split_padded(s: Seq<char>)
    ensures
        words(s) == split_whitespace(pad_parens(s)),
    decreases s.len(),
{
    if s.len() > 0 {
        let p = s.drop_last();
        let c = s.last();
        let pp = pad_parens(p);
        lemma_words_split_padded(p);
        lemma_pad_parens_last(p);
        if is_paren(c) {
            let t = pp + seq![' ', c, ' '];
            assert(t.drop_last() =~= pp + seq![' ', c]);
            assert((pp + seq![' ', c]).drop_last() =~= pp.push(' '));
            assert(pp.push(' ').drop_last() =~= pp);
            assert(!is_space(c));
            assert(is_space(' '));
            assert(pad_parens(s) == t);
            assert(split_whitespace(pp.push(' ')) == split_whitespace(pp));
            let u = pp + seq![' ', c];
            assert(u.last() == c && u.drop_last().last() == ' ');
            assert(split_whitespace(u) == split_whitespace(pp).push(seq![c]));
            assert(t.last() == ' ');
            assert(split_whitespace(t) == split_whitespace(u));
        } else {
            assert(pp.push(c).drop_last() =~= pp);
            assert(pad_parens(s) == pp.push(c));
        }
    }
}

pub open spec fn is_digit(c: char) -> bool {
    '0' <= c <= '9'
}

pub open spec fn digit_value(c: char) -> int {
    c as int - '0' as int
}

/// The number that a sequence of decimal digits denotes.
pub open spec fn digits_value(d: Seq<char>) -> int
    decreases d.len(),
{
    if d.len() == 0 {
        0
    } else {
        digits_value(d.drop_last()) * 10 + digit_value(d.last())
    }
}

pub open spec fn all_digits(d: Seq<char>) -> bool {
    d.len() > 0 && forall|i: int| 0 <= i < d.len() ==> is_digit(#[trigger] d[i])
}

/// The integer that a word writes, as `str::parse::<i64>` reads it: an
/// optional sign and at least one decimal digit, within the range of `i64`.
pub open spec fn int_literal(w: Seq<char>) -> Option<i64> {
    let signed = w.len() > 0 && (w[0] == '-' || w[0] == '+');
    let d = if signed { w.drop_first() } else { w };
    let v = if signed && w[0] == '-' { -digits_value(d) } else { digits_value(d) };
    if all_digits(d) && i64::MIN <= v <= i64::MAX {
        Some(v as i64)
    } else {
        None
    }
}

/// What a token stands for, as a mathematical value.
pub enum Lexeme {
    Integer(i64),
    Symbol(Seq<char>),
    LParen,
    RParen,
}

impl View for Token {
    type V = Lexeme;

    open spec fn view(&self) -> Lexeme {
        match self {
            Token::Integer(n) => Lexeme::Integer(*n),
            Token::Symbol(s) => Lexeme::Symbol(s@),
            Token::LParen => Lexeme::LParen,
            Token::RParen => Lexeme::RParen,
        }
    }
}

/// The lexeme of one word: a parenthesis, else an integer where the word
/// reads as one, else a symbol.
pub open spec fn lexeme_of(w: Seq<char>) -> Lexeme {
    if w == seq!['('] {
        Lexeme::LParen
    } else if w == seq![')'] {
        Lexeme::RParen
    } else {
        match int_literal(w) {
            Some(n) => Lexeme::Integer(n),
            None => Lexeme::Symbol(w),
        }
    }
}

/// The lexemes of a program text, one per word.
pub open spec fn lexemes(s: Seq<char>) -> Seq<Lexeme> {
    words(s).map_values(|w: Seq<char>| lexeme_of(w))
}

pub open spec fn token_views(v: Seq<Token>) -> Seq<Lexeme> {
    v.map_values(|t: Token| t@)
}

pub open spec fn views_of(v: Seq<String>) -> Seq<Seq<char>> {
    v.map_values(|s: String| s@)
}

fn is_space_char(c: char) -> (r: bool)
    ensures
        r == is_space(c),
{
    ('\t' <= c && c <= '\r') || c == ' ' || c == '\u{85}' || c == '\u{a0}' || c == '\u{1680}'
        || ('\u{2000}' <= c && c <= '\u{200a}') || c == '\u{2028}' || c == '\u{2029}'
        || c == '\u{202f}' || c == '\u{205f}' || c == '\u{3000}'
}

/// Splits `s` into its words.
pub fn split_words(s: &str) -> (r: Vec<String>)
    ensures
        views_of(r@) == words(s@),
{
    let n = s.unicode_len();
    let mut out: Vec<String> = Vec::new();
    let mut start: usize = 0;
    let mut in_word = false;
    let mut i: usize = 0;
    while i < n
        invariant
            n == s@.len(),
            i <= n,
            in_word ==> start < i && is_word_char(s@[i - 1]),
            in_word ==> views_of(out@).push(s@.subrange(start as int, i as int)) == words(
                s@.subrange(0, i as int),
            ),
            !in_word ==> i == 0 || !is_word_char(s@[i - 1]),
            !in_word ==> views_of(out@) == words(s@.subrange(0, i as int)),
        decreases n - i,
    {
        let c = s.get_char(i);
        let ghost pre = s@.subrange(0, i as int);
        let ghost old_out = views_of(out@);
        assert(s@.subrange(0, i + 1).drop_last() =~= pre);
        assert(s@.subrange(0, i + 1).last() == c);
        if is_space_char(c) || c == '(' || c == ')' {
            if in_word {
                let w = s.substring_char(start, i).to_owned();
                out.push(w);
                in_word = false;
                assert(views_of(out@) =~= old_out.push(s@.subrange(start as int, i as int)));
            }
            let ghost mid = views_of(out@);
            if c == '(' || c == ')' {
                let w = s.substring_char(i, i + 1).to_owned();
                out.push(w);
                assert(s@.subrange(i as int, i + 1) =~= seq![c]);
                assert(views_of(out@) =~= mid.push(seq![c]));
            }
        } else if !in_word {
            start = i;
            in_word = true;
            assert(s@.subrange(start as int, i + 1) =~= seq![c]);
        } else {
            let ghost w = words(pre);
            assert(w.last() == s@.subrange(start as int, i as int));
            assert(s@.subrange(start as int, i + 1) =~= s@.subrange(start as int, i as int).push(c));
            assert(views_of(out@).push(s@.subrange(start as int, i + 1)) =~= w.update(
                w.len() - 1,
                w.last().push(c),
            ));
        }
        i = i + 1;
    }
    assert(s@.subrange(0, n as int) =~= s@);
    if in_word {
        let ghost old_out = views_of(out@);
        let w = s.substring_char(start, n).to_owned();
        out.push(w);
        assert(views_of(out@) =~= old_out.push(s@.subrange(start as int, n as int)));
    }
    out
}


/// Reads the digits of `w` from `from` on as a magnitude, and tells whether
/// it is at most `limit`.
fn read_magnitude(w: &str, from: usize, limit: u64) -> (r: Option<u64>)
    requires
        from <= w@.len(),
        limit == 0x8000_0000_0000_0000u64,
    ensures
        ({
            let d = w@.subrange(from as int, w@.len() as int);
            match r {
                Some(m) => all_digits(d) && m == digits_value(d) && m <= limit,
                None => !all_digits(d) || digits_value(d) > limit,
            }
        }),
{
    let n = w.unicode_len();
    if from >= n {
        assert(w@.subrange(from as int, w@.len() as int).len() == 0);
        return None;
    }
    let mut mag: u64 = 0;
    let mut big = false;
    let mut i: usize = from;
    while i < n
        invariant
            n == w@.len(),
            from < n,
            from <= i <= n,
            limit == 0x8000_0000_0000_0000u64,
            forall|j: int| from <= j < i ==> is_digit(#[trigger] w@[j]),
            !big ==> mag == digits_value(w@.subrange(from as int, i as int)) && mag <= limit,
            big ==> digits_value(w@.subrange(from as int, i as int)) > limit,
        decreases n - i,
    {
        let c = w.get_char(i);
        if !('0' <= c && c <= '9') {
            assert(!is_digit(w@.subrange(from as int, n as int)[i - from]));
            return None;
        }
        let ghost p = w@.subrange(from as int, i as int);
        let ghost q = w@.subrange(from as int, i + 1);
        assert(q.drop_last() =~= p);
        let dig = (c as u32 - '0' as u32) as u64;
        assert(digits_value(q) == digits_value(p) * 10 + dig);
        if big {
            assert(digits_value(q) > limit) by (nonlinear_arith)
                requires
                    digits_value(q) == digits_value(p) * 10 + dig,
                    digits_value(p) > limit,
                    limit > 0,
                    dig >= 0,
            ;
        } else if mag > 922_337_203_685_477_580 {
            big = true;
            assert(digits_value(q) > limit) by (nonlinear_arith)
                requires
                    digits_value(q) == mag * 10 + dig,
                    mag > 922_337_203_685_477_580,
                    limit == 0x8000_0000_0000_0000u64,
                    dig >= 0,
            ;
        } else {
            assert(mag * 10 + dig <= 9_223_372_036_854_775_809) by (nonlinear_arith)
                requires
                    mag <= 922_337_203_685_477_580,
                    dig <= 9,
            ;
            mag = mag * 10 + dig;
            if mag > limit {
                big = true;
            }
        }
        i = i + 1;
    }
    let ghost d = w@.subrange(from as int, n as int);
    assert(all_digits(d)) by {
        assert forall|j: int| 0 <= j < d.len() implies is_digit(#[trigger] d[j]) by {
            assert(d[j] == w@[from + j]);
        }
    }
    if big {
        None
    } else {
        Some(mag)
    }
}

/// Reads `w` as an integer literal, as `str::parse::<i64>` does.
pub fn parse_integer(w: &str) -> (r: Option<i64>)
    ensures
        r == int_literal(w@),
{
    let n = w.unicode_len();
    let limit: u64 = 0x8000_0000_0000_0000u64;
    let mut neg = false;
    let mut from: usize = 0;
    if n > 0 {
        let c = w.get_char(0);
        if c == '-' || c == '+' {
            neg = c == '-';
            from = 1;
        }
    }
    proof {
        if from == 1 {
            assert(w@.drop_first() =~= w@.subrange(1, w@.len() as int));
        } else {
            assert(w@ =~= w@.subrange(0, w@.len() as int));
        }
    }
    match read_magnitude(w, from, limit) {
        None => None,
        Some(m) => {
            if neg {
                if m == limit {
                    Some(i64::MIN)
                } else {
                    Some(-(m as i64))
                }
            } else if m <= i64::MAX as u64 {
                Some(m as i64)
            } else {
                None
            }
        },
    }
}

/// Classifies one word.
fn token_for(w: String) -> (t: Token)
    ensures
        t@ == lexeme_of(w@),
{
    if w.as_str().unicode_len() == 1 && w.as_str().get_char(0) == '(' {
        assert(w@ =~= seq!['(']);
        return Token::LParen;
    }
    if w.as_str().unicode_len() == 1 && w.as_str().get_char(0) == ')' {
        assert(w@ =~= seq![')']);
        return Token::RParen;
    }
    assert(w@ != seq!['('] && w@ != seq![')']) by {
        if w@ == seq!['('] || w@ == seq![')'] {
            assert(w@.len() == 1);
        }
    }
    match parse_integer(w.as_str()) {
        Some(n) => Token::Integer(n),
        None => Token::Symbol(w),
    }
}

/// Converts program text into tokens, in source order: one token per word,
/// a parenthesis for each parenthesis, an integer for each word that reads as
/// one, a symbol for every other word. Never fails.
pub fn tokenize(program: &str) -> (r: Result<Vec<Token>, TokenError>)
    ensures
        r matches Ok(v) && token_views(v@) == lexemes(program@),
{
    let mut ws = split_words(program);
    let ghost all = views_of(ws@);
    let mut backwards: Vec<Token> = Vec::new();
    // Take the words from the end to move each one out without copying.
    let n = ws.len();
    let mut k: usize = 0;
    while k < n
        invariant
            n == all.len(),
            k <= n,
            ws@.len() == n - k,
            forall|j: int| 0 <= j < n - k ==> (#[trigger] ws@[j])@ == all[j],
            backwards@.len() == k,
            forall|j: int| 0 <= j < k ==> (#[trigger] backwards@[j])@ == lexeme_of(all[n - 1 - j]),
        decreases n - k,
    {
        let w = ws.pop().unwrap();
        let t = token_for(w);
        backwards.push(t);
        k = k + 1;
    }
    let mut out: Vec<Token> = Vec::new();
    let mut j: usize = 0;
    while j < n
        invariant
            n == all.len(),
            j <= n,
            backwards@.len() == n - j,
            forall|m: int|
                0 <= m < n - j ==> (#[trigger] backwards@[m])@ == lexeme_of(all[n - 1 - m]),
            out@.len() == j,
            forall|m: int| 0 <= m < j ==> (#[trigger] out@[m])@ == lexeme_of(all[m]),
        decreases n - j,
    {
        let t = backwards.pop().unwrap();
        out.push(t);
        j = j + 1;
    }
    assert(all == words(program@));
    assert(token_views(out@) =~= lexemes(program@));
    Ok(out)
}

} // verus!
