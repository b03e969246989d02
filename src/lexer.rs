use vstd::prelude::*;
use vstd::string::*;
use crate::ast::{get_function_token, keyword, Func, Token};
use crate::num::{Kind, Literal};

verus! {

/// Failure to split text into tokens.
#[derive(PartialEq, Eq, Structural, Clone, Copy, Debug)]
pub enum LexError {
    /// A character that no token can hold.
    InvalidChar(char),
    /// A `.` that is not the point of a literal `digits.digits`.
    MalformedLiteral,
}

pub open spec fn is_digit(c: char) -> bool {
    '0' <= c && c <= '9'
}

pub open spec fn is_letter(c: char) -> bool {
    ('a' <= c && c <= 'z') || ('A' <= c && c <= 'Z') || c == '_'
}

pub open spec fn is_word_char(c: char) -> bool {
    is_letter(c) || is_digit(c)
}

pub open spec fn is_space(c: char) -> bool {
    c == ' ' || c == '\t' || c == '\n' || c == '\r'
}

/// The single-character tokens.
pub open spec fn symbol(c: char) -> Option<Token> {
    if c == '+' {
        Some(Token::Add)
    } else if c == '-' {
        Some(Token::Sub)
    } else if c == '*' {
        Some(Token::Mul)
    } else if c == '/' {
        Some(Token::Div)
    } else if c == '^' {
        Some(Token::Pow)
    } else if c == '(' {
        Some(Token::LParen)
    } else if c == ')' {
        Some(Token::RParen)
    } else if c == '=' {
        Some(Token::Equals)
    } else {
        None
    }
}

/// Characters that may occur in source text.
pub open spec fn is_valid_char(c: char) -> bool {
    is_word_char(c) || is_space(c) || symbol(c) is Some || c == '.'
}

/// The text of a function keyword.
pub open spec fn func_name(f: Func) -> Seq<char> {
    match f {
        Func::Abs => "abs"@,
        Func::Floor => "floor"@,
        Func::Ln => "ln"@,
        Func::Log => "log"@,
        Func::Sin => "sin"@,
        Func::Cos => "cos"@,
        Func::Tan => "tan"@,
        Func::Arcsin => "arcsin"@,
        Func::Arccos => "arccos"@,
        Func::Arctan => "arctan"@,
    }
}

/// The source text that a token stands for.
pub open spec fn token_text(t: Token) -> Seq<char> {
    match t {
        Token::Num(l) => l.text@,
        Token::Add => seq!['+'],
        Token::Sub => seq!['-'],
        Token::Mul => seq!['*'],
        Token::Div => seq!['/'],
        Token::Pow => seq!['^'],
        Token::LParen => seq!['('],
        Token::RParen => seq![')'],
        Token::Equals => seq!['='],
        Token::Func(f) => func_name(f),
        Token::Ident(s) => s@,
        Token::Eof => Seq::empty(),
    }
}

/// The text of a token sequence, end to end.
pub open spec fn tokens_text(ts: Seq<Token>) -> Seq<char>
    decreases ts.len(),
{
    if ts.len() == 0 {
        Seq::empty()
    } else {
        tokens_text(ts.drop_last()) + token_text(ts.last())
    }
}

/// Source text without its white space.
pub open spec fn strip_spaces(s: Seq<char>) -> Seq<char>
    decreases s.len(),
{
    if s.len() == 0 {
        Seq::empty()
    } else if is_space(s.last()) {
        strip_spaces(s.drop_last())
    } else {
        strip_spaces(s.drop_last()).push(s.last())
    }
}

pub open spec fn all_digits(s: Seq<char>) -> bool {
    forall|i: int| 0 <= i < s.len() ==> is_digit(#[trigger] s[i])
}

/// A fraction part: empty, or `.` and at least one digit.
pub open spec fn fraction_ok(f: Seq<char>) -> bool {
    f.len() == 0 || (f.len() >= 2 && f[0] == '.' && all_digits(f.subrange(1, f.len() as int)))
}

/// An exponent part: empty, or `e` or `E`, an optional sign and at least
/// one digit.
pub open spec fn exponent_ok(e: Seq<char>) -> bool {
    e.len() == 0 || (e.len() >= 2 && (e[0] == 'e' || e[0] == 'E') && ((is_digit(e[1])
        && all_digits(e.subrange(1, e.len() as int))) || (e.len() >= 3 && (e[1] == '+' || e[1]
        == '-') && all_digits(e.subrange(2, e.len() as int)))))
}

/// `t` is `digits`, then the fraction `t[a..b]`, then the exponent `t[b..]`.
pub open spec fn float_parts(t: Seq<char>, a: int, b: int) -> bool {
    &&& 0 < a <= b <= t.len()
    &&& all_digits(t.subrange(0, a))
    &&& fraction_ok(t.subrange(a, b))
    &&& exponent_ok(t.subrange(b, t.len() as int))
}

/// The text of an Integer literal is `digits`; that of a Float, digits
/// with a fraction part, an exponent part or both.
pub open spec fn number_ok(kind: Kind, t: Seq<char>) -> bool {
    match kind {
        Kind::Integer => t.len() > 0 && all_digits(t),
        Kind::Float => exists|a: int, b: int| #[trigger]
            float_parts(t, a, b) && (a < b || b < t.len()),
        _ => false,
    }
}

pub open spec fn literal_ok(l: Literal) -> bool {
    number_ok(l.kind, l.text@)
}

/// Characters that a numeric literal may hold.
pub open spec fn is_number_char(c: char) -> bool {
    is_digit(c) || c == '.' || c == 'e' || c == 'E' || c == '+' || c == '-'
}

/// A token that the lexer may produce before the end marker.
pub open spec fn token_ok(t: Token) -> bool {
    match t {
        Token::Num(l) => literal_ok(l),
        Token::Ident(s) => s@.len() > 0 && is_letter(s@[0]) && (forall|i: int|
            0 <= i < s@.len() ==> is_word_char(#[trigger] s@[i])) && keyword(s@) is None,
        Token::Func(f) => true,
        Token::Eof => false,
        _ => true,
    }
}

/// A token sequence ended by its one end marker.
pub open spec fn tokens_ok(ts: Seq<Token>) -> bool {
    &&& ts.len() > 0
    &&& ts.last() is Eof
    &&& forall|k: int| 0 <= k < ts.len() - 1 ==> token_ok(#[trigger] ts[k])
}

/// Every character of `s[a..b]` is white space.
pub open spec fn spaces(s: Seq<char>, a: int, b: int) -> bool {
    forall|m: int| a <= m < b ==> is_space(#[trigger] s[m])
}

/// Whether an exponent part `e[+-]digit...` starts at `e`.
pub open spec fn exponent_start(s: Seq<char>, e: int) -> bool {
    &&& 0 <= e
    &&& e + 1 < s.len()
    &&& s[e] == 'e' || s[e] == 'E'
    &&& is_digit(s[e + 1]) || (e + 2 < s.len() && (s[e + 1] == '+' || s[e + 1] == '-') && is_digit(
        s[e + 2],
    ))
}

/// No longer token of the same sort could have been read: the character
/// at `e`, just after the token, cannot continue it.
pub open spec fn maximal_at(s: Seq<char>, t: Token, e: int) -> bool {
    match t {
        Token::Ident(_) | Token::Func(_) => e >= s.len() || !is_word_char(s[e]),
        Token::Num(l) => e >= s.len() || (!is_digit(s[e]) && s[e] != '.' && (l.text@.contains('e')
            || l.text@.contains('E') || !exponent_start(s, e))),
        _ => true,
    }
}

/// Where the token before token `k` ends in the source (0 for the first).
pub open spec fn prev_end(ts: Seq<Token>, pos: Seq<int>, k: int) -> int {
    if k <= 0 {
        0
    } else {
        pos[k - 1] + token_text(ts[k - 1]).len()
    }
}

/// Token `k` stands at `pos[k]` in the source, after white space only, and
/// was read as far as it goes.
pub open spec fn placed_at(s: Seq<char>, ts: Seq<Token>, pos: Seq<int>, k: int) -> bool {
    let p = pos[k];
    let e = p + token_text(ts[k]).len();
    &&& prev_end(ts, pos, k) <= p
    &&& e <= s.len()
    &&& s.subrange(p, e) == token_text(ts[k])
    &&& spaces(s, prev_end(ts, pos, k), p)
    &&& maximal_at(s, ts[k], e)
}

/// The tokens cover the source left to right at positions `pos`, with only
/// white space between, before and after them.
pub open spec fn laid_out(s: Seq<char>, ts: Seq<Token>, pos: Seq<int>) -> bool {
    &&& pos.len() == ts.len()
    &&& forall|k: int| 0 <= k < ts.len() ==> #[trigger] placed_at(s, ts, pos, k)
    &&& spaces(s, prev_end(ts, pos, ts.len() as int), s.len() as int)
}

/// A number `kind` reads as `s[i..e]`, as far as it goes, and the `.`
/// after it can neither start a fraction nor continue one.
pub open spec fn bad_number(s: Seq<char>, i: int, e: int, kind: Kind) -> bool {
    &&& 0 <= i < e < s.len()
    &&& number_ok(kind, s.subrange(i, e))
    &&& s[e] == '.'
    &&& kind is Float || !(e + 1 < s.len() && is_digit(s[e + 1]))
}

/// The text up to `i` lexes to `ts` at positions `at`, and at `i` stands
/// a `.` that no token can start, or a number followed by a stray `.`.
pub open spec fn stuck_at(s: Seq<char>, ts: Seq<Token>, at: Seq<int>, i: int) -> bool {
    &&& at.len() == ts.len()
    &&& forall|k: int| 0 <= k < ts.len() ==> #[trigger] placed_at(s, ts, at, k)
    &&& prev_end(ts, at, ts.len() as int) <= i < s.len()
    &&& spaces(s, prev_end(ts, at, ts.len() as int), i)
    &&& s[i] == '.' || exists|e: int, kind: Kind| bad_number(s, i, e, kind)
}

/// Whether some character of the text can begin no token.
pub open spec fn has_invalid_char(s: Seq<char>) -> bool {
    exists|i: int| 0 <= i < s.len() && !is_valid_char(#[trigger] s[i])
}

fn is_digit_exec(c: char) -> (r: bool)
    ensures
        r == is_digit(c),
{
    '0' <= c && c <= '9'
}

fn is_letter_exec(c: char) -> (r: bool)
    ensures
        r == is_letter(c),
{
    ('a' <= c && c <= 'z') || ('A' <= c && c <= 'Z') || c == '_'
}

fn is_space_exec(c: char) -> (r: bool)
    ensures
        r == is_space(c),
{
    c == ' ' || c == '\t' || c == '\n' || c == '\r'
}

fn symbol_exec(c: char) -> (r: Option<Token>)
    ensures
        r == symbol(c),
{
    if c == '+' {
        Some(Token::Add)
    } else if c == '-' {
        Some(Token::Sub)
    } else if c == '*' {
        Some(Token::Mul)
    } else if c == '/' {
        Some(Token::Div)
    } else if c == '^' {
        Some(Token::Pow)
    } else if c == '(' {
        Some(Token::LParen)
    } else if c == ')' {
        Some(Token::RParen)
    } else if c == '=' {
        Some(Token::Equals)
    } else {
        None
    }
}

/// The first character that can begin no token, if any.
fn first_invalid(s: &str) -> (r: Option<char>)
    ensures
        r is Some <==> has_invalid_char(s@),
        r is Some ==> !is_valid_char(r->Some_0) && s@.contains(r->Some_0),
{
    let n = s.unicode_len();
    let mut i: usize = 0;
    while i < n
        invariant
            n == s@.len(),
            i <= n,
            forall|j: int| 0 <= j < i ==> is_valid_char(#[trigger] s@[j]),
        decreases n - i,
    {
        let c = s.get_char(i);
        let ok = is_letter_exec(c) || is_digit_exec(c) || is_space_exec(c)
            || symbol_exec(c).is_some() || c == '.';
        if !ok {
            return Some(c);
        }
        i = i + 1;
    }
    None
}

proof fn lemma_strip_run(s: Seq<char>, i: int, j: int)
    requires
        0 <= i <= j <= s.len(),
        forall|k: int| i <= k < j ==> !is_space(#[trigger] s[k]),
    ensures
        strip_spaces(s.subrange(0, j)) == strip_spaces(s.subrange(0, i)) + s.subrange(i, j),
    decreases j - i,
{
    if j > i {
        lemma_strip_run(s, i, j - 1);
        let a = s.subrange(0, j);
        assert(a.drop_last() =~= s.subrange(0, j - 1));
        assert(s.subrange(i, j) =~= s.subrange(i, j - 1).push(s[j - 1]));
    } else {
        assert(s.subrange(i, j) =~= Seq::<char>::empty());
    }
}

proof fn lemma_strip_space(s: Seq<char>, i: int)
    requires
        0 <= i < s.len(),
        is_space(s[i]),
    ensures
        strip_spaces(s.subrange(0, i + 1)) == strip_spaces(s.subrange(0, i)),
{
    assert(s.subrange(0, i + 1).drop_last() =~= s.subrange(0, i));
}

/// The end of the run of digits that starts at `from`.
fn digits_end(s: &str, from: usize) -> (r: usize)
    requires
        from <= s@.len(),
    ensures
        from <= r <= s@.len(),
        forall|k: int| from <= k < r ==> is_digit(#[trigger] s@[k]),
        r < s@.len() ==> !is_digit(s@[r as int]),
{
    let n = s.unicode_len();
    let mut j: usize = from;
    while j < n && is_digit_exec(s.get_char(j))
        invariant
            n == s@.len(),
            from <= j <= n,
            forall|k: int| from <= k < j ==> is_digit(#[trigger] s@[k]),
        decreases n - j,
    {
        j = j + 1;
    }
    j
}

proof fn lemma_digits_sub(s: Seq<char>, x: int, y: int)
    requires
        0 <= x <= y <= s.len(),
        forall|k: int| x <= k < y ==> is_digit(#[trigger] s[k]),
    ensures
        all_digits(s.subrange(x, y)),
{
    assert forall|k: int| 0 <= k < y - x implies is_digit(#[trigger] s.subrange(x, y)[k]) by {
        assert(s.subrange(x, y)[k] == s[x + k]);
    }
}

/// Reads the numeric literal that starts at `i`, a digit: its
/// representation and where it ends.
fn scan_number(s: &str, i: usize) -> (r: Result<(Kind, usize), LexError>)
    requires
        i < s@.len(),
        is_digit(s@[i as int]),
    ensures
        r matches Ok((kind, end)) ==> i < end <= s@.len() && number_ok(
            kind,
            s@.subrange(i as int, end as int),
        ),
        r matches Ok((kind, end)) ==> forall|k: int|
            i <= k < end ==> is_number_char(#[trigger] s@[k]),
        r matches Ok((kind, end)) ==> end < s@.len() ==> !is_digit(s@[end as int]) && s@[end as int]
            != '.' && (s@.subrange(i as int, end as int).contains('e') || s@.subrange(
            i as int,
            end as int,
        ).contains('E') || !exponent_start(s@, end as int)),
        r matches Err(x) ==> x == LexError::MalformedLiteral && exists|e: int, kind: Kind|
            bad_number(s@, i as int, e, kind),
{
    let n = s.unicode_len();
    let a = digits_end(s, i + 1);
    let mut b = a;
    if a < n && s.get_char(a) == '.' {
        if a + 1 < n && is_digit_exec(s.get_char(a + 1)) {
            b = digits_end(s, a + 2);
        } else {
            proof {
                lemma_digits_sub(s@, i as int, a as int);
                assert(bad_number(s@, i as int, a as int, Kind::Integer));
            }
            return Err(LexError::MalformedLiteral);
        }
    }
    let mut end = b;
    if b < n && b + 1 < n && (s.get_char(b) == 'e' || s.get_char(b) == 'E') {
        let c = s.get_char(b + 1);
        if is_digit_exec(c) {
            end = digits_end(s, b + 2);
        } else if (c == '+' || c == '-') && b + 2 < n && is_digit_exec(s.get_char(b + 2)) {
            end = digits_end(s, b + 3);
        }
    }
    proof {
        let t = s@.subrange(i as int, end as int);
        if end > b {
            assert(t[b - i] == s@[b as int]);
        }
    }
    let kind = if end > a {
        Kind::Float
    } else {
        Kind::Integer
    };
    proof {
        let t = s@.subrange(i as int, end as int);
        let (x, y) = ((a - i) as int, (b - i) as int);
        assert forall|k: int| i <= k < end implies is_number_char(#[trigger] s@[k]) by {
            if k < a || (a < k < b) || k >= b + 2 {
                assert(is_digit(s@[k]));
            }
        }
        lemma_digits_sub(s@, i as int, a as int);
        assert(t.subrange(0, x) =~= s@.subrange(i as int, a as int));
        if kind == Kind::Integer {
            assert(t =~= s@.subrange(i as int, a as int));
        } else {
            if b > a {
                lemma_digits_sub(s@, a + 1, b as int);
                assert(t.subrange(x, y).subrange(1, y - x) =~= s@.subrange(a + 1, b as int));
            } else {
                assert(t.subrange(x, y) =~= Seq::<char>::empty());
            }
            let e = t.subrange(y, t.len() as int);
            if end > b {
                if is_digit(s@[b + 1]) {
                    lemma_digits_sub(s@, b + 1, end as int);
                    assert(e.subrange(1, e.len() as int) =~= s@.subrange(b + 1, end as int));
                } else {
                    lemma_digits_sub(s@, b + 2, end as int);
                    assert(e.subrange(2, e.len() as int) =~= s@.subrange(b + 2, end as int));
                }
            } else {
                assert(e =~= Seq::<char>::empty());
            }
            assert(float_parts(t, x, y));
        }
    }
    if end < n && s.get_char(end) == '.' {
        proof {
            assert(end > a);
            assert(bad_number(s@, i as int, end as int, kind));
        }
        return Err(LexError::MalformedLiteral);
    }
    Ok((kind, end))
}

/// Appending a token that stands at `p`, after white space only, keeps the
/// layout of the tokens before it.
proof fn lemma_place_next(s: Seq<char>, ts: Seq<Token>, pos: Seq<int>, t: Token, p: int)
    requires
        pos.len() == ts.len(),
        forall|k: int| 0 <= k < ts.len() ==> #[trigger] placed_at(s, ts, pos, k),
        prev_end(ts, pos, ts.len() as int) <= p,
        spaces(s, prev_end(ts, pos, ts.len() as int), p),
        p + token_text(t).len() <= s.len(),
        s.subrange(p, p + token_text(t).len()) == token_text(t),
        maximal_at(s, t, p + token_text(t).len()),
    ensures
        forall|k: int|
            0 <= k < ts.len() + 1 ==> #[trigger] placed_at(s, ts.push(t), pos.push(p), k),
        prev_end(ts.push(t), pos.push(p), ts.len() + 1 as int) == p + token_text(t).len(),
{
    let ts2 = ts.push(t);
    let pos2 = pos.push(p);
    assert forall|k: int| 0 <= k < ts.len() + 1 implies #[trigger] placed_at(s, ts2, pos2, k) by {
        if k < ts.len() {
            assert(placed_at(s, ts, pos, k));
            assert(ts2[k] == ts[k] && pos2[k] == pos[k]);
            if k > 0 {
                assert(ts2[k - 1] == ts[k - 1] && pos2[k - 1] == pos[k - 1]);
            }
            assert(prev_end(ts2, pos2, k) == prev_end(ts, pos, k));
        } else {
            if k > 0 {
                assert(ts2[k - 1] == ts[k - 1] && pos2[k - 1] == pos[k - 1]);
            }
            assert(prev_end(ts2, pos2, k) == prev_end(ts, pos, k));
        }
    }
}

/// Splits text into tokens, ended by `Eof`. Integer literals are `digits`,
/// float literals digits with a fraction `.digits`, an exponent
/// `e[+-]digits`, or both; a maximal run of letters, digits and `_`
/// that starts with a letter or `_` is a function keyword or an identifier.
/// The tokens hold all of the text but its white space, each read as far
/// as it goes.
pub fn tokenize(s: &str) -> (r: Result<Vec<Token>, LexError>)
    ensures
        has_invalid_char(s@) <==> r matches Err(LexError::InvalidChar(_)),
        r matches Err(LexError::InvalidChar(c)) ==> !is_valid_char(c) && s@.contains(c),
        r matches Err(LexError::MalformedLiteral) ==> !has_invalid_char(s@) && exists|
            ts: Seq<Token>,
            at: Seq<int>,
            i: int,
        | stuck_at(s@, ts, at, i),
        r matches Ok(ts) ==> tokens_ok(ts@) && tokens_text(ts@) == strip_spaces(s@),
        r matches Ok(ts) ==> exists|at: Seq<int>| laid_out(s@, ts@.drop_last(), at),
{
    if let Some(c) = first_invalid(s) {
        return Err(LexError::InvalidChar(c));
    }
    let n = s.unicode_len();
    let mut ts: Vec<Token> = Vec::new();
    let mut i: usize = 0;
    let ghost mut pos: Seq<int> = Seq::empty();
    while i < n
        invariant
            n == s@.len(),
            i <= n,
            !has_invalid_char(s@),
            forall|k: int| 0 <= k < ts@.len() ==> token_ok(#[trigger] ts@[k]),
            tokens_text(ts@) == strip_spaces(s@.subrange(0, i as int)),
            pos.len() == ts@.len(),
            forall|k: int| 0 <= k < ts@.len() ==> #[trigger] placed_at(s@, ts@, pos, k),
            prev_end(ts@, pos, ts@.len() as int) <= i,
            spaces(s@, prev_end(ts@, pos, ts@.len() as int), i as int),
        decreases n - i,
    {
        let c = s.get_char(i);
        assert(is_valid_char(s@[i as int]));
        let ghost before = ts@;
        let ghost before_pos = pos;
        if is_space_exec(c) {
            proof {
                lemma_strip_space(s@, i as int);
            }
            i = i + 1;
        } else if let Some(t) = symbol_exec(c) {
            ts.push(t);
            proof {
                lemma_strip_run(s@, i as int, i + 1);
                assert(ts@.drop_last() =~= before);
                assert(s@.subrange(i as int, i + 1) =~= seq![c]);
                pos = pos.push(i as int);
                lemma_place_next(s@, before, before_pos, ts@.last(), i as int);
                assert(ts@ =~= before.push(ts@.last()));
            }
            i = i + 1;
        } else if c == '.' {
            proof {
                assert(stuck_at(s@, ts@, pos, i as int));
            }
            return Err(LexError::MalformedLiteral);
        } else if is_digit_exec(c) {
            let (kind, end) = match scan_number(s, i) {
                Ok(x) => x,
                Err(e) => {
                    proof {
                        assert(stuck_at(s@, ts@, pos, i as int));
                    }
                    return Err(e);
                },
            };
            let text = s.substring_char(i, end).to_owned();
            let lit = Literal { kind, text };
            proof {
                assert(text@ =~= s@.subrange(i as int, end as int));
                assert forall|k: int| i <= k < end implies !is_space(#[trigger] s@[k]) by {
                    assert(is_number_char(s@[k]));
                }
                lemma_strip_run(s@, i as int, end as int);
            }
            ts.push(Token::Num(lit));
            proof {
                assert(ts@.drop_last() =~= before);
                pos = pos.push(i as int);
                lemma_place_next(s@, before, before_pos, ts@.last(), i as int);
                assert(ts@ =~= before.push(ts@.last()));
            }
            i = end;
        } else {
            assert(is_letter(c));
            let mut j: usize = i + 1;
            while j < n && (is_letter_exec(s.get_char(j)) || is_digit_exec(s.get_char(j)))
                invariant
                    n == s@.len(),
                    i < j <= n,
                    is_letter(s@[i as int]),
                    forall|k: int| i <= k < j ==> is_word_char(#[trigger] s@[k]),
                decreases n - j,
            {
                j = j + 1;
            }
            let word = s.substring_char(i, j);
            let t = match get_function_token(word) {
                Some(f) => f,
                None => Token::Ident(word.to_owned()),
            };
            proof {
                assert(word@ =~= s@.subrange(i as int, j as int));
                assert(token_text(t) == word@);
                assert forall|k: int| i <= k < j implies !is_space(#[trigger] s@[k]) by {
                    assert(is_word_char(s@[k]));
                }
                lemma_strip_run(s@, i as int, j as int);
            }
            ts.push(t);
            proof {
                assert(ts@.drop_last() =~= before);
                assert(j < n ==> !is_word_char(s@[j as int]));
                pos = pos.push(i as int);
                lemma_place_next(s@, before, before_pos, ts@.last(), i as int);
                assert(ts@ =~= before.push(ts@.last()));
            }
            i = j;
        }
    }
    let ghost before = ts@;
    ts.push(Token::Eof);
    proof {
        assert(ts@.drop_last() =~= before);
        assert(s@.subrange(0, n as int) =~= s@);
        assert(token_text(Token::Eof) =~= Seq::<char>::empty());
        assert(tokens_text(ts@) =~= tokens_text(before));
        assert(laid_out(s@, ts@.drop_last(), pos));
    }
    let r: Result<Vec<Token>, LexError> = Ok(ts);
    proof {
        let v = r->Ok_0;
        assert(v@ == ts@);
        assert(laid_out(s@, v@.drop_last(), pos));
    }
    r
}

} // verus!
