use vstd::prelude::*;
use crate::value::{JsonNumber, SpecNumber, number_text};

verus! {

/// One lexical unit of JSON text.
#[derive(Debug, PartialEq)]
pub enum Token {
    LeftBrace,
    RightBrace,
    Colon,
    String(String),
    Comma,
    Number(JsonNumber),
    True,
    False,
    Null,
    LeftBracket,
    RightBracket,
}

/// The mathematical model of a `Token`.
pub enum SpecToken {
    LeftBrace,
    RightBrace,
    Colon,
    String(Seq<char>),
    Comma,
    Number(SpecNumber),
    True,
    False,
    Null,
    LeftBracket,
    RightBracket,
}

impl View for Token {
    type V = SpecToken;

    open spec fn view(&self) -> SpecToken {
        match self {
            Token::LeftBrace => SpecToken::LeftBrace,
            Token::RightBrace => SpecToken::RightBrace,
            Token::Colon => SpecToken::Colon,
            Token::String(s) => SpecToken::String(s@),
            Token::Comma => SpecToken::Comma,
            Token::Number(n) => SpecToken::Number(n@),
            Token::True => SpecToken::True,
            Token::False => SpecToken::False,
            Token::Null => SpecToken::Null,
            Token::LeftBracket => SpecToken::LeftBracket,
            Token::RightBracket => SpecToken::RightBracket,
        }
    }
}

/// How a token is named in messages: its variant, with a string's text in
/// quotes or a number's decimal text in parentheses.
pub open spec fn token_name(t: SpecToken) -> Seq<char> {
    match t {
        SpecToken::LeftBrace => "LeftBrace"@,
        SpecToken::RightBrace => "RightBrace"@,
        SpecToken::Colon => "Colon"@,
        SpecToken::String(s) => "String(\""@ + s + "\")"@,
        SpecToken::Comma => "Comma"@,
        SpecToken::Number(n) => "Number("@ + number_text(n) + ")"@,
        SpecToken::True => "True"@,
        SpecToken::False => "False"@,
        SpecToken::Null => "Null"@,
        SpecToken::LeftBracket => "LeftBracket"@,
        SpecToken::RightBracket => "RightBracket"@,
    }
}

impl Token {
    /// The token's name, as used in messages.
    pub fn name(&self) -> (r: String)
        ensures
            r@ == token_name(self@),
    {
        match self {
            Token::LeftBrace => String::from_str("LeftBrace"),
            Token::RightBrace => String::from_str("RightBrace"),
            Token::Colon => String::from_str("Colon"),
            Token::String(s) => {
                let mut r = String::from_str("String(\"");
                r.append(s.as_str());
                r.append("\")");
                r
            },
            Token::Comma => String::from_str("Comma"),
            Token::Number(n) => {
                let mut r = String::from_str("Number(");
                let text = n.to_text();
                r.append(text.as_str());
                r.append(")");
                r
            },
            Token::True => String::from_str("True"),
            Token::False => String::from_str("False"),
            Token::Null => String::from_str("Null"),
            Token::LeftBracket => String::from_str("LeftBracket"),
            Token::RightBracket => String::from_str("RightBracket"),
        }
    }
}

pub open spec fn tokens_view(ts: Seq<Token>) -> Seq<SpecToken> {
    ts.map_values(|t: Token| t@)
}

/// A lexing failure, with the line and column reached when it happened.
#[derive(Debug)]
pub struct LexerError {
    pub message: String,
    pub line: usize,
    pub column: usize,
}

/// The model of a lexing failure: message, line and column.
pub struct SpecLexError {
    pub message: Seq<char>,
    pub line: nat,
    pub column: nat,
}

impl View for LexerError {
    type V = SpecLexError;

    open spec fn view(&self) -> SpecLexError {
        SpecLexError { message: self.message@, line: self.line as nat, column: self.column as nat }
    }
}

/// The characters that `char::is_whitespace` accepts (Unicode `White_Space`).
pub open spec fn is_space(c: char) -> bool {
    let u = c as u32;
    (0x09 <= u <= 0x0d) || u == 0x20 || u == 0x85 || u == 0xa0 || u == 0x1680 || (0x2000 <= u
        <= 0x200a) || u == 0x2028 || u == 0x2029 || u == 0x202f || u == 0x205f || u == 0x3000
}

pub open spec fn is_digit(c: char) -> bool {
    '0' <= c <= '9'
}

/// Characters that continue a number once it has started.
pub open spec fn is_number_char(c: char) -> bool {
    is_digit(c) || c == '.' || c == '-'
}

/// Line and column after consuming `c`: a newline starts a new line at column zero.
pub open spec fn next_pos(c: char, line: nat, column: nat) -> (nat, nat) {
    if c == '\n' {
        (line + 1, 0)
    } else {
        (line, column + 1)
    }
}

/// Line and column after consuming `s[i..j]` from the given position.
pub open spec fn pos_after(s: Seq<char>, i: int, j: int, line: nat, column: nat) -> (nat, nat)
    decreases j - i,
{
    if j <= i {
        (line, column)
    } else {
        let p = pos_after(s, i, j - 1, line, column);
        next_pos(s[j - 1], p.0, p.1)
    }
}

/// Number of characters from `i` up to the next double quote or the end.
pub open spec fn string_len(s: Seq<char>, i: int) -> nat
    decreases s.len() - i,
{
    if i < 0 || i >= s.len() || s[i] == '"' {
        0
    } else {
        1 + string_len(s, i + 1)
    }
}

/// Number of number characters from `i` on.
pub open spec fn number_len(s: Seq<char>, i: int) -> nat
    decreases s.len() - i,
{
    if i < 0 || i >= s.len() || !is_number_char(s[i]) {
        0
    } else {
        1 + number_len(s, i + 1)
    }
}

/// A number's text without its leading minus sign, if it has one.
pub open spec fn unsigned_part(n: Seq<char>) -> Seq<char> {
    if n.len() > 0 && n[0] == '-' {
        n.drop_first()
    } else {
        n
    }
}

/// A number's text is accepted when, past an optional minus sign, it holds
/// no minus sign, at most one point and at least one digit.
pub open spec fn numeral_ok(n: Seq<char>) -> bool {
    let u = unsigned_part(n);
    &&& forall|k: int| 0 <= k < u.len() ==> u[k] != '-'
    &&& forall|a: int, b: int|
        0 <= a < u.len() && 0 <= b < u.len() && u[a] == '.' && u[b] == '.' ==> a == b
    &&& exists|k: int| 0 <= k < u.len() && is_digit(u[k])
}

/// Index of the first point in `u` from `k` on, or its length.
pub open spec fn dot_index(u: Seq<char>, k: int) -> int
    decreases u.len() - k,
{
    if k < 0 || k >= u.len() {
        u.len() as int
    } else if u[k] == '.' {
        k
    } else {
        dot_index(u, k + 1)
    }
}

pub open spec fn strip_leading_zeros(t: Seq<char>) -> Seq<char>
    decreases t.len(),
{
    if t.len() > 0 && t[0] == '0' {
        strip_leading_zeros(t.drop_first())
    } else {
        t
    }
}

pub open spec fn strip_trailing_zeros(t: Seq<char>) -> Seq<char>
    decreases t.len(),
{
    if t.len() > 0 && t.last() == '0' {
        strip_trailing_zeros(t.drop_last())
    } else {
        t
    }
}

/// The value of an accepted number text.
pub open spec fn number_of(n: Seq<char>) -> SpecNumber {
    let u = unsigned_part(n);
    let d = dot_index(u, 0);
    SpecNumber {
        negative: n.len() > 0 && n[0] == '-',
        integer: strip_leading_zeros(u.subrange(0, d)),
        fraction: if d < u.len() {
            strip_trailing_zeros(u.subrange(d + 1, u.len() as int))
        } else {
            seq![]
        },
    }
}

pub open spec fn structural(c: char) -> Option<SpecToken> {
    if c == '{' {
        Some(SpecToken::LeftBrace)
    } else if c == '}' {
        Some(SpecToken::RightBrace)
    } else if c == ':' {
        Some(SpecToken::Colon)
    } else if c == '[' {
        Some(SpecToken::LeftBracket)
    } else if c == ']' {
        Some(SpecToken::RightBracket)
    } else if c == ',' {
        Some(SpecToken::Comma)
    } else {
        None
    }
}

pub open spec fn quoted(t: Seq<char>) -> Seq<char> {
    "'"@ + t + "'"@
}

pub open spec fn lex_error(message: Seq<char>, p: (nat, nat)) -> SpecLexError {
    SpecLexError { message, line: p.0, column: p.1 }
}

pub open spec fn prepend(t: SpecToken, r: Result<Seq<SpecToken>, SpecLexError>) -> Result<
    Seq<SpecToken>,
    SpecLexError,
> {
    match r {
        Ok(ts) => Ok(seq![t] + ts),
        Err(e) => Err(e),
    }
}

/// The literal that starts with `c`, with its token.
pub open spec fn literal_for(c: char) -> Option<(Seq<char>, SpecToken)> {
    if c == 't' {
        Some(("true"@, SpecToken::True))
    } else if c == 'f' {
        Some(("false"@, SpecToken::False))
    } else if c == 'n' {
        Some(("null"@, SpecToken::Null))
    } else {
        None
    }
}

/// The tokens of `s[i..]`, lexed from the given position, or the first failure.
pub open spec fn lex_from(s: Seq<char>, i: int, line: nat, column: nat) -> Result<
    Seq<SpecToken>,
    SpecLexError,
>
    decreases s.len() - i
    via lex_from_decreases

{
    if i < 0 || i >= s.len() {
        Ok(seq![])
    } else {
        let c = s[i];
        if structural(c) is Some {
            let p = next_pos(c, line, column);
            prepend(structural(c)->0, lex_from(s, i + 1, p.0, p.1))
        } else if c == '"' {
            let e = i + 1 + string_len(s, i + 1);
            if e >= s.len() {
                Err(lex_error("Unterminated string"@, pos_after(s, i, s.len() as int, line, column)))
            } else {
                let p = pos_after(s, i, e + 1, line, column);
                prepend(SpecToken::String(s.subrange(i + 1, e)), lex_from(s, e + 1, p.0, p.1))
            }
        } else if literal_for(c) is Some {
            let (lit, tok) = literal_for(c)->0;
            let e = if i + lit.len() <= s.len() {
                i + lit.len()
            } else {
                s.len() as int
            };
            let word = s.subrange(i, e);
            let p = pos_after(s, i, e, line, column);
            if word == lit {
                prepend(tok, lex_from(s, e, p.0, p.1))
            } else {
                Err(lex_error("Unexpected literal "@ + quoted(word), p))
            }
        } else if is_digit(c) || c == '-' {
            let e = i + 1 + number_len(s, i + 1);
            let n = s.subrange(i, e);
            let p = pos_after(s, i, e, line, column);
            if numeral_ok(n) {
                prepend(SpecToken::Number(number_of(n)), lex_from(s, e, p.0, p.1))
            } else {
                Err(lex_error("Invalid number "@ + quoted(n), p))
            }
        } else if is_space(c) {
            let p = next_pos(c, line, column);
            lex_from(s, i + 1, p.0, p.1)
        } else {
            Err(lex_error("Unexpected character "@ + quoted(seq![c]), (line, column)))
        }
    }
}

proof fn lemma_string_len_bound(s: Seq<char>, i: int)
    requires
        0 <= i <= s.len(),
    ensures
        i + string_len(s, i) <= s.len(),
    decreases s.len() - i,
{
    if i < s.len() {
        lemma_string_len_bound(s, i + 1);
    }
}

proof fn lemma_number_len_bound(s: Seq<char>, i: int)
    requires
        0 <= i <= s.len(),
    ensures
        i + number_len(s, i) <= s.len(),
    decreases s.len() - i,
{
    if i < s.len() {
        lemma_number_len_bound(s, i + 1);
    }
}

#[via_fn]
proof fn lex_from_decreases(s: Seq<char>, i: int, line: nat, column: nat) {
    reveal_strlit("true");
    reveal_strlit("false");
    reveal_strlit("null");
    if 0 <= i < s.len() {
        lemma_string_len_bound(s, i + 1);
        lemma_number_len_bound(s, i + 1);
    }
}

/// The result of lexing all of `s`: lines count from one, columns from zero.
pub open spec fn lex_spec(s: Seq<char>) -> Result<Seq<SpecToken>, SpecLexError> {
    lex_from(s, 0, 1, 0)
}

/// Relies on `String::push`: appends one character.
#[verifier::external_body]
fn push_char(s: &mut String, c: char)
    ensures
        final(s)@ == old(s)@.push(c),
{
    s.push(c);
}

/// Whether `c` is whitespace, as `char::is_whitespace` decides it.
pub fn is_whitespace(c: char) -> (r: bool)
    ensures
        r == is_space(c),
{
    let u = c as u32;
    (0x09 <= u && u <= 0x0d) || u == 0x20 || u == 0x85 || u == 0xa0 || u == 0x1680 || (0x2000
        <= u && u <= 0x200a) || u == 0x2028 || u == 0x2029 || u == 0x202f || u == 0x205f || u
        == 0x3000
}

/// Consumes the character at `*pos`, if any, and moves the line and column past it.
pub fn advance(chars: &Vec<char>, pos: &mut usize, line: &mut usize, column: &mut usize) -> (r:
    Option<char>)
    requires
        *old(pos) < chars.len() && chars@[*old(pos) as int] == '\n' ==> *old(line) < usize::MAX,
        *old(pos) < chars.len() && chars@[*old(pos) as int] != '\n' ==> *old(column) < usize::MAX,
    ensures
        *old(pos) < chars.len() ==> {
            &&& r == Some(chars@[*old(pos) as int])
            &&& *final(pos) == *old(pos) + 1
            &&& (*final(line) as nat, *final(column) as nat) == next_pos(
                chars@[*old(pos) as int],
                *old(line) as nat,
                *old(column) as nat,
            )
        },
        *old(pos) >= chars.len() ==> {
            &&& r is None
            &&& *final(pos) == *old(pos)
            &&& *final(line) == *old(line)
            &&& *final(column) == *old(column)
        },
{
    if *pos < chars.len() {
        let c = chars[*pos];
        *pos = *pos + 1;
        if c == '\n' {
            *line = *line + 1;
            *column = 0;
        } else {
            *column = *column + 1;
        }
        Some(c)
    } else {
        None
    }
}


pub open spec fn join(ts: Seq<SpecToken>, r: Result<Seq<SpecToken>, SpecLexError>) -> Result<
    Seq<SpecToken>,
    SpecLexError,
> {
    match r {
        Ok(rest) => Ok(ts + rest),
        Err(e) => Err(e),
    }
}

proof fn lemma_join_prepend(
    ts: Seq<SpecToken>,
    t: SpecToken,
    r: Result<Seq<SpecToken>, SpecLexError>,
)
    ensures
        join(ts, prepend(t, r)) == join(ts.push(t), r),
{
    if let Ok(rest) = r {
        assert(ts + (seq![t] + rest) =~= ts.push(t) + rest);
    }
}

pub proof fn lemma_join_prepend_one(t: SpecToken, r: Result<Seq<SpecToken>, SpecLexError>)
    ensures
        prepend(t, r) == join(seq![t], r),
{
}

proof fn lemma_tokens_view_push(ts: Seq<Token>, t: Token)
    ensures
        tokens_view(ts.push(t)) == tokens_view(ts).push(t@),
{
    assert(tokens_view(ts.push(t)) =~= tokens_view(ts).push(t@));
}

/// Copies `cs[a..b]` into a new string.
fn copy_range(cs: &Vec<char>, a: usize, b: usize) -> (r: String)
    requires
        a <= b <= cs.len(),
    ensures
        r@ == cs@.subrange(a as int, b as int),
{
    let mut r = String::new();
    let mut k: usize = a;
    while k < b
        invariant
            a <= k <= b <= cs.len(),
            r@ == cs@.subrange(a as int, k as int),
        decreases b - k,
    {
        push_char(&mut r, cs[k]);
        assert(cs@.subrange(a as int, k + 1) =~= cs@.subrange(a as int, k as int).push(cs@[k as int]));
        k = k + 1;
    }
    r
}

/// `prefix` followed by `t` in single quotes.
fn quoted_message(prefix: &str, t: &str) -> (r: String)
    ensures
        r@ == prefix@ + quoted(t@),
{
    let mut r = String::from_str(prefix);
    r.append("'");
    r.append(t);
    r.append("'");
    assert(r@ =~= prefix@ + quoted(t@));
    r
}

pub proof fn lemma_dot_index_found(u: Seq<char>, k: int, m: int)
    requires
        0 <= k <= m < u.len(),
        u[m] == '.',
        forall|j: int| k <= j < m ==> u[j] != '.',
    ensures
        dot_index(u, k) == m,
    decreases m - k,
{
    if k < m {
        lemma_dot_index_found(u, k + 1, m);
    }
}

pub proof fn lemma_dot_index_none(u: Seq<char>, k: int)
    requires
        0 <= k <= u.len(),
        forall|j: int| k <= j < u.len() ==> u[j] != '.',
    ensures
        dot_index(u, k) == u.len(),
    decreases u.len() - k,
{
    if k < u.len() {
        lemma_dot_index_none(u, k + 1);
    }
}

/// Digits of `cs[a..b]` without leading zeros.
fn without_leading_zeros(cs: &Vec<char>, a: usize, b: usize) -> (r: String)
    requires
        a <= b <= cs.len(),
    ensures
        r@ == strip_leading_zeros(cs@.subrange(a as int, b as int)),
{
    let mut k: usize = a;
    while k < b && cs[k] == '0'
        invariant
            a <= k <= b <= cs.len(),
            strip_leading_zeros(cs@.subrange(a as int, b as int)) == strip_leading_zeros(
                cs@.subrange(k as int, b as int),
            ),
        decreases b - k,
    {
        assert(cs@.subrange(k as int, b as int).drop_first() =~= cs@.subrange(k + 1, b as int));
        k = k + 1;
    }
    copy_range(cs, k, b)
}

/// Digits of `cs[a..b]` without trailing zeros.
fn without_trailing_zeros(cs: &Vec<char>, a: usize, b: usize) -> (r: String)
    requires
        a <= b <= cs.len(),
    ensures
        r@ == strip_trailing_zeros(cs@.subrange(a as int, b as int)),
{
    let mut m: usize = b;
    while m > a && cs[m - 1] == '0'
        invariant
            a <= m <= b <= cs.len(),
            strip_trailing_zeros(cs@.subrange(a as int, b as int)) == strip_trailing_zeros(
                cs@.subrange(a as int, m as int),
            ),
        decreases m - a,
    {
        assert(cs@.subrange(a as int, m as int).drop_last() =~= cs@.subrange(a as int, m - 1));
        m = m - 1;
    }
    copy_range(cs, a, m)
}

/// Reads the number text `cs[a..e]`: its value when the text is accepted.
fn read_number(cs: &Vec<char>, a: usize, e: usize) -> (r: Option<JsonNumber>)
    requires
        a <= e <= cs.len(),
    ensures
        r is Some <==> numeral_ok(cs@.subrange(a as int, e as int)),
        r is Some ==> r->0@ == number_of(cs@.subrange(a as int, e as int)),
{
    let ghost n = cs@.subrange(a as int, e as int);
    let negative = a < e && cs[a] == '-';
    let start: usize = if negative { a + 1 } else { a };
    let ghost u = cs@.subrange(start as int, e as int);
    assert(u =~= unsigned_part(n));
    let mut minus = false;
    let mut digit = false;
    let mut two_dots = false;
    let mut dot: usize = e;
    let mut k: usize = start;
    while k < e
        invariant
            start <= k <= e <= cs.len(),
            u == cs@.subrange(start as int, e as int),
            minus <==> exists|j: int| start <= j < k && cs@[j] == '-',
            digit <==> exists|j: int| start <= j < k && is_digit(cs@[j]),
            two_dots ==> exists|x: int, y: int|
                start <= x < y < k && cs@[x] == '.' && cs@[y] == '.',
            !two_dots ==> forall|x: int, y: int|
                start <= x < y < k && cs@[x] == '.' ==> cs@[y] != '.',
            dot <= e,
            dot == e ==> forall|j: int| start <= j < k ==> cs@[j] != '.',
            dot < e ==> start <= dot < k && cs@[dot as int] == '.' && forall|j: int|
                start <= j < dot ==> cs@[j] != '.',
        decreases e - k,
    {
        let c = cs[k];
        if c == '-' {
            minus = true;
        }
        if '0' <= c && c <= '9' {
            digit = true;
        }
        if c == '.' {
            if dot < e {
                two_dots = true;
                assert(start <= dot < k && cs@[dot as int] == '.');
            } else {
                dot = k;
            }
        }
        k = k + 1;
    }
    let ok = !minus && !two_dots && digit;
    proof {
        if ok {
            assert(forall|j: int| 0 <= j < u.len() ==> u[j] == cs@[start + j]);
            assert forall|x: int, y: int|
                0 <= x < u.len() && 0 <= y < u.len() && u[x] == '.' && u[y] == '.' implies x
                == y by {
                if x < y {
                    assert(cs@[start + x] == '.' && cs@[start + y] == '.');
                } else if y < x {
                    assert(cs@[start + y] == '.' && cs@[start + x] == '.');
                }
            }
            let j = choose|j: int| start <= j < k && is_digit(cs@[j]);
            assert(is_digit(u[j - start]));
            assert(numeral_ok(n));
        } else {
            if minus {
                let j = choose|j: int| start <= j < k && cs@[j] == '-';
                assert(u[j - start] == '-');
            }
            if two_dots {
                let (x, y) = choose|x: int, y: int|
                    start <= x < y < k && cs@[x] == '.' && cs@[y] == '.';
                assert(u[x - start] == '.' && u[y - start] == '.');
            }
            if !digit {
                assert forall|j: int| 0 <= j < u.len() implies !is_digit(u[j]) by {
                    assert(u[j] == cs@[start + j]);
                }
            }
        }
    }
    if !ok {
        return None;
    }
    proof {
        if dot < e {
            assert forall|j: int| 0 <= j < dot - start implies u[j] != '.' by {
                assert(u[j] == cs@[start + j]);
            }
            lemma_dot_index_found(u, 0, dot - start);
        } else {
            assert forall|j: int| 0 <= j < u.len() implies u[j] != '.' by {
                assert(u[j] == cs@[start + j]);
            }
            lemma_dot_index_none(u, 0);
        }
        assert(u.subrange(0, dot - start) =~= cs@.subrange(start as int, dot as int));
    }
    let integer = without_leading_zeros(cs, start, dot);
    let fraction = if dot < e {
        assert(u.subrange(dot - start + 1, u.len() as int) =~= cs@.subrange(
            dot + 1,
            e as int,
        ));
        without_trailing_zeros(cs, dot + 1, e)
    } else {
        String::new()
    };
    let r = JsonNumber { negative, integer, fraction };
    assert(r@.fraction =~= number_of(n).fraction);
    Some(r)
}


/// `r` is what lexing one token at `s[i]` from the given position gives: the
/// token, the index after it and the position there, or the failure.
pub open spec fn lexed_step(
    s: Seq<char>,
    i: int,
    line: nat,
    column: nat,
    r: Result<(Token, usize, usize, usize), LexerError>,
) -> bool {
    match r {
        Ok((tok, j, l, c)) => {
            &&& i < j <= s.len()
            &&& 1 <= l
            &&& l + c <= j + 1
            &&& lex_from(s, i, line, column) == prepend(tok@, lex_from(s, j as int, l as nat, c as nat))
        },
        Err(err) => lex_from(s, i, line, column) == Err::<Seq<SpecToken>, SpecLexError>(err@),
    }
}

fn lex_string(cs: &Vec<char>, i: usize, line: usize, column: usize) -> (r: Result<
    (Token, usize, usize, usize),
    LexerError,
>)
    requires
        i < cs.len() < usize::MAX,
        cs@[i as int] == '"',
        1 <= line,
        line + column <= i + 1,
    ensures
        lexed_step(cs@, i as int, line as nat, column as nat, r),
{
    let ghost s = cs@;
    let ghost e = i + 1 + string_len(s, i + 1);
    let mut pos = i;
    let mut l = line;
    let mut c = column;
    advance(cs, &mut pos, &mut l, &mut c);
    assert(pos_after(s, i as int, i as int, line as nat, column as nat) == (line as nat, column as nat));
    let mut text = String::new();
    while pos < cs.len() && cs[pos] != '"'
        invariant
            i + 1 <= pos <= cs.len() < usize::MAX,
            s == cs@,
            e == pos + string_len(s, pos as int),
            text@ == s.subrange(i + 1, pos as int),
            (l as nat, c as nat) == pos_after(s, i as int, pos as int, line as nat, column as nat),
            1 <= l,
            l + c <= pos + 1,
        decreases cs.len() - pos,
    {
        push_char(&mut text, cs[pos]);
        assert(s.subrange(i + 1, pos + 1) =~= s.subrange(i + 1, pos as int).push(s[pos as int]));
        advance(cs, &mut pos, &mut l, &mut c);
    }
    if pos >= cs.len() {
        return Err(LexerError { message: String::from_str("Unterminated string"), line: l, column: c });
    }
    advance(cs, &mut pos, &mut l, &mut c);
    Ok((Token::String(text), pos, l, c))
}

fn lex_literal(
    cs: &Vec<char>,
    i: usize,
    line: usize,
    column: usize,
    lit: &str,
    tok: Token,
) -> (r: Result<(Token, usize, usize, usize), LexerError>)
    requires
        i < cs.len() < usize::MAX,
        literal_for(cs@[i as int]) == Some((lit@, tok@)),
        1 <= line,
        line + column <= i + 1,
    ensures
        lexed_step(cs@, i as int, line as nat, column as nat, r),
{
    proof {
        reveal_strlit("true");
        reveal_strlit("false");
        reveal_strlit("null");
    }
    let ghost s = cs@;
    let k = lit.unicode_len();
    let mut word = String::new();
    let mut pos = i;
    let mut l = line;
    let mut c = column;
    let mut taken: usize = 0;
    while taken < k
        invariant
            i <= pos <= cs.len() < usize::MAX,
            s == cs@,
            k == lit@.len(),
            k <= 5,
            taken <= k,
            pos == if i + taken <= cs.len() { i + taken } else { cs.len() as int },
            word@ == s.subrange(i as int, pos as int),
            (l as nat, c as nat) == pos_after(s, i as int, pos as int, line as nat, column as nat),
            1 <= l,
            l + c <= pos + 1,
        decreases k - taken,
    {
        let old_pos = pos;
        if let Some(ch) = advance(cs, &mut pos, &mut l, &mut c) {
            push_char(&mut word, ch);
            assert(s.subrange(i as int, pos as int) =~= s.subrange(i as int, old_pos as int).push(ch));
        }
        taken = taken + 1;
    }
    if word == String::from_str(lit) {
        Ok((tok, pos, l, c))
    } else {
        let message = quoted_message("Unexpected literal ", word.as_str());
        Err(LexerError { message, line: l, column: c })
    }
}

fn lex_number(cs: &Vec<char>, i: usize, line: usize, column: usize) -> (r: Result<
    (Token, usize, usize, usize),
    LexerError,
>)
    requires
        i < cs.len() < usize::MAX,
        is_digit(cs@[i as int]) || cs@[i as int] == '-',
        structural(cs@[i as int]) is None,
        cs@[i as int] != '"',
        literal_for(cs@[i as int]) is None,
        1 <= line,
        line + column <= i + 1,
    ensures
        lexed_step(cs@, i as int, line as nat, column as nat, r),
{
    let ghost s = cs@;
    let ghost e = i + 1 + number_len(s, i + 1);
    let mut pos = i;
    let mut l = line;
    let mut c = column;
    advance(cs, &mut pos, &mut l, &mut c);
    assert(pos_after(s, i as int, i as int, line as nat, column as nat) == (line as nat, column as nat));
    while pos < cs.len() && (('0' <= cs[pos] && cs[pos] <= '9') || cs[pos] == '.' || cs[pos] == '-')
        invariant
            i + 1 <= pos <= cs.len() < usize::MAX,
            s == cs@,
            e == pos + number_len(s, pos as int),
            (l as nat, c as nat) == pos_after(s, i as int, pos as int, line as nat, column as nat),
            1 <= l,
            l + c <= pos + 1,
        decreases cs.len() - pos,
    {
        advance(cs, &mut pos, &mut l, &mut c);
    }
    match read_number(cs, i, pos) {
        Some(n) => Ok((Token::Number(n), pos, l, c)),
        None => {
            let text = copy_range(cs, i, pos);
            let message = quoted_message("Invalid number ", text.as_str());
            Err(LexerError { message, line: l, column: c })
        },
    }
}

/// The characters of `input`, in order.
fn chars_of(input: &str) -> (r: Vec<char>)
    ensures
        r@ == input@,
{
    let mut r: Vec<char> = Vec::new();
    for ch in it: input.chars()
        invariant
            r@ == it.seq().take(it.index() as int),
    {
        r.push(ch);
    }
    r
}

/// Splits `input` into tokens, left to right with one character of lookahead.
/// Whitespace is skipped; strings are taken verbatim up to the next double
/// quote; `t`, `f` and `n` read four, five and four characters that must spell
/// `true`, `false` and `null`; a digit or minus sign starts a number that runs
/// over digits, points and minus signs. The first failure ends the scan, and
/// reports the line and column reached.
pub fn lex(input: &str) -> (r: Result<Vec<Token>, LexerError>)
    requires
        input@.len() < usize::MAX,
    ensures
        match r {
            Ok(ts) => lex_spec(input@) == Ok::<Seq<SpecToken>, SpecLexError>(tokens_view(ts@)),
            Err(e) => lex_spec(input@) == Err::<Seq<SpecToken>, SpecLexError>(e@),
        },
{
    let cs = chars_of(input);
    let ghost s = cs@;
    let mut tokens: Vec<Token> = Vec::new();
    let mut i: usize = 0;
    let mut line: usize = 1;
    let mut column: usize = 0;
    proof {
        assert(tokens_view(tokens@) =~= seq![]);
        assert(join(seq![], lex_from(s, 0, 1, 0)) == lex_from(s, 0, 1, 0)) by {
            if let Ok(rest) = lex_from(s, 0, 1, 0) {
                assert(seq![] + rest =~= rest);
            }
        }
    }
    while i < cs.len()
        invariant
            s == cs@,
            s == input@,
            i <= cs.len() < usize::MAX,
            1 <= line,
            line + column <= i + 1,
            lex_spec(s) == join(tokens_view(tokens@), lex_from(s, i as int, line as nat, column as nat)),
        decreases cs.len() - i,
    {
        let c = cs[i];
        let single = if c == '{' {
            Some(Token::LeftBrace)
        } else if c == '}' {
            Some(Token::RightBrace)
        } else if c == ':' {
            Some(Token::Colon)
        } else if c == '[' {
            Some(Token::LeftBracket)
        } else if c == ']' {
            Some(Token::RightBracket)
        } else if c == ',' {
            Some(Token::Comma)
        } else {
            None
        };
        if let Some(tok) = single {
            proof {
                lemma_join_prepend(tokens_view(tokens@), tok@, lex_from(s, i + 1, line as nat, (column + 1) as nat));
                lemma_tokens_view_push(tokens@, tok);
            }
            tokens.push(tok);
            advance(&cs, &mut i, &mut line, &mut column);
        } else if is_whitespace(c) {
            advance(&cs, &mut i, &mut line, &mut column);
        } else {
            let step = if c == '"' {
                lex_string(&cs, i, line, column)
            } else if c == 't' {
                lex_literal(&cs, i, line, column, "true", Token::True)
            } else if c == 'f' {
                lex_literal(&cs, i, line, column, "false", Token::False)
            } else if c == 'n' {
                lex_literal(&cs, i, line, column, "null", Token::Null)
            } else if ('0' <= c && c <= '9') || c == '-' {
                lex_number(&cs, i, line, column)
            } else {
                let mut one = String::new();
                push_char(&mut one, c);
                let message = quoted_message("Unexpected character ", one.as_str());
                proof {
                    assert(one@ =~= seq![c]);
                }
                Err(LexerError { message, line, column })
            };
            match step {
                Ok((tok, j, l, col)) => {
                    proof {
                        lemma_join_prepend(tokens_view(tokens@), tok@, lex_from(s, j as int, l as nat, col as nat));
                        lemma_tokens_view_push(tokens@, tok);
                    }
                    tokens.push(tok);
                    i = j;
                    line = l;
                    column = col;
                },
                Err(err) => {
                    return Err(err);
                },
            }
        }
    }
    proof {
        assert(tokens_view(tokens@) + seq![] =~= tokens_view(tokens@));
    }
    Ok(tokens)
}

} // verus!
