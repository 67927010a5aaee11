use vstd::prelude::*;
use crate::lexer::{
    SpecToken,
    is_digit,
    is_number_char,
    join,
    lex_from,
    lex_spec,
    number_of,
    pos_after,
    prepend,
    string_len,
    number_len,
    unsigned_part,
    strip_leading_zeros,
    numeral_ok,
    lemma_dot_index_found,
    lemma_dot_index_none,
    lemma_join_prepend_one,
    next_pos,
    SpecLexError,
};
use crate::parser::{
    insert_entry,
    key_position,
    parse_array_at,
    parse_elements,
    parse_members,
    parse_object_at,
    parse_spec,
    parse_value_at,
};
use crate::value::{SpecJson, SpecNumber, number_text};

verus! {

broadcast use vstd::seq::group_seq_axioms;

/// The tokens of one object member: key, colon, value.
pub open spec fn member_tokens(e: (Seq<char>, SpecJson)) -> Seq<SpecToken>
    decreases e,
{
    seq![SpecToken::String(e.0), SpecToken::Colon] + tokens_of(e.1)
}

/// The tokens of object members, separated by commas.
pub open spec fn members_tokens(es: Seq<(Seq<char>, SpecJson)>) -> Seq<SpecToken>
    decreases es,
{
    if es.len() == 0 {
        seq![]
    } else if es.len() == 1 {
        member_tokens(es[0])
    } else {
        member_tokens(es[0]) + seq![SpecToken::Comma] + members_tokens(es.drop_first())
    }
}

/// The tokens of array elements, separated by commas.
pub open spec fn elements_tokens(xs: Seq<SpecJson>) -> Seq<SpecToken>
    decreases xs,
{
    if xs.len() == 0 {
        seq![]
    } else if xs.len() == 1 {
        tokens_of(xs[0])
    } else {
        tokens_of(xs[0]) + seq![SpecToken::Comma] + elements_tokens(xs.drop_first())
    }
}

/// The token sequence that writes `v` out, object entries in their order.
pub open spec fn tokens_of(v: SpecJson) -> Seq<SpecToken>
    decreases v,
{
    match v {
        SpecJson::Object(es) => seq![SpecToken::LeftBrace] + members_tokens(es) + seq![
            SpecToken::RightBrace,
        ],
        SpecJson::Array(xs) => seq![SpecToken::LeftBracket] + elements_tokens(xs) + seq![
            SpecToken::RightBracket,
        ],
        SpecJson::String(s) => seq![SpecToken::String(s)],
        SpecJson::Number(n) => seq![SpecToken::Number(n)],
        SpecJson::Boolean(b) => if b {
            seq![SpecToken::True]
        } else {
            seq![SpecToken::False]
        },
        SpecJson::Null => seq![SpecToken::Null],
    }
}

pub open spec fn distinct_keys(es: Seq<(Seq<char>, SpecJson)>) -> bool {
    forall|i: int, j: int| 0 <= i < j < es.len() ==> es[i].0 != es[j].0
}

/// Every object in `v` has distinct keys.
pub open spec fn well_formed(v: SpecJson) -> bool
    decreases v,
{
    match v {
        SpecJson::Object(es) => distinct_keys(es) && members_well_formed(es),
        SpecJson::Array(xs) => elements_well_formed(xs),
        _ => true,
    }
}

pub open spec fn members_well_formed(es: Seq<(Seq<char>, SpecJson)>) -> bool
    decreases es,
{
    es.len() > 0 ==> well_formed(es[0].1) && members_well_formed(es.drop_first())
}

pub open spec fn elements_well_formed(xs: Seq<SpecJson>) -> bool
    decreases xs,
{
    xs.len() > 0 ==> well_formed(xs[0]) && elements_well_formed(xs.drop_first())
}

proof fn lemma_key_absent(acc: Seq<(Seq<char>, SpecJson)>, k: Seq<char>, i: int)
    requires
        0 <= i <= acc.len(),
        forall|j: int| 0 <= j < acc.len() ==> acc[j].0 != k,
    ensures
        key_position(acc, k, i) == acc.len(),
    decreases acc.len() - i,
{
    if i < acc.len() {
        lemma_key_absent(acc, k, i + 1);
    }
}

proof fn lemma_parse_value_tokens(v: SpecJson, pre: Seq<SpecToken>, rest: Seq<SpecToken>)
    requires
        well_formed(v),
    ensures
        parse_value_at(pre + tokens_of(v) + rest, pre.len() as int) == Ok::<(SpecJson, int), Seq<char>>(
            (v, (pre.len() + tokens_of(v).len()) as int),
        ),
    decreases v, 1int,
{
    let ts = pre + tokens_of(v) + rest;
    let p = pre.len() as int;
    assert(ts[p] == tokens_of(v)[0]);
    match v {
        SpecJson::Object(es) => {
            let pre2 = pre + seq![SpecToken::LeftBrace];
            let rest2 = seq![SpecToken::RightBrace] + rest;
            if es.len() == 0 {
                assert(ts[p + 1] == SpecToken::RightBrace);
                assert(es =~= seq![]);
            } else {
                assert(ts =~= pre2 + members_tokens(es) + rest2);
                lemma_members_first_is_key(es);
                assert(ts[p + 1] == members_tokens(es)[0]);
                lemma_parse_members_tokens(es, pre2, seq![], rest);
                assert(seq![] + es =~= es);
            }
        },
        SpecJson::Array(xs) => {
            let pre2 = pre + seq![SpecToken::LeftBracket];
            if xs.len() == 0 {
                assert(ts[p + 1] == SpecToken::RightBracket);
                assert(xs =~= seq![]);
            } else {
                assert(ts =~= pre2 + elements_tokens(xs) + (seq![SpecToken::RightBracket] + rest));
                lemma_elements_first_not_closer(xs);
                assert(ts[p + 1] == elements_tokens(xs)[0]);
                lemma_parse_elements_tokens(xs, pre2, seq![], rest);
                assert(seq![] + xs =~= xs);
            }
        },
        _ => {},
    }
}

proof fn lemma_first_token_opens(v: SpecJson)
    ensures
        tokens_of(v).len() > 0,
        !(tokens_of(v)[0] is RightBracket),
        !(tokens_of(v)[0] is RightBrace),
{
}

proof fn lemma_members_first_is_key(es: Seq<(Seq<char>, SpecJson)>)
    requires
        es.len() > 0,
    ensures
        members_tokens(es).len() > 0,
        members_tokens(es)[0] == SpecToken::String(es[0].0),
{
    let m = member_tokens(es[0]);
    assert(m[0] == SpecToken::String(es[0].0));
    if es.len() > 1 {
        assert(members_tokens(es)[0] == m[0]);
    }
}

proof fn lemma_elements_first_not_closer(xs: Seq<SpecJson>)
    requires
        xs.len() > 0,
    ensures
        elements_tokens(xs).len() > 0,
        !(elements_tokens(xs)[0] is RightBracket),
{
    lemma_first_token_opens(xs[0]);
    if xs.len() > 1 {
        assert(elements_tokens(xs)[0] == tokens_of(xs[0])[0]);
    }
}

proof fn lemma_parse_members_tokens(
    es: Seq<(Seq<char>, SpecJson)>,
    pre: Seq<SpecToken>,
    acc: Seq<(Seq<char>, SpecJson)>,
    rest: Seq<SpecToken>,
)
    requires
        es.len() > 0,
        distinct_keys(es),
        members_well_formed(es),
        forall|i: int, j: int| 0 <= i < es.len() && 0 <= j < acc.len() ==> es[i].0 != acc[j].0,
    ensures
        parse_members(
            pre + members_tokens(es) + (seq![SpecToken::RightBrace] + rest),
            pre.len() as int,
            acc,
        ) == Ok::<(SpecJson, int), Seq<char>>(
            (SpecJson::Object(acc + es), (pre.len() + members_tokens(es).len() + 1) as int),
        ),
    decreases es, 0int,
{
    let ts = pre + members_tokens(es) + (seq![SpecToken::RightBrace] + rest);
    let p = pre.len() as int;
    let e0 = es[0];
    let pre2 = pre + seq![SpecToken::String(e0.0), SpecToken::Colon];
    let tail = if es.len() == 1 {
        seq![]
    } else {
        seq![SpecToken::Comma] + members_tokens(es.drop_first())
    };
    let rest2 = tail + (seq![SpecToken::RightBrace] + rest);
    assert(members_tokens(es) =~= member_tokens(e0) + tail);
    assert(ts =~= pre2 + tokens_of(e0.1) + rest2);
    assert(ts[p] == SpecToken::String(e0.0));
    assert(ts[p + 1] == SpecToken::Colon);
    lemma_parse_value_tokens(e0.1, pre2, rest2);
    let q = p + 2 + tokens_of(e0.1).len();
    lemma_key_absent(acc, e0.0, 0);
    let acc2 = acc.push(e0);
    assert(insert_entry(acc, e0.0, e0.1) == acc2);
    if es.len() == 1 {
        assert(ts[q] == SpecToken::RightBrace);
        assert(acc2 =~= acc + es);
    } else {
        let rs = es.drop_first();
        assert(ts[q] == SpecToken::Comma);
        let pre3 = pre + member_tokens(e0) + seq![SpecToken::Comma];
        assert(ts =~= pre3 + members_tokens(rs) + (seq![SpecToken::RightBrace] + rest));
        assert forall|i: int, j: int| 0 <= i < rs.len() && 0 <= j < acc2.len() implies rs[i].0
            != acc2[j].0 by {
            assert(rs[i] == es[i + 1]);
        }
        lemma_parse_members_tokens(rs, pre3, acc2, rest);
        assert(acc2 + rs =~= acc + es);
    }
}

proof fn lemma_parse_elements_tokens(
    xs: Seq<SpecJson>,
    pre: Seq<SpecToken>,
    acc: Seq<SpecJson>,
    rest: Seq<SpecToken>,
)
    requires
        xs.len() > 0,
        elements_well_formed(xs),
    ensures
        parse_elements(
            pre + elements_tokens(xs) + (seq![SpecToken::RightBracket] + rest),
            pre.len() as int,
            acc,
        ) == Ok::<(SpecJson, int), Seq<char>>(
            (SpecJson::Array(acc + xs), (pre.len() + elements_tokens(xs).len() + 1) as int),
        ),
    decreases xs, 0int,
{
    let ts = pre + elements_tokens(xs) + (seq![SpecToken::RightBracket] + rest);
    let p = pre.len() as int;
    let x0 = xs[0];
    let tail = if xs.len() == 1 {
        seq![]
    } else {
        seq![SpecToken::Comma] + elements_tokens(xs.drop_first())
    };
    let rest2 = tail + (seq![SpecToken::RightBracket] + rest);
    assert(elements_tokens(xs) =~= tokens_of(x0) + tail);
    assert(ts =~= pre + tokens_of(x0) + rest2);
    lemma_parse_value_tokens(x0, pre, rest2);
    let q = p + tokens_of(x0).len();
    let acc2 = acc.push(x0);
    if xs.len() == 1 {
        assert(ts[q] == SpecToken::RightBracket);
        assert(acc2 =~= acc + xs);
    } else {
        let rs = xs.drop_first();
        assert(ts[q] == SpecToken::Comma);
        let pre3 = pre + tokens_of(x0) + seq![SpecToken::Comma];
        assert(ts =~= pre3 + elements_tokens(rs) + (seq![SpecToken::RightBracket] + rest));
        lemma_parse_elements_tokens(rs, pre3, acc2, rest);
        assert(acc2 + rs =~= acc + xs);
    }
}

/// Parsing the tokens that write out a tree gives the same tree back, when
/// every object in it has distinct keys: keys, values, array order and
/// object entry order all come through unchanged.
pub proof fn lemma_parse_round_trip(v: SpecJson)
    requires
        well_formed(v),
    ensures
        parse_spec(tokens_of(v)) == Ok::<SpecJson, Seq<char>>(v),
{
    lemma_parse_value_tokens(v, seq![], seq![]);
    assert(seq![] + tokens_of(v) + seq![] =~= tokens_of(v));
}

/// The text of one token.
pub open spec fn token_text(t: SpecToken) -> Seq<char> {
    match t {
        SpecToken::LeftBrace => "{"@,
        SpecToken::RightBrace => "}"@,
        SpecToken::Colon => ":"@,
        SpecToken::String(s) => "\""@ + s + "\""@,
        SpecToken::Comma => ","@,
        SpecToken::Number(n) => number_text(n),
        SpecToken::True => "true"@,
        SpecToken::False => "false"@,
        SpecToken::Null => "null"@,
        SpecToken::LeftBracket => "["@,
        SpecToken::RightBracket => "]"@,
    }
}

/// Tokens written out, each followed by a space.
pub open spec fn spaced_text(ts: Seq<SpecToken>) -> Seq<char>
    decreases ts.len(),
{
    if ts.len() == 0 {
        seq![]
    } else {
        token_text(ts[0]) + seq![' '] + spaced_text(ts.drop_first())
    }
}

pub open spec fn all_digits(t: Seq<char>) -> bool {
    forall|k: int| 0 <= k < t.len() ==> is_digit(t[k])
}

/// A number in the normal form that lexing produces.
pub open spec fn canonical_number(n: SpecNumber) -> bool {
    &&& all_digits(n.integer)
    &&& all_digits(n.fraction)
    &&& (n.integer.len() > 0 ==> n.integer[0] != '0')
    &&& (n.fraction.len() > 0 ==> n.fraction.last() != '0')
}

/// A token whose text lexes back to it: a string holds no double quote and
/// a number is in normal form.
pub open spec fn writable_token(t: SpecToken) -> bool {
    match t {
        SpecToken::String(s) => forall|k: int| 0 <= k < s.len() ==> s[k] != '"',
        SpecToken::Number(n) => canonical_number(n),
        _ => true,
    }
}

/// Every token of `v` can be written as text and lexed back.
pub open spec fn writable(v: SpecJson) -> bool {
    forall|i: int| 0 <= i < tokens_of(v).len() ==> writable_token(#[trigger] tokens_of(v)[i])
}

proof fn lemma_pos_after_split(s: Seq<char>, a: int, b: int, c: int, line: nat, column: nat)
    requires
        a <= b <= c,
    ensures
        pos_after(s, a, c, line, column) == pos_after(
            s,
            b,
            c,
            pos_after(s, a, b, line, column).0,
            pos_after(s, a, b, line, column).1,
        ),
    decreases c - b,
{
    if b < c {
        lemma_pos_after_split(s, a, b, c - 1, line, column);
    }
}

proof fn lemma_join_join(
    t1: Seq<SpecToken>,
    t2: Seq<SpecToken>,
    r: Result<Seq<SpecToken>, SpecLexError>,
)
    ensures
        join(t1, join(t2, r)) == join(t1 + t2, r),
{
    if let Ok(rest) = r {
        assert(t1 + (t2 + rest) =~= t1 + t2 + rest);
    }
}

proof fn lemma_string_len_at(s: Seq<char>, i: int, k: int)
    requires
        0 <= i <= k < s.len(),
        s[k] == '"',
        forall|j: int| i <= j < k ==> s[j] != '"',
    ensures
        string_len(s, i) == k - i,
    decreases k - i,
{
    if i < k {
        lemma_string_len_at(s, i + 1, k);
    }
}

proof fn lemma_number_len_at(s: Seq<char>, i: int, k: int)
    requires
        0 <= i <= k < s.len(),
        !is_number_char(s[k]),
        forall|j: int| i <= j < k ==> is_number_char(s[j]),
    ensures
        number_len(s, i) == k - i,
    decreases k - i,
{
    if i < k {
        lemma_number_len_at(s, i + 1, k);
    }
}

proof fn lemma_strip_leading_digits(t: Seq<char>)
    requires
        t.len() > 0 ==> t[0] != '0',
    ensures
        strip_leading_zeros(t) == t,
{
}

proof fn lemma_number_text_reads_back(n: SpecNumber)
    requires
        canonical_number(n),
    ensures
        numeral_ok(number_text(n)),
        number_of(number_text(n)) == n,
        number_text(n).len() > 0,
        forall|k: int| 0 <= k < number_text(n).len() ==> is_number_char(#[trigger] number_text(n)[k]),
        is_digit(number_text(n)[0]) || number_text(n)[0] == '-',
{
    reveal_strlit("-");
    reveal_strlit("0");
    reveal_strlit(".");
    let t = number_text(n);
    let ip = if n.integer.len() == 0 { "0"@ } else { n.integer };
    let fp = if n.fraction.len() > 0 { "."@ + n.fraction } else { seq![] };
    let u = ip + fp;
    assert(unsigned_part(t) =~= u);
    assert(forall|k: int| 0 <= k < ip.len() ==> is_digit(#[trigger] ip[k]));
    assert(forall|k: int| 0 <= k < u.len() ==> is_number_char(#[trigger] u[k]) && u[k] != '-') by {
        assert forall|k: int| 0 <= k < u.len() implies is_number_char(#[trigger] u[k]) && u[k] != '-' by {
            if k < ip.len() {
                assert(u[k] == ip[k]);
            } else if k > ip.len() {
                assert(u[k] == n.fraction[k - ip.len() - 1]);
            }
        }
    }
    assert forall|k: int| 0 <= k < t.len() implies is_number_char(#[trigger] t[k]) by {
        if n.negative {
            if k > 0 {
                assert(t[k] == u[k - 1]);
            }
        } else {
            assert(t[k] == u[k]);
        }
    }
    assert(is_digit(u[0]));
    if n.negative {
        assert(t[0] == '-');
    } else {
        assert(t[0] == u[0]);
    }
    // exactly one point at most, right after the integer digits
    assert forall|k: int| 0 <= k < u.len() && u[k] == '.' implies k == ip.len() by {
        if k < ip.len() {
            assert(u[k] == ip[k]);
        } else if k > ip.len() {
            assert(u[k] == n.fraction[k - ip.len() - 1]);
        }
    }
    assert(numeral_ok(t));
    if n.fraction.len() > 0 {
        lemma_dot_index_found(u, 0, ip.len() as int);
        assert(u.subrange(ip.len() + 1 as int, u.len() as int) =~= n.fraction);
    } else {
        lemma_dot_index_none(u, 0);
    }
    assert(u.subrange(0, ip.len() as int) =~= ip);
    if n.integer.len() == 0 {
        assert(ip.drop_first() =~= seq![]);
        assert(strip_leading_zeros(ip) == strip_leading_zeros(ip.drop_first()));
    }
    lemma_strip_leading_digits(n.integer);
    assert(number_of(t).integer == n.integer);
    assert(number_of(t).fraction =~= n.fraction);
    assert(number_of(t).negative == n.negative);
}



/// Lexing the text of one writable token and the space after it.
proof fn lemma_lex_token(t: SpecToken, s: Seq<char>, i: int, line: nat, column: nat)
    requires
        writable_token(t),
        0 <= i,
        i + token_text(t).len() + 1 <= s.len(),
        s.subrange(i, i + token_text(t).len() + 1) == token_text(t) + seq![' '],
    ensures
        ({
            let j = i + token_text(t).len() + 1;
            let p = pos_after(s, i, j, line, column);
            lex_from(s, i, line, column) == prepend(t, lex_from(s, j, p.0, p.1))
        }),
{
    reveal_strlit("{");
    reveal_strlit("}");
    reveal_strlit(":");
    reveal_strlit(",");
    reveal_strlit("[");
    reveal_strlit("]");
    reveal_strlit("\"");
    reveal_strlit("true");
    reveal_strlit("false");
    reveal_strlit("null");
    let w = token_text(t);
    let e = i + w.len();
    assert forall|k: int| 0 <= k < w.len() implies #[trigger] w[k] == s[i + k] by {
        assert(s.subrange(i, e + 1)[k] == s[i + k]);
        assert((w + seq![' '])[k] == w[k]);
    }
    assert(s.subrange(i, e + 1)[w.len() as int] == s[e]);
    assert((w + seq![' '])[w.len() as int] == ' ');
    assert(s[e] == ' ');
    assert(pos_after(s, i, e + 1, line, column) == next_pos(
        ' ',
        pos_after(s, i, e, line, column).0,
        pos_after(s, i, e, line, column).1,
    ));
    let p = pos_after(s, i, e, line, column);
    let q = pos_after(s, i, e + 1, line, column);
    assert(lex_from(s, e, p.0, p.1) == lex_from(s, e + 1, q.0, q.1));
    if !(t is Number) {
        assert(s[i] == w[0]);
    }
    match t {
        SpecToken::String(x) => {
            assert forall|j: int| i + 1 <= j < e - 1 implies s[j] != '"' by {
                assert(s[j] == w[j - i]);
                assert(w[j - i] == x[j - i - 1]);
            }
            assert(s[e - 1] == w[w.len() - 1]);
            lemma_string_len_at(s, i + 1, e - 1);
            assert(s.subrange(i + 1, e - 1) =~= x) by {
                assert forall|j: int| 0 <= j < x.len() implies s.subrange(i + 1, e - 1)[j] == x[j] by {
                    assert(s[i + 1 + j] == w[1 + j]);
                }
            }
        },
        SpecToken::Number(n) => {
            lemma_number_text_reads_back(n);
            assert(s[i] == w[0]);
            assert forall|j: int| i + 1 <= j < e implies is_number_char(s[j]) by {
                assert(s[j] == w[j - i]);
            }
            lemma_number_len_at(s, i + 1, e);
            assert(s.subrange(i, e) =~= w);
        },
        SpecToken::True | SpecToken::False | SpecToken::Null => {
            assert(s.subrange(i, e) =~= w);
        },
        _ => {
            assert(pos_after(s, i, i, line, column) == (line, column));
        },
    }
}

/// Lexing spaced token text from index `i` gives those tokens, then whatever follows.
proof fn lemma_lex_spaced(ts: Seq<SpecToken>, s: Seq<char>, i: int, line: nat, column: nat)
    requires
        forall|k: int| 0 <= k < ts.len() ==> writable_token(#[trigger] ts[k]),
        0 <= i,
        i + spaced_text(ts).len() <= s.len(),
        s.subrange(i, i + spaced_text(ts).len()) == spaced_text(ts),
    ensures
        ({
            let j = i + spaced_text(ts).len();
            let p = pos_after(s, i, j, line, column);
            lex_from(s, i, line, column) == join(ts, lex_from(s, j, p.0, p.1))
        }),
    decreases ts.len(),
{
    if ts.len() == 0 {
        assert(pos_after(s, i, i, line, column) == (line, column));
        if let Ok(rest) = lex_from(s, i, line, column) {
            assert(seq![] + rest =~= rest);
        }
    } else {
        let t = ts[0];
        let w = token_text(t) + seq![' '];
        let m = i + w.len();
        let tail = ts.drop_first();
        let j = i + spaced_text(ts).len();
        assert(spaced_text(ts) == w + spaced_text(tail));
        assert(s.subrange(i, m) =~= w) by {
            assert forall|k: int| 0 <= k < w.len() implies s.subrange(i, m)[k] == w[k] by {
                assert(s.subrange(i, j)[k] == s[i + k]);
            }
        }
        assert(s.subrange(m, j) =~= spaced_text(tail)) by {
            assert forall|k: int| 0 <= k < spaced_text(tail).len() implies s.subrange(m, j)[k]
                == spaced_text(tail)[k] by {
                assert(s.subrange(i, j)[w.len() + k] == s[m + k]);
            }
        }
        lemma_lex_token(t, s, i, line, column);
        let p = pos_after(s, i, m, line, column);
        lemma_lex_spaced(tail, s, m, p.0, p.1);
        lemma_pos_after_split(s, i, m, j, line, column);
        lemma_join_join(seq![t], tail, lex_from(s, j, pos_after(s, i, j, line, column).0, pos_after(s, i, j, line, column).1));
        assert(seq![t] + tail =~= ts);
        lemma_join_prepend_one(t, lex_from(s, m, p.0, p.1));
    }
}

/// Writing a tree out as text (each token followed by a space) and reading it
/// back with `lex` and then `parse` gives the same tree, when every object has
/// distinct keys, no string holds a double quote and every number is in the
/// normal form that lexing produces.
pub proof fn lemma_text_round_trip(v: SpecJson)
    requires
        well_formed(v),
        writable(v),
    ensures
        lex_spec(spaced_text(tokens_of(v))) == Ok::<Seq<SpecToken>, SpecLexError>(tokens_of(v)),
        parse_spec(tokens_of(v)) == Ok::<SpecJson, Seq<char>>(v),
{
    let ts = tokens_of(v);
    let s = spaced_text(ts);
    assert(s.subrange(0, s.len() as int) =~= s);
    lemma_lex_spaced(ts, s, 0, 1, 0);
    assert(ts + seq![] =~= ts);
    lemma_parse_round_trip(v);
}

proof fn lemma_members_well_formed(es: Seq<(Seq<char>, SpecJson)>)
    ensures
        members_well_formed(es) <==> forall|i: int| 0 <= i < es.len() ==> well_formed(#[trigger] es[i].1),
    decreases es.len(),
{
    if es.len() > 0 {
        let rs = es.drop_first();
        lemma_members_well_formed(rs);
        if forall|i: int| 0 <= i < es.len() ==> well_formed(#[trigger] es[i].1) {
            assert forall|i: int| 0 <= i < rs.len() implies well_formed(#[trigger] rs[i].1) by {
                assert(rs[i] == es[i + 1]);
            }
        }
        if members_well_formed(es) {
            assert forall|i: int| 0 <= i < es.len() implies well_formed(#[trigger] es[i].1) by {
                if i > 0 {
                    assert(es[i] == rs[i - 1]);
                }
            }
        }
    }
}

proof fn lemma_elements_well_formed(xs: Seq<SpecJson>)
    ensures
        elements_well_formed(xs) <==> forall|i: int| 0 <= i < xs.len() ==> well_formed(#[trigger] xs[i]),
    decreases xs.len(),
{
    if xs.len() > 0 {
        let rs = xs.drop_first();
        lemma_elements_well_formed(rs);
        if forall|i: int| 0 <= i < xs.len() ==> well_formed(#[trigger] xs[i]) {
            assert forall|i: int| 0 <= i < rs.len() implies well_formed(#[trigger] rs[i]) by {
                assert(rs[i] == xs[i + 1]);
            }
        }
        if elements_well_formed(xs) {
            assert forall|i: int| 0 <= i < xs.len() implies well_formed(#[trigger] xs[i]) by {
                if i > 0 {
                    assert(xs[i] == rs[i - 1]);
                }
            }
        }
    }
}

proof fn lemma_key_position(acc: Seq<(Seq<char>, SpecJson)>, k: Seq<char>, i: int)
    requires
        0 <= i <= acc.len(),
    ensures
        i <= key_position(acc, k, i) <= acc.len(),
        key_position(acc, k, i) < acc.len() ==> acc[key_position(acc, k, i)].0 == k,
        key_position(acc, k, i) == acc.len() ==> forall|j: int| i <= j < acc.len() ==> acc[j].0 != k,
    decreases acc.len() - i,
{
    if i < acc.len() {
        lemma_key_position(acc, k, i + 1);
    }
}

proof fn lemma_insert_entry(acc: Seq<(Seq<char>, SpecJson)>, k: Seq<char>, v: SpecJson)
    requires
        distinct_keys(acc),
        forall|i: int| 0 <= i < acc.len() ==> well_formed(#[trigger] acc[i].1),
        well_formed(v),
    ensures
        distinct_keys(insert_entry(acc, k, v)),
        forall|i: int|
            0 <= i < insert_entry(acc, k, v).len() ==> well_formed(#[trigger] insert_entry(acc, k, v)[i].1),
{
    lemma_key_position(acc, k, 0);
}

/// What a successful parse from `ts[p]` on gives: a value in which every
/// object has distinct keys, ending past `p` and within `ts`.
proof fn lemma_value_parsed(ts: Seq<SpecToken>, p: int)
    ensures
        parse_value_at(ts, p) is Ok ==> {
            let (v, q) = parse_value_at(ts, p)->Ok_0;
            well_formed(v) && p < q <= ts.len()
        },
    decreases ts.len() - p, 0int,
{
    if 0 <= p < ts.len() {
        match ts[p] {
            SpecToken::LeftBrace => lemma_object_parsed(ts, p + 1),
            SpecToken::LeftBracket => lemma_array_parsed(ts, p + 1),
            _ => {},
        }
    }
}

proof fn lemma_object_parsed(ts: Seq<SpecToken>, p: int)
    ensures
        parse_object_at(ts, p) is Ok ==> {
            let (v, q) = parse_object_at(ts, p)->Ok_0;
            well_formed(v) && p < q <= ts.len()
        },
    decreases ts.len() - p, 2int,
{
    if !(0 <= p < ts.len() && ts[p] is RightBrace) {
        lemma_members_parsed(ts, p, seq![]);
    } else {
        lemma_members_well_formed(seq![]);
    }
}

proof fn lemma_members_parsed(ts: Seq<SpecToken>, p: int, acc: Seq<(Seq<char>, SpecJson)>)
    requires
        distinct_keys(acc),
        forall|i: int| 0 <= i < acc.len() ==> well_formed(#[trigger] acc[i].1),
    ensures
        parse_members(ts, p, acc) is Ok ==> {
            let (v, q) = parse_members(ts, p, acc)->Ok_0;
            well_formed(v) && p < q <= ts.len()
        },
    decreases ts.len() - p, 1int,
{
    if 0 <= p < ts.len() && ts[p] is String && p + 1 < ts.len() && ts[p + 1] is Colon {
        lemma_value_parsed(ts, p + 2);
        if let Ok((v, q)) = parse_value_at(ts, p + 2) {
            let acc2 = insert_entry(acc, ts[p]->String_0, v);
            lemma_insert_entry(acc, ts[p]->String_0, v);
            lemma_members_well_formed(acc2);
            if q < ts.len() && ts[q] is Comma {
                lemma_members_parsed(ts, q + 1, acc2);
            }
        }
    }
}

proof fn lemma_array_parsed(ts: Seq<SpecToken>, p: int)
    ensures
        parse_array_at(ts, p) is Ok ==> {
            let (v, q) = parse_array_at(ts, p)->Ok_0;
            well_formed(v) && p < q <= ts.len()
        },
    decreases ts.len() - p, 2int,
{
    if !(0 <= p < ts.len() && ts[p] is RightBracket) {
        lemma_elements_parsed(ts, p, seq![]);
    } else {
        lemma_elements_well_formed(seq![]);
    }
}

proof fn lemma_elements_parsed(ts: Seq<SpecToken>, p: int, acc: Seq<SpecJson>)
    requires
        forall|i: int| 0 <= i < acc.len() ==> well_formed(#[trigger] acc[i]),
    ensures
        parse_elements(ts, p, acc) is Ok ==> {
            let (v, q) = parse_elements(ts, p, acc)->Ok_0;
            well_formed(v) && p < q <= ts.len()
        },
    decreases ts.len() - p, 1int,
{
    lemma_value_parsed(ts, p);
    if let Ok((v, q)) = parse_value_at(ts, p) {
        let acc2 = acc.push(v);
        assert(forall|i: int| 0 <= i < acc2.len() ==> well_formed(#[trigger] acc2[i]));
        lemma_elements_well_formed(acc2);
        if q < ts.len() && ts[q] is Comma {
            lemma_elements_parsed(ts, q + 1, acc2);
        }
    }
}

/// Every value that parsing gives has distinct keys in each of its objects.
pub proof fn lemma_parsed_keys_unique(ts: Seq<SpecToken>)
    ensures
        parse_spec(ts) is Ok ==> well_formed(parse_spec(ts)->Ok_0),
{
    lemma_value_parsed(ts, 0);
}

proof fn lemma_value_extended(ts: Seq<SpecToken>, more: Seq<SpecToken>, p: int)
    ensures
        parse_value_at(ts, p) is Ok ==> parse_value_at(ts + more, p) == parse_value_at(ts, p),
    decreases ts.len() - p, 0int,
{
    if 0 <= p < ts.len() {
        assert((ts + more)[p] == ts[p]);
        match ts[p] {
            SpecToken::LeftBrace => lemma_object_extended(ts, more, p + 1),
            SpecToken::LeftBracket => lemma_array_extended(ts, more, p + 1),
            _ => {},
        }
    }
}

proof fn lemma_object_extended(ts: Seq<SpecToken>, more: Seq<SpecToken>, p: int)
    ensures
        parse_object_at(ts, p) is Ok ==> parse_object_at(ts + more, p) == parse_object_at(ts, p),
    decreases ts.len() - p, 2int,
{
    if 0 <= p < ts.len() {
        assert((ts + more)[p] == ts[p]);
    }
    if !(0 <= p < ts.len() && ts[p] is RightBrace) {
        lemma_members_extended(ts, more, p, seq![]);
    }
}

proof fn lemma_members_extended(
    ts: Seq<SpecToken>,
    more: Seq<SpecToken>,
    p: int,
    acc: Seq<(Seq<char>, SpecJson)>,
)
    ensures
        parse_members(ts, p, acc) is Ok ==> parse_members(ts + more, p, acc) == parse_members(ts, p, acc),
    decreases ts.len() - p, 1int,
{
    if 0 <= p < ts.len() && ts[p] is String && p + 1 < ts.len() && ts[p + 1] is Colon {
        assert((ts + more)[p] == ts[p]);
        assert((ts + more)[p + 1] == ts[p + 1]);
        lemma_value_extended(ts, more, p + 2);
        if let Ok((v, q)) = parse_value_at(ts, p + 2) {
            if p < q < ts.len() {
                assert((ts + more)[q] == ts[q]);
                if ts[q] is Comma {
                    lemma_members_extended(ts, more, q + 1, insert_entry(acc, ts[p]->String_0, v));
                }
            }
        }
    }
}

proof fn lemma_array_extended(ts: Seq<SpecToken>, more: Seq<SpecToken>, p: int)
    ensures
        parse_array_at(ts, p) is Ok ==> parse_array_at(ts + more, p) == parse_array_at(ts, p),
    decreases ts.len() - p, 2int,
{
    if 0 <= p < ts.len() {
        assert((ts + more)[p] == ts[p]);
    }
    if !(0 <= p < ts.len() && ts[p] is RightBracket) {
        lemma_elements_extended(ts, more, p, seq![]);
    }
}

proof fn lemma_elements_extended(ts: Seq<SpecToken>, more: Seq<SpecToken>, p: int, acc: Seq<SpecJson>)
    ensures
        parse_elements(ts, p, acc) is Ok ==> parse_elements(ts + more, p, acc) == parse_elements(ts, p, acc),
    decreases ts.len() - p, 1int,
{
    lemma_value_extended(ts, more, p);
    if let Ok((v, q)) = parse_value_at(ts, p) {
        if p < q < ts.len() {
            assert((ts + more)[q] == ts[q]);
            if ts[q] is Comma {
                lemma_elements_extended(ts, more, q + 1, acc.push(v));
            }
        }
    }
}

/// A token sequence that parses as one value stops parsing once any token
/// follows it: the result is the extra-tokens error.
pub proof fn lemma_trailing_tokens_rejected(ts: Seq<SpecToken>, more: Seq<SpecToken>)
    requires
        parse_spec(ts) is Ok,
        more.len() > 0,
    ensures
        parse_spec(ts + more) == Err::<SpecJson, Seq<char>>(
            "Unexpected extra tokens after valid JSON"@,
        ),
{
    lemma_value_parsed(ts, 0);
    lemma_value_extended(ts, more, 0);
}

} // verus!
