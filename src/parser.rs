use vstd::prelude::*;
use crate::laws::{lemma_parsed_keys_unique, well_formed};
use crate::lexer::{SpecToken, Token, token_name, tokens_view};
use crate::value::{
    JsonNumber,
    JsonValue,
    SpecJson,
    entries_view,
    items_view,
    value_view,
    lemma_entries_view,
    lemma_entries_view_push,
    lemma_entries_view_update,
    lemma_items_view_push,
};

verus! {

/// Index of the first entry of `acc` with key `k` from `i` on, or `acc.len()`.
pub open spec fn key_position(acc: Seq<(Seq<char>, SpecJson)>, k: Seq<char>, i: int) -> int
    decreases acc.len() - i,
{
    if i < 0 || i >= acc.len() {
        acc.len() as int
    } else if acc[i].0 == k {
        i
    } else {
        key_position(acc, k, i + 1)
    }
}

/// Adds `k: v` to an object's entries; a key already there keeps its place and
/// takes the new value.
pub open spec fn insert_entry(acc: Seq<(Seq<char>, SpecJson)>, k: Seq<char>, v: SpecJson) -> Seq<
    (Seq<char>, SpecJson),
> {
    let i = key_position(acc, k, 0);
    if i < acc.len() {
        acc.update(i, (k, v))
    } else {
        acc.push((k, v))
    }
}

pub type ParseResult = Result<(SpecJson, int), Seq<char>>;

/// The value that starts at `ts[p]`, with the index after it.
pub open spec fn parse_value_at(ts: Seq<SpecToken>, p: int) -> ParseResult
    decreases ts.len() - p, 0int,
{
    if p < 0 || p >= ts.len() {
        Err("Unexpected end of input"@)
    } else {
        match ts[p] {
            SpecToken::LeftBrace => parse_object_at(ts, p + 1),
            SpecToken::LeftBracket => parse_array_at(ts, p + 1),
            SpecToken::String(s) => Ok((SpecJson::String(s), p + 1)),
            SpecToken::Number(n) => Ok((SpecJson::Number(n), p + 1)),
            SpecToken::Null => Ok((SpecJson::Null, p + 1)),
            SpecToken::True => Ok((SpecJson::Boolean(true), p + 1)),
            SpecToken::False => Ok((SpecJson::Boolean(false), p + 1)),
            _ => Err("Unknown token: "@ + token_name(ts[p])),
        }
    }
}

/// An object whose opening brace stands just before `ts[p]`.
pub open spec fn parse_object_at(ts: Seq<SpecToken>, p: int) -> ParseResult
    decreases ts.len() - p, 2int,
{
    if 0 <= p < ts.len() && ts[p] is RightBrace {
        Ok((SpecJson::Object(seq![]), p + 1))
    } else {
        parse_members(ts, p, seq![])
    }
}

/// The members of an object from the key at `ts[p]` on, after the entries `acc`.
pub open spec fn parse_members(ts: Seq<SpecToken>, p: int, acc: Seq<(Seq<char>, SpecJson)>) -> ParseResult
    decreases ts.len() - p, 1int,
{
    if !(0 <= p < ts.len()) {
        Err("Unexpected end of input"@)
    } else if !(ts[p] is String) {
        Err("Keys must be Strings"@)
    } else if !(p + 1 < ts.len() && ts[p + 1] is Colon) {
        Err("json structure should be key:value"@)
    } else {
        match parse_value_at(ts, p + 2) {
            Err(e) => Err(e),
            Ok((v, q)) => {
                let acc2 = insert_entry(acc, ts[p]->String_0, v);
                if q <= p || q >= ts.len() {
                    Err("Unexpected end of input"@)
                } else if ts[q] is RightBrace {
                    Ok((SpecJson::Object(acc2), q + 1))
                } else if ts[q] is Comma {
                    parse_members(ts, q + 1, acc2)
                } else {
                    Err("Unexpected token "@ + token_name(ts[q]))
                }
            },
        }
    }
}

/// An array whose opening bracket stands just before `ts[p]`.
pub open spec fn parse_array_at(ts: Seq<SpecToken>, p: int) -> ParseResult
    decreases ts.len() - p, 2int,
{
    if 0 <= p < ts.len() && ts[p] is RightBracket {
        Ok((SpecJson::Array(seq![]), p + 1))
    } else {
        parse_elements(ts, p, seq![])
    }
}

/// The elements of an array from `ts[p]` on, after the elements `acc`.
pub open spec fn parse_elements(ts: Seq<SpecToken>, p: int, acc: Seq<SpecJson>) -> ParseResult
    decreases ts.len() - p, 1int,
{
    match parse_value_at(ts, p) {
        Err(e) => Err(e),
        Ok((v, q)) => {
            let acc2 = acc.push(v);
            if q <= p || q >= ts.len() {
                Err("Unexpected end of input."@)
            } else if ts[q] is RightBracket {
                Ok((SpecJson::Array(acc2), q + 1))
            } else if ts[q] is Comma {
                parse_elements(ts, q + 1, acc2)
            } else {
                Err("Unexpected token found: "@ + token_name(ts[q]))
            }
        },
    }
}

/// The value of a whole token sequence: one value and nothing after it.
pub open spec fn parse_spec(ts: Seq<SpecToken>) -> Result<SpecJson, Seq<char>> {
    match parse_value_at(ts, 0) {
        Err(e) => Err(e),
        Ok((v, q)) => if q < ts.len() {
            Err("Unexpected extra tokens after valid JSON"@)
        } else {
            Ok(v)
        },
    }
}

/// `prefix` followed by the name of `t`.
fn message_with(prefix: &str, t: &Token) -> (r: String)
    ensures
        r@ == prefix@ + token_name(t@),
{
    let mut r = String::from_str(prefix);
    let name = t.name();
    r.append(name.as_str());
    r
}

fn clone_number(n: &JsonNumber) -> (r: JsonNumber)
    ensures
        r@ == n@,
{
    JsonNumber { negative: n.negative, integer: n.integer.clone(), fraction: n.fraction.clone() }
}

/// Adds `key: value` to `entries`, replacing the value of an equal key in place.
fn insert_member(entries: &mut Vec<(String, JsonValue)>, key: String, value: JsonValue)
    ensures
        entries_view(final(entries)@) == insert_entry(entries_view(old(entries)@), key@, value@),
{
    let ghost ev = entries_view(entries@);
    proof {
        lemma_entries_view(entries@);
    }
    let mut j: usize = 0;
    while j < entries.len()
        invariant
            j <= entries.len(),
            entries@ == old(entries)@,
            ev == entries_view(entries@),
            ev.len() == entries.len(),
            forall|i: int| 0 <= i < entries.len() ==> #[trigger] ev[i] == (entries@[i].0@, value_view(entries@[i].1)),
            key_position(ev, key@, 0) == key_position(ev, key@, j as int),
        decreases entries.len() - j,
    {
        if entries[j].0 == key {
            proof {
                lemma_entries_view_update(entries@, j as int, (key, value));
            }
            entries.set(j, (key, value));
            return;
        }
        j = j + 1;
    }
    proof {
        lemma_entries_view_push(entries@, (key, value));
    }
    entries.push((key, value));
}

fn parse_value(ts: &Vec<Token>, p: usize) -> (r: Result<(JsonValue, usize), String>)
    requires
        p <= ts.len(),
    ensures
        match r {
            Ok((v, q)) => p < q <= ts.len() && parse_value_at(tokens_view(ts@), p as int) == Ok::<
                (SpecJson, int),
                Seq<char>,
            >((v@, q as int)),
            Err(e) => parse_value_at(tokens_view(ts@), p as int) == Err::<(SpecJson, int), Seq<char>>(e@),
        },
    decreases ts.len() - p, 0int,
{
    if p >= ts.len() {
        return Err(String::from_str("Unexpected end of input"));
    }
    match &ts[p] {
        Token::LeftBrace => parse_object(ts, p + 1),
        Token::LeftBracket => parse_array(ts, p + 1),
        Token::String(s) => Ok((JsonValue::String(s.clone()), p + 1)),
        Token::Number(n) => Ok((JsonValue::Number(clone_number(n)), p + 1)),
        Token::Null => Ok((JsonValue::Null, p + 1)),
        Token::True => Ok((JsonValue::Boolean(true), p + 1)),
        Token::False => Ok((JsonValue::Boolean(false), p + 1)),
        other => Err(message_with("Unknown token: ", other)),
    }
}

fn parse_object(ts: &Vec<Token>, p: usize) -> (r: Result<(JsonValue, usize), String>)
    requires
        p <= ts.len(),
    ensures
        match r {
            Ok((v, q)) => p < q <= ts.len() && parse_object_at(tokens_view(ts@), p as int) == Ok::<
                (SpecJson, int),
                Seq<char>,
            >((v@, q as int)),
            Err(e) => parse_object_at(tokens_view(ts@), p as int) == Err::<(SpecJson, int), Seq<char>>(e@),
        },
    decreases ts.len() - p, 2int,
{
    let ghost tv = tokens_view(ts@);
    if p < ts.len() && matches!(ts[p], Token::RightBrace) {
        let v = JsonValue::Object(Vec::new());
        assert(v@ == SpecJson::Object(seq![]));
        return Ok((v, p + 1));
    }
    let mut entries: Vec<(String, JsonValue)> = Vec::new();
    let mut pos = p;
    assert(entries_view(entries@) == Seq::<(Seq<char>, SpecJson)>::empty());
    loop
        invariant
            p <= pos <= ts.len(),
            tv == tokens_view(ts@),
            parse_object_at(tv, p as int) == parse_members(tv, pos as int, entries_view(entries@)),
        decreases ts.len() - pos,
    {
        if pos >= ts.len() {
            return Err(String::from_str("Unexpected end of input"));
        }
        let key = match &ts[pos] {
            Token::String(s) => s.clone(),
            _ => return Err(String::from_str("Keys must be Strings")),
        };
        if !(pos + 1 < ts.len() && matches!(ts[pos + 1], Token::Colon)) {
            return Err(String::from_str("json structure should be key:value"));
        }
        let (value, q) = match parse_value(ts, pos + 2) {
            Ok(x) => x,
            Err(e) => return Err(e),
        };
        insert_member(&mut entries, key, value);
        if q >= ts.len() {
            return Err(String::from_str("Unexpected end of input"));
        }
        match &ts[q] {
            Token::RightBrace => {
                return Ok((JsonValue::Object(entries), q + 1));
            },
            Token::Comma => {
                pos = q + 1;
            },
            other => {
                return Err(message_with("Unexpected token ", other));
            },
        }
    }
}

fn parse_array(ts: &Vec<Token>, p: usize) -> (r: Result<(JsonValue, usize), String>)
    requires
        p <= ts.len(),
    ensures
        match r {
            Ok((v, q)) => p < q <= ts.len() && parse_array_at(tokens_view(ts@), p as int) == Ok::<
                (SpecJson, int),
                Seq<char>,
            >((v@, q as int)),
            Err(e) => parse_array_at(tokens_view(ts@), p as int) == Err::<(SpecJson, int), Seq<char>>(e@),
        },
    decreases ts.len() - p, 2int,
{
    let ghost tv = tokens_view(ts@);
    if p < ts.len() && matches!(ts[p], Token::RightBracket) {
        let v = JsonValue::Array(Vec::new());
        assert(v@ == SpecJson::Array(seq![]));
        return Ok((v, p + 1));
    }
    let mut items: Vec<JsonValue> = Vec::new();
    let mut pos = p;
    assert(items_view(items@) == Seq::<SpecJson>::empty());
    loop
        invariant
            p <= pos <= ts.len(),
            tv == tokens_view(ts@),
            parse_array_at(tv, p as int) == parse_elements(tv, pos as int, items_view(items@)),
        decreases ts.len() - pos,
    {
        let (item, q) = match parse_value(ts, pos) {
            Ok(x) => x,
            Err(e) => return Err(e),
        };
        proof {
            lemma_items_view_push(items@, item);
        }
        items.push(item);
        if q >= ts.len() {
            return Err(String::from_str("Unexpected end of input."));
        }
        match &ts[q] {
            Token::RightBracket => {
                return Ok((JsonValue::Array(items), q + 1));
            },
            Token::Comma => {
                pos = q + 1;
            },
            other => {
                return Err(message_with("Unexpected token found: ", other));
            },
        }
    }
}

/// Builds the value tree of a token sequence by recursive descent. The
/// sequence must hold exactly one value: what follows it is an error. Every
/// object in the result has distinct keys.
pub fn parse(tokens: Vec<Token>) -> (r: Result<JsonValue, String>)
    ensures
        match r {
            Ok(v) => parse_spec(tokens_view(tokens@)) == Ok::<SpecJson, Seq<char>>(v@),
            Err(e) => parse_spec(tokens_view(tokens@)) == Err::<SpecJson, Seq<char>>(e@),
        },
        r is Ok ==> well_formed(r->Ok_0@),
{
    proof {
        lemma_parsed_keys_unique(tokens_view(tokens@));
    }
    let (value, q) = match parse_value(&tokens, 0) {
        Ok(x) => x,
        Err(e) => return Err(e),
    };
    if q < tokens.len() {
        return Err(String::from_str("Unexpected extra tokens after valid JSON"));
    }
    Ok(value)
}

} // verus!
