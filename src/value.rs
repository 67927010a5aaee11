use vstd::prelude::*;

verus! {

/// A decimal number as written in the text: its sign, the digits before the
/// point without leading zeros and the digits after it without trailing zeros.
/// `1`, `01` and `1.0` all give the same value.
#[derive(Debug, Clone, PartialEq)]
pub struct JsonNumber {
    pub negative: bool,
    pub integer: String,
    pub fraction: String,
}

/// The mathematical model of a `JsonNumber`.
pub struct SpecNumber {
    pub negative: bool,
    pub integer: Seq<char>,
    pub fraction: Seq<char>,
}

impl View for JsonNumber {
    type V = SpecNumber;

    open spec fn view(&self) -> SpecNumber {
        SpecNumber { negative: self.negative, integer: self.integer@, fraction: self.fraction@ }
    }
}

/// The decimal text of a number: a minus sign if negative, the integer
/// digits (`0` when there are none), then a point and the fraction digits
/// when there are any.
pub open spec fn number_text(n: SpecNumber) -> Seq<char> {
    (if n.negative {
        "-"@
    } else {
        seq![]
    }) + (if n.integer.len() == 0 {
        "0"@
    } else {
        n.integer
    }) + (if n.fraction.len() > 0 {
        "."@ + n.fraction
    } else {
        seq![]
    })
}

impl JsonNumber {
    /// The number written out in decimal, e.g. for `str::parse::<f64>`.
    pub fn to_text(&self) -> (r: String)
        ensures
            r@ == number_text(self@),
    {
        let mut r = String::new();
        if self.negative {
            r.append("-");
        }
        if self.integer.as_str().is_empty() {
            r.append("0");
        } else {
            r.append(self.integer.as_str());
        }
        if !self.fraction.as_str().is_empty() {
            r.append(".");
            r.append(self.fraction.as_str());
        }
        assert(r@ =~= number_text(self@));
        r
    }
}

/// A parsed JSON value. An object keeps one entry per key, in the order in
/// which each key first appeared.
#[derive(Debug, PartialEq)]
pub enum JsonValue {
    Object(Vec<(String, JsonValue)>),
    Array(Vec<JsonValue>),
    String(String),
    Number(JsonNumber),
    Boolean(bool),
    Null,
}

/// The mathematical model of a `JsonValue`.
pub enum SpecJson {
    Object(Seq<(Seq<char>, SpecJson)>),
    Array(Seq<SpecJson>),
    String(Seq<char>),
    Number(SpecNumber),
    Boolean(bool),
    Null,
}

pub open spec fn value_view(v: JsonValue) -> SpecJson
    decreases v,
{
    match v {
        JsonValue::Object(entries) => SpecJson::Object(entries_view(entries@)),
        JsonValue::Array(items) => SpecJson::Array(items_view(items@)),
        JsonValue::String(s) => SpecJson::String(s@),
        JsonValue::Number(n) => SpecJson::Number(n@),
        JsonValue::Boolean(b) => SpecJson::Boolean(b),
        JsonValue::Null => SpecJson::Null,
    }
}

pub open spec fn items_view(items: Seq<JsonValue>) -> Seq<SpecJson>
    decreases items,
{
    if items.len() == 0 {
        seq![]
    } else {
        items_view(items.drop_last()).push(value_view(items.last()))
    }
}

pub open spec fn entries_view(entries: Seq<(String, JsonValue)>) -> Seq<(Seq<char>, SpecJson)>
    decreases entries,
{
    if entries.len() == 0 {
        seq![]
    } else {
        entries_view(entries.drop_last()).push((entries.last().0@, value_view(entries.last().1)))
    }
}

impl View for JsonValue {
    type V = SpecJson;

    open spec fn view(&self) -> SpecJson {
        value_view(*self)
    }
}

pub proof fn lemma_items_view(s: Seq<JsonValue>)
    ensures
        items_view(s).len() == s.len(),
        forall|i: int| 0 <= i < s.len() ==> #[trigger] items_view(s)[i] == value_view(s[i]),
    decreases s.len(),
{
    if s.len() > 0 {
        lemma_items_view(s.drop_last());
    }
}

pub proof fn lemma_entries_view(s: Seq<(String, JsonValue)>)
    ensures
        entries_view(s).len() == s.len(),
        forall|i: int|
            0 <= i < s.len() ==> #[trigger] entries_view(s)[i] == (s[i].0@, value_view(s[i].1)),
    decreases s.len(),
{
    if s.len() > 0 {
        lemma_entries_view(s.drop_last());
    }
}

pub proof fn lemma_items_view_push(s: Seq<JsonValue>, x: JsonValue)
    ensures
        items_view(s.push(x)) == items_view(s).push(value_view(x)),
{
    assert(s.push(x).drop_last() =~= s);
}

pub proof fn lemma_entries_view_push(s: Seq<(String, JsonValue)>, e: (String, JsonValue))
    ensures
        entries_view(s.push(e)) == entries_view(s).push((e.0@, value_view(e.1))),
{
    assert(s.push(e).drop_last() =~= s);
}

pub proof fn lemma_entries_view_update(s: Seq<(String, JsonValue)>, j: int, e: (String, JsonValue))
    requires
        0 <= j < s.len(),
    ensures
        entries_view(s.update(j, e)) == entries_view(s).update(j, (e.0@, value_view(e.1))),
{
    lemma_entries_view(s);
    lemma_entries_view(s.update(j, e));
    assert(entries_view(s.update(j, e)) =~= entries_view(s).update(j, (e.0@, value_view(e.1))));
}

} // verus!
