//! JSON values as plain data, and the calls into serde_json that read and
//! write them.

use vstd::prelude::*;
use serde_json::Value;
use crate::text::str_eq;

verus! {

/// serde_json's dynamically typed JSON value; opaque here, only converted.
#[verifier::external_type_specification]
#[verifier::external_body]
pub struct ExJsonValue(serde_json::Value);

/// A JSON value as plain data. Numbers that serde_json can read as an
/// `i64` are kept as that integer; any other number as the text serde_json
/// writes for it. Object members keep the order serde_json hands them out in.
#[derive(Debug, PartialEq)]
pub enum Json {
    Null,
    Bool(bool),
    Int(i64),
    Number(String),
    Str(String),
    Array(Vec<Json>),
    Object(Vec<(String, Json)>),
}

/// `Json` over mathematical values.
pub enum JsonView {
    Null,
    Bool(bool),
    Int(i64),
    Number(Seq<char>),
    Str(Seq<char>),
    Array(Seq<JsonView>),
    Object(Seq<(Seq<char>, JsonView)>),
}

pub open spec fn json_view(j: Json) -> JsonView
    decreases j,
{
    match j {
        Json::Null => JsonView::Null,
        Json::Bool(b) => JsonView::Bool(b),
        Json::Int(n) => JsonView::Int(n),
        Json::Number(t) => JsonView::Number(t@),
        Json::Str(s) => JsonView::Str(s@),
        Json::Array(items) => JsonView::Array(
            Seq::new(
                items@.len(),
                |i: int|
                    if 0 <= i < items@.len() {
                        json_view(items@[i])
                    } else {
                        JsonView::Null
                    },
            ),
        ),
        Json::Object(es) => JsonView::Object(
            Seq::new(
                es@.len(),
                |i: int|
                    if 0 <= i < es@.len() {
                        (es@[i].0@, json_view(es@[i].1))
                    } else {
                        (Seq::empty(), JsonView::Null)
                    },
            ),
        ),
    }
}

impl View for Json {
    type V = JsonView;

    open spec fn view(&self) -> JsonView {
        json_view(*self)
    }
}

/// What serde_json's strict reader makes of `text` as one JSON document
/// (`serde_json::from_str::<serde_json::Value>`), read as plain data; `None`
/// when it refuses the text.
pub uninterp spec fn json_model(text: Seq<char>) -> Option<JsonView>;

/// Whether serde_json's strict reader accepts `text` as one JSON document.
pub open spec fn strict_json_accepts(text: Seq<char>) -> bool {
    json_model(text) is Some
}

/// What serde_json's strict reader decodes a JSON string literal `text` to
/// (`serde_json::from_str::<String>`), or `None` when it refuses the text.
pub uninterp spec fn json_string_literal(text: Seq<char>) -> Option<Seq<char>>;

/// The compact text serde_json writes for a value (`serde_json::to_string`).
pub uninterp spec fn json_text(v: JsonView) -> Seq<char>;

/// A serde_json value as plain data: one arm per variant, numbers as `i64`
/// where `Number::as_i64` gives one and as their text otherwise.
#[verifier::external_body]
fn json_of(v: &Value) -> Json {
    match v {
        Value::Null => Json::Null,
        Value::Bool(b) => Json::Bool(*b),
        Value::Number(n) => n.as_i64().map_or_else(|| Json::Number(n.to_string()), Json::Int),
        Value::String(s) => Json::Str(s.clone()),
        Value::Array(items) => Json::Array(items.iter().map(json_of).collect()),
        Value::Object(map) => Json::Object(map.iter().map(|(k, v)| (k.clone(), json_of(v))).collect()),
    }
}

/// Plain data back as a serde_json value: one arm per variant, a number's
/// text read back by `serde_json::Number`'s `FromStr`.
#[verifier::external_body]
fn value_of(j: &Json) -> Value {
    match j {
        Json::Null => Value::Null,
        Json::Bool(b) => Value::Bool(*b),
        Json::Int(n) => Value::from(*n),
        Json::Number(t) => t.parse::<serde_json::Number>().map_or(Value::Null, Value::Number),
        Json::Str(s) => Value::String(s.clone()),
        Json::Array(items) => Value::Array(items.iter().map(value_of).collect()),
        Json::Object(es) => Value::Object(es.iter().map(|(k, v)| (k.clone(), value_of(v))).collect()),
    }
}

/// `serde_json::from_str::<serde_json::Value>`, read as plain data. Claimed:
/// the result is `json_model` of the text, and the empty text is refused
/// (the reader reports end of input before any value).
#[verifier::external_body]
pub(crate) fn parse_json_model(text: &str) -> (r: Option<Json>)
    ensures
        match r {
            Some(j) => json_model(text@) == Some(j@),
            None => json_model(text@) is None,
        },
        text@.len() == 0 ==> r is None,
{
    serde_json::from_str::<Value>(text).ok().map(|v| json_of(&v))
}

/// `serde_json::from_str::<String>`. Claimed: the decoded string is
/// `json_string_literal` of the text, and `None` exactly where that is `None`.
#[verifier::external_body]
pub(crate) fn decode_json_string(text: &str) -> (r: Option<String>)
    ensures
        match r {
            Some(s) => json_string_literal(text@) == Some(s@),
            None => json_string_literal(text@) is None,
        },
{
    serde_json::from_str::<String>(text).ok()
}

/// `serde_json::to_string` on the value. Claimed: the text is `json_text`
/// of the value (writing a `Value` cannot fail: its keys are strings).
#[verifier::external_body]
pub(crate) fn json_to_text(v: &Json) -> (s: String)
    ensures
        s@ == json_text(v@),
{
    serde_json::to_string(&value_of(v)).unwrap_or_default()
}

/// Position of the last member named `key` among the first `k`, or -1.
pub open spec fn member_index(es: Seq<(Seq<char>, JsonView)>, key: Seq<char>, k: int) -> int
    decreases k,
{
    if k <= 0 {
        -1
    } else if es[k - 1].0 == key {
        k - 1
    } else {
        member_index(es, key, k - 1)
    }
}

/// The member named `key` of an object (the last such, as a later
/// duplicate replaces an earlier one), `None` for any other value or a
/// missing key (`Value::get`).
pub open spec fn json_get(v: JsonView, key: Seq<char>) -> Option<JsonView> {
    match v {
        JsonView::Object(es) => {
            let i = member_index(es, key, es.len() as int);
            if 0 <= i < es.len() {
                Some(es[i].1)
            } else {
                None
            }
        },
        _ => None,
    }
}

/// The member named `key`, or null.
pub open spec fn json_member(v: JsonView, key: Seq<char>) -> JsonView {
    match json_get(v, key) {
        Some(m) => m,
        None => JsonView::Null,
    }
}

/// The text of a string value.
pub open spec fn json_str(v: Option<JsonView>) -> Option<Seq<char>> {
    match v {
        Some(JsonView::Str(s)) => Some(s),
        _ => None,
    }
}

/// The member named `key` of an object value (`Value::get`).
pub fn get<'a>(v: &'a Json, key: &str) -> (r: Option<&'a Json>)
    ensures
        match r {
            Some(m) => json_get(v@, key@) == Some(m@),
            None => json_get(v@, key@) is None,
        },
{
    match v {
        Json::Object(es) => {
            let ghost ev = json_view(*v);
            let mut i: usize = es.len();
            while i > 0
                invariant
                    i <= es@.len(),
                    *v == Json::Object(*es),
                    ev == json_view(*v),
                    ev matches JsonView::Object(evs) && evs.len() == es@.len() && member_index(
                        evs,
                        key@,
                        evs.len() as int,
                    ) == member_index(evs, key@, i as int),
                decreases i,
            {
                let ghost evs = ev->Object_0;
                proof {
                    assert(evs[i - 1] == (es@[i - 1].0@, json_view(es@[i - 1].1)));
                }
                if str_eq(es[i - 1].0.as_str(), key) {
                    return Some(&es[i - 1].1);
                }
                i = i - 1;
            }
            None
        },
        _ => None,
    }
}

/// The member named `key`, taken out of the value, or null.
pub fn take_member(v: Json, key: &str) -> (r: Json)
    ensures
        r@ == json_member(v@, key@),
{
    let ghost ev = v@;
    match v {
        Json::Object(es) => {
            let mut es = es;
            let ghost evs = ev->Object_0;
            let mut i: usize = es.len();
            let mut hit = false;
            while i > 0 && !hit
                invariant
                    i <= es@.len(),
                    evs.len() == es@.len(),
                    forall|k: int| 0 <= k < es@.len() ==> #[trigger] evs[k] == (es@[k].0@, json_view(es@[k].1)),
                    !hit ==> member_index(evs, key@, evs.len() as int) == member_index(evs, key@, i as int),
                    hit ==> 0 < i && member_index(evs, key@, evs.len() as int) == i - 1,
                decreases i + if hit { 0int } else { 1int },
            {
                proof {
                    assert(evs[i - 1] == (es@[i - 1].0@, json_view(es@[i - 1].1)));
                }
                if str_eq(es[i - 1].0.as_str(), key) {
                    hit = true;
                } else {
                    i = i - 1;
                }
            }
            if hit {
                let ghost target = es@[i - 1].1;
                proof {
                    assert(evs[i - 1].1 == json_view(target));
                }
                let (_, m) = es.remove(i - 1);
                assert(m == target);
                m
            } else {
                Json::Null
            }
        },
        _ => Json::Null,
    }
}

/// Object members over mathematical values.
pub open spec fn entries_view(es: Seq<(String, Json)>) -> Seq<(Seq<char>, JsonView)> {
    es.map_values(|e: (String, Json)| (e.0@, json_view(e.1)))
}

/// A copy of the value.
pub fn json_clone(j: &Json) -> (r: Json)
    ensures
        r@ == j@,
    decreases j,
{
    match j {
        Json::Null => Json::Null,
        Json::Bool(b) => Json::Bool(*b),
        Json::Int(n) => Json::Int(*n),
        Json::Number(t) => Json::Number(t.clone()),
        Json::Str(t) => Json::Str(t.clone()),
        Json::Array(items) => {
            let mut out: Vec<Json> = Vec::new();
            let mut i: usize = 0;
            while i < items.len()
                invariant
                    i <= items@.len(),
                    out@.len() == i,
                    *j == Json::Array(*items),
                    forall|k: int| 0 <= k < i ==> #[trigger] json_view(out@[k]) == json_view(items@[k]),
                decreases items@.len() - i,
            {
                proof {
                    assert(decreases_to!(*j => (*j)->Array_0));
                    assert(decreases_to!((*j)->Array_0 => items@));
                    assert(decreases_to!(items@ => items@[i as int]));
                }
                let c = json_clone(&items[i]);
                out.push(c);
                i = i + 1;
            }
            let r = Json::Array(out);
            proof {
                let a = json_view(r)->Array_0;
                let b = json_view(*j)->Array_0;
                assert(a.len() == b.len());
                assert forall|k: int| 0 <= k < a.len() implies a[k] == b[k] by {
                    assert(json_view(out@[k]) == json_view(items@[k]));
                }
                assert(a =~= b);
            }
            r
        },
        Json::Object(es) => {
            let mut out: Vec<(String, Json)> = Vec::new();
            let mut i: usize = 0;
            while i < es.len()
                invariant
                    i <= es@.len(),
                    out@.len() == i,
                    *j == Json::Object(*es),
                    forall|k: int| 0 <= k < i ==> #[trigger] out@[k].0@ == es@[k].0@ && json_view(out@[k].1) == json_view(es@[k].1),
                decreases es@.len() - i,
            {
                proof {
                    assert(decreases_to!(*j => (*j)->Object_0));
                    assert(decreases_to!((*j)->Object_0 => es@));
                    assert(decreases_to!(es@ => es@[i as int]));
                    assert(decreases_to!(es@[i as int] => es@[i as int].1));
                }
                let c = json_clone(&es[i].1);
                out.push((es[i].0.clone(), c));
                i = i + 1;
            }
            let r = Json::Object(out);
            proof {
                assert(json_view(r)->Object_0 =~= json_view(*j)->Object_0);
            }
            r
        },
    }
}

/// A value that may be missing, as a view.
pub open spec fn opt_view(v: Option<&Json>) -> Option<JsonView> {
    match v {
        Some(j) => Some(j@),
        None => None,
    }
}

/// The string a value holds (`Value::as_str`).
pub fn as_text(v: Option<&Json>) -> (r: Option<&str>)
    ensures
        match r {
            Some(s) => json_str(opt_view(v)) == Some(s@),
            None => json_str(opt_view(v)) is None,
        },
{
    match v {
        Some(Json::Str(s)) => Some(s.as_str()),
        _ => None,
    }
}

} // verus!
