//! A model of parsed JSON documents.
//!
//! Upstream replies arrive as JSON text; serde_json parses the text, and the
//! parsed tree is handed to the library as a [`JsonValue`], over which the
//! tolerant response reader is verified. Numbers that fit `i64` keep their
//! value; any other number is only marked as present, since nothing in the
//! proxy reads one.

use vstd::prelude::*;
use crate::memory_cache::str_eq;

verus! {

/// A parsed JSON document.
pub enum JsonValue {
    Null,
    Bool(bool),
    Int(i64),
    OtherNum,
    Str(String),
    Arr(Vec<JsonValue>),
    Obj(Vec<(String, JsonValue)>),
}

/// The field of an object named `name`, first occurrence.
pub open spec fn spec_assoc_get(fields: Seq<(String, JsonValue)>, name: Seq<char>) -> Option<
    JsonValue,
>
    decreases fields.len(),
{
    if fields.len() == 0 {
        None
    } else if fields[0].0@ == name {
        Some(fields[0].1)
    } else {
        spec_assoc_get(fields.drop_first(), name)
    }
}

/// The field of `v` named `name`, when `v` is an object that has it.
pub open spec fn spec_obj_get(v: JsonValue, name: Seq<char>) -> Option<JsonValue> {
    match v {
        JsonValue::Obj(fields) => spec_assoc_get(fields@, name),
        _ => None,
    }
}

/// The string under the field `name`, or `default` when the field is
/// absent or not a string.
pub open spec fn spec_str_field(v: JsonValue, name: Seq<char>, default: Seq<char>) -> Seq<char> {
    match spec_obj_get(v, name) {
        Some(JsonValue::Str(s)) => s@,
        _ => default,
    }
}

/// The integer under the field `name`, or `default` when the field is
/// absent or not an integer that fits `i64`.
pub open spec fn spec_i64_field(v: JsonValue, name: Seq<char>, default: i64) -> i64 {
    match spec_obj_get(v, name) {
        Some(JsonValue::Int(x)) => x,
        _ => default,
    }
}

/// Looks a field up in an object; `None` for other shapes.
pub fn obj_get<'a>(v: &'a JsonValue, name: &str) -> (r: Option<&'a JsonValue>)
    ensures
        match r {
            Some(x) => spec_obj_get(*v, name@) == Some(*x),
            None => spec_obj_get(*v, name@) is None,
        },
{
    match v {
        JsonValue::Obj(fields) => {
            let n = fields.len();
            proof {
                assert(spec_obj_get(*v, name@) == spec_assoc_get(fields@, name@));
                assert(fields@.subrange(0, n as int) =~= fields@);
            }
            let mut i: usize = 0;
            while i < n
                invariant
                    i <= n,
                    n == fields@.len(),
                    spec_obj_get(*v, name@) == spec_assoc_get(fields@, name@),
                    spec_assoc_get(fields@, name@) == spec_assoc_get(
                        fields@.subrange(i as int, n as int),
                        name@,
                    ),
                decreases n - i,
            {
                proof {
                    assert(fields@.subrange(i as int, n as int).drop_first() =~= fields@.subrange(
                        i + 1,
                        n as int,
                    ));
                }
                if str_eq(fields[i].0.as_str(), name) {
                    proof {
                        assert(fields@.subrange(i as int, n as int)[0] == fields@[i as int]);
                        assert(spec_assoc_get(fields@.subrange(i as int, n as int), name@)
                            == Some(fields@[i as int].1));
                    }
                    return Some(&fields[i].1);
                }
                i += 1;
            }
            proof {
                assert(fields@.subrange(n as int, n as int).len() == 0);
            }
            None
        },
        _ => None,
    }
}

/// The string under `name`, or a copy of `default`.
pub fn str_field(v: &JsonValue, name: &str, default: &str) -> (r: String)
    ensures
        r@ == spec_str_field(*v, name@, default@),
{
    match obj_get(v, name) {
        Some(JsonValue::Str(s)) => crate::memory_cache::clone_string(s),
        _ => default.to_owned(),
    }
}

/// The `i64` under `name`, or `default`.
pub fn i64_field(v: &JsonValue, name: &str, default: i64) -> (r: i64)
    ensures
        r == spec_i64_field(*v, name@, default),
{
    match obj_get(v, name) {
        Some(JsonValue::Int(x)) => *x,
        _ => default,
    }
}

/// What parsing a text as JSON yields, named here and pinned down only by
/// the trusted wrapper below.
pub uninterp spec fn json_of(s: Seq<char>) -> Option<JsonValue>;

/// Declares serde_json's `Value` so the converter below can take one;
/// the library never looks inside a value of it.
#[verifier::external_type_specification]
#[verifier::external_body]
pub struct ExSerdeValue(serde_json::Value);

/// Conversion of a parsed serde_json tree into the library's model, arm by
/// arm; a number keeps its value when it fits `i64` and is otherwise only
/// marked.
#[verifier::external_body]
fn json_value_from(v: serde_json::Value) -> JsonValue {
    match v {
        serde_json::Value::Null => JsonValue::Null,
        serde_json::Value::Bool(b) => JsonValue::Bool(b),
        serde_json::Value::Number(n) => match n.as_i64() {
            Some(x) => JsonValue::Int(x),
            None => JsonValue::OtherNum,
        },
        serde_json::Value::String(s) => JsonValue::Str(s),
        serde_json::Value::Array(items) => JsonValue::Arr(
            items.into_iter().map(json_value_from).collect(),
        ),
        serde_json::Value::Object(fields) => JsonValue::Obj(
            fields.into_iter().map(|(k, x)| (k, json_value_from(x))).collect(),
        ),
    }
}

/// Deep copy of a parsed document.
pub fn clone_json(v: &JsonValue) -> (r: JsonValue)
    decreases *v,
{
    match v {
        JsonValue::Null => JsonValue::Null,
        JsonValue::Bool(b) => JsonValue::Bool(*b),
        JsonValue::Int(x) => JsonValue::Int(*x),
        JsonValue::OtherNum => JsonValue::OtherNum,
        JsonValue::Str(s) => JsonValue::Str(crate::memory_cache::clone_string(s)),
        JsonValue::Arr(items) => JsonValue::Arr(clone_json_vec(items)),
        JsonValue::Obj(fields) => JsonValue::Obj(clone_json_fields(fields)),
    }
}

fn clone_json_vec(items: &Vec<JsonValue>) -> (r: Vec<JsonValue>)
    decreases *items,
{
    broadcast use vstd::std_specs::vec::axiom_vec_index_decreases;

    let mut out: Vec<JsonValue> = Vec::new();
    let n = items.len();
    let mut i: usize = 0;
    while i < n
        invariant
            i <= n,
            n == items@.len(),
        decreases n - i,
    {
        out.push(clone_json(&items[i]));
        i += 1;
    }
    out
}

fn clone_json_fields(fields: &Vec<(String, JsonValue)>) -> (r: Vec<(String, JsonValue)>)
    decreases *fields,
{
    broadcast use vstd::std_specs::vec::axiom_vec_index_decreases;

    let mut out: Vec<(String, JsonValue)> = Vec::new();
    let n = fields.len();
    let mut i: usize = 0;
    while i < n
        invariant
            i <= n,
            n == fields@.len(),
        decreases n - i,
    {
        let entry = &fields[i];
        out.push((crate::memory_cache::clone_string(&entry.0), clone_json(&entry.1)));
        i += 1;
    }
    out
}

/// Relies on serde_json::from_str: parses one JSON document or fails, as a
/// function of the text alone.
#[verifier::external_body]
pub fn parse_json(text: &str) -> (r: Option<JsonValue>)
    ensures
        r == json_of(text@),
{
    serde_json::from_str::<serde_json::Value>(text).ok().map(json_value_from)
}

} // verus!
