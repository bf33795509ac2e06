//! Reading upstream reply bodies.
//!
//! A reply is first read strictly: every required field must be present
//! with its exact type. When that fails, a tolerant second pass coerces
//! whatever can be recovered — choices with their role, content and finish
//! reason, and the top-level metadata — falling back to documented
//! defaults. A reply from which no choice can be recovered is a parse
//! failure.

use vstd::prelude::*;
use crate::api_model::{
    choices_view, ChatChoice, ChatMessageJson, ChatResponseJson, ChoiceV, MessageV, Usage,
    lemma_choices_view_index,
};
use crate::json::{
    clone_json, i64_field, json_of, obj_get, parse_json, spec_i64_field, spec_obj_get,
    spec_str_field, str_field, JsonValue,
};

verus! {

/// An `i64` squeezed into `i32`: out-of-range counters fall back to zero,
/// like an absent field.
pub open spec fn fit_i32(x: int) -> i32 {
    if -0x8000_0000 <= x <= 0x7fff_ffff {
        x as i32
    } else {
        0
    }
}

/// A choice index: the position in the array, capped at the largest `i32`.
pub open spec fn idx_i32(i: int) -> i32 {
    if i <= 0x7fff_ffff {
        i as i32
    } else {
        0x7fff_ffff
    }
}

/// A usage counter under the tolerant pass.
pub open spec fn spec_usage_i32(v: JsonValue, name: Seq<char>) -> i32 {
    match spec_obj_get(v, "usage"@) {
        Some(u) => fit_i32(spec_i64_field(u, name, 0) as int),
        None => 0,
    }
}

/// The message content of a choice under the tolerant pass.
pub open spec fn spec_choice_content(c: JsonValue) -> Seq<char> {
    match spec_obj_get(c, "message"@) {
        Some(m) => spec_str_field(m, "content"@, ""@),
        None => ""@,
    }
}

/// The message role of a choice under the tolerant pass.
pub open spec fn spec_choice_role(c: JsonValue) -> Seq<char> {
    match spec_obj_get(c, "message"@) {
        Some(m) => spec_str_field(m, "role"@, "assistant"@),
        None => "assistant"@,
    }
}

/// A coerced choice: defaults fill whatever is missing or of the wrong
/// type.
pub open spec fn spec_coerced_choice(c: JsonValue, i: int) -> ChoiceV {
    ChoiceV {
        index: idx_i32(i),
        has_logprobs: false,
        finish_reason: spec_str_field(c, "finish_reason"@, "unknown"@),
        message: MessageV { role: spec_choice_role(c), content: spec_choice_content(c) },
    }
}

/// The choice list the tolerant pass recovers: empty unless `choices` is
/// an array.
pub open spec fn spec_coerced_choices(v: JsonValue) -> Seq<ChoiceV> {
    match spec_obj_get(v, "choices"@) {
        Some(JsonValue::Arr(items)) => Seq::new(
            items@.len() as nat,
            |i: int| spec_coerced_choice(items@[i], i),
        ),
        _ => Seq::empty(),
    }
}

/// Recovers what choices it can from a parsed reply; absent or mistyped
/// parts become their defaults.
pub fn extract_choices_from_json(v: &JsonValue) -> (r: Vec<ChatChoice>)
    ensures
        choices_view(r@) == spec_coerced_choices(*v),
{
    broadcast use lemma_choices_view_index;

    let mut r: Vec<ChatChoice> = Vec::new();
    match obj_get(v, "choices") {
        Some(JsonValue::Arr(items)) => {
            let n = items.len();
            let mut i: usize = 0;
            while i < n
                invariant
                    i <= n,
                    n == items@.len(),
                    spec_obj_get(*v, "choices"@) == Some(JsonValue::Arr(*items)),
                    r@.len() == i,
                    forall|j: int|
                        0 <= j < i ==> #[trigger] choices_view(r@)[j] == spec_coerced_choice(
                            items@[j],
                            j,
                        ),
                decreases n - i,
            {
                let c = &items[i];
                let finish_reason = str_field(c, "finish_reason", "unknown");
                let (role, content) = match obj_get(c, "message") {
                    Some(m) => (str_field(m, "role", "assistant"), str_field(m, "content", "")),
                    None => ("assistant".to_owned(), "".to_owned()),
                };
                let index: i32 = if i <= 0x7fff_ffff {
                    i as i32
                } else {
                    0x7fff_ffff
                };
                let ghost prev = r@;
                r.push(
                    ChatChoice {
                        index,
                        logprobs: None,
                        finish_reason,
                        message: ChatMessageJson { role, content },
                    },
                );
                i += 1;
                proof {
                    assert forall|j: int|
                        0 <= j < i implies #[trigger] choices_view(r@)[j] == spec_coerced_choice(
                        items@[j],
                        j,
                    ) by {
                        assert(choices_view(r@)[j] == r@[j]@);
                        if j < i - 1 {
                            assert(r@[j] == prev[j]);
                            assert(choices_view(prev)[j] == prev[j]@);
                        }
                    }
                }
            }
            proof {
                assert(choices_view(r@) =~= spec_coerced_choices(*v));
            }
        },
        _ => {
            proof {
                assert(choices_view(r@) =~= Seq::<ChoiceV>::empty());
            }
        },
    }
    r
}

/// Assembles a reply from the tolerant pass: recovered choices plus the
/// top-level metadata with its defaults; a missing `created` stamp takes
/// the current time `now`.
pub fn construct_response_from_json(v: &JsonValue, choices: Vec<ChatChoice>, now: i64) -> (r:
    ChatResponseJson)
    ensures
        r@.id == spec_str_field(*v, "id"@, "unknown"@),
        r@.object == spec_str_field(*v, "object"@, "chat.completion"@),
        r@.created == spec_i64_field(*v, "created"@, now),
        r@.model == spec_str_field(*v, "model"@, "unknown"@),
        r@.choices == choices_view(choices@),
        r@.prompt_tokens == spec_usage_i32(*v, "prompt_tokens"@),
        r@.completion_tokens == spec_usage_i32(*v, "completion_tokens"@),
        r@.total_tokens == spec_usage_i32(*v, "total_tokens"@),
        r@.system_fingerprint == spec_str_field(*v, "system_fingerprint"@, "unknown"@),
{
    let usage = match obj_get(v, "usage") {
        Some(u) => Usage {
            prompt_tokens: fit_i32_exec(i64_field(u, "prompt_tokens", 0)),
            completion_tokens: fit_i32_exec(i64_field(u, "completion_tokens", 0)),
            total_tokens: fit_i32_exec(i64_field(u, "total_tokens", 0)),
        },
        None => Usage { prompt_tokens: 0, completion_tokens: 0, total_tokens: 0 },
    };
    ChatResponseJson {
        id: str_field(v, "id", "unknown"),
        object: str_field(v, "object", "chat.completion"),
        created: i64_field(v, "created", now),
        model: str_field(v, "model", "unknown"),
        choices,
        usage,
        stats: JsonValue::Null,
        system_fingerprint: str_field(v, "system_fingerprint", "unknown"),
    }
}

fn fit_i32_exec(x: i64) -> (r: i32)
    ensures
        r == fit_i32(x as int),
{
    if -0x8000_0000i64 <= x && x <= 0x7fff_ffffi64 {
        x as i32
    } else {
        0
    }
}

/// Whether an optional field, if present, is a string.
pub open spec fn opt_str_ok(v: JsonValue, name: Seq<char>) -> bool {
    match spec_obj_get(v, name) {
        None => true,
        Some(JsonValue::Str(_)) => true,
        Some(_) => false,
    }
}

/// Whether a usage counter, if present, is an integer that fits `i32`.
pub open spec fn usage_field_ok(u: JsonValue, name: Seq<char>) -> bool {
    match spec_obj_get(u, name) {
        None => true,
        Some(JsonValue::Int(x)) => -0x8000_0000 <= x && x <= 0x7fff_ffff,
        Some(_) => false,
    }
}

/// Whether one choice satisfies the strict reading.
pub open spec fn strict_choice_ok(c: JsonValue) -> bool {
    &&& c matches JsonValue::Obj(_)
    &&& (spec_obj_get(c, "index"@) matches Some(JsonValue::Int(x)) && -0x8000_0000 <= x
        <= 0x7fff_ffff)
    &&& (spec_obj_get(c, "message"@) matches Some(m) && (spec_obj_get(m, "role"@) matches Some(
        JsonValue::Str(_),
    )) && (spec_obj_get(m, "content"@) matches Some(JsonValue::Str(_))))
    &&& opt_str_ok(c, "finish_reason"@)
}

/// Whether the whole reply satisfies the strict reading: required fields
/// present with their exact types, optional fields well-typed.
pub open spec fn strict_response_ok(v: JsonValue) -> bool {
    &&& v matches JsonValue::Obj(_)
    &&& (spec_obj_get(v, "id"@) matches Some(JsonValue::Str(_)))
    &&& (spec_obj_get(v, "object"@) matches Some(JsonValue::Str(_)))
    &&& (spec_obj_get(v, "created"@) matches Some(JsonValue::Int(_)))
    &&& (spec_obj_get(v, "model"@) matches Some(JsonValue::Str(_)))
    &&& (spec_obj_get(v, "usage"@) matches Some(u) && u matches JsonValue::Obj(_) && usage_field_ok(
        u,
        "prompt_tokens"@,
    ) && usage_field_ok(u, "completion_tokens"@) && usage_field_ok(u, "total_tokens"@))
    &&& (spec_obj_get(v, "choices"@) matches Some(JsonValue::Arr(items)) && (forall|i: int|
        0 <= i < items@.len() ==> strict_choice_ok(#[trigger] items@[i])))
    &&& opt_str_ok(v, "system_fingerprint"@)
}

/// The view of a strictly read choice.
pub open spec fn strict_choice_view(c: JsonValue) -> ChoiceV {
    ChoiceV {
        index: match spec_obj_get(c, "index"@) {
            Some(JsonValue::Int(x)) => fit_i32(x as int),
            _ => 0,
        },
        has_logprobs: match spec_obj_get(c, "logprobs"@) {
            Some(JsonValue::Null) => false,
            Some(_) => true,
            None => false,
        },
        finish_reason: spec_str_field(c, "finish_reason"@, "unknown"@),
        message: MessageV {
            role: spec_choice_role(c),
            content: spec_choice_content(c),
        },
    }
}

/// A choice that fails the strict reading refutes the whole reply.
proof fn lemma_choice_not_ok_refutes(v: JsonValue, items: Vec<JsonValue>, i: int)
    requires
        spec_obj_get(v, "choices"@) == Some(JsonValue::Arr(items)),
        0 <= i < items@.len(),
        !strict_choice_ok(items@[i]),
    ensures
        !strict_response_ok(v),
{
    if strict_response_ok(v) {
        assert(spec_obj_get(v, "choices"@) matches Some(JsonValue::Arr(items2))
            && items2@ == items@);
        assert(strict_choice_ok(items@[i]));
    }
}

/// Reads a reply strictly; `None` exactly when some field is missing or
/// mistyped.
pub fn strict_from_json(v: &JsonValue, choices_out: &mut Vec<ChatChoice>) -> (ok: bool)
    requires
        old(choices_out)@.len() == 0,
    ensures
        ok == strict_response_ok(*v),
        ok ==> (spec_obj_get(*v, "choices"@) matches Some(JsonValue::Arr(items)) && choices_view(
            final(choices_out)@,
        ) == Seq::new(items@.len() as nat, |i: int| strict_choice_view(items@[i]))),
{
    broadcast use lemma_choices_view_index;

    if !(matches!(v, JsonValue::Obj(_))) {
        return false;
    }
    let id_ok = matches!(obj_get(v, "id"), Some(JsonValue::Str(_)));
    let object_ok = matches!(obj_get(v, "object"), Some(JsonValue::Str(_)));
    let created_ok = matches!(obj_get(v, "created"), Some(JsonValue::Int(_)));
    let model_ok = matches!(obj_get(v, "model"), Some(JsonValue::Str(_)));
    let fingerprint_ok = opt_str_ok_exec(v, "system_fingerprint");
    if !(id_ok && object_ok && created_ok && model_ok && fingerprint_ok) {
        return false;
    }
    let usage_ok = match obj_get(v, "usage") {
        Some(u) => matches!(u, JsonValue::Obj(_)) && usage_field_ok_exec(u, "prompt_tokens")
            && usage_field_ok_exec(u, "completion_tokens") && usage_field_ok_exec(
            u,
            "total_tokens",
        ),
        None => false,
    };
    if !usage_ok {
        return false;
    }
    match obj_get(v, "choices") {
        Some(JsonValue::Arr(items)) => {
            let n = items.len();
            let mut i: usize = 0;
            while i < n
                invariant
                    i <= n,
                    n == items@.len(),
                    spec_obj_get(*v, "choices"@) == Some(JsonValue::Arr(*items)),
                    choices_out@.len() == i,
                    forall|j: int| 0 <= j < i ==> strict_choice_ok(#[trigger] items@[j]),
                    forall|j: int|
                        0 <= j < i ==> #[trigger] choices_view(choices_out@)[j]
                            == strict_choice_view(items@[j]),
                decreases n - i,
            {
                let c = &items[i];
                if !(matches!(c, JsonValue::Obj(_))) {
                    proof {
                        lemma_choice_not_ok_refutes(*v, *items, i as int);
                    }
                    return false;
                }
                let index: i32 = match obj_get(c, "index") {
                    Some(JsonValue::Int(x)) => {
                        let x = *x;
                        if -0x8000_0000i64 <= x && x <= 0x7fff_ffffi64 {
                            x as i32
                        } else {
                            proof {
                                lemma_choice_not_ok_refutes(*v, *items, i as int);
                            }
                            return false;
                        }
                    },
                    _ => {
                        proof {
                            lemma_choice_not_ok_refutes(*v, *items, i as int);
                        }
                        return false;
                    },
                };
                let (role, content) = match obj_get(c, "message") {
                    Some(m) => {
                        let role = match obj_get(m, "role") {
                            Some(JsonValue::Str(s)) => crate::memory_cache::clone_string(s),
                            _ => {
                                proof {
                                    lemma_choice_not_ok_refutes(*v, *items, i as int);
                                }
                                return false;
                            },
                        };
                        let content = match obj_get(m, "content") {
                            Some(JsonValue::Str(s)) => crate::memory_cache::clone_string(s),
                            _ => {
                                proof {
                                    lemma_choice_not_ok_refutes(*v, *items, i as int);
                                }
                                return false;
                            },
                        };
                        (role, content)
                    },
                    None => {
                        proof {
                            lemma_choice_not_ok_refutes(*v, *items, i as int);
                        }
                        return false;
                    },
                };
                if !opt_str_ok_exec(c, "finish_reason") {
                    proof {
                        lemma_choice_not_ok_refutes(*v, *items, i as int);
                    }
                    return false;
                }
                let finish_reason = str_field(c, "finish_reason", "unknown");
                let logprobs: Option<JsonValue> = match obj_get(c, "logprobs") {
                    Some(JsonValue::Null) => None,
                    Some(x) => Some(clone_json(x)),
                    None => None,
                };
                let ghost prev = choices_out@;
                choices_out.push(
                    ChatChoice {
                        index,
                        logprobs,
                        finish_reason,
                        message: ChatMessageJson { role, content },
                    },
                );
                i += 1;
                proof {
                    assert forall|j: int|
                        0 <= j < i implies #[trigger] choices_view(choices_out@)[j]
                        == strict_choice_view(items@[j]) by {
                        assert(choices_view(choices_out@)[j] == choices_out@[j]@);
                        if j < i - 1 {
                            assert(choices_out@[j] == prev[j]);
                            assert(choices_view(prev)[j] == prev[j]@);
                        }
                    }
                }
            }
            proof {
                assert(choices_view(choices_out@) =~= Seq::new(
                    items@.len() as nat,
                    |i: int| strict_choice_view(items@[i]),
                ));
            }
            true
        },
        _ => false,
    }
}

fn opt_str_ok_exec(v: &JsonValue, name: &str) -> (r: bool)
    ensures
        r == opt_str_ok(*v, name@),
{
    match obj_get(v, name) {
        None => true,
        Some(JsonValue::Str(_)) => true,
        Some(_) => false,
    }
}

fn usage_field_ok_exec(u: &JsonValue, name: &str) -> (r: bool)
    ensures
        r == usage_field_ok(*u, name@),
{
    match obj_get(u, name) {
        None => true,
        Some(JsonValue::Int(x)) => -0x8000_0000i64 <= *x && *x <= 0x7fff_ffffi64,
        Some(_) => false,
    }
}

/// A reply body that could not be used.
#[derive(Clone, Copy, Debug, PartialEq, Eq, Structural)]
pub enum UpstreamParseError {
    /// The body is not JSON at all.
    NotJson,
    /// The body is JSON, but no choice could be recovered from it.
    NoChoices,
}

/// Reads an upstream reply body: the strict reading when it applies, else
/// the tolerant coercion; an error exactly when the body is not JSON or
/// yields no choices either way.
pub fn parse_upstream_response(text: &str, now: i64) -> (r: Result<
    ChatResponseJson,
    UpstreamParseError,
>)
    ensures
        (json_of(text@) is None) <==> r == Err::<ChatResponseJson, UpstreamParseError>(
            UpstreamParseError::NotJson,
        ),
        json_of(text@) matches Some(v) ==> {
            &&& strict_response_ok(v) ==> (r matches Ok(resp) && resp@.id == spec_str_field(
                v,
                "id"@,
                "unknown"@,
            ) && resp@.object == spec_str_field(v, "object"@, "chat.completion"@) && resp@.created
                == spec_i64_field(v, "created"@, now) && resp@.model == spec_str_field(
                v,
                "model"@,
                "unknown"@,
            ) && resp@.prompt_tokens == spec_usage_i32(v, "prompt_tokens"@)
                && resp@.completion_tokens == spec_usage_i32(v, "completion_tokens"@)
                && resp@.total_tokens == spec_usage_i32(v, "total_tokens"@)
                && resp@.system_fingerprint == spec_str_field(v, "system_fingerprint"@, "unknown"@)
                && (spec_obj_get(v, "choices"@) matches Some(JsonValue::Arr(items))
                && resp@.choices == Seq::new(
                items@.len() as nat,
                |i: int| strict_choice_view(items@[i]),
            )))
            &&& (!strict_response_ok(v) && spec_coerced_choices(v).len() > 0) ==> (r matches Ok(
                resp,
            ) && resp@.choices == spec_coerced_choices(v) && resp@.id == spec_str_field(
                v,
                "id"@,
                "unknown"@,
            ) && resp@.object == spec_str_field(v, "object"@, "chat.completion"@) && resp@.model
                == spec_str_field(v, "model"@, "unknown"@) && resp@.created == spec_i64_field(
                v,
                "created"@,
                now,
            ) && resp@.prompt_tokens == spec_usage_i32(v, "prompt_tokens"@)
                && resp@.completion_tokens == spec_usage_i32(v, "completion_tokens"@)
                && resp@.total_tokens == spec_usage_i32(v, "total_tokens"@)
                && resp@.system_fingerprint == spec_str_field(v, "system_fingerprint"@, "unknown"@))
            &&& (!strict_response_ok(v) && spec_coerced_choices(v).len() == 0) ==> r == Err::<
                ChatResponseJson,
                UpstreamParseError,
            >(UpstreamParseError::NoChoices)
        },
{
    match parse_json(text) {
        None => Err(UpstreamParseError::NotJson),
        Some(v) => {
            let mut strict_choices: Vec<ChatChoice> = Vec::new();
            if strict_from_json(&v, &mut strict_choices) {
                let resp = construct_strict_response(&v, strict_choices, now);
                Ok(resp)
            } else {
                let choices = extract_choices_from_json(&v);
                if choices.len() == 0 {
                    Err(UpstreamParseError::NoChoices)
                } else {
                    Ok(construct_response_from_json(&v, choices, now))
                }
            }
        },
    }
}

/// Assembles the strictly read reply.
fn construct_strict_response(v: &JsonValue, choices: Vec<ChatChoice>, now: i64) -> (r:
    ChatResponseJson)
    requires
        strict_response_ok(*v),
    ensures
        r@.id == spec_str_field(*v, "id"@, "unknown"@),
        r@.object == spec_str_field(*v, "object"@, "chat.completion"@),
        r@.created == spec_i64_field(*v, "created"@, now),
        r@.model == spec_str_field(*v, "model"@, "unknown"@),
        r@.choices == choices_view(choices@),
        r@.prompt_tokens == spec_usage_i32(*v, "prompt_tokens"@),
        r@.completion_tokens == spec_usage_i32(*v, "completion_tokens"@),
        r@.total_tokens == spec_usage_i32(*v, "total_tokens"@),
        r@.system_fingerprint == spec_str_field(*v, "system_fingerprint"@, "unknown"@),
{
    let usage = match obj_get(v, "usage") {
        Some(u) => Usage {
            prompt_tokens: fit_i32_exec(i64_field(u, "prompt_tokens", 0)),
            completion_tokens: fit_i32_exec(i64_field(u, "completion_tokens", 0)),
            total_tokens: fit_i32_exec(i64_field(u, "total_tokens", 0)),
        },
        None => Usage { prompt_tokens: 0, completion_tokens: 0, total_tokens: 0 },
    };
    let stats = match obj_get(v, "stats") {
        Some(x) => clone_json(x),
        None => JsonValue::Null,
    };
    ChatResponseJson {
        id: str_field(v, "id", "unknown"),
        object: str_field(v, "object", "chat.completion"),
        created: i64_field(v, "created", now),
        model: str_field(v, "model", "unknown"),
        choices,
        usage,
        stats,
        system_fingerprint: str_field(v, "system_fingerprint", "unknown"),
    }
}

} // verus!
