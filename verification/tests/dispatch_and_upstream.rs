//! The dispatch decisions, the tolerant response reader, the weighted
//! endpoint choice, and the end-to-end request flows run against the
//! store model.

use llm_api::api_model::{
    select_api_endpoint, ApiEndpoint, ChatMessageJson, ChatRequestJson,
};
use llm_api::db_writer::DbWriter;
use llm_api::dispatch::{
    apply_endpoint_overrides, build_target_url, classify_error_message, classify_send_error,
    new_uuid_string, now_epoch_seconds, perform_writeback, process_cached_response,
    project_headers, question_key_for_request, should_bypass_cache, status_code_for,
    writeback_plan, AdmissionGate, DispatchError,
};
use llm_api::fingerprint::question_key;
use llm_api::memory_cache::MemoryCache;
use llm_api::store::Store;
use llm_api::upstream::{parse_upstream_response, UpstreamParseError};

fn msg(role: &str, content: &str) -> ChatMessageJson {
    ChatMessageJson { role: role.to_string(), content: content.to_string() }
}

fn request(contents: &[(&str, &str)], stream: bool) -> ChatRequestJson {
    ChatRequestJson {
        model: "test-model".to_string(),
        messages: contents.iter().map(|(r, c)| msg(r, c)).collect(),
        temperature_milli: 100,
        max_tokens: -1,
        stream,
        enable_thinking: None,
    }
}

fn endpoint(url: &str, weight: u8, version: u8) -> ApiEndpoint {
    ApiEndpoint { url: url.to_string(), weight, model: None, version }
}

#[test]
fn status_codes_match_error_design() {
    assert_eq!(status_code_for(&DispatchError::NoUserMessage), 400);
    assert_eq!(status_code_for(&DispatchError::LookupFailed), 500);
    assert_eq!(status_code_for(&DispatchError::AdmissionTimeout), 503);
    assert_eq!(status_code_for(&DispatchError::NoEndpoint), 503);
    assert_eq!(status_code_for(&DispatchError::UpstreamConnect), 502);
    assert_eq!(status_code_for(&DispatchError::UpstreamTimeout), 504);
    assert_eq!(status_code_for(&DispatchError::UpstreamOther), 502);
    assert_eq!(status_code_for(&DispatchError::UpstreamStatus(418)), 418);
    assert_eq!(status_code_for(&DispatchError::UpstreamStatus(42)), 500);
    assert_eq!(status_code_for(&DispatchError::UpstreamParse), 500);
    assert_eq!(status_code_for(&DispatchError::Codec), 500);
}

#[test]
fn question_key_uses_first_user_message() {
    let req = request(&[("system", "s"), ("user", "hello"), ("user", "later")], false);
    let key = question_key_for_request(&req.messages).unwrap();
    assert_eq!(key, question_key("hello"));
}

#[test]
fn missing_user_message_is_client_error() {
    let req = request(&[("system", "s"), ("assistant", "a")], false);
    match question_key_for_request(&req.messages) {
        Err(DispatchError::NoUserMessage) => {}
        other => panic!("expected the missing-user error, got {:?}", other),
    }
}

#[test]
fn target_url_tolerates_trailing_slash() {
    assert_eq!(
        build_target_url("http://a.example", "v1/chat/completions"),
        "http://a.example/v1/chat/completions"
    );
    assert_eq!(
        build_target_url("http://a.example/", "v1/chat/completions"),
        "http://a.example/v1/chat/completions"
    );
    assert_eq!(build_target_url("http://a.example", "v1/models"), "http://a.example/v1/models");
}

#[test]
fn headers_are_projected() {
    let client = vec![
        ("Connection".to_string(), "keep-alive".to_string()),
        ("Host".to_string(), "proxy".to_string()),
        ("Content-Length".to_string(), "12".to_string()),
        ("X-PROXY-CONNECTION".to_string(), "x".to_string()),
        ("Authorization".to_string(), "client-value".to_string()),
    ];
    let api = vec![
        ("Content-Type".to_string(), "application/json".to_string()),
        ("Authorization".to_string(), "configured-value".to_string()),
    ];
    let out = project_headers(&client, &api);
    assert!(out.iter().all(|(k, _)| !k.to_lowercase().contains("connection")));
    assert!(out.iter().all(|(k, _)| !k.to_lowercase().contains("host")));
    assert!(out.iter().all(|(k, _)| !k.to_lowercase().contains("content-length")));
    assert!(out.iter().any(|(k, v)| k == "Content-Type" && v == "application/json"));
    // The configured value replaced the client's value in place.
    let auth: Vec<&(String, String)> = out.iter().filter(|(k, _)| k == "Authorization").collect();
    assert_eq!(auth.len(), 1);
}

#[test]
fn endpoint_overrides_are_applied() {
    let req = request(&[("user", "q")], false);
    let ep = ApiEndpoint {
        url: "http://up".to_string(),
        weight: 1,
        model: Some("forced-model".to_string()),
        version: 0,
    };
    let out = apply_endpoint_overrides(&req, &ep, Some(true));
    assert_eq!(out.model, "forced-model");
    assert_eq!(out.enable_thinking, Some(true));
    assert_eq!(out.messages.len(), 1);
    assert_eq!(out.stream, false);

    let plain = endpoint("http://up", 1, 0);
    let out2 = apply_endpoint_overrides(&req, &plain, None);
    assert_eq!(out2.model, "test-model");
    assert_eq!(out2.enable_thinking, None);
}

#[test]
fn send_errors_classify() {
    assert_eq!(classify_send_error(true, false), DispatchError::UpstreamConnect);
    assert_eq!(classify_send_error(false, true), DispatchError::UpstreamTimeout);
    assert_eq!(classify_send_error(false, false), DispatchError::UpstreamOther);
    assert_eq!(
        classify_error_message("error trying to connect: refused"),
        DispatchError::UpstreamConnect
    );
    assert_eq!(classify_error_message("operation timeout reached"), DispatchError::UpstreamTimeout);
    assert_eq!(classify_error_message("weird failure"), DispatchError::UpstreamOther);
}

#[test]
fn admission_cap() {
    // Cap two: two permits go out, the third attempt fails, a release
    // frees one again, and a refused admission answers busy.
    let mut gate = AdmissionGate::new(2);
    assert_eq!(gate.available_permits(), 2);
    assert!(gate.try_acquire());
    assert!(gate.try_acquire());
    assert!(!gate.try_acquire());
    assert_eq!(gate.available_permits(), 0);
    gate.release();
    assert!(gate.try_acquire());
    assert_eq!(status_code_for(&DispatchError::AdmissionTimeout), 503);
}

#[test]
fn strict_upstream_reply_is_read_exactly() {
    let body = r#"{
        "id": "chatcmpl-1",
        "object": "chat.completion",
        "created": 1234,
        "model": "m",
        "choices": [{
            "index": 0,
            "logprobs": null,
            "finish_reason": "stop",
            "message": {"role": "assistant", "content": "hi"}
        }],
        "usage": {"prompt_tokens": 3, "completion_tokens": 5, "total_tokens": 8},
        "system_fingerprint": "fp"
    }"#;
    let resp = parse_upstream_response(body, 999).unwrap();
    assert_eq!(resp.id, "chatcmpl-1");
    assert_eq!(resp.created, 1234);
    assert_eq!(resp.model, "m");
    assert_eq!(resp.choices.len(), 1);
    assert_eq!(resp.choices[0].message.content, "hi");
    assert_eq!(resp.choices[0].finish_reason, "stop");
    assert_eq!(resp.usage.prompt_tokens, 3);
    assert_eq!(resp.usage.total_tokens, 8);
    assert_eq!(resp.system_fingerprint, "fp");
}

#[test]
fn tolerant_reply_fills_defaults() {
    // Not strict (usage and created missing, index missing), but choices
    // are recoverable: the coercion applies the documented defaults.
    let body = r#"{"choices": [{"message": {"content": "recovered"}}]}"#;
    let resp = parse_upstream_response(body, 777).unwrap();
    assert_eq!(resp.choices.len(), 1);
    assert_eq!(resp.choices[0].message.content, "recovered");
    assert_eq!(resp.choices[0].message.role, "assistant");
    assert_eq!(resp.choices[0].finish_reason, "unknown");
    assert_eq!(resp.id, "unknown");
    assert_eq!(resp.object, "chat.completion");
    assert_eq!(resp.created, 777);
    assert_eq!(resp.usage.prompt_tokens, 0);
    assert_eq!(resp.system_fingerprint, "unknown");
}

#[test]
fn unusable_replies_are_parse_errors() {
    assert!(matches!(
        parse_upstream_response("not json at all", 0),
        Err(UpstreamParseError::NotJson)
    ));
    assert!(matches!(
        parse_upstream_response(r#"{"no_choices": true}"#, 0),
        Err(UpstreamParseError::NoChoices)
    ));
    assert!(matches!(
        parse_upstream_response(r#"{"choices": []}"#, 0),
        Err(UpstreamParseError::NoChoices)
    ));
}

#[test]
fn streaming_bypasses_cache() {
    // A streaming request neither reads the cache nor writes back.
    let req = request(&[("user", "q")], true);
    assert!(should_bypass_cache(&req));
    let reply = parse_upstream_response(
        r#"{"choices": [{"message": {"content": "body"}}]}"#,
        0,
    )
    .unwrap();
    assert!(writeback_plan(&reply, should_bypass_cache(&req)).is_none());
    // The same reply is cached once streaming is off.
    assert!(writeback_plan(&reply, false).is_some());
}

#[test]
fn empty_replies_are_not_cached() {
    let empty_choice = parse_upstream_response(
        r#"{"choices": [{"message": {"role": "assistant"}}]}"#,
        0,
    )
    .unwrap();
    assert!(writeback_plan(&empty_choice, false).is_none());
}

#[test]
fn weighted_selection_favours_heavier_endpoint() {
    // Weights three and one: out of ten thousand draws the first
    // endpoint is taken between seventy and eighty percent of the time.
    let endpoints = vec![endpoint("http://a", 3, 0), endpoint("http://b", 1, 0)];
    let mut first = 0usize;
    for _ in 0..10_000 {
        let picked = select_api_endpoint(&endpoints).unwrap();
        if picked.url == "http://a" {
            first += 1;
        }
    }
    assert!(first >= 7_000, "first endpoint picked only {} times", first);
    assert!(first <= 8_000, "first endpoint picked {} times", first);
}

#[test]
fn endpoint_selection_edge_cases() {
    assert!(select_api_endpoint(&Vec::new()).is_none());
    // All weights zero: the first endpoint is returned unchanged.
    let zeros = vec![endpoint("http://z1", 0, 0), endpoint("http://z2", 0, 0)];
    assert_eq!(select_api_endpoint(&zeros).unwrap().url, "http://z1");
    // A single positive weight always wins.
    let mixed = vec![endpoint("http://off", 0, 0), endpoint("http://on", 9, 0)];
    for _ in 0..50 {
        assert_eq!(select_api_endpoint(&mixed).unwrap().url, "http://on");
    }
}

#[test]
fn uuid_and_clock_wrappers() {
    let id = new_uuid_string();
    assert_eq!(id.len(), 36);
    let other = new_uuid_string();
    assert_eq!(other.len(), 36);
    let _ = now_epoch_seconds();
}

#[test]
fn first_request_misses_then_persists() {
    // First call: empty store, upstream answers "hi". The reply is not
    // served from the cache, and the writeback leaves one answer row and
    // one question row.
    let mut store = Store::new();
    let mut cache = MemoryCache::new(100);
    let writer = DbWriter::new(0);
    let req = request(&[("user", "hello")], false);

    let key = question_key_for_request(&req.messages).unwrap();
    assert!(cache.get(&key).is_none());
    assert!(store.lookup(&key, 0, false).is_none());

    let reply = parse_upstream_response(
        r#"{"choices": [{"message": {"role": "assistant", "content": "hi"}, "finish_reason": "stop"}]}"#,
        100,
    )
    .unwrap();
    assert_eq!(reply.choices[0].message.content, "hi");
    assert_ne!(reply.choices[0].finish_reason, "stop_from_cache");

    let blob = writeback_plan(&reply, should_bypass_cache(&req)).unwrap();
    // Direct write, as when the memory cache is disabled.
    assert!(writer.write_single(&mut store, key.clone(), blob, 100));
    let stats = store.cache_stats();
    assert_eq!(stats.answers_count, 1);
    assert_eq!(stats.questions_count, 1);
}

#[test]
fn second_request_hits_cache() {
    // Repeat of the first call: the lookup hits, the reply is decoded
    // from the stored blob, and the hit counter moves.
    let mut store = Store::new();
    let writer = DbWriter::new(0);
    let req = request(&[("user", "hello")], false);
    let key = question_key_for_request(&req.messages).unwrap();
    let reply = parse_upstream_response(
        r#"{"choices": [{"message": {"role": "assistant", "content": "hi"}}]}"#,
        100,
    )
    .unwrap();
    let blob = writeback_plan(&reply, false).unwrap();
    writer.write_single(&mut store, key.clone(), blob, 100);

    let (stored_blob, answer_key) = store.lookup(&key, 0, false).unwrap();
    store.increment_hit(&answer_key);
    let served = process_cached_response(&stored_blob, &req.model).unwrap();
    assert_eq!(served.choices[0].message.content, "hi");
    assert_eq!(served.choices[0].finish_reason, "stop_from_cache");
    assert_eq!(served.system_fingerprint, "cached");
    assert_eq!(served.model, "test-model");
    assert_eq!(served.usage.total_tokens, 0);
    assert_eq!(served.id.len(), 36);
}

#[test]
fn three_requests_trigger_batch_writeback() {
    // Capacity two and batch size two: after the third writeback the
    // memory cache holds the last two questions, a batch of exactly two
    // was persisted, and the first question is served only by the store.
    let mut store = Store::new();
    let mut cache = MemoryCache::new(2);
    let writer = DbWriter::new(0);
    let batch_write_size = 2;
    let mut persisted = 0usize;

    for (content, answer) in [("a", "ra"), ("b", "rb"), ("c", "rc")] {
        let req = request(&[("user", content)], false);
        let key = question_key_for_request(&req.messages).unwrap();
        assert!(cache.get(&key).is_none());
        let body = format!(
            r#"{{"choices": [{{"message": {{"role": "assistant", "content": "{}"}}}}]}}"#,
            answer
        );
        let reply = parse_upstream_response(&body, 10).unwrap();
        let blob = writeback_plan(&reply, false).unwrap();
        if let Some(batch) = perform_writeback(&mut cache, key, blob, batch_write_size) {
            assert_eq!(batch.len(), batch_write_size);
            let (ok, failed) = writer.batch_write(&mut store, batch, 10);
            assert_eq!(failed, 0);
            persisted += ok;
        }
    }

    let key_a = question_key("a");
    let key_b = question_key("b");
    let key_c = question_key("c");
    assert!(cache.get(&key_a).is_none());
    assert!(cache.get(&key_b).is_some());
    assert!(cache.get(&key_c).is_some());
    // Only one batch went out, holding exactly the evicted question.
    assert_eq!(persisted, 0);
    assert_eq!(cache.pending_count(), 1);
    // Forcing a flush persists the evicted entry, after which the first
    // question is found in the store alone.
    let pending = cache.take_pending_writes(10);
    assert_eq!(pending.len(), 1);
    assert_eq!(pending[0].0, key_a);
    writer.batch_write(&mut store, pending, 11);
    assert!(store.lookup(&key_a, 0, false).is_some());
    assert!(cache.get(&key_a).is_none());
}

#[test]
fn fourth_request_fires_batch_of_two() {
    // With capacity two and batch size two, the writeback after the
    // fourth distinct question finds two staged pairs and drains exactly
    // that batch.
    let mut store = Store::new();
    let mut cache = MemoryCache::new(2);
    let writer = DbWriter::new(0);
    let mut batches = 0usize;
    for content in ["a", "b", "c", "d"] {
        let req = request(&[("user", content)], false);
        let key = question_key_for_request(&req.messages).unwrap();
        let body = format!(
            r#"{{"choices": [{{"message": {{"role": "assistant", "content": "r-{}"}}}}]}}"#,
            content
        );
        let reply = parse_upstream_response(&body, 10).unwrap();
        let blob = writeback_plan(&reply, false).unwrap();
        if let Some(batch) = perform_writeback(&mut cache, key, blob, 2) {
            assert_eq!(batch.len(), 2);
            assert_eq!(batch[0].0, question_key("a"));
            assert_eq!(batch[1].0, question_key("b"));
            let (ok, failed) = writer.batch_write(&mut store, batch, 10);
            assert_eq!((ok, failed), (2, 0));
            batches += 1;
        }
    }
    assert_eq!(batches, 1);
    assert_eq!(cache.pending_count(), 0);
    assert!(store.lookup(&question_key("a"), 0, false).is_some());
    assert!(store.lookup(&question_key("b"), 0, false).is_some());
}
