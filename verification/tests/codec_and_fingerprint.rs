//! The compression codec, the fingerprints, and the configuration
//! defaults, exercised with the real outside crates linked.

use llm_api::codec::{compress_content, decompress_content, CodecError};
use llm_api::config::{
    default_api_headers, default_cache_hit_pool_size, default_cache_miss_pool_size,
    default_cache_override_mode, default_cache_version, default_database_url,
    default_max_concurrent_requests, default_use_curl, default_use_proxy, ApiDefaultsConfig,
    CacheConfig, ContextTrimConfig, DatabaseConfig, HttpClientConfig, ProxyConfig, ServerConfig,
    SummaryApiConfig,
};
use llm_api::fingerprint::{answer_key, question_key};

#[test]
fn codec_round_trip_ascii() {
    let blob = compress_content("hello world, hello world, hello world");
    let back = decompress_content(&blob).unwrap();
    assert_eq!(back, "hello world, hello world, hello world");
}

#[test]
fn codec_round_trip_unicode() {
    let text = "你好，世界! naïve café 🌍";
    let blob = compress_content(text);
    let back = decompress_content(&blob).unwrap();
    assert_eq!(back, text);
}

#[test]
fn codec_actually_compresses() {
    let text = "abcabcabc".repeat(200);
    let blob = compress_content(&text);
    assert!(blob.len() < text.len());
    assert_ne!(blob, text.as_bytes().to_vec());
}

#[test]
fn codec_rejects_garbage() {
    let garbage: Vec<u8> = vec![0xff, 0xfe, 0xfd, 0x01, 0x02, 0x03, 0x55, 0x44];
    match decompress_content(&garbage) {
        Err(CodecError::Decompression) => {}
        other => panic!("expected a decompression failure, got {:?}", other.map(|_| ())),
    }
}

#[test]
fn question_key_is_sha256_hex() {
    // SHA-256("hello"), lowercase hex.
    assert_eq!(
        question_key("hello"),
        "2cf24dba5fb0a30e26e83b2ac5b9e29e1b161e5c1fa7425e73043362938b9824"
    );
    assert_eq!(question_key("hello").len(), 64);
}

#[test]
fn answer_key_is_sha256_hex_of_bytes() {
    // SHA-256 of the three bytes "abc".
    let bytes = vec![b'a', b'b', b'c'];
    assert_eq!(
        answer_key(&bytes),
        "ba7816bf8f01cfea414140de5dae2223b00361a396177a9cb410ff61f20015ad"
    );
}

#[test]
fn same_content_same_key() {
    assert_eq!(question_key("abc"), question_key("abc"));
    assert_ne!(question_key("abc"), question_key("abd"));
}

#[test]
fn config_defaults_match_documentation() {
    let cache = CacheConfig::default();
    assert!(cache.enabled);
    assert_eq!(cache.max_items, 100);
    assert_eq!(cache.batch_write_size, 20);

    let idle = llm_api::config::IdleFlushConfig::default();
    assert!(!idle.enabled);
    assert_eq!(idle.idle_timeout_seconds, 300);
    assert_eq!(idle.check_interval_seconds, 10);

    let trim = ContextTrimConfig::default();
    assert_eq!(trim.max_context_tokens, 4096);
    assert_eq!(trim.summary_mode, "local");
    assert_eq!(trim.per_message_overhead, 3);

    let summary = SummaryApiConfig::default();
    assert_eq!(summary.api_key_env, "SUMMARY_API_KEY");
    assert_eq!(summary.max_tokens, 128);
    assert_eq!(summary.temperature_milli, 200);

    let proxy = ProxyConfig::default();
    assert_eq!(proxy.request_timeout_seconds, 120);

    let server = ServerConfig::default();
    assert_eq!(server.host, "0.0.0.0");
    assert_eq!(server.port, 4321);

    let http = HttpClientConfig::default();
    assert_eq!(http.timeout_seconds, 60);
    assert_eq!(http.http2_initial_stream_window_size, 1024 * 1024);

    let db = DatabaseConfig::default();
    assert_eq!(db.max_connections, 100);
    assert_eq!(db.min_connections, 10);

    let api = ApiDefaultsConfig::default();
    assert_eq!(api.cache_system_fingerprint, "cached");
    assert_eq!(api.cache_max_size_bytes, 5 * 1024 * 1024);

    let maint = llm_api::cache_maintenance::CacheMaintenanceConfig::default();
    assert!(!maint.enabled);
    assert_eq!(maint.interval_hours, 12);
    assert_eq!(maint.retention_days, 30);
    assert_eq!(maint.min_hit_count, 5);

    assert_eq!(default_database_url(), "cache.db");
    assert!(!default_use_curl());
    assert!(default_use_proxy());
    assert_eq!(default_cache_hit_pool_size(), 8);
    assert_eq!(default_cache_miss_pool_size(), 8);
    assert_eq!(default_max_concurrent_requests(), 100);
    assert!(!default_cache_override_mode());
    assert_eq!(default_cache_version(), 0);
    let headers = default_api_headers();
    assert_eq!(headers.len(), 2);
    assert_eq!(headers[0].0, "Content-Type");
    assert_eq!(headers[0].1, "application/json");
    assert_eq!(headers[1].0, "Accept");
}

#[test]
fn maintenance_cutoff_subtracts_days() {
    let cutoff = llm_api::cache_maintenance::maintenance_cutoff(1_000_000, 1);
    assert_eq!(cutoff, 1_000_000 - 86400);
}
