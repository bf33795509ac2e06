//! Configuration of the proxy, as an immutable object handed to every
//! component. Loading it from a file happens outside the library; here
//! live the shapes and the documented defaults.

use vstd::prelude::*;
use crate::api_model::ApiEndpoint;
use crate::cache_maintenance::CacheMaintenanceConfig;

verus! {

/// Memory-cache settings.
pub struct CacheConfig {
    pub enabled: bool,
    pub max_items: usize,
    pub batch_write_size: usize,
}

impl Default for CacheConfig {
    fn default() -> (r: Self)
        ensures
            r.enabled == true,
            r.max_items == 100,
            r.batch_write_size == 20,
    {
        CacheConfig { enabled: true, max_items: 100, batch_write_size: 20 }
    }
}

/// Idle-flush settings, in seconds.
pub struct IdleFlushConfig {
    pub enabled: bool,
    pub idle_timeout_seconds: u64,
    pub check_interval_seconds: u64,
}

impl Default for IdleFlushConfig {
    fn default() -> (r: Self)
        ensures
            r.enabled == false,
            r.idle_timeout_seconds == 300,
            r.check_interval_seconds == 10,
    {
        IdleFlushConfig { enabled: false, idle_timeout_seconds: 300, check_interval_seconds: 10 }
    }
}

/// AI-assisted summarization settings. The temperature is held in
/// thousandths.
pub struct SummaryApiConfig {
    pub enabled: bool,
    pub endpoints: Vec<ApiEndpoint>,
    pub api_key_env: String,
    pub max_tokens: i32,
    pub temperature_milli: i32,
    pub timeout_seconds: u64,
}

impl Default for SummaryApiConfig {
    fn default() -> (r: Self)
        ensures
            r.enabled == false,
            r.endpoints@.len() == 0,
            r.api_key_env@ == "SUMMARY_API_KEY"@,
            r.max_tokens == 128,
            r.temperature_milli == 200,
            r.timeout_seconds == 10,
    {
        SummaryApiConfig {
            enabled: false,
            endpoints: Vec::new(),
            api_key_env: "SUMMARY_API_KEY".to_owned(),
            max_tokens: 128,
            temperature_milli: 200,
            timeout_seconds: 10,
        }
    }
}

/// Context-trimming settings.
pub struct ContextTrimConfig {
    pub enabled: bool,
    pub max_context_tokens: usize,
    pub smart_enabled: bool,
    pub smart_max_tokens: usize,
    pub per_message_overhead: usize,
    pub min_keep_pairs: usize,
    pub summary_aggressiveness: usize,
    pub summary_mode: String,
    pub summary_api: SummaryApiConfig,
}

impl Default for ContextTrimConfig {
    fn default() -> (r: Self)
        ensures
            r.enabled == false,
            r.max_context_tokens == 4096,
            r.smart_enabled == false,
            r.smart_max_tokens == 4096,
            r.per_message_overhead == 3,
            r.min_keep_pairs == 1,
            r.summary_aggressiveness == 1,
            r.summary_mode@ == "local"@,
            r.summary_api.enabled == false,
    {
        ContextTrimConfig {
            enabled: false,
            max_context_tokens: 4096,
            smart_enabled: false,
            smart_max_tokens: 4096,
            per_message_overhead: 3,
            min_keep_pairs: 1,
            summary_aggressiveness: 1,
            summary_mode: "local".to_owned(),
            summary_api: Default::default(),
        }
    }
}

/// Timeouts of the proxied send path, in seconds.
pub struct ProxyConfig {
    pub request_timeout_seconds: u64,
    pub connect_timeout_seconds: u64,
    pub response_read_timeout_seconds: u64,
}

impl Default for ProxyConfig {
    fn default() -> (r: Self)
        ensures
            r.request_timeout_seconds == 120,
            r.connect_timeout_seconds == 15,
            r.response_read_timeout_seconds == 120,
    {
        ProxyConfig {
            request_timeout_seconds: 120,
            connect_timeout_seconds: 15,
            response_read_timeout_seconds: 120,
        }
    }
}

/// Listen address of the server.
pub struct ServerConfig {
    pub host: String,
    pub port: u16,
}

impl Default for ServerConfig {
    fn default() -> (r: Self)
        ensures
            r.host@ == "0.0.0.0"@,
            r.port == 4321,
    {
        ServerConfig { host: "0.0.0.0".to_owned(), port: 4321 }
    }
}

/// Settings of the shared upstream HTTP client.
pub struct HttpClientConfig {
    pub timeout_seconds: u64,
    pub connect_timeout_seconds: u64,
    pub tcp_keepalive_seconds: u64,
    pub pool_idle_timeout_seconds: u64,
    pub pool_max_idle_per_host: usize,
    pub max_redirects: usize,
    pub http2_keep_alive_interval_seconds: u64,
    pub http2_keep_alive_timeout_seconds: u64,
    pub http2_initial_stream_window_size: usize,
}

impl Default for HttpClientConfig {
    fn default() -> (r: Self)
        ensures
            r.timeout_seconds == 60,
            r.connect_timeout_seconds == 10,
            r.tcp_keepalive_seconds == 60,
            r.pool_idle_timeout_seconds == 180,
            r.pool_max_idle_per_host == 50,
            r.max_redirects == 5,
            r.http2_keep_alive_interval_seconds == 30,
            r.http2_keep_alive_timeout_seconds == 30,
            r.http2_initial_stream_window_size == 1048576,
    {
        HttpClientConfig {
            timeout_seconds: 60,
            connect_timeout_seconds: 10,
            tcp_keepalive_seconds: 60,
            pool_idle_timeout_seconds: 180,
            pool_max_idle_per_host: 50,
            max_redirects: 5,
            http2_keep_alive_interval_seconds: 30,
            http2_keep_alive_timeout_seconds: 30,
            http2_initial_stream_window_size: 1048576,
        }
    }
}

/// Connection-pool settings of the store.
pub struct DatabaseConfig {
    pub max_connections: u32,
    pub min_connections: u32,
    pub max_lifetime_seconds: u64,
    pub idle_timeout_seconds: u64,
}

impl Default for DatabaseConfig {
    fn default() -> (r: Self)
        ensures
            r.max_connections == 100,
            r.min_connections == 10,
            r.max_lifetime_seconds == 1800,
            r.idle_timeout_seconds == 600,
    {
        DatabaseConfig {
            max_connections: 100,
            min_connections: 10,
            max_lifetime_seconds: 1800,
            idle_timeout_seconds: 600,
        }
    }
}

/// The literal defaults used when assembling replies.
pub struct ApiDefaultsConfig {
    pub default_role: String,
    pub default_object: String,
    pub default_finish_reason: String,
    pub default_system_fingerprint: String,
    pub cache_system_fingerprint: String,
    pub cache_max_size_bytes: usize,
}

impl Default for ApiDefaultsConfig {
    fn default() -> (r: Self)
        ensures
            r.default_role@ == "assistant"@,
            r.default_object@ == "chat.completion"@,
            r.default_finish_reason@ == "unknown"@,
            r.default_system_fingerprint@ == "unknown"@,
            r.cache_system_fingerprint@ == "cached"@,
            r.cache_max_size_bytes == 5242880,
    {
        ApiDefaultsConfig {
            default_role: "assistant".to_owned(),
            default_object: "chat.completion".to_owned(),
            default_finish_reason: "unknown".to_owned(),
            default_system_fingerprint: "unknown".to_owned(),
            cache_system_fingerprint: "cached".to_owned(),
            cache_max_size_bytes: 5242880,
        }
    }
}

/// The whole configuration object.
pub struct Config {
    pub database_url: String,
    pub api_endpoints: Vec<ApiEndpoint>,
    pub use_curl: bool,
    pub use_proxy: bool,
    pub enable_thinking: Option<bool>,
    pub cache_hit_pool_size: usize,
    pub cache_miss_pool_size: usize,
    pub max_concurrent_requests: usize,
    pub cache_override_mode: bool,
    pub cache_version: u8,
    pub api_headers: Vec<(String, String)>,
    pub cache_maintenance: CacheMaintenanceConfig,
    pub cache: CacheConfig,
    pub idle_flush: IdleFlushConfig,
    pub context_trim: ContextTrimConfig,
    pub proxy: ProxyConfig,
    pub server: ServerConfig,
    pub http_client: HttpClientConfig,
    pub database: DatabaseConfig,
    pub api_defaults: ApiDefaultsConfig,
}

pub fn default_database_url() -> (r: String)
    ensures
        r@ == "cache.db"@,
{
    "cache.db".to_owned()
}

pub fn default_use_curl() -> (r: bool)
    ensures
        r == false,
{
    false
}

pub fn default_use_proxy() -> (r: bool)
    ensures
        r == true,
{
    true
}

pub fn default_cache_hit_pool_size() -> (r: usize)
    ensures
        r == 8,
{
    8
}

pub fn default_cache_miss_pool_size() -> (r: usize)
    ensures
        r == 8,
{
    8
}

pub fn default_max_concurrent_requests() -> (r: usize)
    ensures
        r == 100,
{
    100
}

pub fn default_cache_override_mode() -> (r: bool)
    ensures
        r == false,
{
    false
}

pub fn default_cache_version() -> (r: u8)
    ensures
        r == 0,
{
    0
}

/// The headers merged into every outgoing request by default.
pub fn default_api_headers() -> (r: Vec<(String, String)>)
    ensures
        r@.len() == 2,
        r@[0].0@ == "Content-Type"@ && r@[0].1@ == "application/json"@,
        r@[1].0@ == "Accept"@ && r@[1].1@ == "application/json"@,
{
    let mut headers: Vec<(String, String)> = Vec::new();
    headers.push(("Content-Type".to_owned(), "application/json".to_owned()));
    headers.push(("Accept".to_owned(), "application/json".to_owned()));
    headers
}

} // verus!
