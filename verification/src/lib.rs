//! A content-addressed blob store fronted by an asynchronous remote-fetch
//! job manager with request-level caching.
//!
//! Bytes are deduplicated by a truncated content digest that doubles as the
//! externally visible identifier. Remote fetches run as tracked background
//! jobs with a forward-only state machine, a fingerprint cache that serves
//! repeated requests from completed jobs, and a bounded concurrency pool.

mod cache;
mod config;
mod crypto;
mod fingerprint;
mod hex;
mod httputil;
mod jobs;
mod manager;
mod models;
mod response;
mod store;
mod text;
mod timeutil;
mod urltext;
mod validation;

pub use cache::FingerprintCache;
pub use config::{AuthConfig, Config, LoggingConfig, ProxyConfig, ServerConfig, StorageConfig};
pub use crypto::{
    generate_short_hash, generate_signature, sha256_hash, sha256_short_hash, verify_short_hash,
    verify_signature,
};
pub use fingerprint::{lemma_fingerprint_deterministic, parse_http_method, HttpMethod, ProxyRequest};
pub use httputil::{parse_curl_response, sanitize_filename, validate_hash_format};
pub use jobs::{lemma_states_monotone, JobRegistry, JobState, JobStatus};
pub use manager::{lemma_concurrency_bound, FetchManager, ProxyResponse};
pub use models::{AppError, DownloadQuery, FileMeta, UploadResponse};
pub use response::{ApiError, ErrorResponse, SuccessResponse};
pub use store::{
    lemma_dedup_idempotent, lemma_retention, lemma_round_trip, ContentStore, UploadSink,
};
pub use text::u64_to_string;
pub use timeutil::{format_duration, is_expired};
pub use urltext::{trim_end_slashes, url_last_segment, urlencode};
pub use validation::{
    extract_bearer_token, is_empty_or_whitespace, validate_file_extension, validate_file_size,
    validate_string_length, validate_url,
};
