//! The service's configuration, as plain values. Loading it from a file
//! is the surrounding program's business; the library only interprets it.

use vstd::prelude::*;

verus! {

/// Where the service listens and under which base URL it answers.
pub struct ServerConfig {
    pub listen_addr: String,
    pub base_url: String,
}

/// Where blobs live, how large one may be, and when old ones go.
pub struct StorageConfig {
    pub upload_dir: String,
    pub max_file_size_mb: usize,
    pub cleanup_days: u64,
    pub cleanup_schedule: String,
}

/// How verbosely the service logs.
pub struct LoggingConfig {
    pub level: String,
}

/// The remote-fetch path's bounds: cache lifetime and size, the outbound
/// timeout, and the concurrency pool.
pub struct ProxyConfig {
    pub cache_ttl_seconds: u64,
    pub cache_max_capacity: u64,
    pub remote_request_timeout_seconds: u64,
    pub max_concurrent_jobs: usize,
}

/// The bearer tokens the fetch endpoints accept.
pub struct AuthConfig {
    pub allowed_tokens: Vec<String>,
}

/// Everything the service is configured with.
pub struct Config {
    pub server: ServerConfig,
    pub storage: StorageConfig,
    pub logging: LoggingConfig,
    pub proxy: ProxyConfig,
    pub auth: AuthConfig,
}

impl Config {
    /// The upload ceiling in bytes: the configured megabytes, scaled.
    pub fn max_file_size_bytes(&self) -> (r: usize)
        requires
            self.storage.max_file_size_mb * 1024 * 1024 <= usize::MAX,
        ensures
            r == self.storage.max_file_size_mb * 1024 * 1024,
    {
        self.storage.max_file_size_mb * 1024 * 1024
    }
}

} // verus!
