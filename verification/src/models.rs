//! Error taxonomy and the plain data carried between the store, the job
//! manager and their callers.

use vstd::prelude::*;
use vstd::string::StringExecFns;

verus! {

/// Why a request failed.
///
/// `UserError`, `PayloadTooLarge`, `NotFound` and `ServiceUnavailable` carry
/// a message that is shown to the caller; the detail inside `InternalError`
/// is only for logs, and callers see a generic message instead.
#[derive(Debug)]
pub enum AppError {
    /// Malformed input, such as a missing file field or an unknown method.
    UserError(String),
    /// The upload exceeds the configured size ceiling.
    PayloadTooLarge(String),
    /// An unknown or malformed identifier, or an unknown job id.
    NotFound(String),
    /// The concurrency pool is exhausted; the request was rejected, not queued.
    ServiceUnavailable(String),
    /// An infrastructure failure: I/O, network, or a downstream store error.
    InternalError(String),
}

/// The HTTP status that an error is reported with.
pub open spec fn status_of(e: AppError) -> int {
    match e {
        AppError::UserError(_) => 400,
        AppError::PayloadTooLarge(_) => 413,
        AppError::NotFound(_) => 404,
        AppError::ServiceUnavailable(_) => 503,
        AppError::InternalError(_) => 500,
    }
}

/// The message that an error surfaces to the caller. Internal detail is
/// replaced by a fixed generic message.
pub open spec fn surfaced_message_of(e: AppError) -> Seq<char> {
    match e {
        AppError::UserError(m) => m@,
        AppError::PayloadTooLarge(m) => m@,
        AppError::NotFound(m) => m@,
        AppError::ServiceUnavailable(m) => m@,
        AppError::InternalError(_) => "Internal server error"@,
    }
}

impl AppError {
    /// The HTTP status code this error maps to.
    pub fn status_code(&self) -> (r: u16)
        ensures
            r as int == status_of(*self),
    {
        match self {
            AppError::UserError(_) => 400,
            AppError::PayloadTooLarge(_) => 413,
            AppError::NotFound(_) => 404,
            AppError::ServiceUnavailable(_) => 503,
            AppError::InternalError(_) => 500,
        }
    }

    /// The message surfaced to the caller; internal detail stays hidden.
    pub fn surfaced_message(&self) -> (r: String)
        ensures
            r@ == surfaced_message_of(*self),
    {
        match self {
            AppError::UserError(m) => m.clone(),
            AppError::PayloadTooLarge(m) => m.clone(),
            AppError::NotFound(m) => m.clone(),
            AppError::ServiceUnavailable(m) => m.clone(),
            AppError::InternalError(_) => String::from_str("Internal server error"),
        }
    }
}

/// What a completed upload records about one file: the name the caller gave
/// it, the full content digest, and the identifier it is stored under.
pub struct FileMeta {
    pub original_filename: String,
    pub sha256_hash: String,
    pub short_hash: String,
}

/// The query string of a download request: the filename to echo back.
pub struct DownloadQuery {
    pub filename: String,
}

/// The body of a successful upload response.
pub struct UploadResponse {
    pub download_url: String,
    pub filename: String,
    pub sha256_hash: String,
}

} // verus!
