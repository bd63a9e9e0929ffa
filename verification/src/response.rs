//! Response envelopes and the error taxonomy shared by the HTTP surface.

use vstd::prelude::*;

verus! {

/// An error as reported over the API, one variant per HTTP status used.
#[derive(Debug)]
pub enum ApiError {
    BadRequest(String),
    NotFound(String),
    InternalServerError(String),
    ServiceUnavailable(String),
    Unauthorized(String),
    Forbidden(String),
}

/// The HTTP status that an API error is reported with.
pub open spec fn api_status_of(e: ApiError) -> int {
    match e {
        ApiError::BadRequest(_) => 400,
        ApiError::NotFound(_) => 404,
        ApiError::InternalServerError(_) => 500,
        ApiError::ServiceUnavailable(_) => 503,
        ApiError::Unauthorized(_) => 401,
        ApiError::Forbidden(_) => 403,
    }
}

/// The message carried by an API error.
pub open spec fn api_message_of(e: ApiError) -> Seq<char> {
    match e {
        ApiError::BadRequest(m) => m@,
        ApiError::NotFound(m) => m@,
        ApiError::InternalServerError(m) => m@,
        ApiError::ServiceUnavailable(m) => m@,
        ApiError::Unauthorized(m) => m@,
        ApiError::Forbidden(m) => m@,
    }
}

impl ApiError {
    /// The HTTP status code this error maps to.
    pub fn status_code(&self) -> (r: u16)
        ensures
            r as int == api_status_of(*self),
    {
        match self {
            ApiError::BadRequest(_) => 400,
            ApiError::NotFound(_) => 404,
            ApiError::InternalServerError(_) => 500,
            ApiError::ServiceUnavailable(_) => 503,
            ApiError::Unauthorized(_) => 401,
            ApiError::Forbidden(_) => 403,
        }
    }

    /// The message this error carries.
    pub fn message(&self) -> (r: String)
        ensures
            r@ == api_message_of(*self),
    {
        match self {
            ApiError::BadRequest(m) => m.clone(),
            ApiError::NotFound(m) => m.clone(),
            ApiError::InternalServerError(m) => m.clone(),
            ApiError::ServiceUnavailable(m) => m.clone(),
            ApiError::Unauthorized(m) => m.clone(),
            ApiError::Forbidden(m) => m.clone(),
        }
    }
}

/// The envelope for a successful reply.
pub struct SuccessResponse<T> {
    pub success: bool,
    pub data: T,
}

impl<T> SuccessResponse<T> {
    /// Wraps a payload, marking the reply successful.
    pub fn new(data: T) -> (r: Self)
        ensures
            r.success == true,
            r.data == data,
    {
        Self { success: true, data }
    }
}

/// The envelope for a failed reply.
pub struct ErrorResponse {
    pub success: bool,
    pub error: String,
}

impl ErrorResponse {
    /// Wraps an error message, marking the reply failed.
    pub fn new(error: String) -> (r: Self)
        ensures
            r.success == false,
            r.error == error,
    {
        Self { success: false, error }
    }
}

} // verus!
