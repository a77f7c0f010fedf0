use vstd::prelude::*;

verus! {

/// The errors a request can end in. Each one is answered with an HTTP status,
/// an error type and a message (see `status_code`, `error_type`, `message`).
pub enum AppError {
    Unauthorized,
    RateLimited,
    BadRequest(String),
    Downstream(String),
    NoKeysAvailable,
    Internal(String),
}

/// The HTTP status that answers an error.
pub open spec fn spec_status_code(e: AppError) -> u16 {
    match e {
        AppError::Unauthorized => 401,
        AppError::RateLimited => 429,
        AppError::BadRequest(_) => 400,
        AppError::Downstream(_) => 502,
        AppError::NoKeysAvailable => 503,
        AppError::Internal(_) => 500,
    }
}

impl AppError {
    /// The HTTP status of the error response.
    pub fn status_code(&self) -> (r: u16)
        ensures
            r == spec_status_code(*self),
    {
        match self {
            AppError::Unauthorized => 401,
            AppError::RateLimited => 429,
            AppError::BadRequest(_) => 400,
            AppError::Downstream(_) => 502,
            AppError::NoKeysAvailable => 503,
            AppError::Internal(_) => 500,
        }
    }

    /// The `type` field of the JSON error body.
    pub fn error_type(&self) -> (r: &'static str)
        ensures
            r@ == (match *self {
                AppError::Unauthorized => "authentication_error"@,
                AppError::RateLimited => "rate_limit_error"@,
                AppError::BadRequest(_) => "invalid_request_error"@,
                AppError::Downstream(_) => "downstream_error"@,
                AppError::NoKeysAvailable => "service_unavailable"@,
                AppError::Internal(_) => "internal_error"@,
            }),
    {
        match self {
            AppError::Unauthorized => "authentication_error",
            AppError::RateLimited => "rate_limit_error",
            AppError::BadRequest(_) => "invalid_request_error",
            AppError::Downstream(_) => "downstream_error",
            AppError::NoKeysAvailable => "service_unavailable",
            AppError::Internal(_) => "internal_error",
        }
    }

    /// The human-readable message of the error (the `message` field of the
    /// JSON error body).
    pub fn message(&self) -> (r: String)
        ensures
            r@ == (match *self {
                AppError::Unauthorized => "Unauthorized: invalid API key"@,
                AppError::RateLimited => "Rate limit exceeded"@,
                AppError::BadRequest(s) => "Bad request: "@ + s@,
                AppError::Downstream(s) => "Downstream error: "@ + s@,
                AppError::NoKeysAvailable => "No available downstream keys"@,
                AppError::Internal(s) => "Internal error: "@ + s@,
            }),
    {
        match self {
            AppError::Unauthorized => String::from_str("Unauthorized: invalid API key"),
            AppError::RateLimited => String::from_str("Rate limit exceeded"),
            AppError::BadRequest(s) => String::from_str("Bad request: ").concat(s.as_str()),
            AppError::Downstream(s) => String::from_str("Downstream error: ").concat(s.as_str()),
            AppError::NoKeysAvailable => String::from_str("No available downstream keys"),
            AppError::Internal(s) => String::from_str("Internal error: ").concat(s.as_str()),
        }
    }
}

impl From<String> for AppError {
    fn from(e: String) -> (r: AppError) {
        AppError::Internal(e)
    }
}

impl vstd::std_specs::convert::FromSpecImpl<String> for AppError {
    open spec fn obeys_from_spec() -> bool {
        true
    }

    open spec fn from_spec(e: String) -> AppError {
        AppError::Internal(e)
    }
}

} // verus!
