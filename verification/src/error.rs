//! Errors of the rule store and of the proxy, with the messages and HTTP
//! answers they come with.
use vstd::prelude::*;
use vstd::utf8::*;
use crate::text::{concat_str, copy_string};
use crate::search::{contains, contains_bytes};

verus! {

broadcast use vstd::string::group_string_axioms;

/// Errors of the rule store.
#[derive(Debug)]
pub enum StoreError {
    /// The database reported an error; the message says which.
    Sqlite(String),
    /// The row asked for does not exist.
    NotFound,
    /// Any other failure, with its message.
    Other(String),
}

/// The message of a store error.
pub open spec fn store_error_message(e: StoreError) -> Seq<char> {
    match e {
        StoreError::Sqlite(m) => "SQLite error: "@ + m@,
        StoreError::NotFound => "not found"@,
        StoreError::Other(m) => m@,
    }
}

impl StoreError {
    /// The error's message: `SQLite error: ...`, `not found`, or the message
    /// of another failure.
    pub fn message(&self) -> (s: String)
        ensures s@ == store_error_message(*self),
    {
        match self {
            StoreError::Sqlite(m) => concat_str("SQLite error: ", m.as_str()),
            StoreError::NotFound => "not found".to_string(),
            StoreError::Other(m) => copy_string(m),
        }
    }
}

/// The text by which the database reports that a query found no row.
pub open spec fn no_rows_text() -> Seq<char> {
    "Query returned no rows"@
}

/// A database error that reports that no row was found becomes `NotFound`;
/// every other error stays as it is.
pub fn not_found_or(err: StoreError) -> (r: StoreError)
    ensures
        (err matches StoreError::Sqlite(m) && contains_bytes(encode_utf8(m@), encode_utf8(no_rows_text())))
            ==> r is NotFound,
        !(err matches StoreError::Sqlite(m) && contains_bytes(encode_utf8(m@), encode_utf8(no_rows_text())))
            ==> r == err,
{
    let found = match &err {
        StoreError::Sqlite(msg) => contains(msg.as_str().as_bytes(), "Query returned no rows".as_bytes()),
        _ => false,
    };
    if found {
        StoreError::NotFound
    } else {
        err
    }
}

/// Errors of the proxy.
#[derive(Debug)]
pub enum ProxyError {
    UpstreamError(String),
    DeserializationError(String),
    CompressionError(String),
    StoreError(String),
    ConfigError(String),
    NotFound,
    Internal(String),
}

/// The message of a proxy error.
pub open spec fn proxy_error_message(e: ProxyError) -> Seq<char> {
    match e {
        ProxyError::UpstreamError(m) => "upstream error: "@ + m@,
        ProxyError::DeserializationError(m) => "deserialization error: "@ + m@,
        ProxyError::CompressionError(m) => "compression error: "@ + m@,
        ProxyError::StoreError(m) => "store error: "@ + m@,
        ProxyError::ConfigError(m) => "config error: "@ + m@,
        ProxyError::NotFound => "not found"@,
        ProxyError::Internal(m) => "internal error: "@ + m@,
    }
}

/// The HTTP status and error type a proxy error is answered with.
pub open spec fn proxy_error_answer(e: ProxyError) -> (u16, Seq<char>) {
    match e {
        ProxyError::UpstreamError(_) => (502, "upstream_error"@),
        ProxyError::DeserializationError(_) => (400, "deserialization_error"@),
        ProxyError::CompressionError(_) => (500, "compression_error"@),
        ProxyError::StoreError(_) => (500, "store_error"@),
        ProxyError::ConfigError(_) => (500, "config_error"@),
        ProxyError::NotFound => (404, "not_found"@),
        ProxyError::Internal(_) => (500, "internal_error"@),
    }
}

impl ProxyError {
    /// The error's message, as the client sees it.
    pub fn message(&self) -> (s: String)
        ensures s@ == proxy_error_message(*self),
    {
        match self {
            ProxyError::UpstreamError(m) => concat_str("upstream error: ", m.as_str()),
            ProxyError::DeserializationError(m) => concat_str("deserialization error: ", m.as_str()),
            ProxyError::CompressionError(m) => concat_str("compression error: ", m.as_str()),
            ProxyError::StoreError(m) => concat_str("store error: ", m.as_str()),
            ProxyError::ConfigError(m) => concat_str("config error: ", m.as_str()),
            ProxyError::NotFound => "not found".to_string(),
            ProxyError::Internal(m) => concat_str("internal error: ", m.as_str()),
        }
    }

    /// The HTTP status code and the error type of the answer: 502 for an
    /// upstream failure, 400 for a body that does not parse, 404 for a
    /// missing resource, 500 otherwise.
    pub fn status_and_type(&self) -> (r: (u16, String))
        ensures (r.0, r.1@) == proxy_error_answer(*self),
    {
        match self {
            ProxyError::UpstreamError(_) => (502, "upstream_error".to_string()),
            ProxyError::DeserializationError(_) => (400, "deserialization_error".to_string()),
            ProxyError::CompressionError(_) => (500, "compression_error".to_string()),
            ProxyError::StoreError(_) => (500, "store_error".to_string()),
            ProxyError::ConfigError(_) => (500, "config_error".to_string()),
            ProxyError::NotFound => (404, "not_found".to_string()),
            ProxyError::Internal(_) => (500, "internal_error".to_string()),
        }
    }

    /// The proxy error for a store error: a missing row is `NotFound`, any
    /// other store error becomes `StoreError` with the store error's message.
    pub fn from_store(err: StoreError) -> (r: ProxyError)
        ensures
            err is NotFound ==> r is NotFound,
            !(err is NotFound) ==> (r matches ProxyError::StoreError(m) && m@ == store_error_message(err)),
    {
        match err {
            StoreError::NotFound => ProxyError::NotFound,
            other => ProxyError::StoreError(other.message()),
        }
    }
}

} // verus!
