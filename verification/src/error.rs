//! The error taxonomy of the engine. Variants carry their context as plain
//! text; object-store errors carry the API call name and the underlying
//! code and message already combined.

use vstd::prelude::*;

use crate::text::opt_view;

verus! {

/// Errors surfaced by the engine and its collaborators.
#[derive(Debug)]
pub enum Error {
    DatabaseError(String),
    SQSError(String),
    SerdeError(String),
    ConfigError(String),
    CredentialGeneratorError(String),
    S3Error(String),
    IoError(String),
    OverflowError,
    ConversionError(String),
    QueryError(String),
    InvalidQuery(String),
    ExpectedSomeValue(u128),
    ParseError(String),
    MissingHostHeader,
    PresignedUrlError(String),
    ApiConfigurationError(String),
    MigrateError(String),
    CrawlError(String),
    SecretsManagerError(String),
}

/// Whether an error is the client's fault: a malformed patch or an invalid
/// filter, answered with a bad-request status rather than a server fault.
pub open spec fn spec_is_client_error(e: Error) -> bool {
    match e {
        Error::QueryError(_) => true,
        Error::InvalidQuery(_) => true,
        Error::ParseError(_) => true,
        Error::ExpectedSomeValue(_) => true,
        _ => false,
    }
}

impl Error {
    /// Whether this error is answered as a client error.
    pub fn is_client_error(&self) -> (r: bool)
        ensures
            r == spec_is_client_error(*self),
    {
        match self {
            Error::QueryError(_) => true,
            Error::InvalidQuery(_) => true,
            Error::ParseError(_) => true,
            Error::ExpectedSomeValue(_) => true,
            _ => false,
        }
    }
}

/// The display text of an object-store error: the error code (or
/// `Unknown`), the API call it came from, and the underlying message.
pub fn s3_error_message(code: &Option<String>, api_call: &str, message: &str) -> (r: String)
    ensures
        r@ == (match opt_view(*code) {
            Option::Some(c) => c,
            Option::None => "Unknown"@,
        }) + " for "@ + api_call@ + ": "@ + message@,
{
    let head = match code {
        Option::Some(c) => c.clone(),
        Option::None => String::from_str("Unknown"),
    };
    head.concat(" for ").concat(api_call).concat(": ").concat(message)
}

/// An object-store error carrying the API-call context in its text.
pub fn s3_error(code: &Option<String>, api_call: &str, message: &str) -> (r: Error)
    ensures
        r matches Error::S3Error(m) && m@ == (match opt_view(*code) {
            Option::Some(c) => c,
            Option::None => "Unknown"@,
        }) + " for "@ + api_call@ + ": "@ + message@,
{
    Error::S3Error(s3_error_message(code, api_call, message))
}

} // verus!
