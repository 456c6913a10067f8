//! The library's error kinds.
use vstd::prelude::*;

verus! {

#[verifier::external_type_specification]
#[verifier::external_body]
pub struct ExIoError(std::io::Error);

#[verifier::external_type_specification]
#[verifier::external_body]
pub struct ExJsonError(serde_json::Error);

/// Failures surfaced by the library and the program around it.
#[derive(Debug)]
pub enum EmoError {
    /// Reading or writing persisted state failed.
    Io(std::io::Error),
    /// Persisted or bundled JSON was malformed.
    Json(serde_json::Error),
    /// The request itself cannot be served (empty term, index out of range,
    /// no emoji produced).
    InvalidInput(String),
    /// Model acquisition, loading or inference failed.
    ConfigError(String),
}

pub type Result<T> = std::result::Result<T, EmoError>;

impl From<std::io::Error> for EmoError {
    fn from(error: std::io::Error) -> (r: Self) {
        EmoError::Io(error)
    }
}

impl vstd::std_specs::convert::FromSpecImpl<std::io::Error> for EmoError {
    open spec fn obeys_from_spec() -> bool {
        true
    }

    open spec fn from_spec(v: std::io::Error) -> EmoError {
        EmoError::Io(v)
    }
}

impl From<serde_json::Error> for EmoError {
    fn from(error: serde_json::Error) -> (r: Self) {
        EmoError::Json(error)
    }
}

impl vstd::std_specs::convert::FromSpecImpl<serde_json::Error> for EmoError {
    open spec fn obeys_from_spec() -> bool {
        true
    }

    open spec fn from_spec(v: serde_json::Error) -> EmoError {
        EmoError::Json(v)
    }
}

} // verus!
