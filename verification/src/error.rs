//! Typed errors surfaced to callers.

use vstd::prelude::*;
use vstd::string::StringExecFns;

verus! {

/// The error classes a caller can distinguish.
#[derive(Clone, Copy, Debug, PartialEq, Eq, Structural)]
pub enum Errors {
    Error,
    SerializationError,
    ValidationError,
}

/// An error code together with a human-readable message.
#[derive(Debug)]
pub struct RIDBError {
    pub code: Errors,
    pub message: String,
}

impl RIDBError {
    /// A general engine error.
    pub fn error(err: &str) -> (r: RIDBError)
        ensures
            r.code == Errors::Error,
            r.message@ == "Serialization Error: "@ + err@,
    {
        RIDBError { code: Errors::Error, message: String::from_str("Serialization Error: ").concat(err) }
    }

    /// A serialization error.
    pub fn serialisation(err: &str) -> (r: RIDBError)
        ensures
            r.code == Errors::SerializationError,
            r.message@ == "Error: "@ + err@,
    {
        RIDBError { code: Errors::SerializationError, message: String::from_str("Error: ").concat(err) }
    }

    /// A validation error.
    pub fn validation(err: &str) -> (r: RIDBError)
        ensures
            r.code == Errors::ValidationError,
            r.message@ == "Validation Error: "@ + err@,
    {
        RIDBError { code: Errors::ValidationError, message: String::from_str("Validation Error: ").concat(err) }
    }
}

} // verus!
