//! Error kinds reported by the table code.
use vstd::prelude::*;

verus! {

/// The kind of a failure.
#[derive(Clone, Copy, Debug, PartialEq, Eq, Structural)]
pub enum StatusCode {
    NotFound,
    Corruption,
    InvalidArgument,
    PermissionDenied,
    IOError,
    NotSupported,
}

/// A failure: its kind and a message.
#[derive(Clone, Debug, PartialEq)]
pub struct Status {
    pub code: StatusCode,
    pub err: String,
}

impl Status {
    /// Builds a status of kind `code` with message `msg`.
    pub fn new(code: StatusCode, msg: &str) -> (r: Status)
        ensures
            r.code == code,
            r.err@ == msg@,
    {
        Status { code, err: msg.to_string() }
    }
}

/// The result of an operation that may fail with a `Status`.
pub type Result<T> = core::result::Result<T, Status>;

} // verus!
