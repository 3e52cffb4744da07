use vstd::prelude::*;

verus! {

/// Errors reported by FastK storage logic.
#[derive(Debug, Clone, PartialEq, Eq)]
pub enum FastKError {
    /// The caller handed in values that the storage layer refuses.
    InvalidInput(String),
    /// Stored bytes or metadata are malformed or inconsistent.
    InvalidData(String),
    /// A requested series, chunk or sidecar does not exist.
    NotFound(String),
    /// An I/O operation failed; the text carries the system message.
    Io(String),
}

/// Result type used across FastK.
pub type Result<T> = core::result::Result<T, FastKError>;

/// Builds an `InvalidInput` error carrying `msg`.
pub fn invalid_input(msg: &str) -> (e: FastKError)
    ensures
        e matches FastKError::InvalidInput(m) && m@ == msg@,
{
    FastKError::InvalidInput(msg.to_owned())
}

/// Builds an `InvalidData` error carrying `msg`.
pub fn invalid_data(msg: &str) -> (e: FastKError)
    ensures
        e matches FastKError::InvalidData(m) && m@ == msg@,
{
    FastKError::InvalidData(msg.to_owned())
}

/// Builds a `NotFound` error carrying `msg`.
pub fn not_found(msg: &str) -> (e: FastKError)
    ensures
        e matches FastKError::NotFound(m) && m@ == msg@,
{
    FastKError::NotFound(msg.to_owned())
}

} // verus!
