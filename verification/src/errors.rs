//! Closed error taxonomy of the persistence and transfer layer.
//!
//! Callers branch on these kinds, never on error text.
use vstd::prelude::*;

verus! {

/// Failure of the persistent store.
#[derive(Debug, Clone, PartialEq, Eq)]
pub enum StoreError {
    /// Filesystem, permission, or schema failure while opening or creating
    /// the store at startup. Fatal: surfaced to the caller, never retried.
    Init,
    /// The store's exclusion guard was found poisoned by an earlier failure,
    /// or the parameters of a query were malformed. Poisoning is permanent
    /// for the store instance.
    Query,
    /// A value cannot be represented in the stored format.
    Serialization,
}

/// Failure of a streaming upload.
#[derive(Debug, Clone, PartialEq, Eq)]
pub enum TransferError {
    /// The cooperative cancellation flag was observed. A deliberate abort:
    /// callers must not retry it automatically.
    Cancelled,
    /// Network or response-parse failure, carrying a description. No retry
    /// is built in; retry policy belongs to the caller.
    Failed(String),
}

/// Failure decoding a data URL.
#[derive(Debug, Clone, PartialEq, Eq)]
pub enum DataUrlError {
    /// The payload is not a valid standard base64 encoding.
    InvalidBase64,
}

} // verus!
