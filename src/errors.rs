//! Errors of the storage core.

use vstd::prelude::*;

use crate::util::Oid;

verus! {

/// What went wrong in the storage core.
#[derive(Debug, PartialEq, Eq)]
pub enum POSError {
    /// The object is not in the index.
    Key(Oid),
    /// Bad magic, a wrong length, an unknown record marker or a record
    /// that runs past the end of its buffer.
    Format,
    /// A transaction operation invoked in the wrong state.
    State,
    /// An operation on a transaction that the storage does not know.
    Transaction,
    /// No identifier is left after the last one handed out.
    Exhausted,
}

impl POSError {
    /// A message for the error, as the wire protocol names it.
    pub fn message(&self) -> (r: &'static str) {
        match self {
            POSError::Key(_) => "ZODB.POSException.POSKeyError",
            POSError::Format => "format error",
            POSError::State => "Invalid trans state",
            POSError::Transaction => "Invalid transaction",
            POSError::Exhausted => "identifiers exhausted",
        }
    }
}

} // verus!
