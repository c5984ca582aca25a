//! The errors the library itself can raise. File-system failures happen
//! outside the library and are reported by the surrounding application.

use vstd::prelude::*;

verus! {

/// Why a store or report operation failed.
#[derive(Debug)]
pub enum StoreError {
    /// A row of the backing text failed to parse: malformed shape,
    /// unknown category, bad timestamp, or bad duration.
    DecodeError(String),
    /// A bad argument to a report query: unknown period token or an
    /// unparsable reference date.
    InvalidArgument(String),
}

impl StoreError {
    /// The human-readable message carried by this error.
    pub fn message(&self) -> (r: String)
        ensures
            r@ == (match self {
                StoreError::DecodeError(m) => m@,
                StoreError::InvalidArgument(m) => m@,
            }),
    {
        match self {
            StoreError::DecodeError(m) => m.clone(),
            StoreError::InvalidArgument(m) => m.clone(),
        }
    }
}

} // verus!
