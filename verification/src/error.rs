//! Error types of the index and of the table layer.

use vstd::prelude::*;

verus! {

/// Error of an engine-level operation.
#[derive(Clone, Copy, PartialEq, Eq, Structural, Debug)]
pub enum Error {
    /// General failure.
    Failed,
    /// An input vector's length does not match the index dimension.
    ShapeMismatch,
    /// A bucket-level lookup missed.
    NotFound,
    /// A table index is out of range.
    TableNotExist,
    /// The backend does not support the operation.
    NotImplemented,
    /// The storage layer failed.
    SqlFailure,
    /// A hash value does not fit the codeword element range.
    HashOverflow,
    /// The multi-probe budget exceeded the number of distinct perturbations.
    MultiProbeExhausted,
}

impl Error {
    /// A short description of the error.
    pub fn message(&self) -> (r: &'static str) {
        match self {
            Error::Failed => "operation failed",
            Error::ShapeMismatch => "data point is not valid, are the dimensions correct?",
            Error::NotFound => "vector not found",
            Error::TableNotExist => "table does not exist",
            Error::NotImplemented => "not implemented",
            Error::SqlFailure => "sql failure",
            Error::HashOverflow => "hash value does not fit in the codeword element",
            Error::MultiProbeExhausted => "all query directed probing combinations depleted",
        }
    }
}

/// Error of a table-level operation.
#[derive(Clone, Copy, PartialEq, Eq, Structural, Debug)]
pub enum HashTableError {
    /// General failure of the storage layer.
    Failed,
    /// The queried codeword has no bucket.
    NotFound,
    /// A table index is out of range.
    TableNotExist,
    /// The backend does not support the operation.
    NotImplemented,
}

/// The engine-level error that corresponds to a table-level error.
pub fn table_error_to_error(e: HashTableError) -> (r: Error)
    ensures
        r == table_error_spec(e),
{
    match e {
        HashTableError::Failed => Error::Failed,
        HashTableError::NotFound => Error::NotFound,
        HashTableError::TableNotExist => Error::TableNotExist,
        HashTableError::NotImplemented => Error::NotImplemented,
    }
}

/// The mapping from table-level to engine-level errors.
pub open spec fn table_error_spec(e: HashTableError) -> Error {
    match e {
        HashTableError::Failed => Error::Failed,
        HashTableError::NotFound => Error::NotFound,
        HashTableError::TableNotExist => Error::TableNotExist,
        HashTableError::NotImplemented => Error::NotImplemented,
    }
}

} // verus!
