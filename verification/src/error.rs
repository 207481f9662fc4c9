//! The storage layer's error taxonomy.

use vstd::prelude::*;

verus! {

/// Everything a storage operation can fail with.
///
/// Every fault is mapped to one of these kinds and handed back to the
/// caller beside an unchanged store, so that the caller keeps a usable
/// handle after any failure.
#[derive(Debug, Clone, PartialEq, Eq)]
pub enum StoreError {
    /// A physical key could not be parsed back into a logical key for the
    /// expected table; the offending physical key is carried verbatim.
    KeyDecode(Vec<char>),
    /// A capability the backend does not implement was invoked.
    Unsupported,
    /// A table name holds the codec's reserved separator character.
    InvalidTableName,
    /// No schema entry exists for the table a row write names.
    MissingSchema,
    /// A written row does not match the stored schema's column count.
    SchemaMismatch,
    /// A row write collides with a physical key that is already present.
    KeyTaken,
    /// The auto-increment identifier space is used up.
    IdExhausted,
    /// The backend's native transaction or cursor primitive failed.
    Backend,
}

} // verus!
