//! Typed failures reported by the table transforms.

use vstd::prelude::*;

verus! {

/// Every failure a table transform can report. All transforms are
/// deterministic pure functions over already-resident data, so a repeated
/// call with the same inputs reports the same error.
#[derive(Debug, Clone, Copy, PartialEq, Eq, Structural)]
pub enum TableError {
    /// A named column is absent from the table it was looked up in.
    ColumnNotFound,
    /// A sequence that must supply one entry per table row has a different
    /// length than the table's row count.
    RowCountMismatch,
    /// A partition was requested with a chunk size of zero.
    InvalidChunkSize,
    /// A combine operation was given an empty list of tables.
    EmptyInputList,
    /// A join key column is absent from one of the tables being joined.
    KeyColumnMissing,
    /// The tables being combined do not have compatible column schemas.
    IncompatibleSchema,
}

} // verus!
