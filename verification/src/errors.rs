//! Error taxonomy of the library.

use vstd::prelude::*;
use crate::model::{ConvertedType, PhysicalType};

verus! {

/// Everything that can go wrong across the ingest, merge and sort pipeline.
///
/// Each variant carries plain values so that callers can state exactly
/// which error is returned on which input.
#[derive(Debug)]
pub enum OpsError {
    /// A malformed object path.
    BadPath,
    /// A reader or writer could not be opened.
    Open { path: String, cause: String },
    /// A transport-level failure.
    Io { op: String, cause: String },
    /// An object-store failure (authentication, not-found, quota).
    Backend { kind: String, detail: String },
    /// An input schema incompatible with a projection or writer schema.
    SchemaMismatch,
    /// The encoder has no case for this combination of types.
    UnsupportedType { field: String, converted: ConvertedType, physical: PhysicalType },
    /// No field of the schema has the requested name.
    UnknownField { name: String },
    /// More than one field of the schema has the requested name.
    AmbiguousField { name: String },
    /// The sort key has a physical type the sorter does not support.
    UnsupportedKeyType { physical: PhysicalType },
    /// A single-pass sort was asked to handle more rows than one block holds.
    InputTooLarge,
    /// An operation on a buffer that was already closed.
    ClosedWriter,
    /// An advance past the end of a stream.
    Exhausted,
    /// An internal invariant was violated.
    Internal { detail: String },
}

} // verus!
