use vstd::prelude::*;

verus! {

/// The kinds of failure that the engine reports.
#[derive(Debug, Clone, Copy, PartialEq, Eq, Structural)]
pub enum DbError {
    /// A directory, a file or a table descriptor is missing.
    NotFound,
    /// A directory or a file is there already, or the record is stored already.
    AlreadyExists,
    /// A value or a definition breaks the schema.
    SchemaViolation,
    /// The operation is declared but not provided.
    Unsupported,
}

} // verus!
