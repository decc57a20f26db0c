use vstd::prelude::*;

verus! {

/// The kinds of failure that the engine reports.
#[derive(Debug, Clone, Copy, PartialEq, Eq, Structural)]
pub enum DbError {
    /// The input ended before a value could be read completely.
    UnexpectedEof,
    /// Stored bytes do not have the expected shape (bad magic, bad tag,
    /// invalid UTF-8, unknown type byte, unknown node type).
    InvalidData,
    /// A table, index or column that was named does not exist.
    NotFound,
    /// A table, index or column of that name exists already.
    AlreadyExists,
    /// The request itself is malformed (wrong arity, constraint violation,
    /// unsupported auto-increment type, missing builder part).
    InvalidInput,
}

} // verus!
