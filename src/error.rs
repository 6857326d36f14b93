//! Errors of index decoding and of executor construction.

use vstd::prelude::*;

verus! {

/// Why a key/value pair could not be decoded, or why an executor could not be
/// built.
#[derive(Clone, Copy, Debug, PartialEq, Eq, Structural)]
pub enum Error {
    /// The key does not start with a table prefix, a table id, the index
    /// separator and an index id.
    InvalidIndexKey,
    /// The handle length of a unique common-handle value runs past the value.
    CorruptedHandleLen,
    /// The tail length of a new-collation value leaves no room for the
    /// leading byte.
    CorruptedTailLen,
    /// A column of the schema is neither among the present nor among the null
    /// columns of the restore data.
    MissingColumn(i64),
    /// The datum cursor ran out before the column with this position was
    /// filled.
    MissingColumnValue(usize),
    /// A datum is truncated or has a flag that is not understood.
    BadDatum,
    /// The handle in the key starts with a flag that is neither the signed
    /// nor the unsigned integer flag.
    UnexpectedHandleFlag(u8),
    /// There are not enough bytes left to read an integer handle.
    TruncatedHandle,
    /// The restore data is not a well-formed row.
    BadRowData,
    /// The restore data holds a value of a type that cannot be turned into a
    /// datum.
    UnsupportedColumnType,
    /// A value carries a common handle but the executor does not decode one.
    UnexpectedCommonHandle,
    /// The schema declares an integer handle and common-handle columns at once.
    BothHandles,
    /// More handle columns are declared than the schema has.
    TooManyHandleColumns,
}

} // verus!
