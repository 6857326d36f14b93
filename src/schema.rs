//! Column descriptors of an index scan.

use vstd::prelude::*;

verus! {

/// How the values of a column are typed, as far as decoding needs to know.
#[derive(Clone, Copy, Debug, PartialEq, Eq, Structural)]
pub enum ColumnType {
    /// A signed integer.
    Int,
    /// An unsigned integer.
    UnsignedInt,
    /// A floating-point number.
    Real,
    /// A byte string.
    Bytes,
    /// A decimal number.
    Decimal,
    /// A time of day or interval.
    Duration,
    /// A date and time, packed in an unsigned integer.
    DateTime,
    /// A JSON document.
    Json,
}

/// One column of the schema of an index scan.
#[derive(Clone, Copy, Debug, PartialEq, Eq, Structural)]
pub struct ColumnInfo {
    pub column_id: i64,
    pub tp: ColumnType,
    /// The column is the integer handle of the row.
    pub pk_handle: bool,
}

impl ColumnInfo {
    /// A column that is not the integer handle.
    pub fn new(column_id: i64, tp: ColumnType) -> (r: ColumnInfo)
        ensures
            r == (ColumnInfo { column_id, tp, pk_handle: false }),
    {
        ColumnInfo { column_id, tp, pk_handle: false }
    }

    /// The integer-handle column.
    pub fn new_pk_handle(column_id: i64) -> (r: ColumnInfo)
        ensures
            r == (ColumnInfo { column_id, tp: ColumnType::Int, pk_handle: true }),
    {
        ColumnInfo { column_id, tp: ColumnType::Int, pk_handle: true }
    }
}

} // verus!
