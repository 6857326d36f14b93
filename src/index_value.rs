//! Decoding of one index key/value pair into the cells of one output row.
//!
//! Index values come in six layouts. With restore data (indexes on string
//! columns under the new collation):
//! - non-unique: `tail_len | restore data | padding`, with `tail_len < 8`;
//! - unique with an integer handle: `tail_len | restore data | handle`, with
//!   `tail_len` 8 or 9;
//! - unique with a common handle: `0 | 127 | handle len (2 bytes) | handle
//!   datums | restore data`.
//!
//! Without restore data:
//! - non-unique: a single byte, the handle being in the key;
//! - unique with a common handle: as above, without restore data;
//! - unique with an integer handle: the handle, eight big-endian bytes.
//!
//! A value longer than nine bytes carries restore data or a common handle.

use vstd::prelude::*;
use crate::datum::{split_datums, split_n, INT_FLAG, UINT_FLAG};
use crate::error::Error;
use crate::number::{as_signed, be_uint, from_comparable, read_be, to_signed, decode_comparable};
use crate::row_v2::{column_datum, parse_row, RowSlice};
use crate::schema::ColumnInfo;
use crate::table::{check_index_key, is_index_key, key_payload, ID_LEN, PREFIX_LEN};

verus! {

/// Longest value of the layouts without restore data.
pub const MAX_OLD_ENCODED_VALUE_LEN: usize = 9;
/// Second byte of a value that carries a common handle.
pub const INDEX_VALUE_COMMON_HANDLE_FLAG: u8 = 127;

/// Which handle the trailing columns of the schema make up.
#[derive(Clone, Copy, Debug, PartialEq, Eq, Structural)]
pub enum HandleMode {
    /// No handle column.
    NoHandle,
    /// One last column holding the integer handle.
    IntHandle,
    /// That many last columns making up a composite handle.
    CommonHandle(usize),
}

/// Number of schema columns that belong to the handle.
pub open spec fn handle_count(mode: HandleMode) -> nat {
    match mode {
        HandleMode::NoHandle => 0,
        HandleMode::IntHandle => 1,
        HandleMode::CommonHandle(m) => m as nat,
    }
}

/// The schema of a scan and the handle its last columns make up.
pub struct IndexLayout {
    pub columns: Seq<ColumnInfo>,
    pub mode: HandleMode,
}

/// A layout whose handle columns fit in the schema.
pub open spec fn layout_wf(l: IndexLayout) -> bool {
    &&& handle_count(l.mode) <= l.columns.len()
    &&& l.mode matches HandleMode::CommonHandle(m) ==> m > 0
}

/// Number of index columns: those before the handle columns.
pub open spec fn index_count(l: IndexLayout) -> nat {
    (l.columns.len() - handle_count(l.mode)) as nat
}

/// The handle decoded from a pair.
pub enum HandleView {
    Absent,
    Int(i64),
    Common(Seq<Seq<u8>>),
}

/// The cells of one output row: a raw datum per index column, then the
/// handle.
pub struct RowOut {
    pub index_cells: Seq<Seq<u8>>,
    pub handle: HandleView,
}

/// An integer handle stored as eight big-endian bytes at the front of `v`.
pub open spec fn handle_from_value(v: Seq<u8>) -> Result<i64, Error> {
    if v.len() < 8 {
        Err(Error::TruncatedHandle)
    } else {
        Ok(as_signed(be_uint(v, 0, 8) as u64))
    }
}

/// An integer handle stored as a datum at the front of `k`: a signed
/// integer in memory-comparable form, or an unsigned one read as signed.
pub open spec fn handle_from_key(k: Seq<u8>) -> Result<i64, Error> {
    if k.len() == 0 {
        Err(Error::TruncatedHandle)
    } else if k[0] == INT_FLAG {
        if k.len() < 9 {
            Err(Error::TruncatedHandle)
        } else {
            Ok(from_comparable(be_uint(k, 1, 8) as u64))
        }
    } else if k[0] == UINT_FLAG {
        if k.len() < 9 {
            Err(Error::TruncatedHandle)
        } else {
            Ok(as_signed(be_uint(k, 1, 8) as u64))
        }
    } else {
        Err(Error::UnexpectedHandleFlag(k[0]))
    }
}

/// The datums of the first `n` index columns, looked up in a row.
pub open spec fn row_cells(l: IndexLayout, row: crate::row_v2::RowView, n: nat) -> Result<
    Seq<Seq<u8>>,
    Error,
>
    decreases n,
{
    if n == 0 {
        Ok(Seq::empty())
    } else {
        match row_cells(l, row, (n - 1) as nat) {
            Err(e) => Err(e),
            Ok(cells) => match column_datum(
                row,
                l.columns[n - 1].column_id,
                l.columns[n - 1].tp,
            ) {
                Err(e) => Err(e),
                Ok(d) => Ok(cells.push(d)),
            },
        }
    }
}

/// The datums of the index columns, taken from restore data.
pub open spec fn restore_cells(l: IndexLayout, restore: Seq<u8>) -> Result<Seq<Seq<u8>>, Error> {
    match parse_row(restore) {
        None => Err(Error::BadRowData),
        Some(row) => row_cells(l, row, index_count(l)),
    }
}

/// The datums of the index columns, split off the key payload.
pub open spec fn key_cells(l: IndexLayout, payload: Seq<u8>) -> Result<Seq<Seq<u8>>, Error> {
    match split_datums(payload, index_count(l)) {
        Err(e) => Err(e),
        Ok((cells, _)) => Ok(cells),
    }
}

/// What follows the index datums in the key payload.
pub open spec fn key_rest(l: IndexLayout, payload: Seq<u8>) -> Result<Seq<u8>, Error> {
    match split_datums(payload, index_count(l)) {
        Err(e) => Err(e),
        Ok((_, rest)) => Ok(rest),
    }
}

/// The first `m` datums of `s`, as a common handle.
pub open spec fn common_handle(s: Seq<u8>, m: nat) -> Result<HandleView, Error> {
    match split_datums(s, m) {
        Err(e) => Err(e),
        Ok((h, _)) => Ok(HandleView::Common(h)),
    }
}

/// Joins index cells and a handle, failing with the first error.
pub open spec fn join(
    cells: Result<Seq<Seq<u8>>, Error>,
    handle: Result<HandleView, Error>,
) -> Result<RowOut, Error> {
    match cells {
        Err(e) => Err(e),
        Ok(c) => match handle {
            Err(e) => Err(e),
            Ok(h) => Ok(RowOut { index_cells: c, handle: h }),
        },
    }
}

/// An integer handle, lifted.
pub open spec fn int_handle(r: Result<i64, Error>) -> Result<HandleView, Error> {
    match r {
        Err(e) => Err(e),
        Ok(h) => Ok(HandleView::Int(h)),
    }
}

/// End of the common handle of a unique common-handle value.
pub open spec fn handle_end(value: Seq<u8>) -> int {
    4 + be_uint(value, 2, 2) as int
}

/// A unique common-handle value: restore data after the handle when any is
/// left, else the index columns from the key.
pub open spec fn decode_unique_common(
    l: IndexLayout,
    m: nat,
    payload: Seq<u8>,
    value: Seq<u8>,
) -> Result<RowOut, Error> {
    let end = handle_end(value);
    if end > value.len() {
        Err(Error::CorruptedHandleLen)
    } else {
        let cells = if end < value.len() {
            restore_cells(l, value.skip(end))
        } else {
            key_cells(l, payload)
        };
        join(cells, common_handle(value.subrange(4, end), m))
    }
}

/// The restore data of a new-collation value without a common handle.
pub open spec fn restore_region(value: Seq<u8>) -> Seq<u8> {
    value.subrange(1, value.len() - value[0])
}

/// The handle of a new-collation value without a common handle.
pub open spec fn new_collation_handle(l: IndexLayout, payload: Seq<u8>, value: Seq<u8>) -> Result<
    HandleView,
    Error,
> {
    match l.mode {
        HandleMode::NoHandle => Ok(HandleView::Absent),
        HandleMode::IntHandle => if value[0] < 8 {
            match key_rest(l, payload) {
                Err(e) => Err(e),
                Ok(rest) => int_handle(handle_from_key(rest)),
            }
        } else {
            int_handle(handle_from_value(value.skip(value.len() - 8)))
        },
        HandleMode::CommonHandle(m) => match key_rest(l, payload) {
            Err(e) => Err(e),
            Ok(rest) => common_handle(rest, m as nat),
        },
    }
}

/// A new-collation value without a common handle.
pub open spec fn decode_new_collation(l: IndexLayout, payload: Seq<u8>, value: Seq<u8>) -> Result<
    RowOut,
    Error,
> {
    if value[0] as int + 1 > value.len() {
        Err(Error::CorruptedTailLen)
    } else {
        match restore_cells(l, restore_region(value)) {
            Err(e) => Err(e),
            Ok(cells) => join(Ok(cells), new_collation_handle(l, payload, value)),
        }
    }
}

/// The handle of an old-collation value, given what follows the index
/// datums in the key.
pub open spec fn old_collation_handle(l: IndexLayout, rest: Seq<u8>, value: Seq<u8>) -> Result<
    HandleView,
    Error,
> {
    match l.mode {
        HandleMode::NoHandle => Ok(HandleView::Absent),
        HandleMode::IntHandle => if rest.len() == 0 {
            int_handle(handle_from_value(value))
        } else {
            int_handle(handle_from_key(rest))
        },
        HandleMode::CommonHandle(m) => common_handle(rest, m as nat),
    }
}

/// An old-collation value: everything comes from the key, but for a unique
/// integer handle, which is the value.
pub open spec fn decode_old_collation(l: IndexLayout, payload: Seq<u8>, value: Seq<u8>) -> Result<
    RowOut,
    Error,
> {
    match split_datums(payload, index_count(l)) {
        Err(e) => Err(e),
        Ok((cells, rest)) => join(Ok(cells), old_collation_handle(l, rest, value)),
    }
}

/// The row that a key/value pair decodes to under a layout.
pub open spec fn decode_pair(l: IndexLayout, key: Seq<u8>, value: Seq<u8>) -> Result<RowOut, Error> {
    if !is_index_key(key) {
        Err(Error::InvalidIndexKey)
    } else {
        let payload = key_payload(key);
        if value.len() > MAX_OLD_ENCODED_VALUE_LEN {
            if value[0] <= 1 && value[1] == INDEX_VALUE_COMMON_HANDLE_FLAG {
                match l.mode {
                    HandleMode::CommonHandle(m) => decode_unique_common(l, m as nat, payload, value),
                    _ => Err(Error::UnexpectedCommonHandle),
                }
            } else {
                decode_new_collation(l, payload, value)
            }
        } else {
            decode_old_collation(l, payload, value)
        }
    }
}

/// The handle of one decoded row.
pub enum DecodedHandle {
    Absent,
    Int(i64),
    Common(Vec<Vec<u8>>),
}

/// One decoded row.
pub struct DecodedRow {
    pub index_cells: Vec<Vec<u8>>,
    pub handle: DecodedHandle,
}

/// The byte strings held by a vector of vectors.
pub open spec fn cells_view(v: Seq<Vec<u8>>) -> Seq<Seq<u8>> {
    Seq::new(v.len(), |k: int| v[k]@)
}

impl View for DecodedHandle {
    type V = HandleView;

    open spec fn view(&self) -> HandleView {
        match self {
            DecodedHandle::Absent => HandleView::Absent,
            DecodedHandle::Int(h) => HandleView::Int(*h),
            DecodedHandle::Common(v) => HandleView::Common(cells_view(v@)),
        }
    }
}

impl View for DecodedRow {
    type V = RowOut;

    open spec fn view(&self) -> RowOut {
        RowOut { index_cells: cells_view(self.index_cells@), handle: self.handle@ }
    }
}

/// Reads an integer handle from the front of a value.
pub fn decode_handle_from_value(value: &[u8]) -> (r: Result<i64, Error>)
    ensures
        r == handle_from_value(value@),
{
    if value.len() < 8 {
        return Err(Error::TruncatedHandle);
    }
    Ok(to_signed(read_be(value, 0, 8)))
}

/// Reads an integer handle datum from the front of a key remainder.
pub fn decode_handle_from_key(key: &[u8]) -> (r: Result<i64, Error>)
    ensures
        r == handle_from_key(key@),
{
    let len: usize = key.len();
    if len == 0 {
        return Err(Error::TruncatedHandle);
    }
    let flag = key[0];
    if flag == INT_FLAG {
        if len < 9 {
            return Err(Error::TruncatedHandle);
        }
        Ok(decode_comparable(read_be(key, 1, 8)))
    } else if flag == UINT_FLAG {
        if len < 9 {
            return Err(Error::TruncatedHandle);
        }
        Ok(to_signed(read_be(key, 1, 8)))
    } else {
        Err(Error::UnexpectedHandleFlag(flag))
    }
}

proof fn lemma_cells_view_push(v: Seq<Vec<u8>>, x: Vec<u8>)
    ensures
        cells_view(v.push(x)) == cells_view(v).push(x@),
{
    assert(cells_view(v.push(x)) =~= cells_view(v).push(x@));
}

/// Decodes the index columns from restore data.
pub fn extract_columns_from_row_format(columns: &Vec<ColumnInfo>, mode: HandleMode, restore: &[u8]) -> (r: Result<
    Vec<Vec<u8>>,
    Error,
>)
    requires
        layout_wf(IndexLayout { columns: columns@, mode }),
    ensures
        match restore_cells(IndexLayout { columns: columns@, mode }, restore@) {
            Ok(c) => r matches Ok(v) && cells_view(v@) == c,
            Err(e) => r == Err::<Vec<Vec<u8>>, Error>(e),
        },
{
    let ghost l = IndexLayout { columns: columns@, mode };
    let row = match RowSlice::from_bytes(restore) {
        Ok(row) => row,
        Err(e) => {
            return Err(e);
        },
    };
    let n: usize = index_count_exec(columns, mode);
    let mut cells: Vec<Vec<u8>> = Vec::new();
    let mut i: usize = 0;
    while i < n
        invariant
            i <= n == index_count(l) <= columns@.len(),
            l == (IndexLayout { columns: columns@, mode }),
            parse_row(restore@) == Some(row@),
            row_cells(l, row@, i as nat) matches Ok(c) && cells_view(cells@) == c,
        decreases n - i,
    {
        let ci = columns[i];
        match row.column_datum(ci.column_id, ci.tp) {
            Err(e) => {
                assert(columns@[i as int] == ci);
                assert(row_cells(l, row@, (i + 1) as nat) == Err::<Seq<Seq<u8>>, Error>(e));
                proof {
                    lemma_row_cells_err_persists(l, row@, (i + 1) as nat, n as nat);
                }
                return Err(e);
            },
            Ok(d) => {
                proof {
                    lemma_cells_view_push(cells@, d);
                }
                cells.push(d);
            },
        }
        i = i + 1;
    }
    Ok(cells)
}

proof fn lemma_row_cells_err_persists(l: IndexLayout, row: crate::row_v2::RowView, a: nat, b: nat)
    requires
        a <= b,
        row_cells(l, row, a) is Err,
    ensures
        row_cells(l, row, b) == row_cells(l, row, a),
    decreases b,
{
    if a < b {
        lemma_row_cells_err_persists(l, row, a, (b - 1) as nat);
    }
}

/// Number of index columns.
pub fn index_count_exec(columns: &Vec<ColumnInfo>, mode: HandleMode) -> (r: usize)
    requires
        layout_wf(IndexLayout { columns: columns@, mode }),
    ensures
        r == index_count(IndexLayout { columns: columns@, mode }),
{
    match mode {
        HandleMode::NoHandle => columns.len(),
        HandleMode::IntHandle => columns.len() - 1,
        HandleMode::CommonHandle(m) => columns.len() - m,
    }
}

proof fn lemma_split_view(s: Seq<u8>, n: nat, v: Seq<Vec<u8>>)
    requires
        split_datums(s, n) matches Ok((cells, _)) && v.len() == cells.len() && forall|k: int|
            0 <= k < cells.len() ==> #[trigger] v[k]@ == cells[k],
    ensures
        split_datums(s, n) matches Ok((cells, _)) && cells_view(v) == cells,
{
    let cells = split_datums(s, n)->Ok_0.0;
    assert(cells_view(v) =~= cells);
}

/// Splits the datums of `m` columns off the front of `s`.
fn extract_columns_from_datum_format(s: &[u8], m: usize) -> (r: Result<(Vec<Vec<u8>>, usize), Error>)
    ensures
        match split_datums(s@, m as nat) {
            Ok((cells, rest)) => r matches Ok((v, off)) && off <= s@.len() && rest == s@.skip(
                off as int,
            ) && cells_view(v@) == cells,
            Err(e) => r == Err::<(Vec<Vec<u8>>, usize), Error>(e),
        },
{
    let r = split_n(s, m);
    proof {
        if r is Ok {
            lemma_split_view(s@, m as nat, r->Ok_0.0@);
        }
    }
    r
}

/// Decodes a pair under a layout: the six-way dispatch over value layouts.
pub fn process_kv_pair(columns: &Vec<ColumnInfo>, mode: HandleMode, key: &[u8], value: &[u8]) -> (r:
    Result<DecodedRow, Error>)
    requires
        layout_wf(IndexLayout { columns: columns@, mode }),
    ensures
        match decode_pair(IndexLayout { columns: columns@, mode }, key@, value@) {
            Ok(row) => r matches Ok(d) && d@ == row,
            Err(e) => r == Err::<DecodedRow, Error>(e),
        },
{
    if let Err(e) = check_index_key(key) {
        return Err(e);
    }
    let klen: usize = key.len();
    let payload = vstd::slice::slice_subrange(key, PREFIX_LEN + ID_LEN, klen);
    assert(payload@ == key_payload(key@));
    if value.len() > MAX_OLD_ENCODED_VALUE_LEN {
        if value[0] <= 1 && value[1] == INDEX_VALUE_COMMON_HANDLE_FLAG {
            match mode {
                HandleMode::CommonHandle(m) => process_unique_common_handle_kv(columns, mode, m, payload, value),
                _ => Err(Error::UnexpectedCommonHandle),
            }
        } else {
            process_new_collation_kv(columns, mode, payload, value)
        }
    } else {
        process_old_collation_kv(columns, mode, payload, value)
    }
}

/// A value that carries a common handle.
fn process_unique_common_handle_kv(
    columns: &Vec<ColumnInfo>,
    mode: HandleMode,
    m: usize,
    payload: &[u8],
    value: &[u8],
) -> (r: Result<DecodedRow, Error>)
    requires
        layout_wf(IndexLayout { columns: columns@, mode }),
        mode == HandleMode::CommonHandle(m),
        value@.len() > MAX_OLD_ENCODED_VALUE_LEN,
    ensures
        match decode_unique_common(IndexLayout { columns: columns@, mode }, m as nat, payload@, value@) {
            Ok(row) => r matches Ok(d) && d@ == row,
            Err(e) => r == Err::<DecodedRow, Error>(e),
        },
{
    let vlen: usize = value.len();
    let handle_len: usize = read_be(value, 2, 2) as usize;
    proof {
        crate::number::lemma_be_uint_bound(value@, 2, 2);
        crate::number::lemma_pow256_values();
    }
    let handle_end_offset: usize = 4 + handle_len;
    if handle_end_offset > vlen {
        return Err(Error::CorruptedHandleLen);
    }
    let index_cells: Vec<Vec<u8>>;
    if handle_end_offset < vlen {
        let restore = vstd::slice::slice_subrange(value, handle_end_offset, vlen);
        assert(restore@ == value@.skip(handle_end_offset as int));
        match extract_columns_from_row_format(columns, mode, restore) {
            Ok(c) => {
                index_cells = c;
            },
            Err(e) => {
                return Err(e);
            },
        }
    } else {
        let n = index_count_exec(columns, mode);
        match extract_columns_from_datum_format(payload, n) {
            Ok((c, _)) => {
                index_cells = c;
            },
            Err(e) => {
                return Err(e);
            },
        }
    }
    let common = vstd::slice::slice_subrange(value, 4, handle_end_offset);
    match extract_columns_from_datum_format(common, m) {
        Ok((h, _)) => Ok(DecodedRow { index_cells, handle: DecodedHandle::Common(h) }),
        Err(e) => Err(e),
    }
}

/// A new-collation value without a common handle.
fn process_new_collation_kv(columns: &Vec<ColumnInfo>, mode: HandleMode, payload: &[u8], value: &[u8]) -> (r:
    Result<DecodedRow, Error>)
    requires
        layout_wf(IndexLayout { columns: columns@, mode }),
        value@.len() > MAX_OLD_ENCODED_VALUE_LEN,
    ensures
        match decode_new_collation(IndexLayout { columns: columns@, mode }, payload@, value@) {
            Ok(row) => r matches Ok(d) && d@ == row,
            Err(e) => r == Err::<DecodedRow, Error>(e),
        },
{
    let ghost l = IndexLayout { columns: columns@, mode };
    let vlen: usize = value.len();
    let tail_len: usize = value[0] as usize;
    if tail_len + 1 > vlen {
        return Err(Error::CorruptedTailLen);
    }
    let restore = vstd::slice::slice_subrange(value, 1, vlen - tail_len);
    let index_cells = match extract_columns_from_row_format(columns, mode, restore) {
        Ok(c) => c,
        Err(e) => {
            return Err(e);
        },
    };
    let n = index_count_exec(columns, mode);
    match mode {
        HandleMode::NoHandle => Ok(DecodedRow { index_cells, handle: DecodedHandle::Absent }),
        HandleMode::IntHandle => {
            if tail_len < 8 {
                match extract_columns_from_datum_format(payload, n) {
                    Err(e) => Err(e),
                    Ok((_, off)) => {
                        let rest = vstd::slice::slice_subrange(payload, off, payload.len());
                        match decode_handle_from_key(rest) {
                            Ok(h) => Ok(DecodedRow { index_cells, handle: DecodedHandle::Int(h) }),
                            Err(e) => Err(e),
                        }
                    },
                }
            } else {
                let tail = vstd::slice::slice_subrange(value, vlen - 8, vlen);
                match decode_handle_from_value(tail) {
                    Ok(h) => Ok(DecodedRow { index_cells, handle: DecodedHandle::Int(h) }),
                    Err(e) => Err(e),
                }
            }
        },
        HandleMode::CommonHandle(m) => {
            match extract_columns_from_datum_format(payload, n) {
                Err(e) => Err(e),
                Ok((_, off)) => {
                    let rest = vstd::slice::slice_subrange(payload, off, payload.len());
                    match extract_columns_from_datum_format(rest, m) {
                        Ok((h, _)) => Ok(DecodedRow { index_cells, handle: DecodedHandle::Common(h) }),
                        Err(e) => Err(e),
                    }
                },
            }
        },
    }
}

/// A value of nine bytes or fewer: the old collation.
fn process_old_collation_kv(columns: &Vec<ColumnInfo>, mode: HandleMode, payload: &[u8], value: &[u8]) -> (r:
    Result<DecodedRow, Error>)
    requires
        layout_wf(IndexLayout { columns: columns@, mode }),
    ensures
        match decode_old_collation(IndexLayout { columns: columns@, mode }, payload@, value@) {
            Ok(row) => r matches Ok(d) && d@ == row,
            Err(e) => r == Err::<DecodedRow, Error>(e),
        },
{
    let n = index_count_exec(columns, mode);
    let (index_cells, off) = match extract_columns_from_datum_format(payload, n) {
        Ok(p) => p,
        Err(e) => {
            return Err(e);
        },
    };
    let rest = vstd::slice::slice_subrange(payload, off, payload.len());
    match mode {
        HandleMode::NoHandle => Ok(DecodedRow { index_cells, handle: DecodedHandle::Absent }),
        HandleMode::IntHandle => {
            let h = if rest.len() == 0 {
                decode_handle_from_value(value)
            } else {
                decode_handle_from_key(rest)
            };
            match h {
                Ok(h) => Ok(DecodedRow { index_cells, handle: DecodedHandle::Int(h) }),
                Err(e) => Err(e),
            }
        },
        HandleMode::CommonHandle(m) => {
            match extract_columns_from_datum_format(rest, m) {
                Ok((h, _)) => Ok(DecodedRow { index_cells, handle: DecodedHandle::Common(h) }),
                Err(e) => Err(e),
            }
        },
    }
}

} // verus!
