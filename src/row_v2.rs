//! The row format that carries restore data: a header, the ids of the present
//! and of the null columns, the end offsets of the present values, then the
//! values themselves.

use vstd::prelude::*;
use crate::datum::{
    compact_bytes_datum, int_datum, uint_datum, write_compact_bytes_datum, write_int_datum,
    write_uint_datum, DECIMAL_FLAG, DURATION_FLAG, FLOAT_FLAG, JSON_FLAG, NIL_FLAG,
};
use crate::error::Error;
use crate::number::{
    be_bytes, comparable_of, encode_comparable, le_uint, lemma_le_uint_bound,
    lemma_pow256_values, pow256, read_le, to_signed, write_be_u64, as_signed,
};
use crate::schema::ColumnType;

verus! {

/// First byte of every row.
pub const CODEC_VERSION: u8 = 128;

/// A parsed row: column ids, end offsets and the value bytes.
pub struct RowView {
    pub non_null_ids: Seq<u32>,
    pub null_ids: Seq<u32>,
    pub offsets: Seq<u32>,
    pub values: Seq<u8>,
}

/// `count` little-endian integers of `w` bytes each, from `pos` on.
pub open spec fn le_seq(s: Seq<u8>, pos: int, count: nat, w: nat) -> Seq<u32> {
    Seq::new(count, |k: int| le_uint(s, pos + k * w, w) as u32)
}

/// The row that `s` encodes, if it is well formed. Bit 0 of the second byte
/// selects the large layout: four-byte ids and offsets instead of one-byte
/// ids and two-byte offsets.
pub open spec fn parse_row(s: Seq<u8>) -> Option<RowView> {
    if s.len() < 6 || s[0] != CODEC_VERSION {
        None
    } else {
        let big = s[1] % 2 == 1;
        let w: nat = if big { 4 } else { 1 };
        let ow: nat = if big { 4 } else { 2 };
        let nn = le_uint(s, 2, 2);
        let nl = le_uint(s, 4, 2);
        let ids_end: int = 6 + (nn * w) as int;
        let nulls_end: int = ids_end + (nl * w) as int;
        let offs_end: int = nulls_end + (nn * ow) as int;
        if s.len() < offs_end {
            None
        } else {
            Some(
                RowView {
                    non_null_ids: le_seq(s, 6, nn, w),
                    null_ids: le_seq(s, ids_end, nl, w),
                    offsets: le_seq(s, nulls_end, nn, ow),
                    values: s.skip(offs_end),
                },
            )
        }
    }
}

/// First position at or after `k` where `ids` holds `id`.
pub open spec fn find_from(ids: Seq<u32>, id: int, k: nat) -> Option<nat>
    decreases ids.len() - k,
{
    if k >= ids.len() {
        None
    } else if ids[k as int] as int == id {
        Some(k)
    } else {
        find_from(ids, id, k + 1)
    }
}

/// A signed integer stored in 1, 2, 4 or 8 little-endian bytes.
pub open spec fn v2_int(src: Seq<u8>) -> Option<i64> {
    let n = src.len();
    if n == 1 || n == 2 || n == 4 || n == 8 {
        let u = le_uint(src, 0, n);
        Some(if u >= pow256(n) / 2 { (u - pow256(n)) as i64 } else { u as i64 })
    } else {
        None
    }
}

/// An unsigned integer stored in 1, 2, 4 or 8 little-endian bytes.
pub open spec fn v2_uint(src: Seq<u8>) -> Option<u64> {
    let n = src.len();
    if n == 1 || n == 2 || n == 4 || n == 8 {
        Some(le_uint(src, 0, n) as u64)
    } else {
        None
    }
}

/// The datum that stands for the row value `src` of a column of type `tp`.
pub open spec fn v2_as_datum(src: Seq<u8>, tp: ColumnType) -> Option<Seq<u8>> {
    match tp {
        ColumnType::Int => match v2_int(src) {
            Some(i) => Some(int_datum(i)),
            None => None,
        },
        ColumnType::UnsignedInt | ColumnType::DateTime => match v2_uint(src) {
            Some(u) => Some(uint_datum(u)),
            None => None,
        },
        ColumnType::Duration => match v2_int(src) {
            Some(i) => Some(seq![DURATION_FLAG] + be_bytes(comparable_of(i) as nat, 8)),
            None => None,
        },
        ColumnType::Real => Some(seq![FLOAT_FLAG] + src),
        ColumnType::Bytes => Some(compact_bytes_datum(src)),
        ColumnType::Decimal => Some(seq![DECIMAL_FLAG] + src),
        ColumnType::Json => Some(seq![JSON_FLAG] + src),
    }
}

/// Where the value of the `k`-th present column lies among the value
/// bytes: from the end of the previous one to its own end offset.
pub open spec fn value_range(row: RowView, k: nat) -> Option<(int, int)> {
    if k >= row.offsets.len() {
        None
    } else {
        let start: int = if k == 0 { 0 } else { row.offsets[k - 1] as int };
        let end: int = row.offsets[k as int] as int;
        if start > end || end > row.values.len() {
            None
        } else {
            Some((start, end))
        }
    }
}

/// The datum of column `id` of type `tp` in `row`: its value, converted;
/// a null datum for a null column; `MissingColumn` for a column the row
/// does not mention.
pub open spec fn column_datum(row: RowView, id: i64, tp: ColumnType) -> Result<Seq<u8>, Error> {
    match find_from(row.non_null_ids, id as int, 0) {
        Some(k) => match value_range(row, k) {
            None => Err(Error::BadRowData),
            Some((start, end)) => match v2_as_datum(row.values.subrange(start, end), tp) {
                Some(d) => Ok(d),
                None => Err(Error::UnsupportedColumnType),
            },
        },
        None => if find_from(row.null_ids, id as int, 0) is Some {
            Ok(seq![NIL_FLAG])
        } else {
            Err(Error::MissingColumn(id))
        },
    }
}

/// A row of the restore-data format, parsed.
pub struct RowSlice {
    non_null_ids: Vec<u32>,
    null_ids: Vec<u32>,
    offsets: Vec<u32>,
    values: Vec<u8>,
}

impl View for RowSlice {
    type V = RowView;

    closed spec fn view(&self) -> RowView {
        RowView {
            non_null_ids: self.non_null_ids@,
            null_ids: self.null_ids@,
            offsets: self.offsets@,
            values: self.values@,
        }
    }
}

fn read_le_seq(s: &[u8], pos: usize, count: usize, w: usize) -> (r: Vec<u32>)
    requires
        1 <= w <= 4,
        pos + count * w <= s@.len(),
    ensures
        r@ == le_seq(s@, pos as int, count as nat, w as nat),
{
    let slen: usize = s.len();
    let mut out: Vec<u32> = Vec::with_capacity(count);
    let mut k: usize = 0;
    let mut at: usize = pos;
    while k < count
        invariant
            1 <= w <= 4,
            slen == s@.len(),
            k <= count,
            at == pos + k * w,
            pos + count * w <= s@.len(),
            out@ == le_seq(s@, pos as int, k as nat, w as nat),
        decreases count - k,
    {
        proof {
            assert(pos + k * w + w <= pos + count * w) by (nonlinear_arith)
                requires
                    k < count,
            ;
            lemma_le_uint_bound(s@, at as int, w as nat);
            lemma_pow256_values();
            assert(pow256(w as nat) <= pow256(4)) by {
                reveal_with_fuel(pow256, 5);
            }
        }
        let x = read_le(s, at, w);
        out.push(x as u32);
        assert(out@ =~= le_seq(s@, pos as int, (k + 1) as nat, w as nat));
        proof {
            assert(at + w == pos + (k + 1) * w) by (nonlinear_arith)
                requires
                    at == pos + k * w,
            ;
        }
        at = at + w;
        k = k + 1;
    }
    out
}

impl RowSlice {
    /// Parses a row.
    pub fn from_bytes(s: &[u8]) -> (r: Result<RowSlice, Error>)
        ensures
            match parse_row(s@) {
                Some(v) => r matches Ok(row) && row@ == v,
                None => r == Err::<RowSlice, Error>(Error::BadRowData),
            },
    {
        let len: usize = s.len();
        if len < 6 || s[0] != CODEC_VERSION {
            return Err(Error::BadRowData);
        }
        let big = s[1] % 2 == 1;
        let w: usize = if big { 4 } else { 1 };
        let ow: usize = if big { 4 } else { 2 };
        let nn: usize = read_le(s, 2, 2) as usize;
        let nl: usize = read_le(s, 4, 2) as usize;
        proof {
            lemma_le_uint_bound(s@, 2, 2);
            lemma_le_uint_bound(s@, 4, 2);
            lemma_pow256_values();
            assert(nn * w <= 0x1_0000 * 4) by (nonlinear_arith)
                requires
                    nn < 0x1_0000,
                    w <= 4,
            ;
            assert(nl * w <= 0x1_0000 * 4) by (nonlinear_arith)
                requires
                    nl < 0x1_0000,
                    w <= 4,
            ;
            assert(nn * ow <= 0x1_0000 * 4) by (nonlinear_arith)
                requires
                    nn < 0x1_0000,
                    ow <= 4,
            ;
        }
        let ids_end: usize = 6 + nn * w;
        let nulls_end: usize = ids_end + nl * w;
        let offs_end: usize = nulls_end + nn * ow;
        if len < offs_end {
            return Err(Error::BadRowData);
        }
        let non_null_ids = read_le_seq(s, 6, nn, w);
        let null_ids = read_le_seq(s, ids_end, nl, w);
        let offsets = read_le_seq(s, nulls_end, nn, ow);
        let values = crate::datum::copy_range(s, offs_end, len);
        Ok(RowSlice { non_null_ids, null_ids, offsets, values })
    }

    /// Position of `id` among the present column ids.
    fn find_non_null(&self, id: i64) -> (r: Option<usize>)
        ensures
            match find_from(self@.non_null_ids, id as int, 0) {
                Some(k) => r == Some(k as usize) && k < self@.non_null_ids.len() <= usize::MAX,
                None => r is None,
            },
    {
        find_id(&self.non_null_ids, id)
    }

    /// Whether `id` is among the null column ids.
    pub fn search_in_null_ids(&self, id: i64) -> (r: bool)
        ensures
            r == find_from(self@.null_ids, id as int, 0) is Some,
    {
        find_id(&self.null_ids, id).is_some()
    }

    /// Where the value of column `id` lies among the value bytes, if the
    /// column is present.
    pub fn search_in_non_null_ids(&self, id: i64) -> (r: Result<Option<(usize, usize)>, Error>)
        ensures
            match find_from(self@.non_null_ids, id as int, 0) {
                None => r == Ok::<Option<(usize, usize)>, Error>(None),
                Some(k) => match value_range(self@, k) {
                    None => r == Err::<Option<(usize, usize)>, Error>(Error::BadRowData),
                    Some((start, end)) => r == Ok::<Option<(usize, usize)>, Error>(
                        Some((start as usize, end as usize)),
                    ),
                },
            },
    {
        match self.find_non_null(id) {
            None => Ok(None),
            Some(k) => {
                if k >= self.offsets.len() {
                    return Err(Error::BadRowData);
                }
                let start: usize = if k == 0 { 0 } else { self.offsets[k - 1] as usize };
                let end: usize = self.offsets[k] as usize;
                if start > end || end > self.values.len() {
                    return Err(Error::BadRowData);
                }
                Ok(Some((start, end)))
            },
        }
    }

    /// The value bytes.
    pub fn values(&self) -> (r: &Vec<u8>)
        ensures
            r@ == self@.values,
    {
        &self.values
    }

    /// The datum of column `id`, of type `tp`.
    pub fn column_datum(&self, id: i64, tp: ColumnType) -> (r: Result<Vec<u8>, Error>)
        ensures
            match column_datum(self@, id, tp) {
                Ok(d) => r matches Ok(v) && v@ == d,
                Err(e) => r == Err::<Vec<u8>, Error>(e),
            },
    {
        match self.search_in_non_null_ids(id) {
            Err(e) => Err(e),
            Ok(Some((start, end))) => {
                let src = vstd::slice::slice_subrange(self.values.as_slice(), start, end);
                match write_v2_as_datum(src, tp) {
                    Some(d) => Ok(d),
                    None => Err(Error::UnsupportedColumnType),
                }
            },
            Ok(None) => {
                if self.search_in_null_ids(id) {
                    let mut d: Vec<u8> = Vec::new();
                    d.push(NIL_FLAG);
                    assert(d@ == seq![NIL_FLAG]);
                    Ok(d)
                } else {
                    Err(Error::MissingColumn(id))
                }
            },
        }
    }
}

fn find_id(ids: &Vec<u32>, id: i64) -> (r: Option<usize>)
    ensures
        match find_from(ids@, id as int, 0) {
            Some(k) => r == Some(k as usize) && k < ids@.len() <= usize::MAX,
            None => r is None,
        },
{
    let n: usize = ids.len();
    let mut k: usize = 0;
    while k < n
        invariant
            k <= n == ids@.len(),
            find_from(ids@, id as int, 0) == find_from(ids@, id as int, k as nat),
        decreases n - k,
    {
        if ids[k] as i64 == id {
            return Some(k);
        }
        proof {
            lemma_find_from_bound(ids@, id as int, (k + 1) as nat);
        }
        k = k + 1;
    }
    None
}

proof fn lemma_find_from_bound(ids: Seq<u32>, id: int, k: nat)
    ensures
        find_from(ids, id, k) matches Some(j) ==> k <= j < ids.len(),
    decreases ids.len() - k,
{
    if k < ids.len() && ids[k as int] as int != id {
        lemma_find_from_bound(ids, id, k + 1);
    }
}

/// Decodes a signed integer stored in 1, 2, 4 or 8 little-endian bytes.
pub fn decode_v2_i64(src: &[u8]) -> (r: Option<i64>)
    ensures
        r == v2_int(src@),
{
    let n: usize = src.len();
    if n != 1 && n != 2 && n != 4 && n != 8 {
        return None;
    }
    let u = read_le(src, 0, n);
    proof {
        lemma_le_uint_bound(src@, 0, n as nat);
        lemma_pow256_values();
    }
    if n == 8 {
        Some(to_signed(u))
    } else if n == 4 {
        if u >= 0x8000_0000 {
            Some(u as i64 - 0x1_0000_0000)
        } else {
            Some(u as i64)
        }
    } else if n == 2 {
        if u >= 0x8000 {
            Some(u as i64 - 0x1_0000)
        } else {
            Some(u as i64)
        }
    } else {
        if u >= 0x80 {
            Some(u as i64 - 0x100)
        } else {
            Some(u as i64)
        }
    }
}

/// Decodes an unsigned integer stored in 1, 2, 4 or 8 little-endian bytes.
pub fn decode_v2_u64(src: &[u8]) -> (r: Option<u64>)
    ensures
        r == v2_uint(src@),
{
    let n: usize = src.len();
    if n != 1 && n != 2 && n != 4 && n != 8 {
        return None;
    }
    Some(read_le(src, 0, n))
}

/// Converts the row value `src` of a column of type `tp` to a datum.
pub fn write_v2_as_datum(src: &[u8], tp: ColumnType) -> (r: Option<Vec<u8>>)
    ensures
        match v2_as_datum(src@, tp) {
            Some(d) => r matches Some(v) && v@ == d,
            None => r is None,
        },
{
    let mut buf: Vec<u8> = Vec::new();
    match tp {
        ColumnType::Int => match decode_v2_i64(src) {
            Some(i) => {
                write_int_datum(&mut buf, i);
            },
            None => {
                return None;
            },
        },
        ColumnType::UnsignedInt | ColumnType::DateTime => match decode_v2_u64(src) {
            Some(u) => {
                write_uint_datum(&mut buf, u);
            },
            None => {
                return None;
            },
        },
        ColumnType::Duration => match decode_v2_i64(src) {
            Some(i) => {
                buf.push(DURATION_FLAG);
                write_be_u64(&mut buf, encode_comparable(i));
            },
            None => {
                return None;
            },
        },
        ColumnType::Real => {
            buf.push(FLOAT_FLAG);
            append_slice(&mut buf, src);
        },
        ColumnType::Bytes => {
            write_compact_bytes_datum(&mut buf, src);
        },
        ColumnType::Decimal => {
            buf.push(DECIMAL_FLAG);
            append_slice(&mut buf, src);
        },
        ColumnType::Json => {
            buf.push(JSON_FLAG);
            append_slice(&mut buf, src);
        },
    }
    Some(buf)
}

/// Appends the bytes of `s`.
pub fn append_slice(buf: &mut Vec<u8>, s: &[u8])
    ensures
        final(buf)@ == old(buf)@ + s@,
{
    let ghost start = buf@;
    let n: usize = s.len();
    let mut i: usize = 0;
    while i < n
        invariant
            i <= n == s@.len(),
            buf@ == start + s@.subrange(0, i as int),
        decreases n - i,
    {
        buf.push(s[i]);
        assert(s@.subrange(0, i + 1) == s@.subrange(0, i as int).push(s@[i as int]));
        i = i + 1;
    }
    assert(s@.subrange(0, n as int) == s@);
}

} // verus!
