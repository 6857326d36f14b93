//! The six index-value layouts written out as encoders, and what decoding
//! each of them gives back.

use vstd::prelude::*;
use crate::datum::{datum_len, int_datum, split_datums, INT_FLAG};
use crate::error::Error;
use crate::index_value::{
    decode_pair, handle_end, handle_from_key, index_count, layout_wf, restore_cells, restore_region,
    HandleMode, HandleView, IndexLayout, RowOut, INDEX_VALUE_COMMON_HANDLE_FLAG,
    MAX_OLD_ENCODED_VALUE_LEN,
};
use crate::number::{
    as_signed, be_bytes, be_uint, comparable_of, from_comparable, lemma_be_bytes_round_trip,
    lemma_be_uint_frame, lemma_pow256_values, pow256,
};
use crate::row_v2::{parse_row, CODEC_VERSION};
use crate::table::{index_seek_key, is_index_key, key_payload, lemma_be_bytes_len, lemma_seek_key_shape};

verus! {

/// `d` is one datum whatever follows it.
pub open spec fn frames(d: Seq<u8>) -> bool {
    forall|t: Seq<u8>| #[trigger] datum_len(d + t) == Some(d.len())
}

/// All of `ds` are datums that frame themselves.
pub open spec fn all_frame(ds: Seq<Seq<u8>>) -> bool {
    forall|k: int| 0 <= k < ds.len() ==> frames(#[trigger] ds[k])
}

/// The datums of `ds`, one after the other.
pub open spec fn concat(ds: Seq<Seq<u8>>) -> Seq<u8>
    decreases ds.len(),
{
    if ds.len() == 0 {
        Seq::empty()
    } else {
        concat(ds.drop_last()) + ds.last()
    }
}

/// The 64-bit two's complement pattern of `h`.
pub open spec fn pattern_of(h: i64) -> u64 {
    if h >= 0 {
        h as u64
    } else {
        (h + 0x1_0000_0000_0000_0000) as u64
    }
}

/// Splitting the concatenation of self-framing datums gives them back.
pub proof fn lemma_split_concat(ds: Seq<Seq<u8>>, rest: Seq<u8>)
    requires
        all_frame(ds),
    ensures
        split_datums(concat(ds) + rest, ds.len()) == Ok::<(Seq<Seq<u8>>, Seq<u8>), Error>((ds, rest)),
    decreases ds.len(),
{
    if ds.len() > 0 {
        let n = ds.len();
        let init = ds.drop_last();
        let d = ds.last();
        assert(all_frame(init)) by {
            assert forall|k: int| 0 <= k < init.len() implies frames(#[trigger] init[k]) by {
                assert(init[k] == ds[k]);
            }
        }
        assert(frames(ds[n - 1]));
        lemma_split_concat(init, d + rest);
        assert(concat(ds) + rest =~= concat(init) + (d + rest));
        assert(datum_len(d + rest) == Some(d.len()));
        assert(d.len() >= 1);
        assert((d + rest).take(d.len() as int) =~= d);
        assert((d + rest).skip(d.len() as int) =~= rest);
        assert(init.push(d) =~= ds);
        let s = concat(ds) + rest;
        assert(split_datums(s, (n - 1) as nat) == Ok::<(Seq<Seq<u8>>, Seq<u8>), Error>((init, d + rest)));
        assert(split_datums(s, n) == Ok::<(Seq<Seq<u8>>, Seq<u8>), Error>((init.push(d), rest)));
    } else {
        assert(concat(ds) + rest =~= rest);
        assert(ds =~= Seq::<Seq<u8>>::empty());
    }
}

/// A signed integer datum frames itself.
pub proof fn lemma_int_datum_frames(h: i64)
    ensures
        frames(int_datum(h)),
        int_datum(h).len() == 9,
{
    lemma_be_bytes_len(comparable_of(h) as nat, 8);
    assert forall|t: Seq<u8>| #[trigger] datum_len(int_datum(h) + t) == Some(int_datum(h).len()) by {
        let s = int_datum(h) + t;
        assert(s[0] == INT_FLAG);
    }
}

/// The integer datum of `h`, followed by anything, reads back as `h`.
pub proof fn lemma_int_datum_handle(h: i64, t: Seq<u8>)
    ensures
        handle_from_key(int_datum(h) + t) == Ok::<i64, Error>(h),
{
    let x = comparable_of(h) as nat;
    let b = be_bytes(x, 8);
    lemma_be_bytes_len(x, 8);
    lemma_pow256_values();
    lemma_be_bytes_round_trip(x, 8);
    let s = int_datum(h) + t;
    assert(s.subrange(1, 9) =~= b.subrange(0, 8));
    lemma_be_uint_frame(s, 1, b, 0, 8);
}

/// Eight big-endian bytes of a handle's pattern read back as the handle.
pub proof fn lemma_pattern_round_trip(h: i64)
    ensures
        be_bytes(pattern_of(h) as nat, 8).len() == 8,
        as_signed(be_uint(be_bytes(pattern_of(h) as nat, 8), 0, 8) as u64) == h,
{
    lemma_pow256_values();
    lemma_be_bytes_round_trip(pattern_of(h) as nat, 8);
}

/// Unique index, old collation, integer handle: the value is the handle's
/// eight big-endian bytes, and decoding gives the index datums and exactly
/// those bytes read as a signed integer.
pub proof fn lemma_old_collation_unique_int_handle(
    l: IndexLayout,
    table_id: i64,
    index_id: i64,
    ds: Seq<Seq<u8>>,
    value: Seq<u8>,
)
    requires
        layout_wf(l),
        l.mode == HandleMode::IntHandle,
        ds.len() == index_count(l),
        all_frame(ds),
        value.len() == 8,
    ensures
        decode_pair(l, index_seek_key(table_id, index_id, concat(ds)), value) == Ok::<RowOut, Error>(
            RowOut { index_cells: ds, handle: HandleView::Int(as_signed(be_uint(value, 0, 8) as u64)) },
        ),
{
    lemma_seek_key_shape(table_id, index_id, concat(ds));
    lemma_split_concat(ds, Seq::empty());
    assert(concat(ds) + Seq::<u8>::empty() =~= concat(ds));
}

/// Non-unique index, old collation, integer handle: the handle datum
/// follows the index datums in the key, and decoding gives it back.
pub proof fn lemma_old_collation_non_unique_int_handle(
    l: IndexLayout,
    table_id: i64,
    index_id: i64,
    ds: Seq<Seq<u8>>,
    h: i64,
    value: Seq<u8>,
)
    requires
        layout_wf(l),
        l.mode == HandleMode::IntHandle,
        ds.len() == index_count(l),
        all_frame(ds),
        value.len() <= MAX_OLD_ENCODED_VALUE_LEN,
    ensures
        decode_pair(l, index_seek_key(table_id, index_id, concat(ds) + int_datum(h)), value)
            == Ok::<RowOut, Error>(RowOut { index_cells: ds, handle: HandleView::Int(h) }),
{
    lemma_seek_key_shape(table_id, index_id, concat(ds) + int_datum(h));
    lemma_split_concat(ds, int_datum(h));
    lemma_int_datum_frames(h);
    lemma_int_datum_handle(h, Seq::empty());
    assert(int_datum(h) + Seq::<u8>::empty() =~= int_datum(h));
}

/// Old collation, common handle in the key after the index datums.
pub proof fn lemma_old_collation_non_unique_common_handle(
    l: IndexLayout,
    table_id: i64,
    index_id: i64,
    ds: Seq<Seq<u8>>,
    hs: Seq<Seq<u8>>,
    value: Seq<u8>,
)
    requires
        layout_wf(l),
        l.mode matches HandleMode::CommonHandle(m) && hs.len() == m,
        ds.len() == index_count(l),
        all_frame(ds),
        all_frame(hs),
        value.len() <= MAX_OLD_ENCODED_VALUE_LEN,
    ensures
        decode_pair(l, index_seek_key(table_id, index_id, concat(ds) + concat(hs)), value)
            == Ok::<RowOut, Error>(RowOut { index_cells: ds, handle: HandleView::Common(hs) }),
{
    lemma_seek_key_shape(table_id, index_id, concat(ds) + concat(hs));
    lemma_split_concat(ds, concat(hs));
    lemma_split_concat(hs, Seq::empty());
    assert(concat(hs) + Seq::<u8>::empty() =~= concat(hs));
}

/// The value of a unique common handle: a zero byte, the flag, the handle
/// length on two big-endian bytes, the handle datums, then restore data if
/// any.
pub open spec fn common_handle_value(hs: Seq<Seq<u8>>, restore: Seq<u8>) -> Seq<u8> {
    seq![0u8, INDEX_VALUE_COMMON_HANDLE_FLAG] + be_bytes(concat(hs).len(), 2) + concat(hs) + restore
}

proof fn lemma_common_handle_value(hs: Seq<Seq<u8>>, restore: Seq<u8>)
    requires
        concat(hs).len() < 0x1_0000,
    ensures
        handle_end(common_handle_value(hs, restore)) == 4 + concat(hs).len(),
        common_handle_value(hs, restore).len() == 4 + concat(hs).len() + restore.len(),
        common_handle_value(hs, restore).subrange(4, 4 + concat(hs).len() as int) == concat(hs),
        common_handle_value(hs, restore).skip(4 + concat(hs).len() as int) == restore,
        common_handle_value(hs, restore)[0] == 0,
        common_handle_value(hs, restore)[1] == INDEX_VALUE_COMMON_HANDLE_FLAG,
{
    let v = common_handle_value(hs, restore);
    let c = concat(hs);
    let lb = be_bytes(c.len(), 2);
    lemma_pow256_values();
    lemma_be_bytes_round_trip(c.len(), 2);
    assert(v.subrange(2, 4) =~= lb.subrange(0, 2));
    lemma_be_uint_frame(v, 2, lb, 0, 2);
    assert(v.subrange(4, 4 + c.len() as int) =~= c);
    assert(v.skip(4 + c.len() as int) =~= restore);
}

/// Unique common handle without restore data: the index columns come from
/// the key, the handle from the value.
pub proof fn lemma_old_collation_unique_common_handle(
    l: IndexLayout,
    table_id: i64,
    index_id: i64,
    ds: Seq<Seq<u8>>,
    hs: Seq<Seq<u8>>,
)
    requires
        layout_wf(l),
        l.mode matches HandleMode::CommonHandle(m) && hs.len() == m,
        ds.len() == index_count(l),
        all_frame(ds),
        all_frame(hs),
        MAX_OLD_ENCODED_VALUE_LEN < 4 + concat(hs).len() < 0x1_0004,
    ensures
        decode_pair(l, index_seek_key(table_id, index_id, concat(ds)), common_handle_value(hs, Seq::empty()))
            == Ok::<RowOut, Error>(RowOut { index_cells: ds, handle: HandleView::Common(hs) }),
{
    lemma_seek_key_shape(table_id, index_id, concat(ds));
    lemma_common_handle_value(hs, Seq::empty());
    lemma_split_concat(ds, Seq::empty());
    lemma_split_concat(hs, Seq::empty());
    assert(concat(ds) + Seq::<u8>::empty() =~= concat(ds));
    assert(concat(hs) + Seq::<u8>::empty() =~= concat(hs));
}

/// Unique common handle with restore data: the index columns come from the
/// restore data, the handle from the value.
pub proof fn lemma_new_collation_unique_common_handle(
    l: IndexLayout,
    key: Seq<u8>,
    hs: Seq<Seq<u8>>,
    restore: Seq<u8>,
)
    requires
        layout_wf(l),
        l.mode matches HandleMode::CommonHandle(m) && hs.len() == m,
        is_index_key(key),
        all_frame(hs),
        concat(hs).len() < 0x1_0000,
        restore.len() > 0,
        MAX_OLD_ENCODED_VALUE_LEN < 4 + concat(hs).len() + restore.len(),
    ensures
        decode_pair(l, key, common_handle_value(hs, restore)) == match restore_cells(l, restore) {
            Ok(cells) => Ok(RowOut { index_cells: cells, handle: HandleView::Common(hs) }),
            Err(e) => Err(e),
        },
{
    lemma_common_handle_value(hs, restore);
    lemma_split_concat(hs, Seq::empty());
    assert(concat(hs) + Seq::<u8>::empty() =~= concat(hs));
}

/// A new-collation value without a common handle: the tail length, the
/// restore data, then the tail.
pub open spec fn tailed_value(restore: Seq<u8>, tail: Seq<u8>) -> Seq<u8> {
    seq![tail.len() as u8] + restore + tail
}

proof fn lemma_tailed_value(restore: Seq<u8>, tail: Seq<u8>)
    requires
        tail.len() < 256,
    ensures
        tailed_value(restore, tail).len() == 1 + restore.len() + tail.len(),
        tailed_value(restore, tail)[0] == tail.len(),
        restore.len() > 0 ==> tailed_value(restore, tail)[1] == restore[0],
        restore_region(tailed_value(restore, tail)) == restore,
        tailed_value(restore, tail).skip(1 + restore.len() as int) == tail,
{
    let v = tailed_value(restore, tail);
    assert(v.subrange(1, v.len() - tail.len()) =~= restore);
    assert(v.skip(1 + restore.len() as int) =~= tail);
}

/// Restore data is a row, which starts with the codec version and so never
/// with the common-handle flag.
pub open spec fn is_row(restore: Seq<u8>) -> bool {
    parse_row(restore) is Some
}

/// Non-unique index with restore data and an integer handle: the restore
/// data is exactly the bytes between the tail length and the padding, and
/// decoding gives the columns of the restore data and the handle of the key.
pub proof fn lemma_new_collation_non_unique_int_handle(
    l: IndexLayout,
    table_id: i64,
    index_id: i64,
    ds: Seq<Seq<u8>>,
    h: i64,
    restore: Seq<u8>,
    padding: Seq<u8>,
)
    requires
        layout_wf(l),
        l.mode == HandleMode::IntHandle,
        ds.len() == index_count(l),
        all_frame(ds),
        is_row(restore),
        padding.len() < 8,
        MAX_OLD_ENCODED_VALUE_LEN < 1 + restore.len() + padding.len(),
    ensures
        restore_region(tailed_value(restore, padding)) == restore,
        decode_pair(
            l,
            index_seek_key(table_id, index_id, concat(ds) + int_datum(h)),
            tailed_value(restore, padding),
        ) == match restore_cells(l, restore) {
            Ok(cells) => Ok(RowOut { index_cells: cells, handle: HandleView::Int(h) }),
            Err(e) => Err(e),
        },
{
    lemma_tailed_value(restore, padding);
    assert(restore[0] == CODEC_VERSION);
    lemma_seek_key_shape(table_id, index_id, concat(ds) + int_datum(h));
    lemma_split_concat(ds, int_datum(h));
    lemma_int_datum_handle(h, Seq::empty());
    assert(int_datum(h) + Seq::<u8>::empty() =~= int_datum(h));
}

/// Non-unique index with restore data and a common handle in the key.
pub proof fn lemma_new_collation_non_unique_common_handle(
    l: IndexLayout,
    table_id: i64,
    index_id: i64,
    ds: Seq<Seq<u8>>,
    hs: Seq<Seq<u8>>,
    restore: Seq<u8>,
    padding: Seq<u8>,
)
    requires
        layout_wf(l),
        l.mode matches HandleMode::CommonHandle(m) && hs.len() == m,
        ds.len() == index_count(l),
        all_frame(ds),
        all_frame(hs),
        is_row(restore),
        padding.len() < 8,
        MAX_OLD_ENCODED_VALUE_LEN < 1 + restore.len() + padding.len(),
    ensures
        decode_pair(
            l,
            index_seek_key(table_id, index_id, concat(ds) + concat(hs)),
            tailed_value(restore, padding),
        ) == match restore_cells(l, restore) {
            Ok(cells) => Ok(RowOut { index_cells: cells, handle: HandleView::Common(hs) }),
            Err(e) => Err(e),
        },
{
    lemma_tailed_value(restore, padding);
    assert(restore[0] == CODEC_VERSION);
    lemma_seek_key_shape(table_id, index_id, concat(ds) + concat(hs));
    lemma_split_concat(ds, concat(hs));
    lemma_split_concat(hs, Seq::empty());
    assert(concat(hs) + Seq::<u8>::empty() =~= concat(hs));
}

/// Unique index with restore data and an integer handle: the handle is the
/// eight bytes after the restore data.
pub proof fn lemma_new_collation_unique_int_handle(
    l: IndexLayout,
    key: Seq<u8>,
    h: i64,
    restore: Seq<u8>,
)
    requires
        layout_wf(l),
        l.mode == HandleMode::IntHandle,
        is_index_key(key),
        is_row(restore),
    ensures
        decode_pair(l, key, tailed_value(restore, be_bytes(pattern_of(h) as nat, 8))) == match restore_cells(
            l,
            restore,
        ) {
            Ok(cells) => Ok(RowOut { index_cells: cells, handle: HandleView::Int(h) }),
            Err(e) => Err(e),
        },
{
    let tail = be_bytes(pattern_of(h) as nat, 8);
    lemma_pattern_round_trip(h);
    lemma_tailed_value(restore, tail);
    assert(restore[0] == CODEC_VERSION);
    let v = tailed_value(restore, tail);
    assert(v.skip(v.len() - 8) == tail);
}

/// A unique common-handle value whose handle length runs past its end is
/// rejected, never cut short; a value that decodes has its handle within it.
pub proof fn lemma_handle_len_checked(l: IndexLayout, key: Seq<u8>, value: Seq<u8>)
    requires
        is_index_key(key),
        l.mode is CommonHandle,
        value.len() > MAX_OLD_ENCODED_VALUE_LEN,
        value[0] <= 1,
        value[1] == INDEX_VALUE_COMMON_HANDLE_FLAG,
    ensures
        handle_end(value) > value.len() ==> decode_pair(l, key, value) == Err::<RowOut, Error>(
            Error::CorruptedHandleLen,
        ),
        decode_pair(l, key, value) is Ok ==> handle_end(value) <= value.len(),
{
}

} // verus!
