use tidb_query_vec_executors::datum::{
    copy_range, split_datum, split_n, write_compact_bytes_datum, write_int_datum, write_uint_datum,
    write_varint, BYTES_FLAG, COMPACT_BYTES_FLAG, FLOAT_FLAG, INT_FLAG, NIL_FLAG, UINT_FLAG,
    VAR_INT_FLAG,
};
use tidb_query_vec_executors::error::Error;
use tidb_query_vec_executors::index_value::{
    decode_handle_from_key, decode_handle_from_value, process_kv_pair, DecodedHandle, HandleMode,
};
use tidb_query_vec_executors::number::{
    decode_comparable, encode_comparable, read_be, read_le, to_signed, write_be_u64,
};
use tidb_query_vec_executors::row_v2::{decode_v2_i64, decode_v2_u64, write_v2_as_datum, RowSlice};
use tidb_query_vec_executors::schema::{ColumnInfo, ColumnType};
use tidb_query_vec_executors::storage::{key_eq, key_less, FixtureStorage};
use tidb_query_vec_executors::table::{check_index_key, encode_index_seek_key};

fn int_datum(i: i64) -> Vec<u8> {
    let mut b = vec![];
    write_int_datum(&mut b, i);
    b
}

fn uint_datum(u: u64) -> Vec<u8> {
    let mut b = vec![];
    write_uint_datum(&mut b, u);
    b
}

fn key_with(payload: &[u8]) -> Vec<u8> {
    encode_index_seek_key(3, 42, payload)
}

/// A row in the small layout: `(id, value bytes)` present, `nulls` null.
fn row(present: &[(u8, Vec<u8>)], nulls: &[u8]) -> Vec<u8> {
    let mut buf = vec![128u8, 0];
    buf.extend_from_slice(&(present.len() as u16).to_le_bytes());
    buf.extend_from_slice(&(nulls.len() as u16).to_le_bytes());
    for (id, _) in present {
        buf.push(*id);
    }
    buf.extend_from_slice(nulls);
    let mut end = 0u16;
    for (_, v) in present {
        end += v.len() as u16;
        buf.extend_from_slice(&end.to_le_bytes());
    }
    for (_, v) in present {
        buf.extend_from_slice(v);
    }
    buf
}

fn int_and_handle() -> Vec<ColumnInfo> {
    vec![ColumnInfo::new(1, ColumnType::Int), ColumnInfo::new_pk_handle(2)]
}

#[test]
fn comparable_encoding_flips_the_sign_bit() {
    assert_eq!(encode_comparable(0), 0x8000_0000_0000_0000);
    assert_eq!(encode_comparable(-1), 0x7fff_ffff_ffff_ffff);
    assert_eq!(encode_comparable(i64::MIN), 0);
    assert_eq!(encode_comparable(i64::MAX), u64::MAX);
    assert_eq!(decode_comparable(0x8000_0000_0000_000a), 10);
    assert_eq!(decode_comparable(0), i64::MIN);
    assert_eq!(to_signed(u64::MAX), -1);
    assert_eq!(to_signed(5), 5);
}

#[test]
fn big_and_little_endian_reads() {
    let b = [1u8, 2, 3, 4, 5, 6, 7, 8];
    assert_eq!(read_be(&b, 0, 8), 0x0102_0304_0506_0708);
    assert_eq!(read_le(&b, 0, 2), 0x0201);
    assert_eq!(read_be(&b, 2, 2), 0x0304);
    let mut out = vec![9u8];
    write_be_u64(&mut out, 0x0102_0304_0506_0708);
    assert_eq!(out, vec![9, 1, 2, 3, 4, 5, 6, 7, 8]);
}

#[test]
fn int_datum_bytes() {
    assert_eq!(int_datum(10), vec![INT_FLAG, 0x80, 0, 0, 0, 0, 0, 0, 10]);
    assert_eq!(uint_datum(7), vec![UINT_FLAG, 0, 0, 0, 0, 0, 0, 0, 7]);
}

#[test]
fn varint_and_compact_bytes() {
    let mut v = vec![];
    write_varint(&mut v, 300);
    assert_eq!(v, vec![0xac, 0x02]);
    let mut d = vec![];
    write_compact_bytes_datum(&mut d, b"abc");
    assert_eq!(d, vec![COMPACT_BYTES_FLAG, 6, b'a', b'b', b'c']);
    assert_eq!(split_datum(&d), Ok(5));
}

#[test]
fn datum_lengths() {
    assert_eq!(split_datum(&int_datum(1)), Ok(9));
    assert_eq!(split_datum(&[NIL_FLAG, 1, 2]), Ok(1));
    assert_eq!(split_datum(&[VAR_INT_FLAG, 0x80, 0x01, 7]), Ok(3));
    // A memory-comparable byte string of one full group and a final one.
    let mut b = vec![BYTES_FLAG];
    b.extend_from_slice(&[1, 2, 3, 4, 5, 6, 7, 8, 255]);
    b.extend_from_slice(&[9, 0, 0, 0, 0, 0, 0, 0, 248]);
    b.push(77);
    assert_eq!(split_datum(&b), Ok(19));
    // A decimal of precision 5 and scale 2: two bytes for three integer
    // digits, one for two fraction digits.
    assert_eq!(split_datum(&[6, 5, 2, 1, 2, 3, 9]), Ok(6));
    assert_eq!(split_datum(&[6, 2, 5, 1, 2, 3]), Err(Error::BadDatum));
    assert_eq!(split_datum(&[INT_FLAG, 1, 2]), Err(Error::BadDatum));
    assert_eq!(split_datum(&[99, 1, 2]), Err(Error::BadDatum));
    assert_eq!(split_datum(&[]), Err(Error::BadDatum));
    // An odd zigzag length is negative.
    assert_eq!(split_datum(&[COMPACT_BYTES_FLAG, 1]), Err(Error::BadDatum));
}

#[test]
fn split_n_reports_the_missing_column() {
    let mut s = int_datum(1);
    s.extend_from_slice(&int_datum(2));
    let (cells, off) = split_n(&s, 2).unwrap();
    assert_eq!(cells, vec![int_datum(1), int_datum(2)]);
    assert_eq!(off, 18);
    assert_eq!(split_n(&s, 3), Err(Error::MissingColumnValue(2)));
    assert_eq!(copy_range(&s, 9, 10), vec![INT_FLAG]);
}

#[test]
fn index_key_shape() {
    let key = encode_index_seek_key(3, 42, &[7]);
    assert_eq!(key.len(), 20);
    assert_eq!(key[0], b't');
    assert_eq!(&key[9..11], b"_i");
    assert_eq!(key[19], 7);
    assert_eq!(check_index_key(&key), Ok(()));
    assert_eq!(check_index_key(&key[..18]), Err(Error::InvalidIndexKey));
    let mut bad = key.clone();
    bad[10] = b'r';
    assert_eq!(check_index_key(&bad), Err(Error::InvalidIndexKey));
}

#[test]
fn row_values_to_datums() {
    assert_eq!(decode_v2_i64(&[0xff]), Some(-1));
    assert_eq!(decode_v2_i64(&[0x00, 0x80]), Some(-32768));
    assert_eq!(decode_v2_i64(&[1, 0, 0]), None);
    assert_eq!(decode_v2_u64(&[0xff]), Some(255));
    assert_eq!(write_v2_as_datum(&[0xff], ColumnType::Int), Some(int_datum(-1)));
    assert_eq!(write_v2_as_datum(&[0xff], ColumnType::UnsignedInt), Some(uint_datum(255)));
    assert_eq!(write_v2_as_datum(&[1, 2], ColumnType::Real), Some(vec![FLOAT_FLAG, 1, 2]));
    assert_eq!(
        write_v2_as_datum(b"ab", ColumnType::Bytes),
        Some(vec![COMPACT_BYTES_FLAG, 4, b'a', b'b'])
    );
    assert_eq!(write_v2_as_datum(&[1, 2, 3], ColumnType::Int), None);
}

#[test]
fn row_lookup_present_null_absent() {
    let data = row(&[(1, vec![5]), (3, vec![6, 0])], &[2]);
    let r = RowSlice::from_bytes(&data).unwrap();
    assert_eq!(r.search_in_non_null_ids(1), Ok(Some((0, 1))));
    assert_eq!(r.search_in_non_null_ids(3), Ok(Some((1, 3))));
    assert_eq!(r.search_in_non_null_ids(2), Ok(None));
    assert!(r.search_in_null_ids(2));
    assert!(!r.search_in_null_ids(4));
    assert_eq!(r.column_datum(3, ColumnType::Int), Ok(int_datum(6)));
    assert_eq!(r.column_datum(2, ColumnType::Int), Ok(vec![NIL_FLAG]));
    assert_eq!(r.column_datum(4, ColumnType::Int), Err(Error::MissingColumn(4)));
    assert!(RowSlice::from_bytes(&[127, 0, 0, 0, 0, 0]).is_err());
    assert!(RowSlice::from_bytes(&[128, 0, 1, 0, 0, 0]).is_err());
}

#[test]
fn old_collation_unique_handle_is_the_value() {
    let key = key_with(&int_datum(4));
    let value = (-7i64 as u64).to_be_bytes();
    let row = process_kv_pair(&int_and_handle(), HandleMode::IntHandle, &key, &value).unwrap();
    assert_eq!(row.index_cells, vec![int_datum(4)]);
    assert!(matches!(row.handle, DecodedHandle::Int(-7)));
}

#[test]
fn old_collation_non_unique_handle_is_in_the_key() {
    let mut payload = int_datum(4);
    payload.extend_from_slice(&uint_datum(u64::MAX));
    let row = process_kv_pair(&int_and_handle(), HandleMode::IntHandle, &key_with(&payload), b"0").unwrap();
    assert!(matches!(row.handle, DecodedHandle::Int(-1)));
    let mut payload = int_datum(4);
    payload.extend_from_slice(&int_datum(-9));
    let row = process_kv_pair(&int_and_handle(), HandleMode::IntHandle, &key_with(&payload), b"0").unwrap();
    assert!(matches!(row.handle, DecodedHandle::Int(-9)));
}

#[test]
fn new_collation_restore_region_skips_padding() {
    let mut payload = int_datum(4);
    payload.extend_from_slice(&int_datum(11));
    let restore = row(&[(1, vec![4])], &[]);
    let mut value = vec![3u8];
    value.extend_from_slice(&restore);
    value.extend_from_slice(&[0xee, 0xee, 0xee]);
    let row = process_kv_pair(&int_and_handle(), HandleMode::IntHandle, &key_with(&payload), &value).unwrap();
    assert_eq!(row.index_cells, vec![int_datum(4)]);
    assert!(matches!(row.handle, DecodedHandle::Int(11)));
}

#[test]
fn new_collation_unique_handle_is_the_last_eight_bytes() {
    let restore = row(&[(1, vec![4])], &[]);
    let mut value = vec![8u8];
    value.extend_from_slice(&restore);
    value.extend_from_slice(&300u64.to_be_bytes());
    let row =
        process_kv_pair(&int_and_handle(), HandleMode::IntHandle, &key_with(&int_datum(4)), &value).unwrap();
    assert!(matches!(row.handle, DecodedHandle::Int(300)));
}

#[test]
fn corrupted_handle_length_is_rejected() {
    let columns = vec![ColumnInfo::new(1, ColumnType::Int), ColumnInfo::new(2, ColumnType::Int)];
    let mut value = vec![0u8, 127, 0, 40];
    value.extend_from_slice(&int_datum(5));
    let r = process_kv_pair(&columns, HandleMode::CommonHandle(1), &key_with(&int_datum(1)), &value);
    assert!(matches!(r, Err(Error::CorruptedHandleLen)));
    // The same value with the right length decodes.
    value[3] = 9;
    let r = process_kv_pair(&columns, HandleMode::CommonHandle(1), &key_with(&int_datum(1)), &value).unwrap();
    assert_eq!(r.index_cells, vec![int_datum(1)]);
    match r.handle {
        DecodedHandle::Common(h) => assert_eq!(h, vec![int_datum(5)]),
        _ => panic!("expected a common handle"),
    }
}

#[test]
fn each_decode_error() {
    let cols = int_and_handle();
    let h = HandleMode::IntHandle;
    assert!(matches!(process_kv_pair(&cols, h, b"t_short", b""), Err(Error::InvalidIndexKey)));
    let mut v = vec![20u8];
    v.extend_from_slice(&[0; 10]);
    assert!(matches!(process_kv_pair(&cols, h, &key_with(&int_datum(1)), &v), Err(Error::CorruptedTailLen)));
    let mut v = vec![0u8];
    v.extend_from_slice(&row(&[(5, vec![1])], &[]));
    v.extend_from_slice(&[0; 4]);
    assert!(matches!(process_kv_pair(&cols, h, &key_with(&int_datum(1)), &v), Err(Error::MissingColumn(1))));
    assert!(matches!(process_kv_pair(&cols, h, &key_with(&[]), b""), Err(Error::MissingColumnValue(0))));
    assert!(matches!(process_kv_pair(&cols, h, &key_with(&[99, 1]), b""), Err(Error::BadDatum)));
    let mut payload = int_datum(1);
    payload.extend_from_slice(&[FLOAT_FLAG, 0, 0, 0, 0, 0, 0, 0, 0]);
    assert!(matches!(
        process_kv_pair(&cols, h, &key_with(&payload), b""),
        Err(Error::UnexpectedHandleFlag(FLOAT_FLAG))
    ));
    assert!(matches!(process_kv_pair(&cols, h, &key_with(&int_datum(1)), b"abc"), Err(Error::TruncatedHandle)));
    let mut v = vec![0u8, 1, 2, 3, 4, 5, 6, 7, 8, 9, 10];
    v[1] = 1;
    assert!(matches!(process_kv_pair(&cols, h, &key_with(&int_datum(1)), &v), Err(Error::BadRowData)));
    let mut v = vec![0u8];
    v.extend_from_slice(&row(&[(1, vec![1, 2, 3])], &[]));
    assert!(matches!(
        process_kv_pair(&cols, h, &key_with(&int_datum(1)), &v),
        Err(Error::UnsupportedColumnType)
    ));
    let v = vec![0u8, 127, 0, 0, 0, 0, 0, 0, 0, 0, 0];
    assert!(matches!(
        process_kv_pair(&cols, h, &key_with(&int_datum(1)), &v),
        Err(Error::UnexpectedCommonHandle)
    ));
}

#[test]
fn handle_readers() {
    assert_eq!(decode_handle_from_value(&1u64.to_be_bytes()), Ok(1));
    assert_eq!(decode_handle_from_value(&[1, 2]), Err(Error::TruncatedHandle));
    assert_eq!(decode_handle_from_key(&int_datum(-3)), Ok(-3));
    assert_eq!(decode_handle_from_key(&[]), Err(Error::TruncatedHandle));
    assert_eq!(decode_handle_from_key(&[7, 0]), Err(Error::UnexpectedHandleFlag(7)));
}

#[test]
fn key_order_and_storage() {
    assert!(key_less(b"ab", b"b"));
    assert!(key_less(b"a", b"ab"));
    assert!(!key_less(b"ab", b"ab"));
    assert!(key_eq(b"ab", b"ab"));
    assert!(!key_eq(b"ab", b"a"));
    let s = FixtureStorage::from(vec![
        (b"c".to_vec(), b"1".to_vec()),
        (b"a".to_vec(), b"2".to_vec()),
        (b"c".to_vec(), b"3".to_vec()),
    ]);
    assert_eq!(s.len(), 2);
    assert_eq!(s.key_at(0), b"a");
    assert_eq!(s.key_at(1), b"c");
    assert_eq!(s.value_at(1), b"3");
    assert_eq!(s.lower_bound(b"b"), 1);
    assert_eq!(s.lower_bound(b"d"), 2);
}
