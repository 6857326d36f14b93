use tidb_query_vec_executors::column::LazyBatchColumn;
use tidb_query_vec_executors::datum::{write_int_datum, write_uint_datum, BYTES_FLAG, FLOAT_FLAG, INT_FLAG, MAX_FLAG, UINT_FLAG};
use tidb_query_vec_executors::index_scan::{BatchExecuteResult, BatchIndexScanExecutor, KeyRange};
use tidb_query_vec_executors::schema::{ColumnInfo, ColumnType};
use tidb_query_vec_executors::storage::FixtureStorage;
use tidb_query_vec_executors::table::encode_index_seek_key;

const TABLE_ID: i64 = 3;
const INDEX_ID: i64 = 42;

#[derive(Clone, Copy)]
enum D {
    I(i64),
    U(u64),
    F(f64),
    Min,
    Max,
}

fn comparable_f64(v: f64) -> u64 {
    let u = v.to_bits();
    if v.is_sign_positive() {
        u | (1u64 << 63)
    } else {
        !u
    }
}

fn encode_key(ds: &[D]) -> Vec<u8> {
    let mut buf = vec![];
    for d in ds {
        match *d {
            D::I(i) => write_int_datum(&mut buf, i),
            D::U(u) => write_uint_datum(&mut buf, u),
            D::F(f) => {
                buf.push(FLOAT_FLAG);
                buf.extend_from_slice(&comparable_f64(f).to_be_bytes());
            }
            D::Min => buf.push(BYTES_FLAG),
            D::Max => buf.push(MAX_FLAG),
        }
    }
    buf
}

fn prefix_next(key: &[u8]) -> Vec<u8> {
    let mut key = key.to_vec();
    if key.is_empty() {
        key.push(0);
        return key;
    }
    let mut i = key.len() - 1;
    loop {
        if key[i] == 255 {
            key[i] = 0;
        } else {
            key[i] += 1;
            return key;
        }
        if i == 0 {
            for b in key.iter_mut() {
                *b = 255;
            }
            key.push(0);
            return key;
        }
        i -= 1;
    }
}

enum RowVal {
    Int(i64),
    Real(f64),
}

/// Encodes a row in the small restore-data layout, columns sorted by id.
fn encode_row(cols: &[(i64, RowVal)]) -> Vec<u8> {
    let mut ids = vec![];
    let mut values = vec![];
    let mut offsets = vec![];
    for (id, v) in cols {
        ids.push(*id as u8);
        match v {
            RowVal::Int(i) => {
                let i = *i;
                if i as i8 as i64 == i {
                    values.push(i as i8 as u8);
                } else if i as i16 as i64 == i {
                    values.extend_from_slice(&(i as i16).to_le_bytes());
                } else if i as i32 as i64 == i {
                    values.extend_from_slice(&(i as i32).to_le_bytes());
                } else {
                    values.extend_from_slice(&i.to_le_bytes());
                }
            }
            RowVal::Real(f) => values.extend_from_slice(&comparable_f64(*f).to_be_bytes()),
        }
        offsets.push(values.len() as u16);
    }
    let mut buf = vec![128u8, 0];
    buf.extend_from_slice(&(cols.len() as u16).to_le_bytes());
    buf.extend_from_slice(&0u16.to_le_bytes());
    buf.extend_from_slice(&ids);
    for o in offsets {
        buf.extend_from_slice(&o.to_le_bytes());
    }
    buf.extend_from_slice(&values);
    buf
}

fn decode_int(raw: &[u8]) -> i64 {
    let mut b = [0u8; 8];
    b.copy_from_slice(&raw[1..9]);
    let u = u64::from_be_bytes(b);
    match raw[0] {
        INT_FLAG => (u ^ (1u64 << 63)) as i64,
        UINT_FLAG => u as i64,
        f => panic!("not an integer datum: flag {}", f),
    }
}

fn decode_real(raw: &[u8]) -> f64 {
    assert_eq!(raw[0], FLOAT_FLAG);
    let mut b = [0u8; 8];
    b.copy_from_slice(&raw[1..9]);
    let u = u64::from_be_bytes(b);
    let bits = if u & (1u64 << 63) != 0 { u & !(1u64 << 63) } else { !u };
    f64::from_bits(bits)
}

fn raw_ints(col: &LazyBatchColumn) -> Vec<Option<i64>> {
    assert!(col.is_raw());
    col.raw().iter().map(|d| Some(decode_int(d))).collect()
}

fn raw_reals(col: &LazyBatchColumn) -> Vec<Option<f64>> {
    assert!(col.is_raw());
    col.raw().iter().map(|d| Some(decode_real(d))).collect()
}

fn decoded_ints(col: &LazyBatchColumn) -> Vec<Option<i64>> {
    assert!(col.is_decoded());
    col.decoded().clone()
}

fn seek_key(ds: &[D]) -> Vec<u8> {
    encode_index_seek_key(TABLE_ID, INDEX_ID, &encode_key(ds))
}

fn point_range(key: &[u8]) -> KeyRange {
    KeyRange::new(key.to_vec(), prefix_next(key))
}

fn basic_data() -> Vec<[D; 3]> {
    vec![
        [D::I(-5), D::F(0.3), D::I(10)],
        [D::I(5), D::F(5.1), D::I(5)],
        [D::I(5), D::F(10.5), D::I(2)],
    ]
}

fn basic_columns() -> Vec<ColumnInfo> {
    vec![
        ColumnInfo::new(0, ColumnType::Int),
        ColumnInfo::new(0, ColumnType::Real),
        ColumnInfo::new_pk_handle(0),
    ]
}

fn assert_drained(result: &BatchExecuteResult) {
    assert!(*result.is_drained.as_ref().unwrap());
}

#[test]
fn test_basic() {
    let data = basic_data();
    let columns_info = basic_columns();

    // Case 1. Normal index: the handle is in the key.
    let kv: Vec<(Vec<u8>, Vec<u8>)> = data.iter().map(|d| (seek_key(d), vec![])).collect();

    {
        // Case 1.1. Normal index, without PK, scan total index in reverse order.
        let key_ranges = vec![KeyRange::new(seek_key(&[D::Min]), seek_key(&[D::Max]))];
        let mut executor = BatchIndexScanExecutor::new(
            FixtureStorage::from(kv.clone()),
            vec![columns_info[0], columns_info[1]],
            key_ranges,
            0,
            true,
            false,
            false,
        )
        .unwrap();
        let result = executor.next_batch(10);
        assert_drained(&result);
        assert_eq!(result.physical_columns.columns_len(), 2);
        assert_eq!(result.physical_columns.rows_len(), 3);
        assert_eq!(raw_ints(result.physical_columns.column(0)), vec![Some(5), Some(5), Some(-5)]);
        assert_eq!(
            raw_reals(result.physical_columns.column(1)),
            vec![Some(10.5), Some(5.1), Some(0.3)]
        );
    }

    {
        // Case 1.2. Normal index, with PK, scan index prefix.
        let key_ranges = vec![KeyRange::new(seek_key(&[D::I(2)]), seek_key(&[D::I(6)]))];
        let mut executor = BatchIndexScanExecutor::new(
            FixtureStorage::from(kv.clone()),
            columns_info.clone(),
            key_ranges,
            0,
            false,
            false,
            false,
        )
        .unwrap();
        let result = executor.next_batch(10);
        assert_drained(&result);
        assert_eq!(result.physical_columns.columns_len(), 3);
        assert_eq!(result.physical_columns.rows_len(), 2);
        assert_eq!(raw_ints(result.physical_columns.column(0)), vec![Some(5), Some(5)]);
        assert_eq!(raw_reals(result.physical_columns.column(1)), vec![Some(5.1), Some(10.5)]);
        assert_eq!(decoded_ints(result.physical_columns.column(2)), vec![Some(5), Some(2)]);
    }

    // Case 2. Unique index: the handle is in the value.
    let kv: Vec<(Vec<u8>, Vec<u8>)> = data
        .iter()
        .map(|d| {
            let handle = match d[2] {
                D::I(h) => h,
                _ => unreachable!(),
            };
            (seek_key(&d[0..2]), (handle as u64).to_be_bytes().to_vec())
        })
        .collect();

    {
        // Case 2.1. Unique index, prefix range scan.
        let start = seek_key(&[D::I(5)]);
        let key_ranges = vec![point_range(&start)];
        let mut executor = BatchIndexScanExecutor::new(
            FixtureStorage::from(kv.clone()),
            columns_info.clone(),
            key_ranges,
            0,
            false,
            false,
            false,
        )
        .unwrap();
        let result = executor.next_batch(10);
        assert_drained(&result);
        assert_eq!(result.physical_columns.columns_len(), 3);
        assert_eq!(result.physical_columns.rows_len(), 2);
        assert_eq!(raw_ints(result.physical_columns.column(0)), vec![Some(5), Some(5)]);
        assert_eq!(raw_reals(result.physical_columns.column(1)), vec![Some(5.1), Some(10.5)]);
        assert_eq!(decoded_ints(result.physical_columns.column(2)), vec![Some(5), Some(2)]);
    }

    {
        // Case 2.2. Unique index, point scan.
        let start = seek_key(&[D::I(5), D::F(5.1)]);
        let key_ranges = vec![point_range(&start)];
        let mut executor = BatchIndexScanExecutor::new(
            FixtureStorage::from(kv),
            columns_info.clone(),
            key_ranges,
            0,
            false,
            true,
            false,
        )
        .unwrap();
        let result = executor.next_batch(10);
        assert_drained(&result);
        assert_eq!(result.physical_columns.columns_len(), 3);
        assert_eq!(result.physical_columns.rows_len(), 1);
        assert_eq!(raw_ints(result.physical_columns.column(0)), vec![Some(5)]);
        assert_eq!(raw_reals(result.physical_columns.column(1)), vec![Some(5.1)]);
        assert_eq!(decoded_ints(result.physical_columns.column(2)), vec![Some(5)]);
    }
}

fn int_int_real_columns() -> Vec<ColumnInfo> {
    vec![
        ColumnInfo::new(1, ColumnType::Int),
        ColumnInfo::new(2, ColumnType::Int),
        ColumnInfo::new(3, ColumnType::Real),
    ]
}

fn int_real_handle_columns() -> Vec<ColumnInfo> {
    vec![
        ColumnInfo::new(1, ColumnType::Int),
        ColumnInfo::new(2, ColumnType::Real),
        ColumnInfo { column_id: 3, tp: ColumnType::Int, pk_handle: true },
    ]
}

fn assert_row_2_3_4(result: &BatchExecuteResult) {
    assert_drained(result);
    assert_eq!(result.physical_columns.columns_len(), 3);
    assert_eq!(result.physical_columns.rows_len(), 1);
    assert_eq!(raw_ints(result.physical_columns.column(0)), vec![Some(2)]);
    assert_eq!(raw_ints(result.physical_columns.column(1)), vec![Some(3)]);
    assert_eq!(raw_reals(result.physical_columns.column(2)), vec![Some(4.0)]);
}

fn assert_row_2_3_handle_4(result: &BatchExecuteResult) {
    assert_drained(result);
    assert_eq!(result.physical_columns.columns_len(), 3);
    assert_eq!(result.physical_columns.rows_len(), 1);
    assert_eq!(raw_ints(result.physical_columns.column(0)), vec![Some(2)]);
    assert_eq!(raw_reals(result.physical_columns.column(1)), vec![Some(3.0)]);
    assert_eq!(decoded_ints(result.physical_columns.column(2)), vec![Some(4)]);
}

#[test]
fn test_unique_common_handle_index() {
    let restore_data = encode_row(&[(1, RowVal::Int(2)), (2, RowVal::Int(3)), (3, RowVal::Real(4.0))]);
    let common_handle = encode_key(&[D::F(4.0)]);

    let mut value_prefix = vec![0u8, 127];
    value_prefix.extend_from_slice(&(common_handle.len() as u16).to_be_bytes());
    value_prefix.extend_from_slice(&common_handle);

    let key = seek_key(&[D::U(2), D::U(3)]);

    // 1. New collation unique common handle.
    let mut value = value_prefix.clone();
    value.extend_from_slice(&restore_data);
    let mut executor = BatchIndexScanExecutor::new(
        FixtureStorage::from(vec![(key.clone(), value)]),
        int_int_real_columns(),
        vec![point_range(&key)],
        1,
        false,
        true,
        false,
    )
    .unwrap();
    assert_row_2_3_4(&executor.next_batch(10));

    // 2. Without restore data: the index columns come from the key.
    let mut executor = BatchIndexScanExecutor::new(
        FixtureStorage::from(vec![(key.clone(), value_prefix)]),
        int_int_real_columns(),
        vec![point_range(&key)],
        1,
        false,
        true,
        false,
    )
    .unwrap();
    assert_row_2_3_4(&executor.next_batch(10));
}

#[test]
fn test_old_collation_non_unique_common_handle_index() {
    let mut key = seek_key(&[D::U(2)]);
    key.extend_from_slice(&encode_key(&[D::U(3), D::F(4.0)]));
    let mut executor = BatchIndexScanExecutor::new(
        FixtureStorage::from(vec![(key.clone(), vec![])]),
        int_int_real_columns(),
        vec![point_range(&key)],
        2,
        false,
        false,
        false,
    )
    .unwrap();
    assert_row_2_3_4(&executor.next_batch(10));
}

#[test]
fn test_new_collation_unique_int_handle_index() {
    let key = seek_key(&[D::U(2), D::F(3.0)]);
    let restore_data = encode_row(&[(1, RowVal::Int(2)), (2, RowVal::Real(3.0)), (3, RowVal::Int(4))]);
    let mut value = vec![8u8];
    value.extend_from_slice(&restore_data);
    value.extend_from_slice(&4u64.to_be_bytes());
    let mut executor = BatchIndexScanExecutor::new(
        FixtureStorage::from(vec![(key.clone(), value)]),
        int_real_handle_columns(),
        vec![point_range(&key)],
        0,
        false,
        true,
        false,
    )
    .unwrap();
    assert_row_2_3_handle_4(&executor.next_batch(10));
}

#[test]
fn test_new_collation_non_unique_int_handle_index() {
    let key = seek_key(&[D::U(2), D::F(3.0), D::U(4)]);
    let restore_data = encode_row(&[(1, RowVal::Int(2)), (2, RowVal::Real(3.0)), (3, RowVal::Int(4))]);
    let mut value = vec![0u8];
    value.extend_from_slice(&restore_data);
    let mut executor = BatchIndexScanExecutor::new(
        FixtureStorage::from(vec![(key.clone(), value)]),
        int_real_handle_columns(),
        vec![point_range(&key)],
        0,
        false,
        true,
        false,
    )
    .unwrap();
    assert_row_2_3_handle_4(&executor.next_batch(10));
}

#[test]
fn test_new_collation_non_unique_common_handle_index() {
    let key = seek_key(&[D::U(2), D::U(3), D::F(4.0)]);
    let restore_data = encode_row(&[(1, RowVal::Int(2)), (2, RowVal::Int(3)), (3, RowVal::Real(4.0))]);
    let mut value = vec![0u8];
    value.extend_from_slice(&restore_data);
    let mut executor = BatchIndexScanExecutor::new(
        FixtureStorage::from(vec![(key.clone(), value)]),
        int_int_real_columns(),
        vec![point_range(&key)],
        1,
        false,
        true,
        false,
    )
    .unwrap();
    assert_row_2_3_4(&executor.next_batch(10));
}
