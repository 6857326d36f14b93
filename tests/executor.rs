use tidb_query_vec_executors::datum::write_int_datum;
use tidb_query_vec_executors::error::Error;
use tidb_query_vec_executors::index_scan::{BatchIndexScanExecutor, ExecuteStats, KeyRange};
use tidb_query_vec_executors::reporter::NullReporter;
use tidb_query_vec_executors::router::RaftStoreBlackHole;
use tidb_query_vec_executors::schema::{ColumnInfo, ColumnType};
use tidb_query_vec_executors::storage::FixtureStorage;
use tidb_query_vec_executors::table::encode_index_seek_key;
use tidb_query_vec_executors::trace_context::{Contextual, Either, UnwrapContext};
use tidb_query_vec_executors::tracing_config::{Config, ConfigError};

fn int_datum(i: i64) -> Vec<u8> {
    let mut b = vec![];
    write_int_datum(&mut b, i);
    b
}

fn key_of(index: i64, handle: Option<i64>) -> Vec<u8> {
    let mut payload = int_datum(index);
    if let Some(h) = handle {
        payload.extend_from_slice(&int_datum(h));
    }
    encode_index_seek_key(1, 2, &payload)
}

/// Non-unique index on one int column, handles in the key: index values
/// 1..=n with handle 100 + value.
fn non_unique_store(n: i64) -> FixtureStorage {
    FixtureStorage::from((1..=n).map(|i| (key_of(i, Some(100 + i)), vec![b'0'])).collect())
}

fn full_range() -> KeyRange {
    KeyRange::new(encode_index_seek_key(1, 2, &[0]), encode_index_seek_key(1, 2, &[250]))
}

fn columns() -> Vec<ColumnInfo> {
    vec![ColumnInfo::new(1, ColumnType::Int), ColumnInfo::new_pk_handle(2)]
}

fn handles(r: &tidb_query_vec_executors::index_scan::BatchExecuteResult) -> Vec<Option<i64>> {
    r.physical_columns.column(1).decoded().clone()
}

#[test]
fn batches_split_the_scan_and_report_drained() {
    let mut e = BatchIndexScanExecutor::new(non_unique_store(4), columns(), vec![full_range()], 0, false, false, false)
        .unwrap();
    let r = e.next_batch(2);
    assert_eq!(r.is_drained, Ok(false));
    assert_eq!(handles(&r), vec![Some(101), Some(102)]);
    assert_eq!(r.logical_rows, vec![0, 1]);
    let r = e.next_batch(2);
    // Exactly as many rows as asked for: not yet known to be drained.
    assert_eq!(r.is_drained, Ok(false));
    assert_eq!(handles(&r), vec![Some(103), Some(104)]);
    let r = e.next_batch(2);
    assert_eq!(r.is_drained, Ok(true));
    assert_eq!(r.physical_columns.rows_len(), 0);
    assert_eq!(r.physical_columns.columns_len(), 2);
    // After the end, pulls stay empty and drained.
    let r = e.next_batch(2);
    assert_eq!(r.is_drained, Ok(true));
    assert_eq!(r.physical_columns.rows_len(), 0);
}

#[test]
fn backward_scan_over_two_ranges() {
    let r1 = KeyRange::new(key_of(1, None), key_of(3, None));
    let r2 = KeyRange::new(key_of(4, None), key_of(6, None));
    let mut e =
        BatchIndexScanExecutor::new(non_unique_store(6), columns(), vec![r1, r2], 0, true, false, false).unwrap();
    let r = e.next_batch(10);
    assert_eq!(r.is_drained, Ok(true));
    assert_eq!(handles(&r), vec![Some(102), Some(101), Some(105), Some(104)]);
}

#[test]
fn forward_scan_over_two_ranges() {
    let r1 = KeyRange::new(key_of(1, None), key_of(3, None));
    let r2 = KeyRange::new(key_of(4, None), key_of(6, None));
    let mut e =
        BatchIndexScanExecutor::new(non_unique_store(6), columns(), vec![r1, r2], 0, false, false, false).unwrap();
    let r = e.next_batch(10);
    assert_eq!(handles(&r), vec![Some(101), Some(102), Some(104), Some(105)]);
}

#[test]
fn point_lookup_of_a_missing_key_is_empty() {
    let mut k = key_of(9, None);
    let start = k.clone();
    k.push(0);
    let mut e = BatchIndexScanExecutor::new(
        non_unique_store(3),
        columns(),
        vec![KeyRange::new(start, k)],
        0,
        false,
        true,
        false,
    )
    .unwrap();
    let r = e.next_batch(10);
    assert_eq!(r.is_drained, Ok(true));
    assert_eq!(r.physical_columns.rows_len(), 0);
}

#[test]
fn point_lookup_finds_the_exact_key() {
    let store = FixtureStorage::from(vec![(key_of(5, None), 55u64.to_be_bytes().to_vec())]);
    let start = key_of(5, None);
    let mut end = start.clone();
    end.push(0);
    let mut e = BatchIndexScanExecutor::new(store, columns(), vec![KeyRange::new(start, end)], 0, false, true, false)
        .unwrap();
    let r = e.next_batch(10);
    assert_eq!(handles(&r), vec![Some(55)]);
}

#[test]
fn rows_before_a_failing_pair_stay() {
    let mut kv: Vec<(Vec<u8>, Vec<u8>)> = (1..=2).map(|i| (key_of(i, Some(i)), vec![b'0'])).collect();
    // A key whose handle datum has an unexpected flag.
    let mut payload = int_datum(3);
    payload.extend_from_slice(&[9, 1]);
    kv.push((encode_index_seek_key(1, 2, &payload), vec![b'0']));
    kv.push((key_of(4, Some(4)), vec![b'0']));
    let mut e = BatchIndexScanExecutor::new(FixtureStorage::from(kv), columns(), vec![full_range()], 0, false, false, false)
        .unwrap();
    let r = e.next_batch(10);
    assert_eq!(r.is_drained, Err(Error::UnexpectedHandleFlag(9)));
    assert_eq!(handles(&r), vec![Some(1), Some(2)]);
    let mut stats = ExecuteStats { scanned_rows: 0, scanned_bytes: 0 };
    e.collect_exec_stats(&mut stats);
    assert_eq!(stats.scanned_rows, 3);
    // Two keys of 37 bytes and one of 30, each with a one-byte value.
    assert_eq!(stats.scanned_bytes, 38 + 38 + 31);
    e.collect_exec_stats(&mut stats);
    assert_eq!(stats.scanned_rows, 3);
    assert_eq!(stats.scanned_bytes, 107);
    let mut full = ExecuteStats { scanned_rows: usize::MAX - 1, scanned_bytes: u64::MAX - 1 };
    let mut e = BatchIndexScanExecutor::new(non_unique_store(2), columns(), vec![full_range()], 0, false, false, false)
        .unwrap();
    e.next_batch(10);
    e.collect_exec_stats(&mut full);
    assert_eq!(full.scanned_rows, usize::MAX);
    assert_eq!(full.scanned_bytes, u64::MAX);
}

#[test]
fn construction_errors() {
    let both = BatchIndexScanExecutor::new(non_unique_store(1), columns(), vec![], 1, false, false, false);
    assert!(matches!(both, Err(Error::BothHandles)));
    let too_many = BatchIndexScanExecutor::new(
        non_unique_store(1),
        vec![ColumnInfo::new(1, ColumnType::Int)],
        vec![],
        2,
        false,
        false,
        false,
    );
    assert!(matches!(too_many, Err(Error::TooManyHandleColumns)));
    let e = BatchIndexScanExecutor::new(non_unique_store(1), columns(), vec![], 0, false, false, false).unwrap();
    assert_eq!(e.schema().len(), 2);
    assert!(!e.can_be_cached());
}

#[test]
fn scanned_range_follows_the_keys_read() {
    let range = full_range();
    let mut e = BatchIndexScanExecutor::new(non_unique_store(3), columns(), vec![full_range()], 0, false, false, true)
        .unwrap();
    let r = e.next_batch(1);
    assert_eq!(r.is_drained, Ok(false));
    let taken = e.take_scanned_range();
    assert_eq!(taken.lower_inclusive, range.start);
    let mut past_first = key_of(1, Some(101));
    past_first.push(0);
    assert_eq!(taken.upper_exclusive, past_first);
    let r = e.next_batch(10);
    assert_eq!(r.is_drained, Ok(true));
    let taken = e.take_scanned_range();
    assert_eq!(taken.lower_inclusive, past_first);
    assert_eq!(taken.upper_exclusive, range.end);
}

#[test]
fn scanned_range_backward() {
    let range = full_range();
    let mut e = BatchIndexScanExecutor::new(non_unique_store(3), columns(), vec![full_range()], 0, true, false, true)
        .unwrap();
    e.next_batch(1);
    let taken = e.take_scanned_range();
    assert_eq!(taken.lower_inclusive, key_of(3, Some(103)));
    assert_eq!(taken.upper_exclusive, range.end);
}

#[test]
fn scanned_range_unaware_is_empty() {
    let mut e = BatchIndexScanExecutor::new(non_unique_store(3), columns(), vec![full_range()], 0, false, false, false)
        .unwrap();
    e.next_batch(10);
    let taken = e.take_scanned_range();
    assert!(taken.lower_inclusive.is_empty());
    assert!(taken.upper_exclusive.is_empty());
}

#[test]
fn tracing_config_validation() {
    let mut c = Config::default();
    assert_eq!(c.num_report_threads, 1);
    assert_eq!(c.spans_max_length, 1000);
    assert_eq!(c.duration_threshold_ms, 100);
    assert_eq!(c.validate(), Ok(()));
    c.jaeger_thrift_compact_agent = "127.0.0.1:6831".to_string();
    assert_eq!(c.validate(), Ok(()));
    c.jaeger_thrift_compact_agent = "localhost:0".to_string();
    assert_eq!(c.validate(), Err(ConfigError::InvalidAddress));
    c.jaeger_thrift_compact_agent = "localhost".to_string();
    assert_eq!(c.validate(), Err(ConfigError::InvalidAddress));
    c.jaeger_thrift_compact_agent = "localhost:65536".to_string();
    assert_eq!(c.validate(), Err(ConfigError::InvalidAddress));
    c.jaeger_thrift_compact_agent = "localhost:6831".to_string();
    c.num_report_threads = 0;
    assert_eq!(c.validate(), Err(ConfigError::ZeroReportThreads));
    c.num_report_threads = 2;
    c.spans_max_length = 0;
    assert_eq!(c.validate(), Err(ConfigError::ZeroSpansMaxLength));
}

#[test]
fn contextual_unwraps_to_its_message() {
    let c: Contextual<u32> = Contextual::from(7u32);
    assert_eq!(c.unwrap_context(), 7);
    let r: Result<Contextual<u32>, ()> = Ok(Contextual::from(8u32));
    assert_eq!(r.unwrap_context(), Ok(8));
    let e: Either<Contextual<u8>, Contextual<u16>> = Either::Right(Contextual::from(9u16));
    assert!(matches!(e.unwrap_context(), Either::Right(9)));
}

#[test]
fn null_reporter_is_null() {
    assert!(NullReporter::new().is_null());
    let _router = RaftStoreBlackHole;
}

#[test]
fn batch_size_does_not_change_the_rows() {
    let mut all = BatchIndexScanExecutor::new(non_unique_store(5), columns(), vec![full_range()], 0, true, false, false)
        .unwrap();
    let whole = handles(&all.next_batch(100));
    let mut one_by_one = BatchIndexScanExecutor::new(non_unique_store(5), columns(), vec![full_range()], 0, true, false, false)
        .unwrap();
    let mut pieces = vec![];
    loop {
        let r = one_by_one.next_batch(2);
        pieces.extend(handles(&r));
        if r.is_drained != Ok(false) {
            break;
        }
    }
    assert_eq!(whole, pieces);
    assert_eq!(whole, vec![Some(105), Some(104), Some(103), Some(102), Some(101)]);
}
