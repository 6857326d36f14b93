//! Decoding of secondary-index key/value pairs into column batches, with the
//! range-scan driver that feeds them.

pub mod number;
pub mod error;
pub mod datum;
pub mod table;
pub mod schema;
pub mod row_v2;
pub mod column;
pub mod index_value;
pub mod storage;
pub mod index_scan;
pub mod trace_context;
pub mod tracing_config;
pub mod reporter;
pub mod router;
pub mod layouts;
