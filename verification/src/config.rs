use vstd::prelude::*;

verus! {

/// Default port of the HTTP front-end.
pub const HTTP_DEFAULT_PORT: u16 = 53000;

/// Default port of the RPC front-end.
pub const GRPC_DEFAULT_PORT: u16 = 53001;

/// Size of one write-ahead-log segment: 32 MiB.
pub const WAL_SEGMENT_SIZE: usize = 33554432;

/// Directory of the write-ahead-log segments, below the data directory.
pub const WAL_DIRECTORY: &'static str = "wal";

/// File of the persisted write-ahead-log counters, below the data directory.
pub const WAL_STATE_PATH: &'static str = "wal_state.json";

/// Bytes of the length prefix in front of every write-ahead-log record.
pub const WAL_RECORD_HEADER_SIZE: usize = 4;

/// Largest size a disk-table segment grows to: 1 GiB.
pub const DISKTABLE_SEGMENT_SIZE: u32 = 1073741824;

/// Growth step of a disk-table segment: 1 MiB.
pub const DISKTABLE_PAGE_SIZE: u32 = 1048576;

/// Pages in a full disk-table segment.
pub const DISKTABLE_PAGE_COUNT_PER_SEGMENT: u32 = 1024;

/// Bytes in front of every disk-table record: one flag byte and a length.
pub const TABLE_SEGMENT_RECORD_HEADER_SIZE: u32 = 5;

/// Directory of the tables, below the data directory.
pub const TABLES_DIRECTORY: &'static str = "tables";

/// Directory of a table's segment files, below the table's directory.
pub const TABLES_SEGMENT_DIRECTORY: &'static str = "segments";

/// Directory of a table's index files, below the table's directory.
pub const TABLES_INDEX_DIRECTORY: &'static str = "indices";

/// Longest table name, in bytes.
pub const TABLE_NAME_MAX_SIZE: usize = 255;

/// Longest key, in bytes.
pub const KEY_BYTES_MAX_SIZE: usize = 1024;

/// Longest value, in bytes.
pub const VALUE_BYTES_MAX_SIZE: usize = 1048576;

} // verus!
