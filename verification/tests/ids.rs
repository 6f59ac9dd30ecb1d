use barus::bytes::{be_bytes_of, key_less, less_bytes, read_be_u32};
use barus::disktable::index::btree::{index_file_name, INDEX_METADATA_FILE};
use barus::disktable::segment::segment_id::TableSegmentID;
use barus::errors::{ErrorCodes, Errors};
use barus::hex::parse_hex16;
use barus::validate::{validate_key, validate_table_name, validate_value};
use barus::wal::record::{RecordType, WALPayload, WALRecord};
use barus::wal::record_id::WALRecordID;
use barus::wal::segment_id::WALSegmentID;

#[test]
fn segment_id_counts_up_and_saturates() {
    let mut id = WALSegmentID::new(7);
    id.increment();
    assert_eq!(id.0, 8);
    let mut last = WALSegmentID::new(u64::MAX);
    last.increment();
    assert_eq!(last.0, u64::MAX);
    let mut table_id = TableSegmentID::new(0);
    table_id.increment();
    assert_eq!(table_id, TableSegmentID(1));
    let mut table_last = TableSegmentID::new(u64::MAX);
    table_last.increment();
    assert_eq!(table_last.0, u64::MAX);
    assert_eq!(TableSegmentID::default().0, 0);
    assert_eq!(WALSegmentID::default().0, 0);
}

#[test]
fn segment_id_is_named_in_sixteen_upper_hex_digits() {
    assert_eq!(WALSegmentID::new(0).file_name(), "0000000000000000");
    assert_eq!(WALSegmentID::new(255).file_name(), "00000000000000FF");
    assert_eq!(WALSegmentID::new(0xD000000EA).file_name(), "0000000D000000EA");
    assert_eq!(WALSegmentID::new(u64::MAX).file_name(), "FFFFFFFFFFFFFFFF");
    assert_eq!(TableSegmentID::new(1).file_name(), "0000000000000001");
}

#[test]
fn segment_name_is_read_back() {
    assert_eq!(WALSegmentID::from_file_name("0000000D000000EA").unwrap().0, 0xD000000EA);
    assert_eq!(WALSegmentID::from_file_name("ffffffffffffffff").unwrap().0, u64::MAX);
    assert_eq!(TableSegmentID::from_file_name("000000000000000a").unwrap().0, 10);
    for id in [0u64, 1, 9, 10, 15, 16, 4096, 0x1234_5678_9ABC_DEF0, u64::MAX] {
        let name = WALSegmentID::new(id).file_name();
        assert_eq!(WALSegmentID::from_file_name(&name).unwrap().0, id);
        assert_eq!(parse_hex16(&name), Some(id));
    }
}

#[test]
fn segment_name_of_wrong_shape_is_refused() {
    let short = WALSegmentID::from_file_name("000000000000000").unwrap_err();
    assert_eq!(short.error_code, ErrorCodes::WALSegmentIDParseError);
    let long = WALSegmentID::from_file_name("00000000000000000").unwrap_err();
    assert_eq!(long.error_code, ErrorCodes::WALSegmentIDParseError);
    let letter = WALSegmentID::from_file_name("000000000000000G").unwrap_err();
    assert_eq!(letter.error_code, ErrorCodes::WALSegmentIDParseError);
    let sign = WALSegmentID::from_file_name("+00000000000000F").unwrap_err();
    assert_eq!(sign.error_code, ErrorCodes::WALSegmentIDParseError);
    let wide = WALSegmentID::from_file_name("00000000000000é").unwrap_err();
    assert_eq!(wide.error_code, ErrorCodes::WALSegmentIDParseError);
    let table = TableSegmentID::from_file_name("index.btree").unwrap_err();
    assert_eq!(table.error_code, ErrorCodes::TableSegmentIDParseError);
    assert_eq!(parse_hex16(""), None);
}

#[test]
fn record_id_adds_and_saturates() {
    let id = WALRecordID::new(5);
    assert_eq!(id.add(3).0, 8);
    assert_eq!(WALRecordID::new(u64::MAX - 1).add(5).0, u64::MAX);
    let mut next = WALRecordID::new(41);
    next.increment();
    assert_eq!(next.0, 42);
    let mut last = WALRecordID::new(u64::MAX);
    last.increment();
    assert_eq!(last.0, u64::MAX);
    assert_eq!(WALRecordID::default().0, 0);
}

#[test]
fn record_room_is_counted() {
    let payload = WALPayload {
        table: "tab".to_string(),
        key: "ke".to_string(),
        value: Some("value".to_string()),
    };
    assert_eq!(payload.size(), 8 + 3 + 8 + 2 + 8 + 5);
    let record = WALRecord { record_id: 0, record_type: RecordType::Put, data: payload };
    assert_eq!(record.size(), 9 + 34);
    let tombstone = WALRecord {
        record_id: 0,
        record_type: RecordType::Delete,
        data: WALPayload { table: "t".to_string(), key: "é".to_string(), value: None },
    };
    assert_eq!(tombstone.size(), 9 + 8 + 1 + 8 + 2 + 8);
}

#[test]
fn big_endian_numbers() {
    assert_eq!(be_bytes_of(0x0102_0304), [1, 2, 3, 4]);
    assert_eq!(be_bytes_of(40), [0, 0, 0, 40]);
    assert_eq!(be_bytes_of(u32::MAX), [255, 255, 255, 255]);
    let data = [9u8, 0, 0, 1, 0, 7];
    assert_eq!(read_be_u32(&data, 1), 256);
    assert_eq!(read_be_u32(&data, 2), 65543);
}

#[test]
fn keys_are_ordered_by_their_bytes() {
    assert!(key_less("a", "b"));
    assert!(!key_less("b", "a"));
    assert!(!key_less("a", "a"));
    assert!(key_less("a", "aa"));
    assert!(key_less("", "a"));
    assert!(!key_less("", ""));
    assert!(key_less("Z", "a"));
    assert!(key_less("z", "é"));
    assert!(less_bytes(&[1, 2], &[1, 3]));
    assert!(!less_bytes(&[1, 2, 0], &[1, 2]));
    for (a, b) in [("k1", "k10"), ("k10", "k2"), ("abc", "abd"), ("", "x")] {
        assert_eq!(key_less(a, b), a < b);
        assert_eq!(key_less(b, a), b < a);
    }
}

#[test]
fn table_names_are_checked() {
    assert!(validate_table_name("users_2").is_ok());
    assert_eq!(validate_table_name("").unwrap_err().error_code, ErrorCodes::TableNameIsEmpty);
    let long = "a".repeat(256);
    assert_eq!(validate_table_name(&long).unwrap_err().error_code, ErrorCodes::TableNameTooLong);
    assert!(validate_table_name(&"a".repeat(255)).is_ok());
    let bad = validate_table_name("bad-name").unwrap_err();
    assert_eq!(bad.error_code, ErrorCodes::TableNameIsInvalid);
    assert_eq!(bad.message, Some("bad-name".to_string()));
    assert_eq!(
        validate_table_name("tablé").unwrap_err().error_code,
        ErrorCodes::TableNameIsInvalid
    );
}

#[test]
fn keys_and_values_are_checked() {
    assert!(validate_key("k").is_ok());
    assert_eq!(validate_key("").unwrap_err().error_code, ErrorCodes::KeyIsEmpty);
    assert!(validate_key(&"k".repeat(1024)).is_ok());
    assert_eq!(
        validate_key(&"k".repeat(1025)).unwrap_err().error_code,
        ErrorCodes::KeySizeTooLarge
    );
    assert!(validate_value("").is_ok());
    assert!(validate_value(&"v".repeat(1048576)).is_ok());
    assert_eq!(
        validate_value(&"v".repeat(1048577)).unwrap_err().error_code,
        ErrorCodes::ValueSizeTooLarge
    );
}

#[test]
fn failures_carry_kind_and_message() {
    let plain = Errors::new(ErrorCodes::FileReadError);
    assert_eq!(plain.error_code, ErrorCodes::FileReadError);
    assert_eq!(plain.message, None);
    let told = Errors::new(ErrorCodes::TableNotFound).with_message("t1".to_string());
    assert_eq!(told.error_code, ErrorCodes::TableNotFound);
    assert_eq!(told.message, Some("t1".to_string()));
}

#[test]
fn failures_are_put_in_words() {
    assert_eq!(ErrorCodes::WALInitializationError.text(), "WAL Initialization Error");
    assert_eq!(ErrorCodes::TableNotFound.text(), "Table Not Found");
    assert_eq!(
        ErrorCodes::MemtableFlushAlreadyInProgress.text(),
        "Memtable Flush Already In Progress"
    );
    assert_eq!(
        ErrorCodes::UnknownTableRecordHeaderFlag.text(),
        "Unknown Table Record Header Flag"
    );
    assert_eq!(Errors::new(ErrorCodes::KeyIsEmpty).text(), "Key Is Empty");
    assert_eq!(
        Errors::new(ErrorCodes::TableNameIsInvalid).with_message("a b".to_string()).text(),
        "Table Name Is Invalid: a b"
    );
}

#[test]
fn index_files_are_named_by_their_number() {
    assert_eq!(index_file_name(0), "index.btree");
    assert_eq!(index_file_name(1), "index.btree.1");
    assert_eq!(index_file_name(10), "index.btree.10");
    assert_eq!(index_file_name(4096), "index.btree.4096");
    assert_eq!(index_file_name(u64::MAX), "index.btree.18446744073709551615");
    assert_eq!(INDEX_METADATA_FILE, "index.metadata");
}

#[test]
fn failures_are_answered_with_their_status() {
    assert_eq!(ErrorCodes::TableNotFound.status(), 404);
    assert_eq!(ErrorCodes::ValueNotFound.status(), 404);
    assert_eq!(ErrorCodes::TableAlreadyExists.status(), 409);
    assert_eq!(ErrorCodes::TableNameIsEmpty.status(), 400);
    assert_eq!(ErrorCodes::TableNameTooLong.status(), 400);
    assert_eq!(ErrorCodes::TableNameIsInvalid.status(), 400);
    assert_eq!(ErrorCodes::KeyIsEmpty.status(), 400);
    assert_eq!(ErrorCodes::KeySizeTooLarge.status(), 400);
    assert_eq!(ErrorCodes::ValueSizeTooLarge.status(), 400);
    assert_eq!(ErrorCodes::FileReadError.status(), 500);
    assert_eq!(ErrorCodes::MemtableFlushAlreadyInProgress.status(), 500);
}

#[test]
fn a_name_with_another_byte_is_handed_back_in_the_failure() {
    let err = validate_table_name("a b").unwrap_err();
    assert_eq!(err.error_code, ErrorCodes::TableNameIsInvalid);
    assert_eq!(err.message, Some("a b".to_string()));
    let err = validate_table_name("").unwrap_err();
    assert_eq!(err.error_code, ErrorCodes::TableNameIsEmpty);
    assert_eq!(err.message, None);
    let err = validate_table_name(&"a".repeat(300)).unwrap_err();
    assert_eq!(err.error_code, ErrorCodes::TableNameTooLong);
    assert_eq!(err.message, None);
}
