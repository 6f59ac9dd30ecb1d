use barus::disktable::segment::encode::{TableRecordBincodeCodec, TableRecordCodec};
use barus::disktable::segment::manager::TableSegmentManager;
use barus::disktable::segment::position::TableRecordPosition;
use barus::disktable::segment::record::{RecordStateFlags, TableSegmentPayload};
use barus::disktable::segment::segment_id::TableSegmentID;
use barus::disktable::segment::state::TableSegmentState;
use barus::disktable::segment::{scan_segment_file, TableSegments};
use barus::errors::ErrorCodes;

const PAGE: usize = 1048576;

fn pair(key: &str, value: &str) -> TableSegmentPayload {
    TableSegmentPayload { key: key.to_string(), value: value.to_string() }
}

fn at(segment: u64, offset: u32) -> TableRecordPosition {
    TableRecordPosition { segment_id: TableSegmentID(segment), offset }
}

#[test]
fn flags_stand_for_bytes() {
    assert_eq!(RecordStateFlags::from_byte(0), RecordStateFlags::Nothing);
    assert_eq!(RecordStateFlags::from_byte(1), RecordStateFlags::Alive);
    assert_eq!(RecordStateFlags::from_byte(2), RecordStateFlags::Deleted);
    assert_eq!(RecordStateFlags::from_byte(3), RecordStateFlags::Unknown);
    assert_eq!(RecordStateFlags::from_byte(255), RecordStateFlags::Unknown);
    assert!(RecordStateFlags::Deleted.is_deleted());
    assert!(!RecordStateFlags::Alive.is_deleted());
    assert!(!RecordStateFlags::Nothing.is_deleted());
    assert!(!RecordStateFlags::Unknown.is_deleted());
    assert_eq!(RecordStateFlags::Alive.to_byte(), 1);
    assert_eq!(RecordStateFlags::Deleted.to_byte(), 2);
    assert_eq!(RecordStateFlags::Nothing.to_byte(), 0);
    assert_eq!(RecordStateFlags::Unknown.to_byte(), 255);
}

#[test]
fn a_pair_is_encoded_with_fixed_width_integers() {
    let codec = TableRecordBincodeCodec;
    let bytes = codec.encode(&pair("key", "é")).unwrap();
    assert_eq!(
        bytes,
        vec![3, 0, 0, 0, 0, 0, 0, 0, b'k', b'e', b'y', 2, 0, 0, 0, 0, 0, 0, 0, 0xC3, 0xA9]
    );
    let back = codec.decode(&bytes).unwrap();
    assert_eq!(back.key, "key");
    assert_eq!(back.value, "é");
    let mut buf = vec![7u8; 30];
    assert_eq!(codec.encode_zero_copy(&pair("key", "é"), &mut buf, 4).unwrap(), 21);
    assert_eq!(&buf[4..25], &bytes[..]);
    assert_eq!(&buf[..4], &[7, 7, 7, 7]);
    assert_eq!(&buf[25..], &[7, 7, 7, 7, 7]);
    let err = codec.encode_zero_copy(&pair("key", "é"), &mut buf, 10).unwrap_err();
    assert_eq!(err.error_code, ErrorCodes::TableRecordEncodeError);
    assert_eq!(codec.decode(&bytes[..20]).unwrap_err().error_code, ErrorCodes::TableRecordDecodeError);
    assert!(codec.decode(&[255, 255, 255, 255, 255, 255, 255, 255, 1]).is_err());
}

#[test]
fn the_first_record_starts_segment_one() {
    let mut table = TableSegments::new();
    assert_eq!(table.state, TableSegmentState::default());
    let position = table.append_frame(&vec![10, 20, 30]).unwrap();
    assert_eq!(position, at(1, 0));
    assert_eq!(table.files.len(), 1);
    assert_eq!(table.files[0].len(), PAGE);
    assert_eq!(&table.files[0][..8], &[1, 0, 0, 0, 3, 10, 20, 30]);
    assert!(table.files[0][8..].iter().all(|b| *b == 0));
    assert_eq!(table.state.last_segment_id, TableSegmentID(1));
    assert_eq!(table.state.segment_file_size, PAGE as u32);
    assert_eq!(table.state.current_page_offset, 8);
    assert_eq!(table.state.current_page_index, 0);
    let next = table.append_frame(&vec![1; 100]).unwrap();
    assert_eq!(next, at(1, 8));
    assert_eq!(table.state.current_page_offset, 113);
}

#[test]
fn a_full_page_grows_the_segment() {
    let mut table = TableSegments::new();
    let big = vec![5u8; 600_000];
    assert_eq!(table.append_frame(&big).unwrap(), at(1, 0));
    assert_eq!(table.append_frame(&big).unwrap(), at(1, PAGE as u32));
    assert_eq!(table.files[0].len(), 2 * PAGE);
    assert_eq!(table.state.segment_file_size, 2 * PAGE as u32);
    assert_eq!(table.state.current_page_index, 1);
    assert_eq!(table.state.current_page_offset, PAGE as u32 + 600_005);
    assert!(table.files[0][600_005..PAGE].iter().all(|b| *b == 0));
    assert_eq!(table.append_frame(&vec![1, 2]).unwrap(), at(1, PAGE as u32 + 600_005));
}

#[test]
fn a_full_segment_starts_the_next() {
    let mut table = TableSegments::new();
    table.files.push(vec![0u8; 1024 * PAGE]);
    table.state = TableSegmentState {
        last_segment_id: TableSegmentID(1),
        segment_file_size: 1073741824,
        current_page_offset: 1073741824 - 3,
        current_page_index: 1023,
    };
    let position = table.append_frame(&vec![9]).unwrap();
    assert_eq!(position, at(2, 0));
    assert_eq!(table.files.len(), 2);
    assert_eq!(table.files[1].len(), PAGE);
    assert_eq!(table.state.last_segment_id, TableSegmentID(2));
    assert_eq!(table.state.current_page_index, 0);
    assert_eq!(table.state.current_page_offset, 6);
    assert_eq!(table.files[0].len(), 1024 * PAGE);
}

#[test]
fn a_record_larger_than_a_page_is_refused() {
    let mut table = TableSegments::new();
    let err = table.append_frame(&vec![0u8; PAGE - 4]).unwrap_err();
    assert_eq!(err.error_code, ErrorCodes::TableSegmentFileWriteError);
    assert!(table.files.is_empty());
    assert_eq!(table.append_frame(&vec![0u8; PAGE - 5]).unwrap(), at(1, 0));
    assert_eq!(table.state.current_page_offset, PAGE as u32);
}

#[test]
fn a_record_is_found_where_it_was_put() {
    let codec = TableRecordBincodeCodec;
    let mut manager = TableSegmentManager::new(codec);
    let first = manager.append_record("t", &pair("a", "1")).unwrap();
    let second = manager.append_record("t", &pair("b", "22")).unwrap();
    let elsewhere = manager.append_record("u", &pair("a", "other")).unwrap();
    assert_eq!(first, at(1, 0));
    assert_eq!(second, at(1, 5 + 18));
    assert_eq!(elsewhere, at(1, 0));
    let (flag, found) = manager.find_record("t", first).unwrap();
    assert_eq!(flag, RecordStateFlags::Alive);
    assert_eq!((found.key.as_str(), found.value.as_str()), ("a", "1"));
    let (flag, found) = manager.find_record("t", second).unwrap();
    assert_eq!(flag, RecordStateFlags::Alive);
    assert_eq!((found.key.as_str(), found.value.as_str()), ("b", "22"));
    let (_, found) = manager.find_record("u", elsewhere).unwrap();
    assert_eq!(found.value, "other");
}

#[test]
fn marking_deleted_changes_one_byte() {
    let mut manager = TableSegmentManager::new(TableRecordBincodeCodec);
    let first = manager.append_record("t", &pair("a", "1")).unwrap();
    let second = manager.append_record("t", &pair("b", "2")).unwrap();
    let before = manager.tables[0].files[0].clone();
    manager.mark_deleted_record("t", first).unwrap();
    let after = &manager.tables[0].files[0];
    assert_eq!(after[0], 2);
    assert_eq!(&after[1..], &before[1..]);
    let (flag, found) = manager.find_record("t", first).unwrap();
    assert_eq!(flag, RecordStateFlags::Deleted);
    assert_eq!(found.value, "1");
    assert_eq!(manager.find_record("t", second).unwrap().0, RecordStateFlags::Alive);
}

#[test]
fn positions_outside_the_files_fail() {
    let mut manager = TableSegmentManager::new(TableRecordBincodeCodec);
    manager.append_record("t", &pair("a", "1")).unwrap();
    assert_eq!(
        manager.find_record("t", at(2, 0)).unwrap_err().error_code,
        ErrorCodes::TableSegmentFileOpenError
    );
    assert_eq!(
        manager.find_record("t", at(0, 0)).unwrap_err().error_code,
        ErrorCodes::TableSegmentFileOpenError
    );
    assert_eq!(
        manager.find_record("nowhere", at(1, 0)).unwrap_err().error_code,
        ErrorCodes::TableSegmentFileOpenError
    );
    assert_eq!(
        manager.find_record("t", at(1, PAGE as u32 - 2)).unwrap_err().error_code,
        ErrorCodes::FileReadError
    );
    assert_eq!(
        manager.find_record("t", at(1, PAGE as u32)).unwrap_err().error_code,
        ErrorCodes::FileReadError
    );
    assert_eq!(
        manager.find_record("t", at(1, 100)).unwrap_err().error_code,
        ErrorCodes::TableRecordDecodeError
    );
    assert_eq!(
        manager.mark_deleted_record("t", at(1, PAGE as u32)).unwrap_err().error_code,
        ErrorCodes::FileWriteError
    );
    assert_eq!(
        manager.mark_deleted_record("t", at(3, 0)).unwrap_err().error_code,
        ErrorCodes::TableSegmentFileOpenError
    );
    assert_eq!(
        manager.mark_deleted_record("nowhere", at(1, 0)).unwrap_err().error_code,
        ErrorCodes::TableSegmentFileOpenError
    );
}

#[test]
fn a_segment_file_is_read_page_by_page() {
    let codec = TableRecordBincodeCodec;
    let mut table = TableSegments::new();
    let long = "x".repeat(600_000);
    let one = codec.encode(&pair("a", "1")).unwrap();
    let two = codec.encode(&pair("b", &long)).unwrap();
    let three = codec.encode(&pair("c", &long)).unwrap();
    let first_at = table.append_frame(&one).unwrap();
    let second_at = table.append_frame(&two).unwrap();
    let third_at = table.append_frame(&three).unwrap();
    table.mark_deleted_record(second_at).unwrap();
    let items = scan_segment_file(&codec, TableSegmentID(1), &table.files[0]).unwrap();
    assert_eq!(items.len(), 3);
    assert_eq!(items[0].position, first_at);
    assert_eq!(items[0].state_flags, RecordStateFlags::Alive);
    assert_eq!(items[0].payload.key, "a");
    assert_eq!(items[1].position, second_at);
    assert_eq!(items[1].state_flags, RecordStateFlags::Deleted);
    assert_eq!(items[2].position, third_at);
    assert_eq!(items[2].position.offset, PAGE as u32);
    assert_eq!(items[2].payload.key, "c");
    assert!(scan_segment_file(&codec, TableSegmentID(1), &[]).unwrap().is_empty());
    assert!(scan_segment_file(&codec, TableSegmentID(1), &vec![0u8; PAGE]).unwrap().is_empty());
    assert!(scan_segment_file(&codec, TableSegmentID(1), &vec![1u8; PAGE - 1]).unwrap().is_empty());
    let mut unknown = vec![0u8; PAGE];
    unknown[0] = 7;
    assert_eq!(
        scan_segment_file(&codec, TableSegmentID(1), &unknown).unwrap_err().error_code,
        ErrorCodes::UnknownTableRecordHeaderFlag
    );
    let mut cut = vec![0u8; PAGE];
    cut[0] = 1;
    cut[1..5].copy_from_slice(&[0, 0x10, 0, 0]);
    assert_eq!(
        scan_segment_file(&codec, TableSegmentID(1), &cut).unwrap_err().error_code,
        ErrorCodes::FileReadError
    );
    let mut garbled = vec![0u8; PAGE];
    garbled[0] = 1;
    garbled[4] = 3;
    assert_eq!(
        scan_segment_file(&codec, TableSegmentID(1), &garbled).unwrap_err().error_code,
        ErrorCodes::TableRecordDecodeError
    );
}

#[test]
fn a_segment_file_tells_where_the_table_stands() {
    let codec = TableRecordBincodeCodec;
    let mut table = TableSegments::new();
    let long = "x".repeat(600_000);
    table.append_frame(&codec.encode(&pair("a", &long)).unwrap()).unwrap();
    table.append_frame(&codec.encode(&pair("b", &long)).unwrap()).unwrap();
    table.append_frame(&codec.encode(&pair("c", "3")).unwrap()).unwrap();
    let told = TableSegments::describe_segment_file(&TableSegmentID(1), &table.files[0]).unwrap();
    assert_eq!(told, table.state);
    assert_eq!(told.current_page_index, 1);
    assert_eq!(told.segment_file_size, 2 * PAGE as u32);
    let empty = TableSegments::describe_segment_file(&TableSegmentID(4), &vec![0u8; PAGE]).unwrap();
    assert_eq!(
        empty,
        TableSegmentState {
            last_segment_id: TableSegmentID(4),
            segment_file_size: PAGE as u32,
            current_page_offset: 0,
            current_page_index: 0,
        }
    );
    assert_eq!(
        TableSegments::describe_segment_file(&TableSegmentID(1), &vec![0u8; 10])
            .unwrap_err()
            .error_code,
        ErrorCodes::FileReadError
    );
    let mut unknown = vec![0u8; PAGE];
    unknown[0] = 9;
    assert_eq!(
        TableSegments::describe_segment_file(&TableSegmentID(1), &unknown).unwrap_err().error_code,
        ErrorCodes::UnknownTableRecordHeaderFlag
    );
    let mut cut = vec![0u8; PAGE];
    cut[0] = 1;
    cut[1..5].copy_from_slice(&[0, 0x0F, 0xFF, 0xF9]);
    cut[PAGE - 2] = 1;
    assert_eq!(
        TableSegments::describe_segment_file(&TableSegmentID(1), &cut).unwrap_err().error_code,
        ErrorCodes::FileReadError
    );
}

#[test]
fn tables_are_taken_over_and_dropped() {
    let codec = TableRecordBincodeCodec;
    let mut writer = TableSegmentManager::new(codec);
    let position = writer.append_record("t", &pair("a", "1")).unwrap();
    let files = writer.tables[0].files.clone();
    let mut manager = TableSegmentManager::new(codec);
    manager.set_table("t", files).unwrap();
    manager.set_table("empty", Vec::new()).unwrap();
    manager.initialize_table("other");
    manager.initialize_table("t");
    assert_eq!(manager.names, vec!["t", "empty", "other"]);
    assert_eq!(manager.tables[0].state, writer.tables[0].state);
    assert_eq!(manager.tables[1].state, TableSegmentState::default());
    assert_eq!(manager.find_record("t", position).unwrap().1.value, "1");
    let next = manager.append_record("t", &pair("b", "2")).unwrap();
    assert_eq!(next, at(1, 23));
    let listed = manager.list_segment_files("t");
    assert_eq!(listed.len(), 1);
    assert_eq!(listed[0].file_name, "0000000000000001");
    assert_eq!(listed[0].file_size, PAGE as u32);
    assert!(manager.list_segment_files("nowhere").is_empty());
    assert!(manager.set_table("short", vec![vec![0u8; 3]]).is_err());
    manager.truncate_table("t");
    assert_eq!(manager.names, vec!["empty", "other", "short"]);
    assert!(manager.find_record("t", position).is_err());
    assert_eq!(manager.append_record("t", &pair("c", "3")).unwrap(), at(1, 0));
}
