use barus::config::WAL_SEGMENT_SIZE;
use barus::errors::ErrorCodes;
use barus::wal::encode::{WALRecordBincodeCodec, WALRecordCodec};
use barus::wal::record::{RecordType, WALPayload, WALRecord};
use barus::wal::record_id::WALRecordID;
use barus::wal::segment::WALSegmentWriteHandle;
use barus::wal::segment_id::WALSegmentID;
use barus::wal::state::WALGlobalState;
use barus::wal::WALManager;

fn put(table: &str, key: &str, value: &str) -> WALRecord {
    WALRecord {
        record_id: 0,
        record_type: RecordType::Put,
        data: WALPayload {
            table: table.to_string(),
            key: key.to_string(),
            value: Some(value.to_string()),
        },
    }
}

fn delete(table: &str, key: &str) -> WALRecord {
    WALRecord {
        record_id: 0,
        record_type: RecordType::Delete,
        data: WALPayload { table: table.to_string(), key: key.to_string(), value: None },
    }
}

fn loaded() -> WALManager<WALRecordBincodeCodec> {
    let mut wal = WALManager::new(WALRecordBincodeCodec);
    wal.load(WALGlobalState::default(), "0000000000000000", vec![0u8; WAL_SEGMENT_SIZE]).unwrap();
    wal
}

#[test]
fn a_record_is_encoded_with_fixed_width_integers() {
    let codec = WALRecordBincodeCodec;
    let mut record = put("t", "k", "v");
    record.record_id = 1;
    let mut buf = vec![0xAAu8; 64];
    let n = codec.encode(&record, &mut buf, 3).unwrap();
    assert_eq!(n, 40);
    let expected: Vec<u8> = vec![
        1, 0, 0, 0, 0, 0, 0, 0, // record number
        0, 0, 0, 0, // kind: put
        1, 0, 0, 0, 0, 0, 0, 0, b't', // table
        1, 0, 0, 0, 0, 0, 0, 0, b'k', // key
        1, // a value follows
        1, 0, 0, 0, 0, 0, 0, 0, b'v', // value
    ];
    assert_eq!(&buf[3..43], &expected[..]);
    assert_eq!(&buf[0..3], &[0xAA, 0xAA, 0xAA]);
    assert!(buf[43..].iter().all(|b| *b == 0xAA));
    let back = codec.decode(&buf[3..43]).unwrap();
    assert_eq!(back.record_id, 1);
    assert_eq!(back.record_type, RecordType::Put);
    assert_eq!(back.data.table, "t");
    assert_eq!(back.data.key, "k");
    assert_eq!(back.data.value, Some("v".to_string()));
}

#[test]
fn a_deletion_is_encoded_without_a_value() {
    let codec = WALRecordBincodeCodec;
    let mut record = delete("tab", "é");
    record.record_id = 0x0102;
    let mut buf = vec![0u8; 40];
    let n = codec.encode(&record, &mut buf, 0).unwrap();
    assert_eq!(n, 8 + 4 + 8 + 3 + 8 + 2 + 1);
    assert_eq!(&buf[0..12], &[2, 1, 0, 0, 0, 0, 0, 0, 1, 0, 0, 0]);
    assert_eq!(buf[33], 0);
    let back = codec.decode(&buf[..n]).unwrap();
    assert_eq!(back.record_type, RecordType::Delete);
    assert_eq!(back.data.key, "é");
    assert_eq!(back.data.value, None);
    let mut truncate = delete("tab", "");
    truncate.record_type = RecordType::Truncate;
    let n = codec.encode(&truncate, &mut buf, 0).unwrap();
    assert_eq!(buf[8], 2);
    assert_eq!(codec.decode(&buf[..n]).unwrap().record_type, RecordType::Truncate);
}

#[test]
fn a_record_that_does_not_fit_is_refused() {
    let codec = WALRecordBincodeCodec;
    let mut buf = vec![0u8; 39];
    let err = codec.encode(&put("t", "k", "v"), &mut buf, 0).unwrap_err();
    assert_eq!(err.error_code, ErrorCodes::WALRecordEncodeError);
    let mut exact = vec![0u8; 45];
    assert_eq!(codec.encode(&put("t", "k", "v"), &mut exact, 5).unwrap(), 40);
    assert!(codec.encode(&put("t", "k", "v"), &mut exact, 6).is_err());
}

#[test]
fn damaged_bytes_do_not_decode() {
    let codec = WALRecordBincodeCodec;
    assert_eq!(codec.decode(&[]).unwrap_err().error_code, ErrorCodes::WALRecordDecodeError);
    let mut bytes = vec![0u8; 40];
    codec.encode(&put("t", "k", "v"), &mut bytes, 0).unwrap();
    let mut kind = bytes.clone();
    kind[8] = 3;
    assert!(codec.decode(&kind).is_err());
    let mut length = bytes.clone();
    length[12..20].copy_from_slice(&u64::MAX.to_le_bytes());
    assert!(codec.decode(&length).is_err());
    let mut huge = bytes.clone();
    huge[12..20].copy_from_slice(&(1u64 << 40).to_le_bytes());
    assert!(codec.decode(&huge).is_err());
    let mut text = bytes.clone();
    text[20] = 0xFF;
    assert!(codec.decode(&text).is_err());
    let mut option = bytes.clone();
    option[30] = 2;
    assert!(codec.decode(&option).is_err());
    assert!(codec.decode(&bytes[..39]).is_err());
}

#[test]
fn a_new_log_has_fresh_counters_and_no_segment() {
    let mut wal = WALManager::new(WALRecordBincodeCodec);
    assert_eq!(wal.wal_state, WALGlobalState::default());
    assert!(wal.wal_write_handles.is_empty());
    let err = wal.append(put("t", "k", "v")).unwrap_err();
    assert_eq!(err.error_code, ErrorCodes::WALSegmentFileOpenError);
    assert_eq!(wal.wal_state, WALGlobalState::default());
    assert!(WALSegmentWriteHandle::empty().is_empty());
    let fresh = WALSegmentWriteHandle::zeroed();
    assert_eq!(fresh.mmap.len(), WAL_SEGMENT_SIZE);
    assert!(fresh.mmap.iter().all(|b| *b == 0));
    assert_eq!(WALSegmentWriteHandle::new(vec![1, 2]).mmap, vec![1, 2]);
}

#[test]
fn appended_records_are_numbered_without_gaps() {
    let mut wal = loaded();
    for i in 1..=50u64 {
        wal.append(put("t", &format!("k{}", i), "v")).unwrap();
        assert_eq!(wal.wal_state.last_record_id.0, i);
    }
    let (records, end) = wal.scan_records(&wal.wal_write_handles.mmap);
    assert_eq!(records.len(), 50);
    for (i, record) in records.iter().enumerate() {
        assert_eq!(record.record_id, i as u64 + 1);
        assert_eq!(record.data.key, format!("k{}", i + 1));
    }
    assert_eq!(end, wal.wal_state.last_segment_file_offset);
}

#[test]
fn a_frame_is_length_then_payload() {
    let mut wal = loaded();
    wal.append(put("t", "k", "v")).unwrap();
    let image = &wal.wal_write_handles.mmap;
    assert_eq!(&image[0..4], &[0, 0, 0, 40]);
    assert_eq!(&image[4..12], &[1, 0, 0, 0, 0, 0, 0, 0]);
    assert_eq!(image[4 + 20], b't');
    assert!(image[44..].iter().all(|b| *b == 0));
    assert_eq!(wal.wal_state.last_segment_file_offset, 44);
    assert_eq!(wal.wal_state.last_segment_id.0, 0);
    wal.append(delete("t", "k")).unwrap();
    let image = &wal.wal_write_handles.mmap;
    assert_eq!(&image[44..48], &[0, 0, 0, 31]);
    assert_eq!(&image[48..56], &[2, 0, 0, 0, 0, 0, 0, 0]);
    assert_eq!(wal.wal_state.last_segment_file_offset, 44 + 35);
    assert_eq!(image.len(), WAL_SEGMENT_SIZE);
}

#[test]
fn reading_stops_at_the_first_frame_that_cannot_be_read() {
    let wal = loaded();
    let (none, end) = wal.scan_records(&[]);
    assert!(none.is_empty());
    assert_eq!(end, 0);
    let (none, end) = wal.scan_records(&[0, 0]);
    assert!(none.is_empty());
    assert_eq!(end, 0);
    let mut writer = loaded();
    writer.append(put("t", "a", "1")).unwrap();
    writer.append(put("t", "b", "2")).unwrap();
    let image = writer.wal_write_handles.mmap.clone();
    let (both, end) = wal.scan_records(&image[..200]);
    assert_eq!(both.len(), 2);
    assert_eq!(end, 88);
    let (cut, end) = wal.scan_records(&image[..87]);
    assert_eq!(cut.len(), 1);
    assert_eq!(end, 44);
    let (cut, end) = wal.scan_records(&image[..46]);
    assert_eq!(cut.len(), 1);
    assert_eq!(end, 44);
    let mut damaged = image[..200].to_vec();
    damaged[4 + 8] = 9;
    let (stopped, end) = wal.scan_records(&damaged);
    assert!(stopped.is_empty());
    assert_eq!(end, 0);
    let mut second = image[..200].to_vec();
    second[48 + 8] = 9;
    let (first, end) = wal.scan_records(&second);
    assert_eq!(first.len(), 1);
    assert_eq!(end, 44);
}

#[test]
fn recovery_recomputes_the_counters() {
    let mut writer = loaded();
    for i in 0..7 {
        writer.append(put("t", &format!("k{}", i), "v")).unwrap();
    }
    let image = writer.wal_write_handles.mmap.clone();
    let stale = WALGlobalState {
        last_record_id: WALRecordID(3),
        last_checkpoint_record_id: WALRecordID(2),
        last_segment_id: WALSegmentID(0),
        last_checkpoint_segment_id: WALSegmentID(0),
        last_segment_file_offset: 17,
    };
    let mut wal = WALManager::new(WALRecordBincodeCodec);
    wal.load(stale, "0000000000000005", image.clone()).unwrap();
    assert_eq!(wal.wal_state.last_record_id.0, 7);
    assert_eq!(wal.wal_state.last_checkpoint_record_id.0, 2);
    assert_eq!(wal.wal_state.last_segment_id.0, 5);
    assert_eq!(wal.wal_state.last_segment_file_offset, writer.wal_state.last_segment_file_offset);
    let once = wal.wal_state;
    wal.recover_state("0000000000000005", &image).unwrap();
    assert_eq!(wal.wal_state, once);
    wal.append(put("t", "next", "v")).unwrap();
    assert_eq!(wal.wal_state.last_record_id.0, 8);
    let (records, _) = wal.scan_records(&wal.wal_write_handles.mmap);
    assert_eq!(records.len(), 8);
    assert_eq!(records[7].data.key, "next");
}

#[test]
fn recovery_of_an_empty_segment_keeps_the_last_record() {
    let mut wal = WALManager::new(WALRecordBincodeCodec);
    let state = WALGlobalState {
        last_record_id: WALRecordID(9),
        last_checkpoint_record_id: WALRecordID(9),
        last_segment_id: WALSegmentID(2),
        last_checkpoint_segment_id: WALSegmentID(2),
        last_segment_file_offset: 500,
    };
    wal.load(state, "0000000000000003", vec![0u8; WAL_SEGMENT_SIZE]).unwrap();
    assert_eq!(wal.wal_state.last_record_id.0, 9);
    assert_eq!(wal.wal_state.last_segment_id.0, 3);
    assert_eq!(wal.wal_state.last_segment_file_offset, 0);
    let bad = wal.recover_state("segment", &[]).unwrap_err();
    assert_eq!(bad.error_code, ErrorCodes::WALSegmentIDParseError);
    assert_eq!(wal.wal_state.last_segment_id.0, 3);
}

#[test]
fn a_full_segment_starts_the_next_one() {
    let mut wal = loaded();
    let value = "v".repeat(1024 * 1024);
    let frame = 4 + 8 + 4 + 8 + 1 + 8 + 4 + 1 + 8 + value.len();
    let mut images: Vec<(u64, Vec<u8>)> = Vec::new();
    let total = 40u64;
    for i in 0..total {
        let before = wal.wal_state.last_segment_id.0;
        let kept = wal.wal_write_handles.mmap.clone();
        wal.append(put("t", &format!("k{:03}", i), &value)).unwrap();
        if wal.wal_state.last_segment_id.0 != before {
            assert_eq!(wal.wal_state.last_segment_id.0, before + 1);
            assert_eq!(wal.wal_state.last_segment_file_offset, frame);
            images.push((before, kept));
        }
        assert!(wal.wal_state.last_segment_file_offset <= WAL_SEGMENT_SIZE);
        assert_eq!(wal.wal_state.last_record_id.0, i + 1);
    }
    images.push((wal.wal_state.last_segment_id.0, wal.wal_write_handles.mmap.clone()));
    assert!(images.len() >= 2);
    assert_eq!(images.len() as u64, wal.wal_state.last_segment_id.0 + 1);
    let mut keys = Vec::new();
    let mut last_id = 0;
    for (_, image) in &images {
        assert_eq!(image.len(), WAL_SEGMENT_SIZE);
        let (records, _) = wal.scan_records(image);
        for record in records {
            assert_eq!(record.record_id, last_id + 1);
            last_id = record.record_id;
            keys.push(record.data.key);
        }
    }
    assert_eq!(last_id, total);
    let expected: Vec<String> = (0..total).map(|i| format!("k{:03}", i)).collect();
    assert_eq!(keys, expected);
    let (name, last_image) = images.last().unwrap();
    let mut again = WALManager::new(WALRecordBincodeCodec);
    again
        .load(WALGlobalState::default(), &WALSegmentID::new(*name).file_name(), last_image.clone())
        .unwrap();
    assert_eq!(again.wal_state.last_record_id.0, total);
    assert_eq!(again.wal_state.last_segment_id.0, wal.wal_state.last_segment_id.0);
    assert_eq!(again.wal_state.last_segment_file_offset, wal.wal_state.last_segment_file_offset);
}

#[test]
fn a_record_larger_than_a_segment_is_refused() {
    let mut wal = loaded();
    wal.append(put("t", "k", "v")).unwrap();
    let err = wal.append(put("t", "k", &"v".repeat(WAL_SEGMENT_SIZE))).unwrap_err();
    assert_eq!(err.error_code, ErrorCodes::WALRecordEncodeError);
    assert_eq!(wal.wal_state.last_record_id.0, 1);
    assert_eq!(wal.wal_state.last_segment_id.0, 1);
    assert_eq!(wal.wal_state.last_segment_file_offset, 0);
    assert!(wal.wal_write_handles.mmap.iter().all(|b| *b == 0));
    wal.append(put("t", "k", "v")).unwrap();
    assert_eq!(wal.wal_state.last_record_id.0, 2);
}

#[test]
fn a_frame_that_the_count_lets_through_but_does_not_fit_is_refused() {
    let mut wal = loaded();
    wal.wal_state.last_segment_file_offset = WAL_SEGMENT_SIZE - 40;
    let err = wal.append(put("t", "k", "v")).unwrap_err();
    assert_eq!(err.error_code, ErrorCodes::WALRecordEncodeError);
    assert_eq!(wal.wal_state.last_segment_id.0, 0);
    assert_eq!(wal.wal_state.last_segment_file_offset, WAL_SEGMENT_SIZE - 40);
    assert!(wal.wal_write_handles.mmap.iter().all(|b| *b == 0));
    wal.wal_state.last_segment_file_offset = WAL_SEGMENT_SIZE - 44;
    wal.append(put("t", "k", "v")).unwrap();
    assert_eq!(wal.wal_state.last_segment_file_offset, WAL_SEGMENT_SIZE);
    wal.append(put("t", "k", "v")).unwrap();
    assert_eq!(wal.wal_state.last_segment_id.0, 1);
    assert_eq!(wal.wal_state.last_segment_file_offset, 44);
}

#[test]
fn the_last_numbers_are_not_given_twice() {
    let mut wal = loaded();
    wal.wal_state.last_record_id = WALRecordID(u64::MAX);
    let err = wal.append(put("t", "k", "v")).unwrap_err();
    assert_eq!(err.error_code, ErrorCodes::WALRecordWriteError);
    let mut full = loaded();
    full.wal_state.last_segment_id = WALSegmentID(u64::MAX);
    full.wal_state.last_segment_file_offset = WAL_SEGMENT_SIZE;
    let err = full.append(put("t", "k", "v")).unwrap_err();
    assert_eq!(err.error_code, ErrorCodes::WALSegmentFileOpenError);
    assert!(full.new_segment_file().is_err());
}

#[test]
fn truncation_is_logged() {
    let mut wal = loaded();
    wal.truncate_table("t9").unwrap();
    let (records, _) = wal.scan_records(&wal.wal_write_handles.mmap);
    assert_eq!(records.len(), 1);
    assert_eq!(records[0].record_id, 1);
    assert_eq!(records[0].record_type, RecordType::Truncate);
    assert_eq!(records[0].data.table, "t9");
    assert_eq!(records[0].data.key, "");
    assert_eq!(records[0].data.value, None);
}

#[test]
fn the_checkpoint_moves() {
    let mut wal = loaded();
    for _ in 0..3 {
        wal.append(put("t", "k", "v")).unwrap();
    }
    wal.advance_checkpoint();
    assert_eq!(wal.wal_state.last_checkpoint_record_id.0, 3);
    assert_eq!(wal.wal_state.last_checkpoint_segment_id.0, 0);
    wal.append(put("t", "k", "v")).unwrap();
    assert_eq!(wal.wal_state.last_checkpoint_record_id.0, 3);
    assert_eq!(wal.wal_state.last_record_id.0, 4);
    wal.move_checkpoint(0, 4);
    assert_eq!(wal.wal_state.last_checkpoint_record_id.0, 4);
    assert_eq!(wal.wal_state.last_checkpoint_segment_id.0, 0);
    assert_eq!(wal.wal_state.last_record_id.0, 4);
    wal.move_checkpoint(0, 3);
    assert_eq!(wal.wal_state.last_checkpoint_record_id.0, 4);
    wal.move_checkpoint(0, 5);
    assert_eq!(wal.wal_state.last_checkpoint_record_id.0, 4);
    wal.move_checkpoint(1, 4);
    assert_eq!(wal.wal_state.last_checkpoint_segment_id.0, 0);
    assert_eq!(wal.wal_state.last_checkpoint_record_id.0, 4);
    assert_eq!(wal.wal_state.last_record_id.0, 4);
    assert_eq!(wal.wal_state.last_segment_id.0, 0);
}

#[test]
fn segments_below_the_checkpoint_can_go() {
    let mut wal = loaded();
    wal.wal_state.last_segment_id = WALSegmentID(5);
    wal.wal_state.last_checkpoint_segment_id = WALSegmentID(3);
    let files: Vec<String> = (0..6u64).map(|i| WALSegmentID::new(i).file_name()).collect();
    let gone = wal.remove_old_wal_segments(&files).unwrap();
    assert_eq!(
        gone,
        vec!["0000000000000000", "0000000000000001", "0000000000000002"]
    );
    assert!(wal.remove_old_wal_segments(&Vec::new()).unwrap().is_empty());
    let mut odd = files.clone();
    odd.push("notes.txt".to_string());
    let err = wal.remove_old_wal_segments(&odd).unwrap_err();
    assert_eq!(err.error_code, ErrorCodes::WALSegmentIDParseError);
    wal.wal_state.last_checkpoint_segment_id = WALSegmentID(0);
    assert!(wal.remove_old_wal_segments(&files).unwrap().is_empty());
}

#[test]
fn file_sizes_are_summed() {
    let wal = loaded();
    assert_eq!(wal.total_file_size(&vec![]), 0);
    assert_eq!(wal.total_file_size(&vec![33554432, 33554432, 7]), 67108871);
    assert_eq!(wal.total_file_size(&vec![u64::MAX, 1]), u64::MAX);
}
