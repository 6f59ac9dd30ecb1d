use barus::disktable::segment::encode::TableRecordBincodeCodec;
use barus::disktable::segment::position::TableRecordPosition;
use barus::disktable::segment::segment_id::TableSegmentID;
use barus::disktable::{DiskTableManager, DisktableGetResult};
use barus::errors::ErrorCodes;
use barus::memtable::HashMemtable;

fn s(text: &str) -> String {
    text.to_string()
}

fn place(segment: u64, offset: u32) -> TableRecordPosition {
    TableRecordPosition { segment_id: TableSegmentID(segment), offset }
}

#[test]
fn a_deletion_of_a_key_that_the_disk_does_not_know_changes_nothing() {
    let mut disk = DiskTableManager::new(TableRecordBincodeCodec);
    disk.write_entry("t", &s("a"), &None).unwrap();
    assert_eq!(disk.get("t", "a").unwrap(), DisktableGetResult::NotFound);
    assert!(disk.index_manager.names.is_empty());
    assert!(disk.segment_manager.names.is_empty());
}

#[test]
fn a_write_fails_where_the_old_record_cannot_be_marked() {
    let mut disk = DiskTableManager::new(TableRecordBincodeCodec);
    disk.index_manager.add_record("t", "a", &place(1, 0)).unwrap();
    let err = disk.write_entry("t", &s("a"), &None).unwrap_err();
    assert_eq!(err.error_code, ErrorCodes::TableSegmentFileOpenError);
    let err = disk.write_entry("t", &s("a"), &Some(s("v"))).unwrap_err();
    assert_eq!(err.error_code, ErrorCodes::TableSegmentFileOpenError);
    assert_eq!(disk.index_manager.find_record("t", "a").unwrap(), Some(place(1, 0)));
    assert!(disk.segment_manager.names.is_empty());

    disk.write_entry("t", &s("b"), &Some(s("v"))).unwrap();
    assert_eq!(disk.get("t", "b").unwrap(), DisktableGetResult::Found(s("v")));
    disk.index_manager.add_record("t", "c", &place(1, 2_000_000)).unwrap();
    let err = disk.write_entry("t", &s("c"), &None).unwrap_err();
    assert_eq!(err.error_code, ErrorCodes::FileWriteError);
    disk.index_manager.add_record("t", "d", &place(7, 0)).unwrap();
    let err = disk.write_entry("t", &s("d"), &None).unwrap_err();
    assert_eq!(err.error_code, ErrorCodes::TableSegmentFileOpenError);
    assert_eq!(disk.get("t", "b").unwrap(), DisktableGetResult::Found(s("v")));
}

#[test]
fn a_deletion_marks_the_record_and_leaves_the_index() {
    let mut disk = DiskTableManager::new(TableRecordBincodeCodec);
    disk.write_entry("t", &s("a"), &Some(s("1"))).unwrap();
    disk.write_entry("t", &s("b"), &Some(s("2"))).unwrap();
    let at = disk.index_manager.find_record("t", "a").unwrap();
    disk.write_entry("t", &s("a"), &None).unwrap();
    assert_eq!(disk.index_manager.find_record("t", "a").unwrap(), at);
    assert_eq!(disk.get("t", "a").unwrap(), DisktableGetResult::Deleted);
    assert_eq!(disk.get("t", "b").unwrap(), DisktableGetResult::Found(s("2")));
}

#[test]
fn a_value_that_fits_no_page_is_not_written() {
    let mut disk = DiskTableManager::new(TableRecordBincodeCodec);
    let long = "x".repeat(1_048_576);
    let err = disk.write_entry("t", &s("a"), &Some(long)).unwrap_err();
    assert_eq!(err.error_code, ErrorCodes::TableSegmentFileWriteError);
    assert_eq!(disk.get("t", "a").unwrap(), DisktableGetResult::NotFound);
}

#[test]
fn a_generation_without_keys_changes_nothing() {
    let mut disk = DiskTableManager::new(TableRecordBincodeCodec);
    disk.write_memtable(&Vec::new(), &Vec::new()).unwrap();
    disk.write_memtable(&vec![s("t"), s("u")], &vec![HashMemtable::new(), HashMemtable::new()])
        .unwrap();
    assert!(disk.index_manager.names.is_empty());
    assert!(disk.segment_manager.names.is_empty());
    assert!(disk.table_names.is_empty());
}

#[test]
fn a_generation_of_deletions_is_brought_to_the_disk_without_a_failure() {
    let mut disk = DiskTableManager::new(TableRecordBincodeCodec);
    let mut first = HashMemtable::new();
    first.put(s("a"), s("1"));
    first.put(s("b"), s("2"));
    disk.write_memtable(&vec![s("t")], &vec![first]).unwrap();
    let a = disk.index_manager.find_record("t", "a").unwrap();
    let b = disk.index_manager.find_record("t", "b").unwrap();
    let mut gone = HashMemtable::new();
    gone.delete("a");
    gone.delete("never");
    let mut other = HashMemtable::new();
    other.delete("a");
    disk.write_memtable(&vec![s("t"), s("u")], &vec![gone, other]).unwrap();
    assert_eq!(disk.index_manager.find_record("t", "a").unwrap(), a);
    assert_eq!(disk.index_manager.find_record("t", "b").unwrap(), b);
    assert_eq!(disk.get("t", "a").unwrap(), DisktableGetResult::Deleted);
    assert_eq!(disk.get("t", "b").unwrap(), DisktableGetResult::Found(s("2")));
    assert_eq!(disk.get("t", "never").unwrap(), DisktableGetResult::NotFound);
    assert_eq!(disk.get("u", "a").unwrap(), DisktableGetResult::NotFound);
}
