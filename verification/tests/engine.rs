use barus::config::WAL_SEGMENT_SIZE;
use barus::db::{DBEngine, TableFiles};
use barus::disktable::DisktableGetResult;
use barus::errors::ErrorCodes;
use barus::memtable::manager::WriteStep;
use barus::system::SystemInfo;
use barus::wal::state::WALGlobalState;

const FIRST: &str = "0000000000000000";

fn machine(total_memory: u64) -> SystemInfo {
    SystemInfo { total_memory, cpu_count: 2 }
}

fn started(total_memory: u64) -> DBEngine {
    DBEngine::initialize(
        machine(total_memory),
        WALGlobalState::default(),
        FIRST,
        vec![0u8; WAL_SEGMENT_SIZE],
        Vec::new(),
    )
    .unwrap()
}

fn s(text: &str) -> String {
    text.to_string()
}

fn value_of(engine: &DBEngine, table: &str, key: &str) -> Result<String, ErrorCodes> {
    engine.get_value(table, key).map(|found| found.value).map_err(|e| e.error_code)
}

fn files_of(engine: &DBEngine) -> Vec<TableFiles> {
    engine
        .disktable_manager
        .table_names
        .iter()
        .map(|name| {
            let index = engine
                .disktable_manager
                .index_manager
                .names
                .iter()
                .position(|n| n == name)
                .map(|i| &engine.disktable_manager.index_manager.indices[i]);
            let segments = engine
                .disktable_manager
                .segment_manager
                .names
                .iter()
                .position(|n| n == name)
                .map(|i| engine.disktable_manager.segment_manager.tables[i].files.clone())
                .unwrap_or_default();
            TableFiles {
                name: name.clone(),
                index_metadata: index.and_then(|i| i.metadata_file.clone()),
                index_segments: index.map(|i| i.segments.clone()).unwrap_or_default(),
                segments,
            }
        })
        .collect()
}

fn reopened(engine: &DBEngine) -> DBEngine {
    let image = engine.wal_manager.wal_write_handles.mmap.clone();
    let name = engine.wal_manager.wal_state.last_segment_id.file_name();
    let saved = WALGlobalState {
        last_checkpoint_record_id: engine.wal_manager.wal_state.last_checkpoint_record_id,
        last_checkpoint_segment_id: engine.wal_manager.wal_state.last_checkpoint_segment_id,
        ..WALGlobalState::default()
    };
    let mut again = DBEngine::initialize(
        engine.system_info,
        saved,
        &name,
        image.clone(),
        files_of(engine),
    )
    .unwrap();
    again.replay_segment(&name, &image).unwrap();
    again
}

#[test]
fn a_logged_write_survives_a_crash() {
    let mut engine = started(1 << 30);
    engine.create_table("t1").unwrap();
    assert_eq!(engine.put_value(s("t1"), s("k"), s("v1")).unwrap(), WriteStep::Done);
    let again = reopened(&engine);
    assert_eq!(value_of(&again, "t1", "k"), Ok(s("v1")));
    assert_eq!(again.wal_manager.wal_state.last_record_id.0, 1);
    assert_eq!(again.wal_manager.wal_state.last_segment_file_offset, 46);
}

#[test]
fn a_tombstone_shadows_what_was_flushed() {
    let mut engine = started(1 << 30);
    engine.create_table("t").unwrap();
    engine.put_value(s("t"), s("a"), s("1")).unwrap();
    engine.trigger_memtable_flush().unwrap();
    assert_eq!(value_of(&engine, "t", "a"), Ok(s("1")));
    assert_eq!(
        engine.disktable_manager.get("t", "a").unwrap(),
        DisktableGetResult::Found(s("1"))
    );
    assert_eq!(engine.delete_value(s("t"), s("a")).unwrap(), WriteStep::Done);
    assert_eq!(value_of(&engine, "t", "a"), Err(ErrorCodes::ValueNotFound));
    assert_eq!(
        engine.disktable_manager.get("t", "a").unwrap(),
        DisktableGetResult::Found(s("1"))
    );
    let again = reopened(&engine);
    assert_eq!(value_of(&again, "t", "a"), Err(ErrorCodes::ValueNotFound));
    let mut flushed = reopened(&engine);
    flushed.trigger_memtable_flush().unwrap();
    assert_eq!(value_of(&flushed, "t", "a"), Err(ErrorCodes::ValueNotFound));
    assert_eq!(flushed.disktable_manager.get("t", "a").unwrap(), DisktableGetResult::Deleted);
}

#[test]
fn an_overwrite_goes_through_two_flushes() {
    let mut engine = started(1 << 30);
    engine.create_table("t").unwrap();
    engine.put_value(s("t"), s("a"), s("1")).unwrap();
    engine.trigger_memtable_flush().unwrap();
    engine.put_value(s("t"), s("a"), s("2")).unwrap();
    assert_eq!(value_of(&engine, "t", "a"), Ok(s("2")));
    engine.trigger_memtable_flush().unwrap();
    assert_eq!(value_of(&engine, "t", "a"), Ok(s("2")));
    assert_eq!(
        engine.disktable_manager.get("t", "a").unwrap(),
        DisktableGetResult::Found(s("2"))
    );
    assert_eq!(engine.memtable_manager.get_memtable_current_size(), 0);
    let again = reopened(&engine);
    assert_eq!(value_of(&again, "t", "a"), Ok(s("2")));
    assert_eq!(again.memtable_manager.get_memtable_current_size(), 0);
}

#[test]
fn the_flush_moves_the_checkpoint_to_the_end_of_the_log() {
    let mut engine = started(1 << 30);
    engine.create_table("t").unwrap();
    for i in 0..5 {
        engine.put_value(s("t"), format!("k{}", i), s("v")).unwrap();
    }
    assert_eq!(engine.wal_manager.wal_state.last_checkpoint_record_id.0, 0);
    engine.trigger_memtable_flush().unwrap();
    assert_eq!(engine.wal_manager.wal_state.last_checkpoint_record_id.0, 5);
    assert_eq!(engine.wal_manager.wal_state.last_checkpoint_segment_id.0, 0);
    assert_eq!(engine.wal_manager.wal_state.last_record_id.0, 5);
    engine.put_value(s("t"), s("later"), s("v")).unwrap();
    assert_eq!(engine.wal_manager.wal_state.last_checkpoint_record_id.0, 5);
    engine.trigger_memtable_flush().unwrap();
    assert_eq!(engine.wal_manager.wal_state.last_checkpoint_record_id.0, 6);
    engine.trigger_memtable_flush().unwrap();
    assert_eq!(engine.wal_manager.wal_state.last_checkpoint_record_id.0, 6);
    let again = reopened(&engine);
    assert_eq!(again.memtable_manager.get_memtable_current_size(), 0);
    for i in 0..5 {
        assert_eq!(value_of(&again, "t", &format!("k{}", i)), Ok(s("v")));
    }
    assert_eq!(value_of(&again, "t", "later"), Ok(s("v")));
}

#[test]
fn writers_are_held_back_until_the_flush() {
    let mut engine = started(200);
    engine.create_table("t").unwrap();
    assert_eq!(engine.memtable_manager.memtable_size_hard_limit, 100);
    let mut flushes = 0;
    for i in 0..50 {
        let key = format!("key{:02}", i);
        let value = "v".repeat(15);
        loop {
            match engine.put_value(s("t"), key.clone(), value.clone()).unwrap() {
                WriteStep::Done => break,
                WriteStep::Flush => {
                    engine.trigger_memtable_flush().unwrap();
                    flushes += 1;
                }
                WriteStep::Wait => panic!("nothing holds the writers back"),
            }
        }
        assert!(engine.memtable_manager.get_memtable_current_size() <= 100);
    }
    assert!(flushes >= 9);
    assert_eq!(engine.wal_manager.wal_state.last_record_id.0, 50);
    for i in 0..50 {
        assert_eq!(value_of(&engine, "t", &format!("key{:02}", i)), Ok("v".repeat(15)));
    }
    engine.trigger_memtable_flush().unwrap();
    assert_eq!(engine.memtable_manager.get_memtable_current_size(), 0);
    for i in 0..50 {
        assert_eq!(value_of(&engine, "t", &format!("key{:02}", i)), Ok("v".repeat(15)));
    }
    assert_eq!(
        engine.put_value(s("t"), s("k"), "v".repeat(200)).unwrap_err().error_code,
        ErrorCodes::ValueSizeTooLarge
    );
    assert_eq!(engine.wal_manager.wal_state.last_record_id.0, 50);
}

#[test]
fn what_is_asked_for_is_checked_first() {
    let mut engine = started(1 << 30);
    engine.create_table("t").unwrap();
    let code = |r: Result<WriteStep, barus::errors::Errors>| r.unwrap_err().error_code;
    assert_eq!(code(engine.put_value(s(""), s("k"), s("v"))), ErrorCodes::TableNameIsEmpty);
    assert_eq!(code(engine.put_value(s("a b"), s("k"), s("v"))), ErrorCodes::TableNameIsInvalid);
    assert_eq!(code(engine.put_value(s("t"), s(""), s("v"))), ErrorCodes::KeyIsEmpty);
    assert_eq!(
        code(engine.put_value(s("t"), "k".repeat(2000), s("v"))),
        ErrorCodes::KeySizeTooLarge
    );
    assert_eq!(
        code(engine.put_value(s("t"), s("k"), "v".repeat(1048577))),
        ErrorCodes::ValueSizeTooLarge
    );
    assert_eq!(code(engine.delete_value(s("t"), s(""))), ErrorCodes::KeyIsEmpty);
    assert_eq!(engine.wal_manager.wal_state.last_record_id.0, 0);
    assert_eq!(code(engine.put_value(s("nowhere"), s("k"), s("v"))), ErrorCodes::TableNotFound);
    assert_eq!(engine.wal_manager.wal_state.last_record_id.0, 1);
    assert_eq!(code(engine.delete_value(s("nowhere"), s("k"))), ErrorCodes::TableNotFound);
    assert_eq!(value_of(&engine, "", "k"), Err(ErrorCodes::TableNameIsEmpty));
    assert_eq!(value_of(&engine, "t", ""), Err(ErrorCodes::KeyIsEmpty));
    assert_eq!(value_of(&engine, "t", "k"), Err(ErrorCodes::ValueNotFound));
    assert_eq!(value_of(&engine, "nowhere", "k"), Err(ErrorCodes::ValueNotFound));
}

#[test]
fn tables_are_made_and_dropped() {
    let mut engine = started(1 << 30);
    engine.create_table("t").unwrap();
    engine.create_table("u").unwrap();
    assert_eq!(
        engine.create_table("t").unwrap_err().error_code,
        ErrorCodes::TableAlreadyExists
    );
    assert_eq!(
        engine.create_table("bad name").unwrap_err().error_code,
        ErrorCodes::TableNameIsInvalid
    );
    let listed: Vec<String> =
        engine.list_tables().tables.into_iter().map(|t| t.table_name).collect();
    assert_eq!(listed, vec!["t", "u"]);
    assert_eq!(engine.get_table("t").unwrap().name, "t");
    assert_eq!(engine.get_table("x").unwrap_err().error_code, ErrorCodes::TableNotFound);
    assert_eq!(engine.get_table("").unwrap_err().error_code, ErrorCodes::TableNameIsEmpty);
    engine.put_value(s("t"), s("k"), s("value")).unwrap();
    engine.trigger_memtable_flush().unwrap();
    engine.put_value(s("t"), s("k2"), s("12")).unwrap();
    let status = engine.get_db_status(&vec![33554432]);
    assert_eq!(status.table_count, 2);
    assert_eq!(status.memtable_size, 4);
    assert_eq!(status.wal_total_size, 33554432);
    engine.delete_table("t").unwrap();
    engine.delete_table("t").unwrap();
    assert_eq!(engine.get_db_status(&vec![]).table_count, 1);
    assert_eq!(value_of(&engine, "t", "k"), Err(ErrorCodes::ValueNotFound));
    assert_eq!(value_of(&engine, "t", "k2"), Err(ErrorCodes::ValueNotFound));
    engine.create_table("t").unwrap();
    assert_eq!(value_of(&engine, "t", "k"), Err(ErrorCodes::ValueNotFound));
}

#[test]
fn replay_passes_over_what_the_checkpoint_covers() {
    let mut engine = started(1 << 30);
    engine.create_table("t").unwrap();
    engine.put_value(s("t"), s("old"), s("1")).unwrap();
    engine.put_value(s("t"), s("new"), s("2")).unwrap();
    let image = engine.wal_manager.wal_write_handles.mmap.clone();
    let mut covered = WALGlobalState::default();
    covered.last_checkpoint_record_id = barus::wal::record_id::WALRecordID(1);
    let tables = vec![TableFiles {
        name: s("t"),
        index_metadata: None,
        index_segments: Vec::new(),
        segments: Vec::new(),
    }];
    let mut again =
        DBEngine::initialize(machine(1 << 30), covered, FIRST, image.clone(), tables).unwrap();
    again.replay_segment(FIRST, &image).unwrap();
    assert_eq!(value_of(&again, "t", "old"), Err(ErrorCodes::ValueNotFound));
    assert_eq!(value_of(&again, "t", "new"), Ok(s("2")));
    let err = again.replay_segment("wal.tmp", &image).unwrap_err();
    assert_eq!(err.error_code, ErrorCodes::WALSegmentIDParseError);
    let mut later = WALGlobalState::default();
    later.last_checkpoint_segment_id = barus::wal::segment_id::WALSegmentID(1);
    let fresh = vec![TableFiles {
        name: s("t"),
        index_metadata: None,
        index_segments: Vec::new(),
        segments: Vec::new(),
    }];
    let mut skipping = DBEngine::initialize(
        machine(1 << 30),
        later,
        "0000000000000001",
        vec![0u8; WAL_SEGMENT_SIZE],
        fresh,
    )
    .unwrap();
    skipping.replay_segment(FIRST, &image).unwrap();
    assert_eq!(value_of(&skipping, "t", "new"), Err(ErrorCodes::ValueNotFound));
}

#[test]
fn counters_that_contradict_each_other_are_refused() {
    let mut ahead = WALGlobalState::default();
    ahead.last_checkpoint_record_id = barus::wal::record_id::WALRecordID(9);
    let mut writer = started(1 << 30);
    writer.create_table("t").unwrap();
    writer.put_value(s("t"), s("k"), s("v")).unwrap();
    let image = writer.wal_manager.wal_write_handles.mmap.clone();
    let refused = DBEngine::initialize(machine(1), ahead, FIRST, image, Vec::new());
    assert_eq!(refused.err().map(|e| e.error_code), Some(ErrorCodes::WALStateDecodeError));
    let named =
        DBEngine::initialize(machine(1), WALGlobalState::default(), "wal", Vec::new(), Vec::new());
    assert_eq!(named.err().map(|e| e.error_code), Some(ErrorCodes::WALSegmentIDParseError));
}

#[test]
fn a_flush_changes_no_answer() {
    let mut engine = started(1 << 30);
    engine.create_table("t").unwrap();
    engine.create_table("u").unwrap();
    let count = 300u32;
    for n in 0..count {
        let step = engine.put_value(s("t"), format!("key{:04}", n), format!("first{}", n)).unwrap();
        assert_eq!(step, WriteStep::Done);
    }
    engine.put_value(s("u"), s("key0001"), s("other")).unwrap();
    engine.delete_value(s("t"), s("never")).unwrap();
    engine.trigger_memtable_flush().unwrap();
    for n in (0..count).step_by(3) {
        engine.put_value(s("t"), format!("key{:04}", n), format!("second{}", n)).unwrap();
    }
    for n in (0..count).step_by(7) {
        engine.delete_value(s("t"), format!("key{:04}", n)).unwrap();
    }
    let mut keys: Vec<String> = (0..count).map(|n| format!("key{:04}", n)).collect();
    keys.push(s("never"));
    keys.push(s("unknown"));
    let before: Vec<_> = keys.iter().map(|k| value_of(&engine, "t", k)).collect();
    let other = value_of(&engine, "u", "key0001");
    engine.trigger_memtable_flush().unwrap();
    let after: Vec<_> = keys.iter().map(|k| value_of(&engine, "t", k)).collect();
    assert_eq!(after, before);
    assert_eq!(value_of(&engine, "u", "key0001"), other);
    assert_eq!(other, Ok(s("other")));
    assert_eq!(value_of(&engine, "t", "key0000"), Err(ErrorCodes::ValueNotFound));
    assert_eq!(value_of(&engine, "t", "key0003"), Ok(s("second3")));
    assert_eq!(value_of(&engine, "t", "key0001"), Ok(s("first1")));
    assert_eq!(engine.disktable_manager.get("t", "key0001").unwrap(), DisktableGetResult::Found(s("first1")));
    assert_eq!(engine.disktable_manager.get("t", "key0007").unwrap(), DisktableGetResult::Deleted);
    assert_eq!(engine.disktable_manager.get("t", "never").unwrap(), DisktableGetResult::NotFound);
}

#[test]
fn a_flush_of_nothing_and_of_deletions_does_not_fail() {
    let mut engine = started(1 << 30);
    engine.create_table("t").unwrap();
    engine.drain_flushing().unwrap();
    engine.trigger_memtable_flush().unwrap();
    engine.put_value(s("t"), s("a"), s("1")).unwrap();
    engine.trigger_memtable_flush().unwrap();
    engine.delete_value(s("t"), s("a")).unwrap();
    engine.delete_value(s("t"), s("b")).unwrap();
    engine.trigger_memtable_flush().unwrap();
    assert_eq!(value_of(&engine, "t", "a"), Err(ErrorCodes::ValueNotFound));
    assert_eq!(engine.disktable_manager.get("t", "a").unwrap(), DisktableGetResult::Deleted);
    assert_eq!(engine.disktable_manager.get("t", "b").unwrap(), DisktableGetResult::NotFound);
    assert_eq!(engine.memtable_manager.flushing_names.len(), 0);
}

#[test]
fn what_was_logged_is_read_after_a_restart_with_tables_on_the_disk() {
    let mut engine = started(1 << 30);
    engine.create_table("t").unwrap();
    engine.put_value(s("t"), s("a"), s("1")).unwrap();
    engine.put_value(s("t"), s("b"), s("2")).unwrap();
    engine.trigger_memtable_flush().unwrap();
    engine.delete_value(s("t"), s("a")).unwrap();
    engine.put_value(s("t"), s("b"), s("3")).unwrap();
    engine.put_value(s("t"), s("c"), s("4")).unwrap();
    engine.put_value(s("t"), s("c"), s("5")).unwrap();
    let again = reopened(&engine);
    assert_eq!(value_of(&again, "t", "a"), Err(ErrorCodes::ValueNotFound));
    assert_eq!(value_of(&again, "t", "b"), Ok(s("3")));
    assert_eq!(value_of(&again, "t", "c"), Ok(s("5")));
    assert_eq!(again.disktable_manager.get("t", "a").unwrap(), DisktableGetResult::Found(s("1")));
    assert_eq!(again.disktable_manager.get("t", "b").unwrap(), DisktableGetResult::Found(s("2")));
}
