use vstd::prelude::*;
use crate::bytes::byte_len;
use crate::disktable::segment::encode::TableRecordBincodeCodec;
use crate::disktable::{DiskTableManager, DisktableGetResult, TableInfo};
use crate::errors::{failure, ErrorCodes, Errors};
use crate::memtable::manager::{MemtableManager, WriteStep};
use crate::memtable::{reading, MemtableGetResult, Reading};
use crate::system::SystemInfo;
use crate::validate::{
    key_fault, table_name_fault, validate_key, validate_table_name, validate_value, value_fault,
};
use crate::wal::encode::WALRecordBincodeCodec;
use crate::wal::record::{RecordType, WALPayload, WALRecord, WALRecordView};
use crate::wal::segment_id::WALSegmentID;
use crate::wal::state::WALGlobalState;
use crate::wal::WALManager;

verus! {

/// The value found for a key.
#[derive(Debug, Clone)]
pub struct GetResponse {
    pub value: String,
}

/// One table in a list of tables.
#[derive(Debug, Clone)]
pub struct ListTablesResponseItem {
    pub table_name: String,
}

/// The tables of the engine.
#[derive(Debug, Clone)]
pub struct ListTablesResponse {
    pub tables: Vec<ListTablesResponseItem>,
}

/// How the engine stands: the bytes counted for the memtables, the number of
/// tables on the disk, and the size of the log's segment files.
#[derive(Debug, Clone, Copy, PartialEq, Eq, Structural)]
pub struct DBStatusResponse {
    pub memtable_size: u64,
    pub table_count: usize,
    pub wal_total_size: u64,
}

/// The engine: the log, the memtables and the tables on the disk.
///
/// `pending_checkpoint` holds, while a flushing generation is on its way to
/// the disk, the last segment and record of the log at the moment the
/// generation was split off: the checkpoint moves there once the generation
/// is on the disk.
pub struct DBEngine {
    pub system_info: SystemInfo,
    pub wal_manager: WALManager<WALRecordBincodeCodec>,
    pub memtable_manager: MemtableManager,
    pub disktable_manager: DiskTableManager<TableRecordBincodeCodec>,
    pub pending_checkpoint: Option<(u64, u64)>,
}

/// What the memtables say of a key: what the active generation holds for it,
/// else what the flushing generation holds; unknown where neither knows it.
pub open spec fn memtable_reading(m: MemtableManager, table: Seq<char>, key: Seq<char>) -> Reading {
    let active = match m.active(table) {
        Some(held) => reading(held, key),
        None => Reading::NotFound,
    };
    if active != Reading::NotFound {
        active
    } else {
        match m.flushing(table) {
            Some(held) => reading(held, key),
            None => Reading::NotFound,
        }
    }
}

/// What a reader gets: the value of a key, nothing for a key that is not
/// known or deleted; and no answer where the disk cannot be read.
pub open spec fn answer(reading: Option<Reading>) -> Option<Option<Seq<char>>> {
    match reading {
        Some(Reading::Found(v)) => Some(Some(v)),
        Some(_) => Some(None),
        None => None,
    }
}

/// What a reader gets for a key of a table after a record of the log was
/// applied, given what the reader got before: the value of a put, or an
/// empty one where the record has none, under the record's key; nothing
/// under the key of a deletion for a table that the memtables know; and what
/// the reader got before in every other case.
pub open spec fn applied(
    record: WALRecordView,
    known: bool,
    table: Seq<char>,
    key: Seq<char>,
    before: Option<Option<Seq<char>>>,
) -> Option<Option<Seq<char>>> {
    if table == record.table && key == record.key {
        match record.record_type {
            RecordType::Put => Some(
                Some(
                    match record.value {
                        Some(v) => v,
                        None => Seq::empty(),
                    },
                ),
            ),
            RecordType::Delete => if known {
                Some(None)
            } else {
                before
            },
            RecordType::Truncate => before,
        }
    } else {
        before
    }
}

/// What the engine says of a key of a table after a record of the log was
/// applied to the memtables, given what it said before: the value of a put,
/// or an empty one where the record has none, under the record's key; that
/// the key is deleted under the key of a deletion for a table that the
/// memtables know; and what it said before in every other case.
pub open spec fn applied_reading(
    record: WALRecordView,
    known: bool,
    table: Seq<char>,
    key: Seq<char>,
    before: Option<Reading>,
) -> Option<Reading> {
    if table == record.table && key == record.key {
        match record.record_type {
            RecordType::Put => Some(
                Reading::Found(
                    match record.value {
                        Some(v) => v,
                        None => Seq::empty(),
                    },
                ),
            ),
            RecordType::Delete => if known {
                Some(Reading::Deleted)
            } else {
                before
            },
            RecordType::Truncate => before,
        }
    } else {
        before
    }
}

/// The bytes that the memtables count for a put: those of its key and of
/// its value.
pub open spec fn put_bytes(record: WALRecordView) -> int {
    (byte_len(record.key) + byte_len(
        match record.value {
            Some(v) => v,
            None => Seq::empty(),
        },
    )) as int
}

/// The bytes that the memtables count for the puts among the first `upto`
/// records that have a number above `checkpoint`.
pub open spec fn replay_bytes(records: Seq<WALRecordView>, upto: int, checkpoint: u64) -> int
    decreases upto,
{
    if upto <= 0 {
        0
    } else {
        replay_bytes(records, upto - 1, checkpoint) + (if records[upto - 1].record_id > checkpoint
            && records[upto - 1].record_type == RecordType::Put {
            put_bytes(records[upto - 1])
        } else {
            0
        })
    }
}

/// The bytes counted never go down as more records are gone through.
pub proof fn lemma_replay_bytes_grow(
    records: Seq<WALRecordView>,
    from: int,
    upto: int,
    checkpoint: u64,
)
    requires
        0 <= from <= upto,
    ensures
        0 <= replay_bytes(records, from, checkpoint) <= replay_bytes(records, upto, checkpoint),
    decreases upto,
{
    if from < upto {
        lemma_replay_bytes_grow(records, from, upto - 1, checkpoint);
    } else if from > 0 {
        lemma_replay_bytes_grow(records, from - 1, from - 1, checkpoint);
    }
}

/// Whether the memtables know the table of every put among the records that
/// have a number above `checkpoint`.
pub open spec fn replay_known(
    records: Seq<WALRecordView>,
    checkpoint: u64,
    names: Seq<String>,
) -> bool {
    forall|i: int|
        0 <= i < records.len() && (#[trigger] records[i]).record_id > checkpoint
            && records[i].record_type == RecordType::Put ==> crate::names::listed(
            names,
            records[i].table,
        )
}

/// What the engine says of a key of a table after the first `upto` records
/// were gone through and those with a number above `checkpoint` applied to
/// the memtables.
pub open spec fn replayed_reading(
    records: Seq<WALRecordView>,
    upto: int,
    checkpoint: u64,
    names: Seq<String>,
    table: Seq<char>,
    key: Seq<char>,
    start: Option<Reading>,
) -> Option<Reading>
    decreases upto,
{
    if upto <= 0 {
        start
    } else {
        let before = replayed_reading(records, upto - 1, checkpoint, names, table, key, start);
        if records[upto - 1].record_id > checkpoint {
            applied_reading(
                records[upto - 1],
                crate::names::listed(names, records[upto - 1].table),
                table,
                key,
                before,
            )
        } else {
            before
        }
    }
}

/// Replaying a log to the memtables makes the engine say of a key what the
/// last record says that speaks of the key and has a number above the
/// checkpoint, whatever the disk holds: the value of a put, and that the key
/// is deleted for a deletion in a table that is known.
pub proof fn lemma_replay_latest_reading(
    records: Seq<WALRecordView>,
    checkpoint: u64,
    names: Seq<String>,
    at: int,
    start: Option<Reading>,
)
    requires
        0 <= at < records.len(),
        records[at].record_id > checkpoint,
        forall|i: int|
            at < i < records.len() && records[i].record_id > checkpoint ==> (
            #[trigger] records[i]).table != records[at].table || records[i].key
                != records[at].key,
    ensures
        replayed_reading(
            records,
            records.len() as int,
            checkpoint,
            names,
            records[at].table,
            records[at].key,
            start,
        ) == applied_reading(
            records[at],
            crate::names::listed(names, records[at].table),
            records[at].table,
            records[at].key,
            replayed_reading(
                records,
                at,
                checkpoint,
                names,
                records[at].table,
                records[at].key,
                start,
            ),
        ),
{
    lemma_replay_reading_from(records, checkpoint, names, at, records.len() as int, start);
}

/// From the record at `at` on, no record up to place `upto` changes what
/// the engine says of the key of that record, as long as none of them speaks
/// of the key.
pub proof fn lemma_replay_reading_from(
    records: Seq<WALRecordView>,
    checkpoint: u64,
    names: Seq<String>,
    at: int,
    upto: int,
    start: Option<Reading>,
)
    requires
        0 <= at < upto <= records.len(),
        records[at].record_id > checkpoint,
        forall|i: int|
            at < i < upto && records[i].record_id > checkpoint ==> (#[trigger] records[i]).table
                != records[at].table || records[i].key != records[at].key,
    ensures
        replayed_reading(
            records,
            upto,
            checkpoint,
            names,
            records[at].table,
            records[at].key,
            start,
        ) == replayed_reading(
            records,
            at + 1,
            checkpoint,
            names,
            records[at].table,
            records[at].key,
            start,
        ),
    decreases upto - at,
{
    if upto > at + 1 {
        lemma_replay_reading_from(records, checkpoint, names, at, upto - 1, start);
        let last = records[upto - 1];
        if last.record_id > checkpoint {
            assert(last.table != records[at].table || last.key != records[at].key);
        }
    }
}

/// What a reader gets for a key of a table after the first `upto` records
/// were gone through and those with a number above `checkpoint` applied.
pub open spec fn replayed(
    records: Seq<WALRecordView>,
    upto: int,
    checkpoint: u64,
    names: Seq<String>,
    table: Seq<char>,
    key: Seq<char>,
    start: Option<Option<Seq<char>>>,
) -> Option<Option<Seq<char>>>
    decreases upto,
{
    if upto <= 0 {
        start
    } else {
        let before = replayed(records, upto - 1, checkpoint, names, table, key, start);
        if records[upto - 1].record_id > checkpoint {
            applied(
                records[upto - 1],
                crate::names::listed(names, records[upto - 1].table),
                table,
                key,
                before,
            )
        } else {
            before
        }
    }
}

/// Replaying a log gives for a key what the last record says that speaks
/// of the key and has a number above the checkpoint: the value of a put, or
/// an empty one where the record has none, and nothing for a deletion in a
/// table that is known.
pub proof fn lemma_replay_latest(
    records: Seq<WALRecordView>,
    checkpoint: u64,
    names: Seq<String>,
    at: int,
    start: Option<Option<Seq<char>>>,
)
    requires
        0 <= at < records.len(),
        records[at].record_id > checkpoint,
        forall|i: int|
            at < i < records.len() && records[i].record_id > checkpoint ==> (
            #[trigger] records[i]).table != records[at].table || records[i].key
                != records[at].key,
    ensures
        replayed(
            records,
            records.len() as int,
            checkpoint,
            names,
            records[at].table,
            records[at].key,
            start,
        ) == applied(
            records[at],
            crate::names::listed(names, records[at].table),
            records[at].table,
            records[at].key,
            replayed(records, at, checkpoint, names, records[at].table, records[at].key, start),
        ),
{
    lemma_replay_from(records, checkpoint, names, at, records.len() as int, start);
}

/// From the record at `at` on, no record up to place `upto` changes what
/// is read for the key of that record, as long as none of them speaks of the
/// key.
pub proof fn lemma_replay_from(
    records: Seq<WALRecordView>,
    checkpoint: u64,
    names: Seq<String>,
    at: int,
    upto: int,
    start: Option<Option<Seq<char>>>,
)
    requires
        0 <= at < upto <= records.len(),
        records[at].record_id > checkpoint,
        forall|i: int|
            at < i < upto && records[i].record_id > checkpoint ==> (#[trigger] records[i]).table
                != records[at].table || records[i].key != records[at].key,
    ensures
        replayed(records, upto, checkpoint, names, records[at].table, records[at].key, start)
            == replayed(
            records,
            at + 1,
            checkpoint,
            names,
            records[at].table,
            records[at].key,
            start,
        ),
    decreases upto - at,
{
    if upto > at + 1 {
        lemma_replay_from(records, checkpoint, names, at, upto - 1, start);
        let last = records[upto - 1];
        if last.record_id > checkpoint {
            assert(last.table != records[at].table || last.key != records[at].key);
        }
    }
}

/// The record that a write is logged with, before the log gives it a number.
pub open spec fn logged(kind: RecordType, table: Seq<char>, key: Seq<char>, value: Option<Seq<char>>) -> WALRecordView {
    WALRecordView { record_id: 0, record_type: kind, table, key, value }
}

impl DBEngine {
    /// An engine that holds nothing: a log with no open segment, no
    /// memtables and no tables on the disk.
    pub fn new(system_info: SystemInfo) -> (engine: Self)
        ensures
            engine.wf(),
            engine.system_info == system_info,
            engine.pending_checkpoint is None,
            engine.wal_manager.codec == WALRecordBincodeCodec,
            engine.wal_manager.wal_state == crate::wal::state::fresh_state(),
            engine.wal_manager.image().len() == 0,
            engine.memtable_manager.names@.len() == 0,
            engine.memtable_manager.flushing_names@.len() == 0,
            engine.memtable_manager.memtable_current_size == 0,
            engine.disktable_manager.table_names@.len() == 0,
            engine.kept(),
    {
        DBEngine {
            system_info,
            wal_manager: WALManager::new(WALRecordBincodeCodec),
            memtable_manager: MemtableManager::new(&system_info),
            disktable_manager: DiskTableManager::new(TableRecordBincodeCodec),
            pending_checkpoint: None,
        }
    }

    /// Whether the parts are in order and a pending checkpoint lies between
    /// the checkpoint and the end of the log, with no record appended to a
    /// segment below it that has a number above it.
    pub open spec fn wf(&self) -> bool {
        &&& self.wal_manager.wf()
        &&& self.memtable_manager.wf()
        &&& self.disktable_manager.wf()
        &&& match self.pending_checkpoint {
            Some(target) => {
                &&& self.wal_manager.wal_state.last_checkpoint_segment_id.0 <= target.0
                    <= self.wal_manager.wal_state.last_segment_id.0
                &&& self.wal_manager.wal_state.last_checkpoint_record_id.0 <= target.1
                    <= self.wal_manager.wal_state.last_record_id.0
                &&& forall|i: int|
                    0 <= i < self.wal_manager.appended@.len() && (
                    #[trigger] self.wal_manager.appended@[i]).0 < target.0
                        ==> self.wal_manager.appended@[i].1 <= target.1
            },
            None => true,
        }
    }

    /// Whether every table on the disk is kept: its index is sound and
    /// names, for each key that it holds, a record with that key that was
    /// appended to the table's segments. An engine that starts with nothing
    /// on the disk keeps its tables through every write and flush that
    /// succeeds.
    pub open spec fn kept(&self) -> bool {
        forall|table: Seq<char>| #[trigger] self.disktable_manager.kept(table)
    }

    /// What the engine says of a key of a table: what the memtables say
    /// where they know the key, else what the disk says; nothing where the
    /// disk cannot be read.
    pub open spec fn reading(&self, table: Seq<char>, key: Seq<char>) -> Option<Reading> {
        if memtable_reading(self.memtable_manager, table, key) != Reading::NotFound {
            Some(memtable_reading(self.memtable_manager, table, key))
        } else {
            self.disktable_manager.disk_reading(table, key)
        }
    }

    /// Tells how the engine stands, given the sizes of the log's segment files.
    pub fn get_db_status(&self, wal_file_sizes: &Vec<u64>) -> (status: DBStatusResponse)
        ensures
            status.memtable_size == self.memtable_manager.memtable_current_size,
            status.table_count == self.disktable_manager.table_names@.len(),
            status.wal_total_size == if crate::wal::total(wal_file_sizes@) > u64::MAX {
                u64::MAX as int
            } else {
                crate::wal::total(wal_file_sizes@)
            },
    {
        DBStatusResponse {
            table_count: self.disktable_manager.table_names.len(),
            memtable_size: self.memtable_manager.get_memtable_current_size(),
            wal_total_size: self.wal_manager.total_file_size(wal_file_sizes),
        }
    }

    /// Lists the tables that have a memtable.
    pub fn list_tables(&self) -> (list: ListTablesResponse)
        ensures
            list.tables@.len() == self.memtable_manager.names@.len(),
            forall|i: int|
                0 <= i < list.tables@.len() ==> (#[trigger] list.tables@[i]).table_name@
                    == self.memtable_manager.names@[i]@,
    {
        let names = self.memtable_manager.list_tables();
        let mut tables: Vec<ListTablesResponseItem> = Vec::new();
        let mut i: usize = 0;
        while i < names.len()
            invariant
                i <= names.len(),
                tables@.len() == i,
                names@.len() == self.memtable_manager.names@.len(),
                forall|j: int|
                    0 <= j < names@.len() ==> (#[trigger] names@[j])@
                        == self.memtable_manager.names@[j]@,
                forall|j: int| 0 <= j < i ==> (#[trigger] tables@[j]).table_name@ == names@[j]@,
            decreases names.len() - i,
        {
            tables.push(ListTablesResponseItem { table_name: names[i].clone() });
            i += 1;
        }
        ListTablesResponse { tables }
    }

    /// Tells what is kept of a table. It fails for a name that is not valid
    /// and for a table that is not there.
    pub fn get_table(&self, table: &str) -> (r: Result<TableInfo, Errors>)
        ensures
            match table_name_fault(vstd::utf8::encode_utf8(table@)) {
                Some(fault) => failure(r) == Some(fault),
                None => match r {
                    Ok(info) => crate::names::listed(self.disktable_manager.table_names@, table@)
                        && info.name@ == table@,
                    Err(e) => e.error_code == ErrorCodes::TableNotFound && !crate::names::listed(
                        self.disktable_manager.table_names@,
                        table@,
                    ),
                },
            },
    {
        match validate_table_name(table) {
            Ok(_) => {},
            Err(e) => { return Err(e); },
        }
        self.disktable_manager.get_table(table)
    }

    /// Makes a table: on the disk, where it must not be there yet, and among
    /// the memtables.
    pub fn create_table(&mut self, table: &str) -> (r: Result<(), Errors>)
        requires
            old(self).wf(),
        ensures
            final(self).wf(),
            final(self).wal_manager == old(self).wal_manager,
            final(self).pending_checkpoint == old(self).pending_checkpoint,
            old(self).kept() ==> final(self).kept(),
            match table_name_fault(vstd::utf8::encode_utf8(table@)) {
                Some(fault) => failure(r) == Some(fault) && *final(self) == *old(self),
                None => if crate::names::listed(old(self).disktable_manager.table_names@, table@) {
                    failure(r) == Some(ErrorCodes::TableAlreadyExists) && *final(self) == *old(self)
                } else {
                    &&& r is Ok
                    &&& crate::names::listed(final(self).disktable_manager.table_names@, table@)
                    &&& final(self).memtable_manager.active(table@) is Some
                },
            },
    {
        match validate_table_name(table) {
            Ok(_) => {},
            Err(e) => { return Err(e); },
        }
        match self.disktable_manager.create_table(table) {
            Ok(_) => {},
            Err(e) => { return Err(e); },
        }
        self.memtable_manager.create_table(table);
        proof {
            let names = self.disktable_manager.table_names@;
            assert(names[names.len() - 1]@ == table@);
            if old(self).kept() {
                assert forall|other: Seq<char>| #[trigger]
                    self.disktable_manager.kept(other) by {
                    assert(old(self).disktable_manager.kept(other));
                    assert(self.disktable_manager.notes_of(other) == old(self).disktable_manager.notes_of(other));
                }
            }
        }
        Ok(())
    }

    /// Drops a table from the disk and from the memtables. A table that is
    /// not there is no failure.
    pub fn delete_table(&mut self, table: &str) -> (r: Result<(), Errors>)
        requires
            old(self).wf(),
        ensures
            final(self).wf(),
            final(self).wal_manager == old(self).wal_manager,
            final(self).pending_checkpoint == old(self).pending_checkpoint,
            old(self).kept() ==> final(self).kept(),
            match table_name_fault(vstd::utf8::encode_utf8(table@)) {
                Some(fault) => failure(r) == Some(fault) && *final(self) == *old(self),
                None => {
                    &&& r is Ok
                    &&& !crate::names::listed(final(self).disktable_manager.table_names@, table@)
                    &&& final(self).memtable_manager.active(table@) is None
                },
            },
    {
        match validate_table_name(table) {
            Ok(_) => {},
            Err(e) => { return Err(e); },
        }
        self.disktable_manager.delete_table(table);
        self.memtable_manager.delete_table(table);
        proof {
            if old(self).kept() {
                assert forall|other: Seq<char>| #[trigger]
                    self.disktable_manager.kept(other) by {
                    assert(old(self).disktable_manager.kept(other));
                    if other != table@ {
                        assert(self.disktable_manager.index_manager.index(other) == old(self).disktable_manager.index_manager.index(other));
                        assert(self.disktable_manager.segment_manager.table(other) == old(self).disktable_manager.segment_manager.table(other));
                        assert(self.disktable_manager.notes_of(other) == old(self).disktable_manager.notes_of(other));
                    }
                }
            }
        }
        Ok(())
    }

    /// Gets the value of a key of a table: from the active memtables, else
    /// from the flushing ones, else from the disk. A key that is marked as
    /// deleted in the first place that knows it has no value, whatever the
    /// places behind it hold.
    pub fn get_value(&self, table: &str, key: &str) -> (r: Result<GetResponse, Errors>)
        ensures
            match table_name_fault(vstd::utf8::encode_utf8(table@)) {
                Some(fault) => failure(r) == Some(fault),
                None => match key_fault(byte_len(key@)) {
                    Some(fault) => failure(r) == Some(fault),
                    None => match self.reading(table@, key@) {
                        Some(Reading::Found(v)) => r matches Ok(found) && found.value@ == v,
                        Some(_) => failure(r) == Some(ErrorCodes::ValueNotFound),
                        None => r is Err,
                    },
                },
            },
    {
        match validate_table_name(table) {
            Ok(_) => {},
            Err(e) => { return Err(e); },
        }
        match validate_key(key) {
            Ok(_) => {},
            Err(e) => { return Err(e); },
        }
        match self.memtable_manager.get(table, key) {
            MemtableGetResult::Deleted => {
                return Err(Errors::new(ErrorCodes::ValueNotFound));
            },
            MemtableGetResult::Found(value) => {
                return Ok(GetResponse { value });
            },
            MemtableGetResult::NotFound => {},
        }
        match self.memtable_manager.get_from_flushing(table, key) {
            MemtableGetResult::Deleted => {
                return Err(Errors::new(ErrorCodes::ValueNotFound));
            },
            MemtableGetResult::Found(value) => {
                return Ok(GetResponse { value });
            },
            MemtableGetResult::NotFound => {},
        }
        match self.disktable_manager.get(table, key) {
            Ok(DisktableGetResult::Found(value)) => Ok(GetResponse { value }),
            Ok(_) => Err(Errors::new(ErrorCodes::ValueNotFound)),
            Err(e) => Err(e),
        }
    }

    /// Whether the memtables take a write of `bytes` bytes now: writes are
    /// not held back and the count stays at or below the hard limit.
    pub open spec fn admits(&self, bytes: int) -> bool {
        !self.memtable_manager.block_write && self.memtable_manager.memtable_current_size + bytes
            <= self.memtable_manager.memtable_size_hard_limit
    }

    /// Whether a record is applied to the memtables without a flush: it is
    /// no put, or the memtables take the bytes of the put now.
    pub open spec fn applies_quietly(&self, record: WALRecordView) -> bool {
        record.record_type != RecordType::Put || self.admits(put_bytes(record))
    }

    /// Whether records are replayed without a flush: writes are not held
    /// back, and the memtables take the bytes of all the puts among them that
    /// have a number above `checkpoint`.
    pub open spec fn replays_quietly(&self, records: Seq<WALRecordView>, checkpoint: u64) -> bool {
        self.admits(replay_bytes(records, records.len() as int, checkpoint))
    }

    /// Puts a value under a key of a table. Table, key and value are checked
    /// first. A write whose key and value alone take more bytes than the
    /// memtables may hold is refused. While the memtables do not take the
    /// write the writer is told to wait or to ask for a flush, and nothing
    /// happens. Else the write is logged and then made in the active
    /// memtable.
    ///
    /// After a write that is done the engine gives the value for the key, and
    /// for every other key what it gave before. Reading a log that was in
    /// step with its counters gives afterwards the records it gave before and
    /// then the record of this write, or that record alone in a new segment.
    pub fn put_value(&mut self, table: String, key: String, value: String) -> (r: Result<
        WriteStep,
        Errors,
    >)
        requires
            old(self).wf(),
        ensures
            final(self).wf(),
            final(self).disktable_manager == old(self).disktable_manager,
            final(self).pending_checkpoint == old(self).pending_checkpoint,
            match table_name_fault(vstd::utf8::encode_utf8(table@)) {
                Some(fault) => failure(r) == Some(fault) && *final(self) == *old(self),
                None => match key_fault(byte_len(key@)) {
                    Some(fault) => failure(r) == Some(fault) && *final(self) == *old(self),
                    None => match value_fault(byte_len(value@)) {
                        Some(fault) => failure(r) == Some(fault) && *final(self) == *old(self),
                        None => if old(self).memtable_manager.block_write {
                            r == Ok::<WriteStep, Errors>(WriteStep::Wait) && *final(self) == *old(self)
                        } else if byte_len(key@) + byte_len(value@) > old(self).memtable_manager.memtable_size_hard_limit {
                            failure(r) == Some(ErrorCodes::ValueSizeTooLarge) && *final(self)
                                == *old(self)
                        } else if !old(self).admits((byte_len(key@) + byte_len(value@)) as int) {
                            r == Ok::<WriteStep, Errors>(WriteStep::Flush) && *final(self) == *old(self)
                        } else if !old(self).wal_manager.can_append(
                            logged(RecordType::Put, table@, key@, Some(value@)),
                        ) {
                            r is Err && final(self).memtable_manager == old(self).memtable_manager
                        } else {
                            &&& final(self).wal_manager.wal_state.last_record_id.0 == old(self).wal_manager.wal_state.last_record_id.0 + 1
                            &&& old(self).wal_manager.synced() || old(self).wal_manager.rotates(
                                logged(RecordType::Put, table@, key@, Some(value@)),
                            ) ==> {
                                &&& final(self).wal_manager.synced()
                                &&& final(self).wal_manager.records() == (if old(self).wal_manager.rotates(
                                    logged(RecordType::Put, table@, key@, Some(value@)),
                                ) {
                                    Seq::<WALRecordView>::empty()
                                } else {
                                    old(self).wal_manager.records()
                                }).push(
                                    crate::wal::stamped(
                                        logged(RecordType::Put, table@, key@, Some(value@)),
                                        final(self).wal_manager.wal_state.last_record_id.0,
                                    ),
                                )
                            }
                            &&& match old(self).memtable_manager.active(table@) {
                                None => failure(r) == Some(ErrorCodes::TableNotFound),
                                Some(held) => {
                                    &&& r == Ok::<WriteStep, Errors>(WriteStep::Done)
                                    &&& final(self).reading(table@, key@) == Some(
                                        Reading::Found(value@),
                                    )
                                    &&& forall|t: Seq<char>, k: Seq<char>|
                                        t != table@ || k != key@ ==> #[trigger] final(self).reading(
                                            t,
                                            k,
                                        ) == old(self).reading(t, k)
                                },
                            }
                        },
                    },
                },
            },
    {
        match validate_table_name(table.as_str()) {
            Ok(_) => {},
            Err(e) => { return Err(e); },
        }
        match validate_key(key.as_str()) {
            Ok(_) => {},
            Err(e) => { return Err(e); },
        }
        match validate_value(value.as_str()) {
            Ok(_) => {},
            Err(e) => { return Err(e); },
        }
        if self.memtable_manager.block_write {
            return Ok(WriteStep::Wait);
        }
        let bytes = crate::bytes::text_len(key.as_str()) as u64 + crate::bytes::text_len(
            value.as_str(),
        ) as u64;
        if bytes > self.memtable_manager.memtable_size_hard_limit {
            return Err(Errors::new(ErrorCodes::ValueSizeTooLarge));
        }
        if self.memtable_manager.memtable_current_size
            > self.memtable_manager.memtable_size_hard_limit - bytes {
            return Ok(WriteStep::Flush);
        }
        let record = WALRecord {
            record_id: 0,
            record_type: RecordType::Put,
            data: WALPayload { table: table.clone(), key: key.clone(), value: Some(value.clone()) },
        };
        match self.wal_manager.append(record) {
            Ok(_) => {},
            Err(e) => { return Err(e); },
        }
        let r = self.memtable_manager.put(table, key, value);
        proof {
            if r is Ok {
                assert forall|t: Seq<char>, k: Seq<char>| t != table@ || k != key@ implies #[trigger]
                    self.reading(t, k) == old(self).reading(t, k) by {
                    if t != table@ {
                        assert(self.memtable_manager.active(t) == old(self).memtable_manager.active(
                            t,
                        ));
                    }
                }
            }
        }
        r
    }

    /// Deletes a key of a table. Table and key are checked first. While
    /// writes are held back the writer is told to wait, and nothing happens.
    /// Else the deletion is logged and the key is marked as deleted in the
    /// active memtable.
    ///
    /// After a deletion that is done the engine gives no value for the key,
    /// and for every other key what it gave before. Reading a log that was in
    /// step with its counters gives afterwards the records it gave before and
    /// then the record of this deletion, or that record alone in a new
    /// segment.
    pub fn delete_value(&mut self, table: String, key: String) -> (r: Result<WriteStep, Errors>)
        requires
            old(self).wf(),
        ensures
            final(self).wf(),
            final(self).disktable_manager == old(self).disktable_manager,
            final(self).pending_checkpoint == old(self).pending_checkpoint,
            match table_name_fault(vstd::utf8::encode_utf8(table@)) {
                Some(fault) => failure(r) == Some(fault) && *final(self) == *old(self),
                None => match key_fault(byte_len(key@)) {
                    Some(fault) => failure(r) == Some(fault) && *final(self) == *old(self),
                    None => if old(self).memtable_manager.block_write {
                        r == Ok::<WriteStep, Errors>(WriteStep::Wait) && *final(self) == *old(self)
                    } else if !old(self).wal_manager.can_append(
                        logged(RecordType::Delete, table@, key@, None),
                    ) {
                        r is Err && final(self).memtable_manager == old(self).memtable_manager
                    } else {
                        &&& final(self).wal_manager.wal_state.last_record_id.0 == old(self).wal_manager.wal_state.last_record_id.0 + 1
                        &&& old(self).wal_manager.synced() || old(self).wal_manager.rotates(
                            logged(RecordType::Delete, table@, key@, None),
                        ) ==> {
                            &&& final(self).wal_manager.synced()
                            &&& final(self).wal_manager.records() == (if old(self).wal_manager.rotates(
                                logged(RecordType::Delete, table@, key@, None),
                            ) {
                                Seq::<WALRecordView>::empty()
                            } else {
                                old(self).wal_manager.records()
                            }).push(
                                crate::wal::stamped(
                                    logged(RecordType::Delete, table@, key@, None),
                                    final(self).wal_manager.wal_state.last_record_id.0,
                                ),
                            )
                        }
                        &&& match old(self).memtable_manager.active(table@) {
                            None => failure(r) == Some(ErrorCodes::TableNotFound),
                            Some(held) => {
                                &&& r == Ok::<WriteStep, Errors>(WriteStep::Done)
                                &&& final(self).reading(table@, key@) == Some(Reading::Deleted)
                                &&& forall|t: Seq<char>, k: Seq<char>|
                                    t != table@ || k != key@ ==> #[trigger] final(self).reading(t, k)
                                        == old(self).reading(t, k)
                            },
                        }
                    },
                },
            },
    {
        match validate_table_name(table.as_str()) {
            Ok(_) => {},
            Err(e) => { return Err(e); },
        }
        match validate_key(key.as_str()) {
            Ok(_) => {},
            Err(e) => { return Err(e); },
        }
        if self.memtable_manager.block_write {
            return Ok(WriteStep::Wait);
        }
        let record = WALRecord {
            record_id: 0,
            record_type: RecordType::Delete,
            data: WALPayload { table: table.clone(), key: key.clone(), value: None },
        };
        match self.wal_manager.append(record) {
            Ok(_) => {},
            Err(e) => { return Err(e); },
        }
        let r = self.memtable_manager.delete(table, key);
        proof {
            if r is Ok {
                assert forall|t: Seq<char>, k: Seq<char>| t != table@ || k != key@ implies #[trigger]
                    self.reading(t, k) == old(self).reading(t, k) by {
                    if t != table@ {
                        assert(self.memtable_manager.active(t) == old(self).memtable_manager.active(
                            t,
                        ));
                    }
                }
            }
        }
        r
    }
}


/// The files of one table as they were found: the files of its index and its
/// segment files in the order of their numbers.
pub struct TableFiles {
    pub name: String,
    pub index_metadata: Option<Vec<u8>>,
    pub index_segments: Vec<Vec<u8>>,
    pub segments: Vec<Vec<u8>>,
}

/// Whether an engine holds a table as its files were found: the table is
/// named, its index is what opening the index files gives, its segments are
/// the segment files, and it has a memtable.
pub open spec fn holds_table(engine: DBEngine, found: TableFiles) -> bool {
    &&& crate::names::listed(engine.disktable_manager.table_names@, found.name@)
    &&& engine.disktable_manager.index_manager.index(found.name@) matches Some(held)
        && crate::disktable::index::loaded(found.index_metadata, found.index_segments, held)
    &&& engine.disktable_manager.segment_manager.table(found.name@) matches Some(segments) && (
    if found.segments@.len() > 0 {
        segments.files == found.segments
    } else {
        crate::disktable::segment::manager::without_segments(segments)
    })
    &&& engine.memtable_manager.active(found.name@) is Some
}

/// Whether the files of the table at place `i` can be taken over: no table
/// in front of it has its name, its last segment file tells where the segment
/// stands, and its index files can be opened.
pub open spec fn table_loads(tables: Seq<TableFiles>, i: int) -> bool {
    &&& forall|j: int| 0 <= j < i ==> (#[trigger] tables[j]).name@ != tables[i].name@
    &&& tables[i].segments@.len() > 0 ==> crate::disktable::segment::untold(
        tables[i].segments@.last()@,
    ) is None
    &&& crate::disktable::index::loads(tables[i].index_metadata, tables[i].index_segments)
}

/// Whether an engine can be started from what was found: the name of the
/// log's last segment file is that of a segment file, the counters of the log
/// do not contradict each other once the file is read, and the files of
/// every table can be taken over.
pub open spec fn starts(
    wal_state: WALGlobalState,
    last_segment_file: Seq<char>,
    last_segment: Seq<u8>,
    tables: Seq<TableFiles>,
) -> bool {
    &&& crate::hex::parsed_hex16(vstd::utf8::encode_utf8(last_segment_file)) is Some
    &&& ({
        let state = crate::wal::recovered(
            wal_state,
            crate::hex::parsed_hex16(vstd::utf8::encode_utf8(last_segment_file)).unwrap(),
            crate::wal::scan_end(WALRecordBincodeCodec, last_segment, 0),
            crate::wal::scanned(WALRecordBincodeCodec, last_segment, 0),
        );
        &&& state.last_checkpoint_record_id.0 <= state.last_record_id.0
        &&& state.last_checkpoint_segment_id.0 <= state.last_segment_id.0
        &&& state.last_segment_file_offset <= crate::config::WAL_SEGMENT_SIZE
    })
    &&& forall|i: int| 0 <= i < tables.len() ==> #[trigger] table_loads(tables, i)
}

impl DBEngine {
    /// Brings the flushing generation to the disk, drops it, and moves the
    /// checkpoint to where the log ended when the generation was split off.
    /// Where the disk fails, the generation stays and the checkpoint is not
    /// moved.
    ///
    /// The checkpoint never moves back and never beyond the end of the log.
    /// In an engine whose tables are kept a reader gets for every key what the
    /// reader got before. A generation without keys leaves the disk as it was
    /// and is no failure; a generation that holds deletions only leaves every
    /// index as it was and, where the tables are kept, is no failure either.
    /// A generation that holds values is drained without a failure where the
    /// tables are kept and every table takes every key held for it.
    pub fn drain_flushing(&mut self) -> (r: Result<(), Errors>)
        requires
            old(self).wf(),
        ensures
            final(self).wf(),
            final(self).system_info == old(self).system_info,
            final(self).memtable_manager.names == old(self).memtable_manager.names,
            final(self).memtable_manager.memtables == old(self).memtable_manager.memtables,
            final(self).memtable_manager.memtable_current_size == old(self).memtable_manager.memtable_current_size,
            final(self).wal_manager.wal_state.last_checkpoint_record_id.0 >= old(self).wal_manager.wal_state.last_checkpoint_record_id.0,
            final(self).wal_manager.wal_state.last_checkpoint_segment_id.0 >= old(self).wal_manager.wal_state.last_checkpoint_segment_id.0,
            crate::disktable::generation::holds_no_key(
                old(self).memtable_manager.flushing_memtables@,
            ) ==> r is Ok && final(self).disktable_manager == old(self).disktable_manager,
            crate::disktable::generation::deletes_only(
                old(self).memtable_manager.flushing_memtables@,
            ) ==> final(self).disktable_manager.index_manager == old(self).disktable_manager.index_manager,
            crate::disktable::generation::deletes_only(
                old(self).memtable_manager.flushing_memtables@,
            ) && old(self).kept() ==> r is Ok,
            crate::disktable::generation::brings(
                old(self).disktable_manager,
                old(self).memtable_manager.flushing_names@,
                old(self).memtable_manager.flushing_memtables@,
            ) && old(self).kept() ==> r is Ok,
            r is Ok && old(self).kept() ==> {
                &&& final(self).kept()
                &&& forall|table: Seq<char>, key: Seq<char>|
                    answer(#[trigger] final(self).reading(table, key)) == answer(
                        old(self).reading(table, key),
                    )
            },
            match r {
                Ok(_) => {
                    &&& final(self).memtable_manager.flushing_names@.len() == 0
                    &&& final(self).pending_checkpoint is None
                    &&& final(self).wal_manager.wal_state == match old(self).pending_checkpoint {
                        Some(target) => WALGlobalState {
                            last_checkpoint_segment_id: WALSegmentID(target.0),
                            last_checkpoint_record_id: crate::wal::record_id::WALRecordID(target.1),
                            ..old(self).wal_manager.wal_state
                        },
                        None => old(self).wal_manager.wal_state,
                    }
                },
                Err(_) => {
                    &&& final(self).memtable_manager == old(self).memtable_manager
                    &&& final(self).wal_manager == old(self).wal_manager
                    &&& final(self).pending_checkpoint == old(self).pending_checkpoint
                },
            },
    {
        match self.disktable_manager.write_memtable(
            &self.memtable_manager.flushing_names,
            &self.memtable_manager.flushing_memtables,
        ) {
            Ok(_) => {},
            Err(e) => { return Err(e); },
        }
        self.memtable_manager.finish_flush();
        match self.pending_checkpoint {
            Some(target) => {
                self.wal_manager.move_checkpoint(target.0, target.1);
                self.pending_checkpoint = None;
            },
            None => {},
        }
        proof {
            if old(self).kept() {
                assert forall|table: Seq<char>, key: Seq<char>|
                    answer(#[trigger] self.reading(table, key)) == answer(
                        old(self).reading(table, key),
                    ) by {
                    crate::disktable::notes::lemma_kept_reads(
                        old(self).disktable_manager,
                        table,
                        key,
                    );
                    crate::names::lemma_name_index(self.memtable_manager.flushing_names@, table);
                    assert(self.memtable_manager.flushing(table) is None);
                    assert(self.memtable_manager.active(table) == old(self).memtable_manager.active(table));
                    assert(self.disktable_manager.disk_reading(table, key)
                        == crate::disktable::generation::flushed(
                        old(self).disktable_manager.disk_reading(table, key),
                        crate::disktable::generation::generation_reading(
                            old(self).memtable_manager.flushing_names@,
                            old(self).memtable_manager.flushing_memtables@,
                            table,
                            key,
                        ),
                    ));
                }
            }
        }
        Ok(())
    }

    /// Flushes the memtables: the active generation becomes the flushing
    /// one, every table gets an empty memtable, and the flushing generation
    /// is brought to the disk. It fails, with nothing changed, where a flush
    /// is under way already. Where the disk fails, the flushing generation
    /// stays, the memtables say of every key what they said before, and the
    /// flush can be finished later. Where the flush succeeds in an engine
    /// whose tables are kept, a reader gets for every key what the reader got
    /// before, and the tables are kept.
    pub fn trigger_memtable_flush(&mut self) -> (r: Result<(), Errors>)
        requires
            old(self).wf(),
        ensures
            final(self).wf(),
            final(self).system_info == old(self).system_info,
            final(self).wal_manager.wal_state.last_checkpoint_record_id.0 >= old(self).wal_manager.wal_state.last_checkpoint_record_id.0,
            final(self).wal_manager.wal_state.last_checkpoint_segment_id.0 >= old(self).wal_manager.wal_state.last_checkpoint_segment_id.0,
            !old(self).memtable_manager.block_write && old(self).memtable_manager.flushing_names@.len() == 0 && (
            crate::disktable::generation::holds_no_key(old(self).memtable_manager.memtables@) || (
            crate::disktable::generation::deletes_only(old(self).memtable_manager.memtables@)
                && old(self).kept()) || (crate::disktable::generation::brings(
                old(self).disktable_manager,
                old(self).memtable_manager.names@,
                old(self).memtable_manager.memtables@,
            ) && old(self).kept())) ==> r is Ok,
            r is Ok && old(self).kept() ==> {
                &&& final(self).kept()
                &&& forall|table: Seq<char>, key: Seq<char>|
                    answer(#[trigger] final(self).reading(table, key)) == answer(
                        old(self).reading(table, key),
                    )
            },
            if old(self).memtable_manager.block_write || old(self).memtable_manager.flushing_names@.len() > 0 {
                failure(r) == Some(ErrorCodes::MemtableFlushAlreadyInProgress) && *final(self)
                    == *old(self)
            } else {
                &&& final(self).memtable_manager.names == old(self).memtable_manager.names
                &&& forall|table: Seq<char>| #[trigger]
                    final(self).memtable_manager.active(table) == match old(self).memtable_manager.active(table) {
                        Some(_) => Some(Map::<Seq<char>, Option<Seq<char>>>::empty()),
                        None => None,
                    }
                &&& match r {
                    Ok(_) => {
                        &&& final(self).memtable_manager.flushing_names@.len() == 0
                        &&& final(self).pending_checkpoint is None
                        &&& final(self).wal_manager.wal_state == (WALGlobalState {
                            last_checkpoint_segment_id: old(self).wal_manager.wal_state.last_segment_id,
                            last_checkpoint_record_id: old(self).wal_manager.wal_state.last_record_id,
                            ..old(self).wal_manager.wal_state
                        })
                    },
                    Err(_) => {
                        &&& final(self).wal_manager == old(self).wal_manager
                        &&& forall|table: Seq<char>, key: Seq<char>| #[trigger]
                            memtable_reading(final(self).memtable_manager, table, key)
                                == memtable_reading(old(self).memtable_manager, table, key)
                    },
                }
            },
    {
        match self.memtable_manager.trigger_flush() {
            Ok(_) => {},
            Err(e) => { return Err(e); },
        }
        self.pending_checkpoint = Some(
            (
                self.wal_manager.wal_state.last_segment_id.0,
                self.wal_manager.wal_state.last_record_id.0,
            ),
        );
        let ghost swapped = self.memtable_manager;
        let ghost turned = *self;
        proof {
            assert forall|table: Seq<char>, key: Seq<char>| #[trigger]
                memtable_reading(swapped, table, key) == memtable_reading(
                    old(self).memtable_manager,
                    table,
                    key,
                ) by {
                crate::names::lemma_name_index(old(self).memtable_manager.flushing_names@, table);
                assert(swapped.flushing(table) == old(self).memtable_manager.active(table));
                assert(swapped.active(table) == match old(self).memtable_manager.active(table) {
                    Some(_) => Some(Map::<Seq<char>, Option<Seq<char>>>::empty()),
                    None => None,
                });
            }
            assert forall|table: Seq<char>| #[trigger]
                swapped.active(table) == match old(self).memtable_manager.active(table) {
                    Some(_) => Some(Map::<Seq<char>, Option<Seq<char>>>::empty()),
                    None => None,
                } by {}
        }
        let r = self.drain_flushing();
        proof {
            if r is Ok && old(self).kept() {
                assert forall|table: Seq<char>, key: Seq<char>|
                    answer(#[trigger] self.reading(table, key)) == answer(
                        old(self).reading(table, key),
                    ) by {
                    assert(memtable_reading(swapped, table, key) == memtable_reading(
                        old(self).memtable_manager,
                        table,
                        key,
                    ));
                    assert(turned.reading(table, key) == old(self).reading(table, key));
                    assert(answer(self.reading(table, key)) == answer(
                        turned.reading(table, key),
                    ));
                }
            }
            assert forall|table: Seq<char>| #[trigger]
                self.memtable_manager.active(table) == match old(self).memtable_manager.active(
                    table,
                ) {
                    Some(_) => Some(Map::<Seq<char>, Option<Seq<char>>>::empty()),
                    None => None,
                } by {
                assert(self.memtable_manager.active(table) == swapped.active(table));
            }
        }
        r
    }

    /// Applies a record of the log to the memtables, as it was applied when
    /// it was written: a put writes the value, or an empty one where the
    /// record has none; a deletion marks the key as deleted, and one for a
    /// table that is not there is passed over; any other record is passed
    /// over. Where the memtables are full they are brought to the disk first,
    /// without moving the checkpoint.
    ///
    /// In an engine whose tables are kept a reader gets afterwards, for the
    /// key of the record, what the record says, and for every other key what
    /// the reader got before, also where the memtables went to the disk in
    /// between.
    ///
    /// A put for a table that the memtables know succeeds while writes are
    /// not held back and the memtables take its bytes; where they are full, it
    /// succeeds where the tables are kept and take what the memtables hold.
    pub fn apply_record(&mut self, record: &WALRecord) -> (r: Result<(), Errors>)
        requires
            old(self).wf(),
        ensures
            final(self).wf(),
            final(self).system_info == old(self).system_info,
            final(self).wal_manager == old(self).wal_manager,
            final(self).pending_checkpoint == old(self).pending_checkpoint,
            r is Ok && old(self).kept() ==> final(self).kept(),
            final(self).memtable_manager.names == old(self).memtable_manager.names,
            r is Ok && old(self).kept() ==> forall|t: Seq<char>, k: Seq<char>|
                answer(#[trigger] final(self).reading(t, k)) == applied(
                    record@,
                    crate::names::listed(old(self).memtable_manager.names@, record@.table),
                    t,
                    k,
                    answer(old(self).reading(t, k)),
                ),
            record.record_type == RecordType::Put ==> (if old(self).memtable_manager.block_write {
                failure(r) == Some(ErrorCodes::MemtableFlushAlreadyInProgress) && *final(self)
                    == *old(self)
            } else if put_bytes(record@) > old(self).memtable_manager.memtable_size_hard_limit {
                failure(r) == Some(ErrorCodes::ValueSizeTooLarge) && *final(self) == *old(self)
            } else if old(self).admits(put_bytes(record@)) {
                match old(self).memtable_manager.active(record@.table) {
                    Some(_) => r is Ok,
                    None => failure(r) == Some(ErrorCodes::TableNotFound),
                }
            } else {
                old(self).memtable_manager.flushing_names@.len() == 0 && old(self).kept()
                    && crate::disktable::generation::brings(
                    old(self).disktable_manager,
                    old(self).memtable_manager.names@,
                    old(self).memtable_manager.memtables@,
                ) && old(self).memtable_manager.active(record@.table) is Some ==> r is Ok
            }),
            old(self).applies_quietly(record@) ==> {
                &&& final(self).disktable_manager == old(self).disktable_manager
                &&& final(self).memtable_manager.block_write == old(self).memtable_manager.block_write
                &&& final(self).memtable_manager.memtable_size_hard_limit == old(self).memtable_manager.memtable_size_hard_limit
                &&& final(self).memtable_manager.memtable_current_size <= old(self).memtable_manager.memtable_current_size + (if record.record_type
                    == RecordType::Put {
                    put_bytes(record@)
                } else {
                    0
                })
                &&& r is Ok ==> forall|t: Seq<char>, k: Seq<char>|
                    #[trigger] final(self).reading(t, k) == applied_reading(
                        record@,
                        crate::names::listed(old(self).memtable_manager.names@, record@.table),
                        t,
                        k,
                        old(self).reading(t, k),
                    )
            },
            record.record_type == RecordType::Truncate ==> r is Ok && *final(self) == *old(self),
            record.record_type == RecordType::Delete ==> {
                &&& final(self).disktable_manager == old(self).disktable_manager
                &&& !old(self).memtable_manager.block_write ==> r is Ok
                &&& !old(self).memtable_manager.block_write && old(self).memtable_manager.active(
                    record@.table,
                ) is Some ==> final(self).reading(record@.table, record@.key) == Some(
                    Reading::Deleted,
                )
            },
            record.record_type == RecordType::Put && r is Ok ==> final(self).reading(
                record@.table,
                record@.key,
            ) == Some(
                Reading::Found(
                    match record@.value {
                        Some(v) => v,
                        None => Seq::empty(),
                    },
                ),
            ),
    {
        let ghost known = crate::names::listed(
            old(self).memtable_manager.names@,
            record@.table,
        );
        proof {
            crate::names::lemma_name_index(old(self).memtable_manager.names@, record@.table);
        }
        match record.record_type {
            RecordType::Put => {
                let value = match &record.data.value {
                    Some(v) => v.clone(),
                    None => String::new(),
                };
                let first = self.memtable_manager.put(
                    record.data.table.clone(),
                    record.data.key.clone(),
                    value.clone(),
                );
                match first {
                    Ok(WriteStep::Done) => {
                        proof {
                            assert forall|t: Seq<char>, k: Seq<char>|
                                #[trigger] self.reading(t, k) == applied_reading(
                                    record@,
                                    known,
                                    t,
                                    k,
                                    old(self).reading(t, k),
                                ) by {
                                if t != record@.table {
                                    assert(self.memtable_manager.active(t) == old(self).memtable_manager.active(t));
                                }
                            }
                            assert forall|t: Seq<char>, k: Seq<char>|
                                answer(#[trigger] self.reading(t, k)) == applied(
                                    record@,
                                    known,
                                    t,
                                    k,
                                    answer(old(self).reading(t, k)),
                                ) by {
                                if t != record@.table {
                                    assert(self.memtable_manager.active(t) == old(self).memtable_manager.active(t));
                                }
                            }
                        }
                        Ok(())
                    },
                    Ok(WriteStep::Wait) => Err(
                        Errors::new(ErrorCodes::MemtableFlushAlreadyInProgress),
                    ),
                    Ok(WriteStep::Flush) => {
                        match self.memtable_manager.trigger_flush() {
                            Ok(_) => {},
                            Err(e) => { return Err(e); },
                        }
                        let ghost turned = *self;
                        match self.disktable_manager.write_memtable(
                            &self.memtable_manager.flushing_names,
                            &self.memtable_manager.flushing_memtables,
                        ) {
                            Ok(_) => {},
                            Err(e) => { return Err(e); },
                        }
                        self.memtable_manager.finish_flush();
                        let ghost drained = *self;
                        let second = self.memtable_manager.put(
                            record.data.table.clone(),
                            record.data.key.clone(),
                            value,
                        );
                        proof {
                            if old(self).kept() && second == Ok::<WriteStep, Errors>(
                                WriteStep::Done,
                            ) {
                                assert forall|t: Seq<char>, k: Seq<char>|
                                    answer(#[trigger] self.reading(t, k)) == applied(
                                        record@,
                                        known,
                                        t,
                                        k,
                                        answer(old(self).reading(t, k)),
                                    ) by {
                                    crate::names::lemma_name_index(
                                        drained.memtable_manager.flushing_names@,
                                        t,
                                    );
                                    crate::names::lemma_name_index(
                                        old(self).memtable_manager.flushing_names@,
                                        t,
                                    );
                                    crate::disktable::notes::lemma_kept_reads(
                                        old(self).disktable_manager,
                                        t,
                                        k,
                                    );
                                    assert(turned.memtable_manager.flushing(t) == old(self).memtable_manager.active(t));
                                    assert(turned.memtable_manager.active(t) == match old(self).memtable_manager.active(t) {
                                        Some(_) => Some(
                                            Map::<Seq<char>, Option<Seq<char>>>::empty(),
                                        ),
                                        None => None,
                                    });
                                    assert(drained.memtable_manager.flushing(t) is None);
                                    assert(old(self).memtable_manager.flushing(t) is None);
                                    assert(drained.memtable_manager.active(t)
                                        == turned.memtable_manager.active(t));
                                    if t != record@.table {
                                        assert(self.memtable_manager.active(t)
                                            == drained.memtable_manager.active(t));
                                    }
                                    assert(self.disktable_manager.disk_reading(t, k)
                                        == crate::disktable::generation::flushed(
                                        old(self).disktable_manager.disk_reading(t, k),
                                        crate::disktable::generation::generation_reading(
                                            turned.memtable_manager.flushing_names@,
                                            turned.memtable_manager.flushing_memtables@,
                                            t,
                                            k,
                                        ),
                                    ));
                                }
                            }
                        }
                        match second {
                            Ok(WriteStep::Done) => Ok(()),
                            Ok(_) => Err(Errors::new(ErrorCodes::ValueSizeTooLarge)),
                            Err(e) => Err(e),
                        }
                    },
                    Err(e) => Err(e),
                }
            },
            RecordType::Delete => {
                let taken = self.memtable_manager.delete(
                    record.data.table.clone(),
                    record.data.key.clone(),
                );
                proof {
                    assert forall|t: Seq<char>, k: Seq<char>|
                        taken == Ok::<WriteStep, Errors>(WriteStep::Done) || taken
                            is Err implies #[trigger] self.reading(t, k) == applied_reading(
                        record@,
                        known,
                        t,
                        k,
                        old(self).reading(t, k),
                    ) by {
                        if t != record@.table {
                            assert(self.memtable_manager.active(t) == old(self).memtable_manager.active(t));
                        }
                    }
                    assert forall|t: Seq<char>, k: Seq<char>|
                        taken == Ok::<WriteStep, Errors>(WriteStep::Done) || taken
                            is Err implies answer(#[trigger] self.reading(t, k)) == applied(
                        record@,
                        known,
                        t,
                        k,
                        answer(old(self).reading(t, k)),
                    ) by {
                        if t != record@.table {
                            assert(self.memtable_manager.active(t) == old(self).memtable_manager.active(t));
                        }
                    }
                }
                match taken {
                    Ok(WriteStep::Done) => Ok(()),
                    Ok(_) => Err(Errors::new(ErrorCodes::MemtableFlushAlreadyInProgress)),
                    Err(_) => Ok(()),
                }
            },
            RecordType::Truncate => Ok(()),
        }
    }

    /// Replays a segment file of the log at start: a file whose number lies
    /// below the checkpoint segment is passed over; of any other file the
    /// records with a number above the checkpoint record are applied in their
    /// order. It fails where the name is not that of a segment file, and at
    /// the first record that cannot be applied.
    ///
    /// In an engine whose tables are kept a reader gets afterwards for every
    /// key what the records of the file say of it, the later record before the
    /// earlier one, and what the reader got before for a key of which they say
    /// nothing.
    ///
    /// Where writes are not held back and the memtables take the bytes of
    /// all the puts, nothing goes to the disk, the replay succeeds as long as
    /// the memtables know the table of every put, and the engine says
    /// afterwards of every key what the records say of it, whatever the disk
    /// holds.
    pub fn replay_segment(&mut self, segment_file: &str, bytes: &[u8]) -> (r: Result<(), Errors>)
        requires
            old(self).wf(),
        ensures
            final(self).wf(),
            final(self).system_info == old(self).system_info,
            final(self).wal_manager == old(self).wal_manager,
            final(self).pending_checkpoint == old(self).pending_checkpoint,
            r is Ok && old(self).kept() ==> final(self).kept(),
            final(self).memtable_manager.names == old(self).memtable_manager.names,
            r is Ok && old(self).kept() && crate::hex::parsed_hex16(
                vstd::utf8::encode_utf8(segment_file@),
            ) is Some && crate::hex::parsed_hex16(
                vstd::utf8::encode_utf8(segment_file@),
            ).unwrap() >= old(self).wal_manager.wal_state.last_checkpoint_segment_id.0
                ==> forall|t: Seq<char>, k: Seq<char>|
                answer(#[trigger] final(self).reading(t, k)) == replayed(
                    crate::wal::scanned(old(self).wal_manager.codec, bytes@, 0),
                    crate::wal::scanned(old(self).wal_manager.codec, bytes@, 0).len() as int,
                    old(self).wal_manager.wal_state.last_checkpoint_record_id.0,
                    old(self).memtable_manager.names@,
                    t,
                    k,
                    answer(old(self).reading(t, k)),
                ),
            crate::hex::parsed_hex16(vstd::utf8::encode_utf8(segment_file@)) is Some
                && crate::hex::parsed_hex16(vstd::utf8::encode_utf8(segment_file@)).unwrap()
                >= old(self).wal_manager.wal_state.last_checkpoint_segment_id.0 && old(self).replays_quietly(
                crate::wal::scanned(old(self).wal_manager.codec, bytes@, 0),
                old(self).wal_manager.wal_state.last_checkpoint_record_id.0,
            ) ==> {
                &&& final(self).disktable_manager == old(self).disktable_manager
                &&& replay_known(
                    crate::wal::scanned(old(self).wal_manager.codec, bytes@, 0),
                    old(self).wal_manager.wal_state.last_checkpoint_record_id.0,
                    old(self).memtable_manager.names@,
                ) ==> r is Ok
                &&& r is Ok ==> forall|t: Seq<char>, k: Seq<char>|
                    #[trigger] final(self).reading(t, k) == replayed_reading(
                        crate::wal::scanned(old(self).wal_manager.codec, bytes@, 0),
                        crate::wal::scanned(old(self).wal_manager.codec, bytes@, 0).len() as int,
                        old(self).wal_manager.wal_state.last_checkpoint_record_id.0,
                        old(self).memtable_manager.names@,
                        t,
                        k,
                        old(self).reading(t, k),
                    )
            },
            match crate::hex::parsed_hex16(vstd::utf8::encode_utf8(segment_file@)) {
                None => failure(r) == Some(ErrorCodes::WALSegmentIDParseError) && *final(self)
                    == *old(self),
                Some(id) => id < old(self).wal_manager.wal_state.last_checkpoint_segment_id.0
                    ==> r is Ok && *final(self) == *old(self),
            },
    {
        let id = match WALSegmentID::from_file_name(segment_file) {
            Ok(id) => id,
            Err(e) => { return Err(e); },
        };
        if id.0 < self.wal_manager.wal_state.last_checkpoint_segment_id.0 {
            return Ok(());
        }
        let checkpoint = self.wal_manager.wal_state.last_checkpoint_record_id.0;
        let (records, _) = self.wal_manager.scan_records(bytes);
        let ghost quiet = old(self).replays_quietly(
            crate::wal::record_views(records@),
            checkpoint,
        );
        let ghost known = replay_known(
            crate::wal::record_views(records@),
            checkpoint,
            old(self).memtable_manager.names@,
        );
        let mut i: usize = 0;
        while i < records.len()
            invariant
                i <= records.len(),
                quiet == old(self).replays_quietly(crate::wal::record_views(records@), checkpoint),
                known == replay_known(
                    crate::wal::record_views(records@),
                    checkpoint,
                    old(self).memtable_manager.names@,
                ),
                quiet ==> {
                    &&& self.disktable_manager == old(self).disktable_manager
                    &&& !self.memtable_manager.block_write
                    &&& self.memtable_manager.memtable_size_hard_limit == old(self).memtable_manager.memtable_size_hard_limit
                    &&& self.memtable_manager.memtable_current_size <= old(self).memtable_manager.memtable_current_size + replay_bytes(
                        crate::wal::record_views(records@),
                        i as int,
                        checkpoint,
                    )
                    &&& forall|t: Seq<char>, k: Seq<char>|
                        #[trigger] self.reading(t, k) == replayed_reading(
                            crate::wal::record_views(records@),
                            i as int,
                            checkpoint,
                            old(self).memtable_manager.names@,
                            t,
                            k,
                            old(self).reading(t, k),
                        )
                },
                self.wf(),
                self.system_info == old(self).system_info,
                self.wal_manager == old(self).wal_manager,
                self.pending_checkpoint == old(self).pending_checkpoint,
                crate::hex::parsed_hex16(vstd::utf8::encode_utf8(segment_file@)) == Some(id.0),
                id.0 >= old(self).wal_manager.wal_state.last_checkpoint_segment_id.0,
                old(self).kept() ==> self.kept(),
                self.memtable_manager.names == old(self).memtable_manager.names,
                checkpoint == old(self).wal_manager.wal_state.last_checkpoint_record_id.0,
                crate::wal::record_views(records@) == crate::wal::scanned(
                    old(self).wal_manager.codec,
                    bytes@,
                    0,
                ),
                old(self).kept() ==> forall|t: Seq<char>, k: Seq<char>|
                    answer(#[trigger] self.reading(t, k)) == replayed(
                        crate::wal::record_views(records@),
                        i as int,
                        checkpoint,
                        old(self).memtable_manager.names@,
                        t,
                        k,
                        answer(old(self).reading(t, k)),
                    ),
            decreases records.len() - i,
        {
            let ghost before = *self;
            proof {
                let views = crate::wal::record_views(records@);
                assert(views[i as int] == records@[i as int]@);
                lemma_replay_bytes_grow(views, i + 1, views.len() as int, checkpoint);
                lemma_replay_bytes_grow(views, i as int, i as int, checkpoint);
                if quiet && views[i as int].record_id > checkpoint {
                    assert(replay_bytes(views, i + 1, checkpoint) == replay_bytes(
                        views,
                        i as int,
                        checkpoint,
                    ) + (if views[i as int].record_type == RecordType::Put {
                        put_bytes(views[i as int])
                    } else {
                        0
                    }));
                    assert(before.applies_quietly(records@[i as int]@));
                }
                if known && records@[i as int]@.record_id > checkpoint && records@[i as int]@.record_type
                    == RecordType::Put {
                    assert(crate::names::listed(
                        self.memtable_manager.names@,
                        views[i as int].table,
                    ));
                    crate::names::lemma_name_index(
                        self.memtable_manager.names@,
                        views[i as int].table,
                    );
                }
            }
            if records[i].record_id > checkpoint {
                match self.apply_record(&records[i]) {
                    Ok(_) => {},
                    Err(e) => { return Err(e); },
                }
            }
            proof {
                let views = crate::wal::record_views(records@);
                assert(views[i as int] == records@[i as int]@);
                if quiet {
                    assert forall|t: Seq<char>, k: Seq<char>|
                        #[trigger] self.reading(t, k) == replayed_reading(
                            views,
                            i + 1,
                            checkpoint,
                            old(self).memtable_manager.names@,
                            t,
                            k,
                            old(self).reading(t, k),
                        ) by {
                        assert(before.reading(t, k) == replayed_reading(
                            views,
                            i as int,
                            checkpoint,
                            old(self).memtable_manager.names@,
                            t,
                            k,
                            old(self).reading(t, k),
                        ));
                    }
                }
                if old(self).kept() {
                    assert forall|t: Seq<char>, k: Seq<char>|
                        answer(#[trigger] self.reading(t, k)) == replayed(
                            views,
                            i + 1,
                            checkpoint,
                            old(self).memtable_manager.names@,
                            t,
                            k,
                            answer(old(self).reading(t, k)),
                        ) by {
                        assert(answer(before.reading(t, k)) == replayed(
                            views,
                            i as int,
                            checkpoint,
                            old(self).memtable_manager.names@,
                            t,
                            k,
                            answer(old(self).reading(t, k)),
                        ));
                    }
                }
            }
            i += 1;
        }
        Ok(())
    }

    /// Starts the engine from what was found on the disk: the counters of
    /// the log, the last segment file of the log with its name, and the files
    /// of the tables. The log is loaded and recovered, and every table is
    /// taken over with its segments and its index and given an empty
    /// memtable. The segment files of the log are replayed afterwards, one by
    /// one.
    pub fn initialize(
        system_info: SystemInfo,
        wal_state: WALGlobalState,
        last_segment_file: &str,
        last_segment: Vec<u8>,
        tables: Vec<TableFiles>,
    ) -> (r: Result<DBEngine, Errors>)
        ensures
            crate::hex::parsed_hex16(vstd::utf8::encode_utf8(last_segment_file@)) is None
                ==> failure(r) == Some(ErrorCodes::WALSegmentIDParseError),
            r is Ok <==> starts(wal_state, last_segment_file@, last_segment@, tables@),
            match r {
                Ok(engine) => {
                    &&& engine.wf()
                    &&& engine.system_info == system_info
                    &&& engine.pending_checkpoint is None
                    &&& engine.wal_manager.image() == last_segment@
                    &&& engine.wal_manager.wal_state == crate::wal::recovered(
                        wal_state,
                        crate::hex::parsed_hex16(
                            vstd::utf8::encode_utf8(last_segment_file@),
                        ).unwrap(),
                        crate::wal::scan_end(WALRecordBincodeCodec, last_segment@, 0),
                        crate::wal::scanned(WALRecordBincodeCodec, last_segment@, 0),
                    )
                    &&& engine.wal_manager.wal_state.wf()
                    &&& engine.memtable_manager.flushing_names@.len() == 0
                    &&& engine.memtable_manager.memtable_current_size == 0
                    &&& forall|i: int|
                        0 <= i < tables@.len() ==> holds_table(engine, #[trigger] tables@[i])
                    &&& engine.disktable_manager.table_names@.len() == tables@.len()
                    &&& tables@.len() == 0 ==> engine.kept()
                },
                Err(_) => true,
            },
    {
        let mut engine = DBEngine::new(system_info);
        match engine.wal_manager.load(wal_state, last_segment_file, last_segment) {
            Ok(_) => {},
            Err(e) => { return Err(e); },
        }
        if engine.wal_manager.wal_state.last_checkpoint_record_id.0
            > engine.wal_manager.wal_state.last_record_id.0
            || engine.wal_manager.wal_state.last_checkpoint_segment_id.0
            > engine.wal_manager.wal_state.last_segment_id.0
            || engine.wal_manager.wal_state.last_segment_file_offset
            > crate::config::WAL_SEGMENT_SIZE {
            return Err(Errors::new(ErrorCodes::WALStateDecodeError));
        }
        let ghost given = tables@;
        let mut rest = tables;
        let ghost all = rest@;
        let total = rest.len();
        let mut done: usize = 0;
        while rest.len() > 0
            invariant
                all.len() == total,
                crate::hex::parsed_hex16(vstd::utf8::encode_utf8(last_segment_file@)) is Some,
                engine.wf(),
                engine.system_info == system_info,
                engine.pending_checkpoint is None,
                engine.wal_manager.image() == last_segment@,
                engine.wal_manager.wal_state == crate::wal::recovered(
                    wal_state,
                    crate::hex::parsed_hex16(vstd::utf8::encode_utf8(last_segment_file@)).unwrap(),
                    crate::wal::scan_end(WALRecordBincodeCodec, last_segment@, 0),
                    crate::wal::scanned(WALRecordBincodeCodec, last_segment@, 0),
                ),
                engine.memtable_manager.flushing_names@.len() == 0,
                engine.memtable_manager.memtable_current_size == 0,
                done + rest@.len() == all.len(),
                all.len() == 0 ==> engine.kept(),
                rest@ == all.subrange(done as int, all.len() as int),
                forall|i: int| 0 <= i < done ==> holds_table(engine, #[trigger] all[i]),
                engine.disktable_manager.table_names@.len() == done,
                forall|i: int|
                    0 <= i < done ==> (#[trigger] engine.disktable_manager.table_names@[i])@
                        == all[i].name@,
                forall|i: int| 0 <= i < done ==> #[trigger] table_loads(all, i),
                starts(wal_state, last_segment_file@, last_segment@, Seq::empty()),
                all == given,
                given == tables@,
            decreases rest.len(),
        {
            let table = rest.remove(0);
            let ghost found = table;
            let ghost start = engine;
            let TableFiles { name, index_metadata, index_segments, segments } = table;
            proof {
                assert(all[done as int] == found);
                let names = engine.disktable_manager.table_names@;
                if crate::names::listed(names, name@) {
                    let j = choose|j: int| 0 <= j < names.len() && #[trigger] names[j]@ == name@;
                    assert(all[j].name@ == all[done as int].name@);
                    assert(!table_loads(all, done as int));
                } else {
                    assert forall|j: int| 0 <= j < done implies (#[trigger] all[j]).name@
                        != all[done as int].name@ by {
                        assert(names[j]@ == all[j].name@);
                    }
                }
            }
            match engine.disktable_manager.create_table(name.as_str()) {
                Ok(_) => {},
                Err(e) => {
                    proof {
                        assert(!table_loads(given, done as int));
                    }
                    return Err(e);
                },
            }
            match engine.disktable_manager.segment_manager.set_table(name.as_str(), segments) {
                Ok(_) => {},
                Err(e) => {
                    proof {
                        assert(found.segments == segments);
                        assert(!table_loads(given, done as int));
                    }
                    return Err(e);
                },
            }
            match engine.disktable_manager.index_manager.load_index(
                name.as_str(),
                index_metadata,
                index_segments,
            ) {
                Ok(_) => {},
                Err(e) => {
                    proof {
                        assert(!table_loads(given, done as int));
                    }
                    return Err(e);
                },
            }
            proof {
                assert(table_loads(all, done as int));
            }
            let ghost before = engine.memtable_manager;
            engine.memtable_manager.create_table(name.as_str());
            proof {
                assert(all[done as int] == found);
                assert(rest@ =~= all.subrange(done + 1, all.len() as int));
                assert(engine.disktable_manager.table_names@.drop_last()
                    =~= start.disktable_manager.table_names@);
                assert forall|i: int| 0 <= i < done + 1 implies holds_table(
                    engine,
                    #[trigger] all[i],
                ) by {
                    if i < done {
                        assert(holds_table(start, all[i]));
                        assert(all[i].name@ != name@);
                        assert(engine.memtable_manager.active(all[i].name@) == before.active(
                            all[i].name@,
                        ));
                        assert(engine.disktable_manager.index_manager.index(all[i].name@)
                            == start.disktable_manager.index_manager.index(all[i].name@));
                        assert(engine.disktable_manager.segment_manager.table(all[i].name@)
                            == start.disktable_manager.segment_manager.table(all[i].name@));
                        crate::names::lemma_pushed_other(
                            start.disktable_manager.table_names@,
                            engine.disktable_manager.table_names@,
                            name@,
                            all[i].name@,
                        );
                    } else {
                        crate::names::lemma_pushed(
                            start.disktable_manager.table_names@,
                            engine.disktable_manager.table_names@,
                            name@,
                        );
                    }
                }
            }
            done = done + 1;
        }
        Ok(engine)
    }
}

/// A key that is marked as deleted in the active memtable of its table, or
/// that the active memtable does not know and that is marked as deleted in
/// the flushing one, reads as deleted, whatever the disk holds.
pub proof fn lemma_tombstone_shadows(engine: DBEngine, table: Seq<char>, key: Seq<char>)
    requires
        match engine.memtable_manager.active(table) {
            Some(held) => reading(held, key) == Reading::Deleted || (reading(held, key)
                == Reading::NotFound && engine.memtable_manager.flushing(table) is Some
                && reading(engine.memtable_manager.flushing(table).unwrap(), key)
                == Reading::Deleted),
            None => engine.memtable_manager.flushing(table) is Some && reading(
                engine.memtable_manager.flushing(table).unwrap(),
                key,
            ) == Reading::Deleted,
        },
    ensures
        engine.reading(table, key) == Some(Reading::Deleted),
{
}

/// What was written last under a key is what the engine gives for it: the
/// value of a put, and no value after a deletion, whatever the flushing
/// memtables and the disk hold.
pub proof fn lemma_active_memtable_wins(engine: DBEngine, table: Seq<char>, key: Seq<char>)
    requires
        engine.memtable_manager.active(table) is Some,
        engine.memtable_manager.active(table).unwrap().contains_key(key),
    ensures
        engine.reading(table, key) == Some(
            match engine.memtable_manager.active(table).unwrap()[key] {
                Some(v) => Reading::Found(v),
                None => Reading::Deleted,
            },
        ),
{
}

} // verus!
