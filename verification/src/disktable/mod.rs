use vstd::prelude::*;
use crate::disktable::index::btree::{node_failure, Lookup};
use crate::disktable::index::outcome::replaced;
use crate::disktable::index::{
    entry_of, files_in, holds_nothing, looked_up, metadata_in, next_offset_in, sound_in,
    IndexManager,
};
use crate::disktable::generation::{
    brings, brought_so_far, deletes_only, entry_put, entry_written, flushed, generation_reading,
    handed, holds_no_key, lemma_brought_all, lemma_brought_next, lemma_brought_none,
    lemma_brought_step, lemma_table_put_front, table_put, Stand,
};
use crate::disktable::notes::{
    faithful, lemma_kept_marks, lemma_record_appended_kept, lemma_record_marked_kept, notes_kept,
    Note,
};
use crate::disktable::segment::encode::TableRecordCodec;
use crate::disktable::segment::manager::TableSegmentManager;
use crate::disktable::segment::position::TableRecordPosition;
use crate::disktable::segment::record::{
    flag_of, PayloadView, RecordStateFlags, TableSegmentPayload,
};
use crate::disktable::segment::state::{no_segments, TableSegmentState};
use crate::disktable::segment::{body, can_append_in, file_of, frame_inside, place_for};
use crate::errors::{failure, ErrorCodes, Errors};
use crate::memtable::{reading, HashMemtable, MemtableGetResult, Reading};
use crate::names::{distinct, find_name, lemma_name_index, lemma_pushed, lemma_removed, listed};

pub mod generation;
pub mod index;
pub mod notes;
pub mod record;
pub mod segment;

verus! {

/// What the disk says of a key: its value, that it knows nothing of it, or
/// that the record it has for the key is deleted.
#[derive(Debug, Clone, PartialEq, Eq)]
pub enum DisktableGetResult {
    Found(String),
    NotFound,
    Deleted,
}

impl View for DisktableGetResult {
    type V = Reading;

    open spec fn view(&self) -> Reading {
        match self {
            DisktableGetResult::Found(v) => Reading::Found(v@),
            DisktableGetResult::NotFound => Reading::NotFound,
            DisktableGetResult::Deleted => Reading::Deleted,
        }
    }
}

/// What is kept of a table besides its records: its name.
#[derive(Debug, Clone)]
pub struct TableInfo {
    pub name: String,
}

/// The tables on the disk: their names, their indexes and their segments.
pub struct DiskTableManager<C: TableRecordCodec> {
    pub table_names: Vec<String>,
    pub index_manager: IndexManager,
    pub segment_manager: TableSegmentManager<C>,
    /// The records that were appended to each table since it was made, in
    /// the order in which they were appended.
    pub notes: Ghost<Map<Seq<char>, Seq<Note>>>,
}

/// What the record at `position` says: deleted where its flag says so, else
/// the value of the pair it holds; nothing where the record cannot be read.
pub open spec fn stored_reading<C: TableRecordCodec>(
    codec: C,
    files: Seq<Vec<u8>>,
    position: TableRecordPosition,
) -> Option<Reading> {
    match file_of(files, position.segment_id.0) {
        None => None,
        Some(file) => if frame_inside(file, position.offset as int) {
            match codec.decoding(body(file, position.offset as int)) {
                Some(pair) => Some(
                    if flag_of(file[position.offset as int]) == RecordStateFlags::Deleted {
                        Reading::Deleted
                    } else {
                        Reading::Found(pair.value)
                    },
                ),
                None => None,
            }
        } else {
            None
        },
    }
}

/// What a reading becomes when the record behind it is marked as deleted.
pub open spec fn once_deleted(reading: Option<Reading>) -> Option<Reading> {
    match reading {
        Some(Reading::NotFound) => Some(Reading::NotFound),
        Some(_) => Some(Reading::Deleted),
        None => None,
    }
}

impl<C: TableRecordCodec> DiskTableManager<C> {
    /// A manager without tables.
    pub fn new(codec: C) -> (m: Self)
        ensures
            m.wf(),
            m.table_names@.len() == 0,
            m.segment_manager.codec == codec,
            forall|table: Seq<char>| #[trigger] m.kept(table),
            forall|table: Seq<char>| (#[trigger] m.index_manager.index(table)) is None,
            forall|table: Seq<char>| (#[trigger] m.segment_manager.table(table)) is None,
    {
        let m = DiskTableManager {
            table_names: Vec::new(),
            index_manager: IndexManager::new(),
            segment_manager: TableSegmentManager::new(codec),
            notes: Ghost(Map::empty()),
        };
        proof {
            assert forall|table: Seq<char>| #[trigger] m.kept(table) by {
                lemma_name_index(m.index_manager.names@, table);
                lemma_name_index(m.segment_manager.names@, table);
            }
            assert forall|table: Seq<char>| (#[trigger] m.index_manager.index(table))
                is None by {
                lemma_name_index(m.index_manager.names@, table);
            }
            assert forall|table: Seq<char>| (#[trigger] m.segment_manager.table(table))
                is None by {
                lemma_name_index(m.segment_manager.names@, table);
            }
        }
        m
    }

    /// The records that were appended to a table since it was made.
    pub open spec fn notes_of(&self, table: Seq<char>) -> Seq<Note> {
        if self.notes@.contains_key(table) {
            self.notes@[table]
        } else {
            Seq::empty()
        }
    }

    /// Whether a table is kept: its index is sound, its segments are in
    /// order and hold every record that was appended since the table was
    /// made, one behind the other, and the index names for each key that it
    /// holds one of those records, with that key. A table that is made here
    /// is kept, and writing entries keeps it where it succeeds.
    pub open spec fn kept(&self, table: Seq<char>) -> bool {
        &&& sound_in(self.index_manager.index(table))
        &&& match self.segment_manager.table(table) {
            Some(held) => held.wf() && notes_kept(held.state, held.files@, self.notes_of(table)),
            None => self.notes_of(table).len() == 0,
        }
        &&& faithful(
            self.segment_manager.codec,
            self.index_manager.index(table),
            self.notes_of(table),
        )
    }

    /// Whether the parts are in order and no table is named twice.
    pub open spec fn wf(&self) -> bool {
        &&& distinct(self.table_names@)
        &&& self.index_manager.wf()
        &&& self.segment_manager.wf()
    }

    /// What the disk says of a key of a table: what the record says that the
    /// index names for the key, or that nothing is known where the index
    /// names none; nothing where index or record cannot be read.
    pub open spec fn disk_reading(&self, table: Seq<char>, key: Seq<char>) -> Option<Reading> {
        match looked_up(self.index_manager.index(table), key) {
            Lookup::Broken => None,
            Lookup::Missing => Some(Reading::NotFound),
            Lookup::Found(position) => match self.segment_manager.table(table) {
                None => None,
                Some(held) => stored_reading(self.segment_manager.codec, held.files@, position),
            },
        }
    }

    /// The names of the tables.
    pub fn list_tables(&self) -> (tables: Vec<String>)
        ensures
            tables@.len() == self.table_names@.len(),
            forall|i: int| 0 <= i < tables@.len() ==> tables@[i]@ == self.table_names@[i]@,
    {
        let mut tables: Vec<String> = Vec::new();
        let mut i: usize = 0;
        while i < self.table_names.len()
            invariant
                i <= self.table_names.len(),
                tables@.len() == i,
                forall|j: int| 0 <= j < i ==> tables@[j]@ == self.table_names@[j]@,
            decreases self.table_names.len() - i,
        {
            tables.push(self.table_names[i].clone());
            i += 1;
        }
        tables
    }

    /// Tells what is kept of a table. It fails for a table that is not there.
    pub fn get_table(&self, table: &str) -> (r: Result<TableInfo, Errors>)
        ensures
            match r {
                Ok(info) => listed(self.table_names@, table@) && info.name@ == table@,
                Err(e) => e.error_code == ErrorCodes::TableNotFound && !listed(
                    self.table_names@,
                    table@,
                ),
            },
    {
        match find_name(&self.table_names, table) {
            Some(i) => {
                proof {
                    lemma_name_index(self.table_names@, table@);
                }
                Ok(TableInfo { name: self.table_names[i].clone() })
            },
            None => Err(Errors::new(ErrorCodes::TableNotFound)),
        }
    }

    /// Makes a table. It fails for a table that is there already.
    pub fn create_table(&mut self, table: &str) -> (r: Result<(), Errors>)
        requires
            old(self).wf(),
        ensures
            final(self).wf(),
            final(self).index_manager == old(self).index_manager,
            final(self).segment_manager == old(self).segment_manager,
            final(self).notes == old(self).notes,
            r is Ok <==> !listed(old(self).table_names@, table@),
            match r {
                Ok(_) => final(self).table_names@ == old(self).table_names@.push(
                    final(self).table_names@.last(),
                ) && final(self).table_names@.last()@ == table@,
                Err(e) => e.error_code == ErrorCodes::TableAlreadyExists && *final(self) == *old(self),
            },
    {
        match find_name(&self.table_names, table) {
            Some(_) => {
                proof {
                    lemma_name_index(self.table_names@, table@);
                }
                Err(Errors::new(ErrorCodes::TableAlreadyExists))
            },
            None => {
                self.table_names.push(table.to_owned());
                proof {
                    assert(self.table_names@.drop_last() =~= old(self).table_names@);
                    lemma_pushed(old(self).table_names@, self.table_names@, table@);
                    assert(self.table_names@ =~= old(self).table_names@.push(
                        self.table_names@.last(),
                    ));
                }
                Ok(())
            },
        }
    }

    /// Drops a table with its index and its segments. A table that is not
    /// there is no failure.
    pub fn delete_table(&mut self, table: &str)
        requires
            old(self).wf(),
        ensures
            final(self).wf(),
            !listed(final(self).table_names@, table@),
            final(self).index_manager.index(table@) is None,
            final(self).segment_manager.table(table@) is None,
            final(self).segment_manager.codec == old(self).segment_manager.codec,
            final(self).kept(table@),
            forall|other: Seq<char>|
                other != table@ ==> #[trigger] final(self).index_manager.index(other) == old(self).index_manager.index(other),
            forall|other: Seq<char>|
                other != table@ ==> #[trigger] final(self).segment_manager.table(other) == old(self).segment_manager.table(other),
            forall|other: Seq<char>|
                other != table@ ==> #[trigger] final(self).notes_of(other) == old(self).notes_of(
                    other,
                ),
    {
        proof {
            self.notes@ = self.notes@.remove(table@);
        }
        match find_name(&self.table_names, table) {
            Some(i) => {
                self.table_names.remove(i);
                proof {
                    lemma_removed(old(self).table_names@, i as int);
                }
            },
            None => {},
        }
        self.index_manager.delete_index(table);
        self.segment_manager.truncate_table(table);
    }

    /// Why the record that the index names for a key cannot be marked as
    /// deleted: the index cannot be followed, the table has no segments or
    /// none with the number that the index names, or the place that it names
    /// lies behind the end of the segment file. Nothing where the index names
    /// no record for the key, or one that can be marked.
    pub open spec fn mark_fault(&self, table: Seq<char>, key: Seq<char>) -> Option<ErrorCodes> {
        match looked_up(self.index_manager.index(table), key) {
            Lookup::Broken => Some(ErrorCodes::FileReadError),
            Lookup::Missing => None,
            Lookup::Found(p) => match self.segment_manager.table(table) {
                None => Some(ErrorCodes::TableSegmentFileOpenError),
                Some(held) => match file_of(held.files@, p.segment_id.0) {
                    None => Some(ErrorCodes::TableSegmentFileOpenError),
                    Some(file) => if p.offset < file.len() {
                        None
                    } else {
                        Some(ErrorCodes::FileWriteError)
                    },
                },
            },
        }
    }

    /// Where the segments of a table stand; at the start for a table
    /// without segments.
    pub open spec fn stand(&self, table: Seq<char>) -> TableSegmentState {
        match self.segment_manager.table(table) {
            Some(held) => held.state,
            None => no_segments(),
        }
    }

    /// Whether the record that the index names for a key, where it names
    /// one, lies in front of the place where the next record goes.
    pub open spec fn names_written(&self, table: Seq<char>, key: Seq<char>) -> bool {
        match looked_up(self.index_manager.index(table), key) {
            Lookup::Found(p) => match self.segment_manager.table(table) {
                Some(held) => p.segment_id != held.state.last_segment_id || p.offset
                    < held.state.current_page_offset,
                None => true,
            },
            _ => true,
        }
    }

    /// What decides whether a table takes a value: where its segments
    /// stand, and the files and the metadata of its index.
    pub open spec fn state_of(&self, table: Seq<char>) -> Stand {
        Stand {
            segments: self.stand(table),
            files: files_in(self.index_manager.index(table)),
            metadata: metadata_in(self.index_manager.index(table)),
        }
    }

    /// Where the record of a pair goes when it is appended to a table.
    pub open spec fn placed(&self, table: Seq<char>, pair: PayloadView) -> TableRecordPosition {
        let place = place_for(
            self.stand(table),
            5 + self.segment_manager.codec.encoding(pair).len() as int,
        );
        TableRecordPosition {
            segment_id: place.last_segment_id,
            offset: place.current_page_offset,
        }
    }

    /// Whether a value can be written under a key of a table: the codec
    /// gives bytes for the pair, the record fits into a page of the segments,
    /// and the index takes the entry that names the record in place of the one
    /// it has for the key.
    pub open spec fn takes(&self, table: Seq<char>, pair: PayloadView) -> bool {
        &&& self.segment_manager.codec.encodes(pair)
        &&& can_append_in(
            self.stand(table),
            self.segment_manager.codec.encoding(pair).len() as int,
        )
        &&& replaced(
            files_in(self.index_manager.index(table)),
            metadata_in(self.index_manager.index(table)),
            entry_of(pair.key, self.placed(table, pair)),
        ) is Some
    }

    /// Tells what the disk says of a key of a table.
    pub fn get(&self, table: &str, key: &str) -> (r: Result<DisktableGetResult, Errors>)
        ensures
            match self.disk_reading(table@, key@) {
                Some(reading) => r matches Ok(found) && found@ == reading,
                None => r is Err,
            },
    {
        let position = match self.index_manager.find_record(table, key) {
            Ok(Some(p)) => p,
            Ok(None) => { return Ok(DisktableGetResult::NotFound); },
            Err(e) => { return Err(e); },
        };
        let (flag, payload) = match self.segment_manager.find_record(table, position) {
            Ok(found) => found,
            Err(e) => { return Err(e); },
        };
        if flag.is_deleted() {
            Ok(DisktableGetResult::Deleted)
        } else {
            Ok(DisktableGetResult::Found(payload.value))
        }
    }

    /// Brings what a memtable holds for a key to the disk. The record that
    /// the index names for the key, where it names one, is marked as deleted.
    /// For a value, a record is appended and the index is made to name it.
    ///
    /// A deleted key reads as deleted afterwards where the disk had a record
    /// for it, and as unknown where it had none. A value can be read back
    /// under its key, as long as the table's segments were in order and the
    /// index was sound, held nothing or took the entry without adding a
    /// block.
    ///
    /// The write fails, with index and segments as they were, where the old
    /// record cannot be marked. A deletion succeeds in every other case, and
    /// always in a table that is kept; it leaves the index as it was. A value
    /// is written, once the old record is marked, exactly when the codec gives
    /// its bytes, the record fits into a page of segments that are in order
    /// and the index takes the entry in place of the one it has. This
    /// is said for an old record that lies in front of the place where the
    /// next record goes, as every record of a kept table does.
    #[verifier::rlimit(100)]
    pub fn write_entry(&mut self, table: &str, key: &String, value: &Option<String>) -> (r: Result<
        (),
        Errors,
    >)
        requires
            old(self).wf(),
        ensures
            final(self).wf(),
            final(self).table_names == old(self).table_names,
            final(self).segment_manager.codec == old(self).segment_manager.codec,
            forall|other: Seq<char>|
                other != table@ ==> #[trigger] final(self).index_manager.index(other) == old(self).index_manager.index(other),
            forall|other: Seq<char>|
                other != table@ ==> #[trigger] final(self).segment_manager.table(other) == old(self).segment_manager.table(other),
            r is Ok && value is None ==> final(self).disk_reading(table@, key@) == once_deleted(
                old(self).disk_reading(table@, key@),
            ),
            r is Ok && value is Some && (match old(self).segment_manager.table(table@) {
                Some(held) => held.wf(),
                None => true,
            }) && (holds_nothing(old(self).index_manager.index(table@)) || next_offset_in(
                final(self).index_manager.index(table@),
            ) == next_offset_in(old(self).index_manager.index(table@))) ==> final(self).disk_reading(table@, key@) == Some(Reading::Found(value->Some_0@)),
            forall|other: Seq<char>|
                other != table@ ==> #[trigger] final(self).notes_of(other) == old(self).notes_of(
                    other,
                ),
            old(self).mark_fault(table@, key@) matches Some(code) ==> {
                &&& failure(r) == Some(code)
                &&& final(self).index_manager == old(self).index_manager
                &&& final(self).segment_manager.table(table@) == old(self).segment_manager.table(
                    table@,
                )
                &&& final(self).notes == old(self).notes
            },
            value is None ==> {
                &&& r is Ok <==> old(self).mark_fault(table@, key@) is None
                &&& final(self).index_manager == old(self).index_manager
                &&& final(self).notes == old(self).notes
                &&& final(self).stand(table@) == old(self).stand(table@)
            },
            value is None && old(self).kept(table@) ==> r is Ok,
            value is Some && old(self).mark_fault(table@, key@) is None && (match old(self).segment_manager.table(table@) {
                Some(held) => held.wf(),
                None => true,
            }) && old(self).names_written(table@, key@) ==> (r is Ok <==> old(self).takes(
                table@,
                PayloadView { key: key@, value: value->Some_0@ },
            )),
            value is Some && r is Ok ==> entry_put(
                old(self).segment_manager.codec,
                old(self).state_of(table@),
                key@,
                Some(value->Some_0@),
            ) == Some(final(self).state_of(table@)),
            value is Some && r is Ok ==> can_append_in(
                old(self).stand(table@),
                old(self).segment_manager.codec.encoding(
                    PayloadView { key: key@, value: value->Some_0@ },
                ).len() as int,
            ),
            r is Err && old(self).mark_fault(table@, key@) is None ==> {
                ||| r->Err_0.error_code == ErrorCodes::TableRecordEncodeError
                ||| r->Err_0.error_code == ErrorCodes::TableSegmentFileWriteError
                ||| r->Err_0.error_code == ErrorCodes::TableSegmentFileCreateError
                ||| r->Err_0.error_code == ErrorCodes::TableSegmentFileOpenError
                ||| node_failure(r->Err_0)
            },
            r is Ok && old(self).kept(table@) ==> {
                &&& final(self).kept(table@)
                &&& forall|k: Seq<char>|
                    k != key@ ==> #[trigger] final(self).disk_reading(table@, k) == old(self).disk_reading(table@, k)
            },
            r is Ok && sound_in(old(self).index_manager.index(table@)) ==> {
                &&& sound_in(final(self).index_manager.index(table@))
                &&& value is Some && (match old(self).segment_manager.table(table@) {
                    Some(held) => held.wf(),
                    None => true,
                }) ==> final(self).disk_reading(table@, key@) == Some(
                    Reading::Found(value->Some_0@),
                )
            },
    {
        proof {
            if old(self).kept(table@) {
                lemma_kept_marks(*old(self), table@, key@);
            }
        }
        let old_position = match self.index_manager.find_record(table, key.as_str()) {
            Ok(p) => p,
            Err(e) => { return Err(e); },
        };
        match old_position {
            Some(p) => {
                match self.segment_manager.mark_deleted_record(table, p) {
                    Ok(_) => {},
                    Err(e) => { return Err(e); },
                }
                proof {
                    let before = old(self).segment_manager.table(table@).unwrap();
                    let file = file_of(before.files@, p.segment_id.0).unwrap();
                    let now = file.update(p.offset as int, 2u8);
                    if p.offset + 5 <= file.len() {
                        assert(crate::bytes::window(now, p.offset + 1, 4) =~= crate::bytes::window(
                            file,
                            p.offset + 1,
                            4,
                        ));
                        if frame_inside(file, p.offset as int) {
                            assert(body(now, p.offset as int) =~= body(file, p.offset as int));
                        }
                    }
                    if old(self).kept(table@) {
                        lemma_record_marked_kept(*old(self), *self, table@, key@, p);
                    }
                }
            },
            None => {},
        }
        match value {
            Some(v) => {
                let record = TableSegmentPayload { key: key.clone(), value: v.clone() };
                let ghost marked = *self;
                let position = match self.segment_manager.append_record(table, &record) {
                    Ok(p) => p,
                    Err(e) => { return Err(e); },
                };
                let ghost appended = *self;
                match self.index_manager.update_record(table, key.as_str(), &position) {
                    Ok(_) => {},
                    Err(e) => { return Err(e); },
                }
                proof {
                    self.notes@ = self.notes@.insert(
                        table@,
                        marked.notes_of(table@).push(
                            Note {
                                position,
                                payload: self.segment_manager.codec.encoding(record@),
                            },
                        ),
                    );
                    if old(self).kept(table@) {
                        lemma_record_appended_kept(
                            marked,
                            appended,
                            *self,
                            table@,
                            record@,
                            position,
                        );
                    }
                    if match old(self).segment_manager.table(table@) {
                        Some(held) => held.wf(),
                        None => true,
                    } {
                        if old_position is Some {
                            let p = old_position->Some_0;
                            let before = old(self).segment_manager.table(table@).unwrap();
                            let after = marked.segment_manager.table(table@).unwrap();
                            if p.segment_id == before.state.last_segment_id && p.offset
                                >= before.state.current_page_offset {
                                assert(after.files@[p.segment_id.0 - 1]@[p.offset as int] == 2);
                            }
                        }
                    }
                }
                Ok(())
            },
            None => Ok(()),
        }
    }

    /// Brings a generation of memtables to the disk, table by table and key
    /// by key in the order in which the keys were first written. It stops at
    /// the first failure.
    ///
    /// Where every table was kept and the generation names no table twice,
    /// the disk says afterwards of every key what the generation held for it,
    /// and of a key that the generation did not hold what it said before.
    ///
    /// A generation without keys changes nothing and is no failure. A
    /// generation that holds deletions only leaves every index as it was, and
    /// is brought to tables that are kept without a failure. A generation
    /// that holds values is brought to tables that are kept without a failure
    /// where every table takes every key the generation holds for it, one
    /// after the other.
    pub fn write_memtable(&mut self, names: &Vec<String>, memtables: &Vec<HashMemtable>) -> (r:
        Result<(), Errors>)
        requires
            old(self).wf(),
            names@.len() == memtables@.len(),
            forall|i: int| 0 <= i < memtables@.len() ==> (#[trigger] memtables@[i]).wf(),
        ensures
            final(self).wf(),
            final(self).table_names == old(self).table_names,
            final(self).segment_manager.codec == old(self).segment_manager.codec,
            holds_no_key(memtables@) ==> r is Ok && *final(self) == *old(self),
            deletes_only(memtables@) ==> final(self).index_manager == old(self).index_manager
                && final(self).notes == old(self).notes,
            deletes_only(memtables@) && distinct(names@) && (forall|table: Seq<char>| #[trigger]
                old(self).kept(table)) ==> r is Ok,
            brings(*old(self), names@, memtables@) && distinct(names@) && (forall|
                table: Seq<char>,
            | #[trigger] old(self).kept(table)) ==> r is Ok,
            r is Ok && distinct(names@) && (forall|table: Seq<char>| #[trigger]
                old(self).kept(table)) ==> {
                &&& forall|table: Seq<char>| #[trigger] final(self).kept(table)
                &&& forall|table: Seq<char>, key: Seq<char>|
                    #[trigger] final(self).disk_reading(table, key) == flushed(
                        old(self).disk_reading(table, key),
                        generation_reading(names@, memtables@, table, key),
                    )
            },
    {
        let ghost good = distinct(names@) && (forall|table: Seq<char>| #[trigger]
            old(self).kept(table));
        proof {
            if good {
                lemma_brought_none(*old(self), names@, memtables@);
            }
        }
        let mut t: usize = 0;
        while t < names.len()
            invariant
                t <= names.len(),
                names@.len() == memtables@.len(),
                forall|i: int| 0 <= i < memtables@.len() ==> (#[trigger] memtables@[i]).wf(),
                self.wf(),
                self.table_names == old(self).table_names,
                self.segment_manager.codec == old(self).segment_manager.codec,
                good ==> distinct(names@),
                good ==> brought_so_far(*old(self), *self, names@, memtables@, t as int, 0),
                holds_no_key(memtables@) ==> *self == *old(self),
                deletes_only(memtables@) ==> self.index_manager == old(self).index_manager
                    && self.notes == old(self).notes,
                good == (distinct(names@) && (forall|table: Seq<char>| #[trigger]
                    old(self).kept(table))),
                good && brings(*old(self), names@, memtables@) ==> forall|j: int|
                    t <= j < names@.len() ==> self.state_of(#[trigger] names@[j]@) == old(self).state_of(names@[j]@),
            decreases names.len() - t,
        {
            let memtable = &memtables[t];
            let count = memtable.len();
            let mut k: usize = 0;
            while k < count
                invariant
                    k <= count,
                    count == memtable.key_list().len(),
                    memtable.wf(),
                    *memtable == memtables@[t as int],
                    t < names@.len(),
                    names@.len() == memtables@.len(),
                    self.wf(),
                    self.table_names == old(self).table_names,
                    self.segment_manager.codec == old(self).segment_manager.codec,
                    good ==> distinct(names@),
                    good ==> brought_so_far(
                        *old(self),
                        *self,
                        names@,
                        memtables@,
                        t as int,
                        k as int,
                    ),
                    holds_no_key(memtables@) ==> *self == *old(self),
                    deletes_only(memtables@) ==> self.index_manager == old(self).index_manager
                        && self.notes == old(self).notes,
                    good == (distinct(names@) && (forall|table: Seq<char>| #[trigger]
                        old(self).kept(table))),
                    good && brings(*old(self), names@, memtables@) ==> {
                        &&& forall|j: int|
                            t < j < names@.len() ==> self.state_of(#[trigger] names@[j]@) == old(self).state_of(names@[j]@)
                        &&& table_put(
                            self.segment_manager.codec,
                            old(self).state_of(names@[t as int]@),
                            memtables@[t as int],
                            k as int,
                        ) == Some(self.state_of(names@[t as int]@))
                    },
                decreases count - k,
            {
                let key = memtable.key_at(k);
                let value = match memtable.get(key.as_str()) {
                    MemtableGetResult::Found(v) => Some(v),
                    _ => None,
                };
                let ghost before = *self;
                let ghost sure = good && brings(*old(self), names@, memtables@);
                proof {
                    assert(reading(memtables@[t as int].entries(), key@) is Found
                        <==> value is Some);
                    if good {
                        assert(before.kept(names@[t as int]@));
                        crate::disktable::notes::lemma_kept_marks(
                            before,
                            names@[t as int]@,
                            key@,
                        );
                    }
                    if sure {
                        let codec = self.segment_manager.codec;
                        let start = old(self).state_of(names@[t as int]@);
                        assert(table_put(
                            codec,
                            start,
                            memtables@[t as int],
                            memtables@[t as int].key_list().len() as int,
                        ) is Some);
                        lemma_table_put_front(
                            codec,
                            start,
                            memtables@[t as int],
                            k + 1,
                            memtables@[t as int].key_list().len() as int,
                        );
                        assert(table_put(codec, start, memtables@[t as int], k + 1) == entry_put(
                            codec,
                            before.state_of(names@[t as int]@),
                            key@,
                            handed(reading(memtables@[t as int].entries(), key@)),
                        ));
                    }
                }
                match self.write_entry(names[t].as_str(), key, &value) {
                    Ok(_) => {},
                    Err(e) => { return Err(e); },
                }
                proof {
                    if sure {
                        assert forall|j: int| t < j < names@.len() implies self.state_of(
                            #[trigger] names@[j]@,
                        ) == old(self).state_of(names@[j]@) by {
                            assert(names@[j]@ != names@[t as int]@);
                            assert(before.state_of(names@[j]@) == old(self).state_of(names@[j]@));
                            assert(self.index_manager.index(names@[j]@)
                                == before.index_manager.index(names@[j]@));
                            assert(self.segment_manager.table(names@[j]@)
                                == before.segment_manager.table(names@[j]@));
                        }
                    }
                    if good {
                        assert(before.kept(names@[t as int]@));
                        assert(entry_written(
                            before,
                            *self,
                            names@[t as int]@,
                            key@,
                            handed(reading(memtable.entries(), key@)),
                        ));
                        lemma_brought_step(
                            *old(self),
                            before,
                            *self,
                            names@,
                            memtables@,
                            t as int,
                            k as int,
                        );
                    }
                }
                k += 1;
            }
            proof {
                if good {
                    lemma_brought_next(*old(self), *self, names@, memtables@, t as int);
                }
            }
            t += 1;
        }
        proof {
            if good {
                lemma_brought_all(*old(self), *self, names@, memtables@);
            }
        }
        Ok(())
    }
}

} // verus!
