use vstd::prelude::*;
use crate::disktable::segment::encode::TableRecordCodec;
use crate::disktable::segment::position::TableRecordPosition;
use crate::disktable::segment::record::{RecordStateFlags, TableSegmentPayload};
use crate::disktable::segment::segment_id::TableSegmentID;
use crate::disktable::segment::state::{no_segments, TableSegmentState};
use crate::disktable::segment::{
    frame_appended, frame_appended_from, record_marked, record_read, ListSegmentFileResultItem,
    TableSegments,
};
use crate::errors::{failure, ErrorCodes, Errors};
use crate::names::{
    distinct, find_name, lemma_name_index, lemma_pushed, lemma_pushed_other, lemma_removed,
    lemma_removed_other, name_index,
};

verus! {

/// The segments of all tables, by the tables' names.
pub struct TableSegmentManager<C: TableRecordCodec> {
    pub codec: C,
    pub names: Vec<String>,
    pub tables: Vec<TableSegments>,
}

/// The segments held for a table; none for a table that is not known.
pub open spec fn segments_of(names: Seq<String>, tables: Seq<TableSegments>, table: Seq<char>) -> Option<
    TableSegments,
> {
    if name_index(names, table) < names.len() && name_index(names, table) < tables.len() {
        Some(tables[name_index(names, table)])
    } else {
        None
    }
}

/// The size a listing shows for a file: its length, or the largest `u32`
/// for a longer file.
pub open spec fn listed_size(len: nat) -> int {
    if len > u32::MAX {
        u32::MAX as int
    } else {
        len as int
    }
}

/// Whether a table has no segments yet.
pub open spec fn without_segments(t: TableSegments) -> bool {
    t.state == no_segments() && t.files@.len() == 0
}

impl<C: TableRecordCodec> TableSegmentManager<C> {
    /// A manager without tables.
    pub fn new(codec: C) -> (m: Self)
        ensures
            m.wf(),
            m.codec == codec,
            m.names@.len() == 0,
    {
        TableSegmentManager { codec, names: Vec::new(), tables: Vec::new() }
    }

    /// Whether each name has its segments and no name occurs twice.
    pub open spec fn wf(&self) -> bool {
        &&& self.names@.len() == self.tables@.len()
        &&& distinct(self.names@)
    }

    /// The segments held for a table.
    pub open spec fn table(&self, name: Seq<char>) -> Option<TableSegments> {
        segments_of(self.names@, self.tables@, name)
    }

    /// Finds the place of a table, making the table known where it is not.
    pub fn slot(&mut self, table: &str) -> (index: usize)
        requires
            old(self).wf(),
        ensures
            final(self).wf(),
            final(self).codec == old(self).codec,
            index == name_index(final(self).names@, table@),
            index < final(self).tables@.len(),
            final(self).table(table@) == Some(final(self).tables@[index as int]),
            match old(self).table(table@) {
                Some(held) => *final(self) == *old(self),
                None => without_segments(final(self).tables@[index as int]) && final(self).tables@[index as int].wf(),
            },
            forall|other: Seq<char>|
                other != table@ ==> #[trigger] final(self).table(other) == old(self).table(other),
    {
        match find_name(&self.names, table) {
            Some(i) => i,
            None => {
                self.names.push(table.to_owned());
                self.tables.push(TableSegments::new());
                proof {
                    assert(self.names@.drop_last() =~= old(self).names@);
                    lemma_name_index(old(self).names@, table@);
                    lemma_pushed(old(self).names@, self.names@, table@);
                    assert forall|other: Seq<char>| other != table@ implies #[trigger] self.table(
                        other,
                    ) == old(self).table(other) by {
                        lemma_pushed_other(old(self).names@, self.names@, table@, other);
                        lemma_name_index(old(self).names@, other);
                        let k = name_index(old(self).names@, other);
                        if k < old(self).names@.len() {
                            assert(self.tables@[k] == old(self).tables@[k]);
                        }
                    }
                }
                self.names.len() - 1
            },
        }
    }

    /// Makes a table known, without segments, unless it is known.
    pub fn initialize_table(&mut self, table_name: &str)
        requires
            old(self).wf(),
        ensures
            final(self).wf(),
            final(self).codec == old(self).codec,
            final(self).table(table_name@) is Some,
            match old(self).table(table_name@) {
                Some(held) => *final(self) == *old(self),
                None => without_segments(final(self).table(table_name@).unwrap()),
            },
            forall|other: Seq<char>|
                other != table_name@ ==> #[trigger] final(self).table(other) == old(self).table(
                    other,
                ),
    {
        let _ = self.slot(table_name);
    }

    /// Drops a table with all its segments.
    pub fn truncate_table(&mut self, table_name: &str)
        requires
            old(self).wf(),
        ensures
            final(self).wf(),
            final(self).codec == old(self).codec,
            final(self).table(table_name@) is None,
            forall|other: Seq<char>|
                other != table_name@ ==> #[trigger] final(self).table(other) == old(self).table(
                    other,
                ),
    {
        match find_name(&self.names, table_name) {
            Some(i) => {
                self.names.remove(i);
                self.tables.remove(i);
                proof {
                    lemma_removed(old(self).names@, i as int);
                    assert(self.names@ == old(self).names@.remove(i as int));
                    assert(self.tables@ == old(self).tables@.remove(i as int));
                    assert forall|other: Seq<char>| other != table_name@ implies #[trigger]
                        self.table(other) == old(self).table(other) by {
                        lemma_removed_other(old(self).names@, i as int, other);
                        lemma_name_index(old(self).names@, other);
                        let k = name_index(old(self).names@, other);
                        if k < i {
                            assert(self.tables@[k] == old(self).tables@[k]);
                        } else if k < old(self).names@.len() {
                            assert(self.tables@[k - 1] == old(self).tables@[k]);
                        }
                    }
                }
            },
            None => {},
        }
    }

    /// Takes over the segment files of a table as they were found, in the
    /// order of their numbers from 1 on, and tells from the last file where
    /// the table stands. A table without files starts without segments. It
    /// fails, and leaves the table without segments, where the last file
    /// cannot be told from.
    pub fn set_table(&mut self, table_name: &str, files: Vec<Vec<u8>>) -> (r: Result<(), Errors>)
        requires
            old(self).wf(),
        ensures
            final(self).wf(),
            final(self).codec == old(self).codec,
            final(self).table(table_name@) is Some,
            forall|other: Seq<char>|
                other != table_name@ ==> #[trigger] final(self).table(other) == old(self).table(
                    other,
                ),
            files@.len() == 0 ==> r is Ok && without_segments(
                final(self).table(table_name@).unwrap(),
            ),
            files@.len() > 0 ==> failure(r) == crate::disktable::segment::untold(files@.last()@),
            match r {
                Ok(_) => files@.len() > 0 ==> {
                    &&& final(self).table(table_name@).unwrap().files == files
                    &&& TableSegments::told_from(
                        final(self).table(table_name@).unwrap().state,
                        files@.len() as u64,
                        files@.last()@,
                    )
                },
                Err(e) => {
                    &&& files@.len() > 0
                    &&& without_segments(final(self).table(table_name@).unwrap())
                    &&& e.error_code == ErrorCodes::FileReadError || e.error_code
                        == ErrorCodes::UnknownTableRecordHeaderFlag
                },
            },
    {
        let count = files.len();
        let index = self.slot(table_name);
        let ghost between = *self;
        let told = if count == 0 {
            Ok(TableSegmentState::default())
        } else {
            TableSegments::describe_segment_file(
                &TableSegmentID::new(count as u64),
                files[count - 1].as_slice(),
            )
        };
        let r = match told {
            Ok(state) => {
                self.tables[index] = TableSegments { state, files };
                Ok(())
            },
            Err(e) => {
                self.tables[index] = TableSegments::new();
                Err(e)
            },
        };
        proof {
            assert forall|other: Seq<char>| other != table_name@ implies #[trigger] self.table(
                other,
            ) == old(self).table(other) by {
                lemma_name_index(self.names@, other);
                lemma_name_index(self.names@, table_name@);
                assert(between.table(other) == old(self).table(other));
                let k = name_index(self.names@, other);
                if k < self.names@.len() {
                    assert(k != index);
                    assert(self.tables@[k] == between.tables@[k]);
                }
            }
        }
        r
    }

    /// Appends the record with the payload `encoded` to a table, which is
    /// made known where it is not.
    pub fn append_encoded(&mut self, table_name: &str, encoded: &Vec<u8>) -> (r: Result<
        TableRecordPosition,
        Errors,
    >)
        requires
            old(self).wf(),
        ensures
            final(self).wf(),
            final(self).codec == old(self).codec,
            final(self).table(table_name@) is Some,
            forall|other: Seq<char>|
                other != table_name@ ==> #[trigger] final(self).table(other) == old(self).table(
                    other,
                ),
            match old(self).table(table_name@) {
                Some(held) => frame_appended(
                    held,
                    final(self).table(table_name@).unwrap(),
                    encoded@,
                    r,
                ),
                None => frame_appended_from(
                    no_segments(),
                    Seq::empty(),
                    final(self).table(table_name@).unwrap(),
                    encoded@,
                    r,
                ),
            },
    {
        let index = self.slot(table_name);
        let ghost between = *self;
        let r = self.tables[index].append_frame(encoded);
        proof {
            assert forall|other: Seq<char>| other != table_name@ implies #[trigger] self.table(
                other,
            ) == old(self).table(other) by {
                lemma_name_index(self.names@, other);
                lemma_name_index(self.names@, table_name@);
                assert(between.table(other) == old(self).table(other));
                let k = name_index(self.names@, other);
                if k < self.names@.len() {
                    assert(k != index);
                    assert(self.tables@[k] == between.tables@[k]);
                }
            }
            if old(self).table(table_name@) is None {
                assert(between.tables@[index as int].files@ =~= Seq::empty());
            }
        }
        r
    }

    /// Appends a record to a table. It fails, with nothing changed, where
    /// the codec gives no bytes; else it does what appending those bytes does.
    pub fn append_record(&mut self, table_name: &str, record: &TableSegmentPayload) -> (r: Result<
        TableRecordPosition,
        Errors,
    >)
        requires
            old(self).wf(),
        ensures
            final(self).wf(),
            final(self).codec == old(self).codec,
            forall|other: Seq<char>|
                other != table_name@ ==> #[trigger] final(self).table(other) == old(self).table(
                    other,
                ),
            failure(r) == Some(ErrorCodes::TableRecordEncodeError) ==> *final(self) == *old(self),
            failure(r) == Some(ErrorCodes::TableRecordEncodeError) <==> !old(self).codec.encodes(
                record@,
            ),
            r is Ok ==> old(self).codec.decoding(old(self).codec.encoding(record@)) == Some(
                record@,
            ),
            failure(r) != Some(ErrorCodes::TableRecordEncodeError) ==> {
                &&& final(self).table(table_name@) is Some
                &&& match old(self).table(table_name@) {
                    Some(held) => frame_appended(
                        held,
                        final(self).table(table_name@).unwrap(),
                        old(self).codec.encoding(record@),
                        r,
                    ),
                    None => frame_appended_from(
                        no_segments(),
                        Seq::empty(),
                        final(self).table(table_name@).unwrap(),
                        old(self).codec.encoding(record@),
                        r,
                    ),
                }
            },
    {
        let encoded = match self.codec.encode(record) {
            Ok(bytes) => bytes,
            Err(e) => { return Err(e); },
        };
        self.append_encoded(table_name, &encoded)
    }

    /// Reads the record at `position` of a table.
    pub fn find_record(&self, table_name: &str, position: TableRecordPosition) -> (r: Result<
        (RecordStateFlags, TableSegmentPayload),
        Errors,
    >)
        ensures
            match self.table(table_name@) {
                Some(held) => record_read(self.codec, held.files@, position, r),
                None => failure(r) == Some(ErrorCodes::TableSegmentFileOpenError),
            },
    {
        match find_name(&self.names, table_name) {
            Some(i) => {
                if i < self.tables.len() {
                    self.tables[i].find_record(&self.codec, position)
                } else {
                    Err(Errors::new(ErrorCodes::TableSegmentFileOpenError))
                }
            },
            None => Err(Errors::new(ErrorCodes::TableSegmentFileOpenError)),
        }
    }

    /// Marks the record at `position` of a table as deleted.
    pub fn mark_deleted_record(&mut self, table_name: &str, position: TableRecordPosition) -> (r:
        Result<(), Errors>)
        requires
            old(self).wf(),
        ensures
            final(self).wf(),
            final(self).codec == old(self).codec,
            final(self).names == old(self).names,
            forall|other: Seq<char>|
                other != table_name@ ==> #[trigger] final(self).table(other) == old(self).table(
                    other,
                ),
            match old(self).table(table_name@) {
                Some(held) => final(self).table(table_name@) is Some && record_marked(
                    held,
                    final(self).table(table_name@).unwrap(),
                    position,
                    r,
                ),
                None => failure(r) == Some(ErrorCodes::TableSegmentFileOpenError) && *final(self)
                    == *old(self),
            },
    {
        match find_name(&self.names, table_name) {
            Some(i) => {
                let r = self.tables[i].mark_deleted_record(position);
                proof {
                    assert forall|other: Seq<char>| other != table_name@ implies #[trigger]
                        self.table(other) == old(self).table(other) by {
                        lemma_name_index(self.names@, other);
                    }
                }
                r
            },
            None => Err(Errors::new(ErrorCodes::TableSegmentFileOpenError)),
        }
    }

    /// Lists the segment files of a table, by name and size, in the order of
    /// their numbers. A table that is not known has none.
    pub fn list_segment_files(&self, table_name: &str) -> (r: Vec<ListSegmentFileResultItem>)
        ensures
            match self.table(table_name@) {
                Some(held) => {
                    &&& r@.len() == held.files@.len()
                    &&& forall|i: int|
                        0 <= i < r@.len() ==> {
                            &&& vstd::utf8::encode_utf8((#[trigger] r@[i]).file_name@)
                                == crate::hex::hex16((i + 1) as u64)
                            &&& r@[i].file_size as int == listed_size(held.files@[i]@.len())
                        }
                },
                None => r@.len() == 0,
            },
    {
        let mut list: Vec<ListSegmentFileResultItem> = Vec::new();
        match find_name(&self.names, table_name) {
            Some(t) => {
                if t < self.tables.len() {
                    let files = &self.tables[t].files;
                    let mut i: usize = 0;
                    while i < files.len()
                        invariant
                            i <= files.len(),
                            list@.len() == i,
                            forall|j: int|
                                0 <= j < i ==> {
                                    &&& vstd::utf8::encode_utf8((#[trigger] list@[j]).file_name@)
                                        == crate::hex::hex16((j + 1) as u64)
                                    &&& list@[j].file_size as int == listed_size(
                                        files@[j]@.len(),
                                    )
                                },
                        decreases files.len() - i,
                    {
                        let id = TableSegmentID::new(i as u64 + 1);
                        let size = files[i].len();
                        list.push(
                            ListSegmentFileResultItem {
                                file_name: id.file_name(),
                                file_size: if size > u32::MAX as usize {
                                    u32::MAX
                                } else {
                                    size as u32
                                },
                            },
                        );
                        i += 1;
                    }
                }
            },
            None => {},
        }
        list
    }
}

} // verus!
