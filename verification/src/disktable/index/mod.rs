use vstd::prelude::*;
use crate::disktable::index::btree::{
    decoded_metadata, fresh_metadata, images, index_valid, node_failure, tells,
    BTreeIndex, BTreeMetadata, LeafEntryView, Lookup,
};
use crate::disktable::index::outcome::{put_in, replaced, taken_out};
use crate::disktable::segment::position::TableRecordPosition;
use crate::errors::{ErrorCodes, Errors};
use crate::names::{
    distinct, find_name, lemma_name_index, lemma_pushed, lemma_pushed_other, lemma_removed,
    lemma_removed_other, name_index,
};

pub mod btree;
pub mod growth;
pub mod order;
pub mod outcome;
pub mod search;

verus! {

/// The indexes of all tables, by the tables' names.
pub struct IndexManager {
    pub names: Vec<String>,
    pub indices: Vec<BTreeIndex>,
}

/// The index held for a table; none for a table that has none yet.
pub open spec fn index_of(names: Seq<String>, indices: Seq<BTreeIndex>, table: Seq<char>) -> Option<
    BTreeIndex,
> {
    if name_index(names, table) < names.len() && name_index(names, table) < indices.len() {
        Some(indices[name_index(names, table)])
    } else {
        None
    }
}

/// What a search for `key` gives in an index; nothing is found where there is no index.
pub open spec fn looked_up(index: Option<BTreeIndex>, key: Seq<char>) -> Lookup {
    match index {
        Some(held) => held.lookup(key),
        None => Lookup::Missing,
    }
}

/// Whether an index is what opening the files that were found gives: the
/// index that the metadata describes where it decodes and fits the segment
/// files, and an empty index, with its metadata saved, where there is no
/// metadata or the metadata does not fit the files, which are then dropped.
pub open spec fn loaded(file: Option<Vec<u8>>, segments: Vec<Vec<u8>>, held: BTreeIndex) -> bool {
    match file {
        Some(bytes) => match decoded_metadata(bytes@) {
            Some(m) => if index_valid(images(segments@), m) {
                &&& held.metadata == m
                &&& held.metadata_file == file
                &&& held.segments == segments
            } else {
                &&& held.segments@.len() == 0
                &&& held.metadata == fresh_metadata()
                &&& held.metadata_saved()
            },
            None => false,
        },
        None => {
            &&& held.segments == segments
            &&& held.metadata == fresh_metadata()
            &&& held.metadata_saved()
        },
    }
}

/// Whether the files that were found can be opened as an index: the
/// metadata decodes, where there is any.
pub open spec fn loads(file: Option<Vec<u8>>, segments: Vec<Vec<u8>>) -> bool {
    match file {
        Some(bytes) => decoded_metadata(bytes@) is Some,
        None => true,
    }
}

/// Whether an index is sound; a table without an index has nothing out of order.
pub open spec fn sound_in(index: Option<BTreeIndex>) -> bool {
    match index {
        Some(held) => held.sound(),
        None => true,
    }
}

/// The segment files of an index; none where there is no index.
pub open spec fn files_in(index: Option<BTreeIndex>) -> Seq<Seq<u8>> {
    match index {
        Some(held) => held.files(),
        None => Seq::empty(),
    }
}

/// The metadata of an index; that of an empty index where there is none.
pub open spec fn metadata_in(index: Option<BTreeIndex>) -> BTreeMetadata {
    match index {
        Some(held) => held.metadata,
        None => fresh_metadata(),
    }
}

/// The entry of a leaf that names a record for a key.
pub open spec fn entry_of(key: Seq<char>, position: TableRecordPosition) -> LeafEntryView {
    LeafEntryView { key, segment_id: position.segment_id.0, offset: position.offset }
}

/// The next free offset of an index; zero where there is no index.
pub open spec fn next_offset_in(index: Option<BTreeIndex>) -> int {
    match index {
        Some(held) => held.metadata.next_offset as int,
        None => 0,
    }
}

/// Whether an index holds no entry: there is none, or it has no root.
pub open spec fn holds_nothing(index: Option<BTreeIndex>) -> bool {
    match index {
        Some(held) => held.metadata.root_position is None,
        None => true,
    }
}

impl IndexManager {
    /// A manager without indexes.
    pub fn new() -> (m: Self)
        ensures
            m.wf(),
            m.names@.len() == 0,
    {
        IndexManager { names: Vec::new(), indices: Vec::new() }
    }

    /// Whether each name has its index and no name occurs twice.
    pub open spec fn wf(&self) -> bool {
        &&& self.names@.len() == self.indices@.len()
        &&& distinct(self.names@)
    }

    /// The index held for a table.
    pub open spec fn index(&self, table: Seq<char>) -> Option<BTreeIndex> {
        index_of(self.names@, self.indices@, table)
    }

    /// Finds the place of a table's index, making and opening an empty index
    /// where the table has none. It fails, with nothing changed, where the
    /// new index cannot be opened.
    pub fn get_or_create_index(&mut self, table_name: &str) -> (r: Result<usize, Errors>)
        requires
            old(self).wf(),
        ensures
            final(self).wf(),
            forall|other: Seq<char>|
                other != table_name@ ==> #[trigger] final(self).index(other) == old(self).index(
                    other,
                ),
            r is Ok,
            match r {
                Ok(i) => {
                    &&& i == name_index(final(self).names@, table_name@)
                    &&& i < final(self).indices@.len()
                    &&& final(self).index(table_name@) == Some(final(self).indices@[i as int])
                    &&& match old(self).index(table_name@) {
                        Some(held) => *final(self) == *old(self),
                        None => {
                            &&& final(self).indices@[i as int].metadata
                                == crate::disktable::index::btree::fresh_metadata()
                            &&& final(self).indices@[i as int].segments@.len() == 0
                            &&& final(self).indices@[i as int].files() == Seq::<Seq<u8>>::empty()
                            &&& final(self).indices@[i as int].sound()
                        },
                    }
                },
                Err(e) => {
                    &&& e.error_code == ErrorCodes::FileWriteError
                    &&& old(self).index(table_name@) is None
                    &&& *final(self) == *old(self)
                },
            },
    {
        match find_name(&self.names, table_name) {
            Some(i) => Ok(i),
            None => {
                let mut index = BTreeIndex::new();
                match index.initialize() {
                    Ok(_) => {},
                    Err(e) => { return Err(e); },
                }
                proof {
                    assert(index.files() =~= Seq::<Seq<u8>>::empty());
                }
                self.names.push(table_name.to_owned());
                self.indices.push(index);
                proof {
                    assert(self.names@.drop_last() =~= old(self).names@);
                    lemma_name_index(old(self).names@, table_name@);
                    lemma_pushed(old(self).names@, self.names@, table_name@);
                    assert forall|other: Seq<char>| other != table_name@ implies #[trigger]
                        self.index(other) == old(self).index(other) by {
                        lemma_pushed_other(old(self).names@, self.names@, table_name@, other);
                        lemma_name_index(old(self).names@, other);
                        let k = name_index(old(self).names@, other);
                        if k < old(self).names@.len() {
                            assert(self.indices@[k] == old(self).indices@[k]);
                        }
                    }
                }
                Ok(self.names.len() - 1)
            },
        }
    }

    /// Takes over the files of a table's index as they were found and opens
    /// the index, in place of any the table had. It fails, and leaves what
    /// the table had, where the index cannot be opened.
    pub fn load_index(
        &mut self,
        table_name: &str,
        metadata_file: Option<Vec<u8>>,
        segments: Vec<Vec<u8>>,
    ) -> (r: Result<(), Errors>)
        requires
            old(self).wf(),
        ensures
            final(self).wf(),
            forall|other: Seq<char>|
                other != table_name@ ==> #[trigger] final(self).index(other) == old(self).index(
                    other,
                ),
            r is Ok <==> loads(metadata_file, segments),
            match r {
                Ok(_) => final(self).index(table_name@) matches Some(held) && loaded(
                    metadata_file,
                    segments,
                    held,
                ),
                Err(e) => {
                    &&& e.error_code == ErrorCodes::FileReadError || e.error_code
                        == ErrorCodes::FileWriteError
                    &&& *final(self) == *old(self)
                },
            },
    {
        let mut index = BTreeIndex::new();
        index.metadata_file = metadata_file;
        index.segments = segments;
        match index.initialize() {
            Ok(_) => {},
            Err(e) => { return Err(e); },
        }
        match find_name(&self.names, table_name) {
            Some(i) => {
                self.indices[i] = index;
                proof {
                    assert forall|other: Seq<char>| other != table_name@ implies #[trigger]
                        self.index(other) == old(self).index(other) by {
                        lemma_name_index(self.names@, other);
                    }
                }
            },
            None => {
                self.names.push(table_name.to_owned());
                self.indices.push(index);
                proof {
                    assert(self.names@.drop_last() =~= old(self).names@);
                    lemma_name_index(old(self).names@, table_name@);
                    lemma_pushed(old(self).names@, self.names@, table_name@);
                    assert forall|other: Seq<char>| other != table_name@ implies #[trigger]
                        self.index(other) == old(self).index(other) by {
                        lemma_pushed_other(old(self).names@, self.names@, table_name@, other);
                        lemma_name_index(old(self).names@, other);
                        let k = name_index(old(self).names@, other);
                        if k < old(self).names@.len() {
                            assert(self.indices@[k] == old(self).indices@[k]);
                        }
                    }
                }
            },
        }
        Ok(())
    }

    /// Drops a table's index with its files.
    pub fn delete_index(&mut self, table_name: &str)
        requires
            old(self).wf(),
        ensures
            final(self).wf(),
            final(self).index(table_name@) is None,
            forall|other: Seq<char>|
                other != table_name@ ==> #[trigger] final(self).index(other) == old(self).index(
                    other,
                ),
    {
        match find_name(&self.names, table_name) {
            Some(i) => {
                self.names.remove(i);
                self.indices.remove(i);
                proof {
                    lemma_removed(old(self).names@, i as int);
                    assert(self.names@ == old(self).names@.remove(i as int));
                    assert(self.indices@ == old(self).indices@.remove(i as int));
                    assert forall|other: Seq<char>| other != table_name@ implies #[trigger]
                        self.index(other) == old(self).index(other) by {
                        lemma_removed_other(old(self).names@, i as int, other);
                        lemma_name_index(old(self).names@, other);
                        let k = name_index(old(self).names@, other);
                        if k < i {
                            assert(self.indices@[k] == old(self).indices@[k]);
                        } else if k < old(self).names@.len() {
                            assert(self.indices@[k - 1] == old(self).indices@[k]);
                        }
                    }
                }
            },
            None => {},
        }
    }

    /// Puts a key with the position of its record into a table's index.
    /// Where the index held nothing, or no block was added, a search for the
    /// key finds the position afterwards and a search for any other key gives
    /// what it gave before; in a sound index that did not hold the key the
    /// same holds through every split. It succeeds exactly where the index,
    /// or an empty one for a table that has none, takes the entry.
    pub fn add_record(&mut self, table_name: &str, key: &str, position: &TableRecordPosition) -> (r:
        Result<(), Errors>)
        requires
            old(self).wf(),
        ensures
            final(self).wf(),
            forall|other: Seq<char>|
                other != table_name@ ==> #[trigger] final(self).index(other) == old(self).index(
                    other,
                ),
            r matches Err(e) ==> node_failure(e),
            final(self).index(table_name@) is Some,
            match put_in(
                files_in(old(self).index(table_name@)),
                metadata_in(old(self).index(table_name@)),
                entry_of(key@, *position),
            ) {
                Some(out) => r is Ok && files_in(final(self).index(table_name@)) == out.0
                    && metadata_in(final(self).index(table_name@)) == out.1,
                None => r is Err,
            },
            r is Ok && (holds_nothing(old(self).index(table_name@)) || next_offset_in(
                final(self).index(table_name@),
            ) == next_offset_in(old(self).index(table_name@))) ==> {
                &&& looked_up(final(self).index(table_name@), key@) == Lookup::Found(*position)
                &&& forall|other: Seq<char>|
                    other != key@ ==> #[trigger] looked_up(final(self).index(table_name@), other)
                        == looked_up(old(self).index(table_name@), other)
            },
            r is Ok && sound_in(old(self).index(table_name@)) && looked_up(
                old(self).index(table_name@),
                key@,
            ) == Lookup::Missing ==> {
                &&& sound_in(final(self).index(table_name@))
                &&& looked_up(final(self).index(table_name@), key@) == Lookup::Found(*position)
                &&& forall|other: Seq<char>|
                    other != key@ ==> #[trigger] looked_up(final(self).index(table_name@), other)
                        == looked_up(old(self).index(table_name@), other)
            },
    {
        let i = match self.get_or_create_index(table_name) {
            Ok(i) => i,
            Err(e) => { return Err(e); },
        };
        let ghost between = *self;
        let r = self.indices[i].insert(key.to_owned(), *position);
        proof {
            assert forall|other: Seq<char>| other != table_name@ implies #[trigger] self.index(
                other,
            ) == old(self).index(other) by {
                lemma_name_index(self.names@, other);
                lemma_name_index(self.names@, table_name@);
                assert(between.index(other) == old(self).index(other));
                let k = name_index(self.names@, other);
                if k < self.names@.len() {
                    assert(k != i);
                    assert(self.indices@[k] == between.indices@[k]);
                }
            }
            if old(self).index(table_name@) is None {
                assert forall|other: Seq<char>| between.indices@[i as int].lookup(other)
                    == Lookup::Missing by {}
            }
            lemma_name_index(self.names@, table_name@);
            assert(self.index(table_name@) == Some(self.indices@[i as int]));
        }
        r
    }

    /// Takes the first entry with a key out of a table's index. A search for
    /// any other key gives afterwards what it gave before, and in a sound
    /// index a search for the key finds nothing.
    pub fn delete_record(&mut self, table_name: &str, key: &str) -> (r: Result<(), Errors>)
        requires
            old(self).wf(),
        ensures
            final(self).wf(),
            forall|other: Seq<char>|
                other != table_name@ ==> #[trigger] final(self).index(other) == old(self).index(
                    other,
                ),
            r matches Err(e) ==> node_failure(e),
            final(self).index(table_name@) is Some,
            metadata_in(final(self).index(table_name@)) == metadata_in(
                old(self).index(table_name@),
            ),
            match taken_out(
                files_in(old(self).index(table_name@)),
                metadata_in(old(self).index(table_name@)).root_position,
                key@,
            ) {
                Some(now) => r is Ok && files_in(final(self).index(table_name@)) == now,
                None => r is Err,
            },
            r is Ok ==> {
                &&& final(self).index(table_name@) is Some
                &&& forall|other: Seq<char>|
                    other != key@ ==> #[trigger] looked_up(final(self).index(table_name@), other)
                        == looked_up(old(self).index(table_name@), other)
            },
            r is Ok && sound_in(old(self).index(table_name@)) ==> {
                &&& sound_in(final(self).index(table_name@))
                &&& looked_up(final(self).index(table_name@), key@) == Lookup::Missing
            },
    {
        let i = match self.get_or_create_index(table_name) {
            Ok(i) => i,
            Err(e) => { return Err(e); },
        };
        let ghost between = *self;
        let r = self.indices[i].delete(&key.to_owned());
        proof {
            assert forall|other: Seq<char>| other != table_name@ implies #[trigger] self.index(
                other,
            ) == old(self).index(other) by {
                lemma_name_index(self.names@, other);
                lemma_name_index(self.names@, table_name@);
                assert(between.index(other) == old(self).index(other));
                let k = name_index(self.names@, other);
                if k < self.names@.len() {
                    assert(k != i);
                    assert(self.indices@[k] == between.indices@[k]);
                }
            }
            if old(self).index(table_name@) is None {
                assert forall|other: Seq<char>| between.indices@[i as int].lookup(other)
                    == Lookup::Missing by {}
            }
            lemma_name_index(self.names@, table_name@);
            assert(self.index(table_name@) == Some(self.indices@[i as int]));
        }
        r
    }

    /// Takes the first entry with a key out of a table's index and puts the
    /// key in with a new position. Where the index held nothing, or no block
    /// was added, a search for the key finds the position afterwards and a
    /// search for any other key gives what it gave before; in a sound index
    /// the same holds through every split. It succeeds exactly where the
    /// index, or an empty one for a table that has none, lets the entry of the
    /// key go and takes the new one.
    pub fn update_record(&mut self, table_name: &str, key: &str, position: &TableRecordPosition) -> (r:
        Result<(), Errors>)
        requires
            old(self).wf(),
        ensures
            final(self).wf(),
            forall|other: Seq<char>|
                other != table_name@ ==> #[trigger] final(self).index(other) == old(self).index(
                    other,
                ),
            r matches Err(e) ==> node_failure(e),
            final(self).index(table_name@) is Some,
            match replaced(
                files_in(old(self).index(table_name@)),
                metadata_in(old(self).index(table_name@)),
                entry_of(key@, *position),
            ) {
                Some(out) => r is Ok && files_in(final(self).index(table_name@)) == out.0
                    && metadata_in(final(self).index(table_name@)) == out.1,
                None => r is Err,
            },
            r is Ok && (holds_nothing(old(self).index(table_name@)) || next_offset_in(
                final(self).index(table_name@),
            ) == next_offset_in(old(self).index(table_name@))) ==> {
                &&& looked_up(final(self).index(table_name@), key@) == Lookup::Found(*position)
                &&& forall|other: Seq<char>|
                    other != key@ ==> #[trigger] looked_up(final(self).index(table_name@), other)
                        == looked_up(old(self).index(table_name@), other)
            },
            r is Ok && sound_in(old(self).index(table_name@)) ==> {
                &&& sound_in(final(self).index(table_name@))
                &&& looked_up(final(self).index(table_name@), key@) == Lookup::Found(*position)
                &&& forall|other: Seq<char>|
                    other != key@ ==> #[trigger] looked_up(final(self).index(table_name@), other)
                        == looked_up(old(self).index(table_name@), other)
            },
    {
        let i = match self.get_or_create_index(table_name) {
            Ok(i) => i,
            Err(e) => { return Err(e); },
        };
        let ghost between = *self;
        let r = self.indices[i].update(key.to_owned(), *position);
        proof {
            assert forall|other: Seq<char>| other != table_name@ implies #[trigger] self.index(
                other,
            ) == old(self).index(other) by {
                lemma_name_index(self.names@, other);
                lemma_name_index(self.names@, table_name@);
                assert(between.index(other) == old(self).index(other));
                let k = name_index(self.names@, other);
                if k < self.names@.len() {
                    assert(k != i);
                    assert(self.indices@[k] == between.indices@[k]);
                }
            }
            if old(self).index(table_name@) is None {
                assert forall|other: Seq<char>| between.indices@[i as int].lookup(other)
                    == Lookup::Missing by {}
            }
            lemma_name_index(self.names@, table_name@);
            assert(self.index(table_name@) == Some(self.indices@[i as int]));
        }
        r
    }

    /// Searches a table's index for a key. A table without an index holds nothing.
    pub fn find_record(&self, table_name: &str, key: &str) -> (r: Result<
        Option<TableRecordPosition>,
        Errors,
    >)
        ensures
            tells(r, looked_up(self.index(table_name@), key@)),
    {
        match find_name(&self.names, table_name) {
            Some(i) => {
                if i < self.indices.len() {
                    self.indices[i].find(&key.to_owned())
                } else {
                    Ok(None)
                }
            },
            None => Ok(None),
        }
    }
}

} // verus!
