//! What the disk says once a generation of memtables was brought to it.

use vstd::prelude::*;
use crate::disktable::index::btree::BTreeMetadata;
use crate::disktable::index::entry_of;
use crate::disktable::index::outcome::replaced;
use crate::disktable::segment::encode::TableRecordCodec;
use crate::disktable::segment::position::TableRecordPosition;
use crate::disktable::segment::record::PayloadView;
use crate::disktable::segment::state::TableSegmentState;
use crate::disktable::segment::{can_append_in, place_for};
use crate::disktable::{once_deleted, DiskTableManager};
use crate::memtable::{reading, HashMemtable, Reading};
use crate::names::{distinct, lemma_name_index, name_index};

verus! {

/// What a generation of memtables holds for a key of a table: what the
/// memtable of the table says of the key, and nothing where the generation has
/// no memtable for the table.
pub open spec fn generation_reading(
    names: Seq<String>,
    memtables: Seq<HashMemtable>,
    table: Seq<char>,
    key: Seq<char>,
) -> Reading {
    if name_index(names, table) < names.len() && name_index(names, table) < memtables.len() {
        reading(memtables[name_index(names, table)].entries(), key)
    } else {
        Reading::NotFound
    }
}

/// What decides whether a table takes a value: where its segments stand,
/// and the files and the metadata of its index.
pub struct Stand {
    pub segments: TableSegmentState,
    pub files: Seq<Seq<u8>>,
    pub metadata: BTreeMetadata,
}

/// Where the segments stand after a record with a payload of `len` bytes
/// was appended.
pub open spec fn stood(state: TableSegmentState, len: int) -> TableSegmentState {
    let place = place_for(state, 5 + len);
    TableSegmentState {
        current_page_offset: (place.current_page_offset + 5 + len) as u32,
        ..place
    }
}

/// Where a table stands after what a memtable held for a key was written
/// to it; nothing where the write fails. A deletion leaves it as it was. A
/// value needs bytes from the codec, room for the record in a page, and an
/// index that takes the entry in place of the one it has.
pub open spec fn entry_put<C: TableRecordCodec>(
    codec: C,
    s: Stand,
    key: Seq<char>,
    value: Option<Seq<char>>,
) -> Option<Stand> {
    match value {
        None => Some(s),
        Some(v) => {
            let pair = PayloadView { key, value: v };
            let len = codec.encoding(pair).len() as int;
            let place = place_for(s.segments, 5 + len);
            let at = TableRecordPosition {
                segment_id: place.last_segment_id,
                offset: place.current_page_offset,
            };
            if codec.encodes(pair) && can_append_in(s.segments, len) {
                match replaced(s.files, s.metadata, entry_of(key, at)) {
                    Some(out) => Some(
                        Stand { segments: stood(s.segments, len), files: out.0, metadata: out.1 },
                    ),
                    None => None,
                }
            } else {
                None
            }
        },
    }
}

/// Where a table stands after the first `upto` keys of a memtable were
/// written to it; nothing where one of the writes fails.
pub open spec fn table_put<C: TableRecordCodec>(
    codec: C,
    s: Stand,
    memtable: HashMemtable,
    upto: int,
) -> Option<Stand>
    decreases upto,
{
    if upto <= 0 {
        Some(s)
    } else {
        match table_put(codec, s, memtable, upto - 1) {
            Some(before) => entry_put(
                codec,
                before,
                memtable.key_list()[upto - 1]@,
                handed(reading(memtable.entries(), memtable.key_list()[upto - 1]@)),
            ),
            None => None,
        }
    }
}

/// Where the first keys cannot be written, more of them cannot be either.
pub proof fn lemma_table_put_front<C: TableRecordCodec>(
    codec: C,
    s: Stand,
    memtable: HashMemtable,
    front: int,
    upto: int,
)
    requires
        front <= upto,
        table_put(codec, s, memtable, upto) is Some,
    ensures
        table_put(codec, s, memtable, front) is Some,
    decreases upto,
{
    if front < upto && upto > 0 {
        lemma_table_put_front(codec, s, memtable, front, upto - 1);
    }
}

/// Whether a generation can be brought to the disk: every table takes
/// every key that the generation holds for it, one after the other.
pub open spec fn brings<C: TableRecordCodec>(
    manager: DiskTableManager<C>,
    names: Seq<String>,
    memtables: Seq<HashMemtable>,
) -> bool {
    forall|i: int|
        0 <= i < names.len() && i < memtables.len() ==> (#[trigger] table_put(
            manager.segment_manager.codec,
            manager.state_of(names[i]@),
            memtables[i],
            memtables[i].key_list().len() as int,
        )) is Some
}

/// Whether a generation holds no key.
pub open spec fn holds_no_key(memtables: Seq<HashMemtable>) -> bool {
    forall|i: int| 0 <= i < memtables.len() ==> (#[trigger] memtables[i]).key_list().len() == 0
}

/// Whether a generation holds no value: every key that it holds, it holds
/// as deleted.
pub open spec fn deletes_only(memtables: Seq<HashMemtable>) -> bool {
    forall|i: int, key: Seq<char>|
        0 <= i < memtables.len() ==> !(#[trigger] reading(memtables[i].entries(), key) is Found)
}

/// What the disk says of a key once what a memtable held for the key was
/// brought to it: the value that the memtable held; for a key that the
/// memtable held as deleted, what the disk said with its record marked as
/// deleted; and what the disk said for a key that the memtable did not hold.
pub open spec fn flushed(before: Option<Reading>, held: Reading) -> Option<Reading> {
    match held {
        Reading::Found(v) => Some(Reading::Found(v)),
        Reading::Deleted => once_deleted(before),
        Reading::NotFound => before,
    }
}

/// What of a generation has been brought to the disk for a key of a table
/// when the tables in front of place `t` are done, and of the table at place
/// `t` the first `k` keys.
pub open spec fn brought(
    names: Seq<String>,
    memtables: Seq<HashMemtable>,
    t: int,
    k: int,
    table: Seq<char>,
    key: Seq<char>,
) -> Reading {
    let i = name_index(names, table);
    if i < t && i < memtables.len() {
        reading(memtables[i].entries(), key)
    } else if i == t && t < memtables.len() && name_index(memtables[t].key_list(), key) < k {
        reading(memtables[t].entries(), key)
    } else {
        Reading::NotFound
    }
}

/// Whether every table is kept and the disk says of every key what it said
/// at the start with what has been brought to it since.
pub open spec fn brought_so_far<C: TableRecordCodec>(
    start: DiskTableManager<C>,
    now: DiskTableManager<C>,
    names: Seq<String>,
    memtables: Seq<HashMemtable>,
    t: int,
    k: int,
) -> bool {
    &&& forall|table: Seq<char>| #[trigger] now.kept(table)
    &&& forall|table: Seq<char>, key: Seq<char>|
        #[trigger] now.disk_reading(table, key) == flushed(
            start.disk_reading(table, key),
            brought(names, memtables, t, k, table, key),
        )
}

/// What holds after what a memtable held for a key was written to a table:
/// nothing changed for other tables, and a table that was kept is kept, says
/// of the key what was written, and of every other key what it said.
pub open spec fn entry_written<C: TableRecordCodec>(
    before: DiskTableManager<C>,
    after: DiskTableManager<C>,
    table: Seq<char>,
    key: Seq<char>,
    value: Option<Seq<char>>,
) -> bool {
    &&& after.segment_manager.codec == before.segment_manager.codec
    &&& forall|other: Seq<char>|
        other != table ==> #[trigger] after.index_manager.index(other)
            == before.index_manager.index(other)
    &&& forall|other: Seq<char>|
        other != table ==> #[trigger] after.segment_manager.table(other)
            == before.segment_manager.table(other)
    &&& forall|other: Seq<char>|
        other != table ==> #[trigger] after.notes_of(other) == before.notes_of(other)
    &&& before.kept(table) ==> {
        &&& after.kept(table)
        &&& forall|k: Seq<char>|
            k != key ==> #[trigger] after.disk_reading(table, k) == before.disk_reading(table, k)
        &&& after.disk_reading(table, key) == match value {
            Some(v) => Some(Reading::Found(v)),
            None => once_deleted(before.disk_reading(table, key)),
        }
    }
}

/// What a memtable hands over for a key: the value, or nothing for a key
/// that it holds as deleted.
pub open spec fn handed(held: Reading) -> Option<Seq<char>> {
    match held {
        Reading::Found(v) => Some(v),
        _ => None,
    }
}

/// Nothing has been brought to the disk at the start.
pub proof fn lemma_brought_none<C: TableRecordCodec>(
    start: DiskTableManager<C>,
    names: Seq<String>,
    memtables: Seq<HashMemtable>,
)
    requires
        forall|table: Seq<char>| #[trigger] start.kept(table),
    ensures
        brought_so_far(start, start, names, memtables, 0, 0),
{
    assert forall|table: Seq<char>, key: Seq<char>|
        #[trigger] start.disk_reading(table, key) == flushed(
            start.disk_reading(table, key),
            brought(names, memtables, 0, 0, table, key),
        ) by {
        lemma_name_index(names, table);
        if memtables.len() > 0 {
            lemma_name_index(memtables[0].key_list(), key);
        }
    }
}

/// Writing what the memtable at place `t` holds for its key at place `k`
/// brings one key more to the disk.
pub proof fn lemma_brought_step<C: TableRecordCodec>(
    start: DiskTableManager<C>,
    before: DiskTableManager<C>,
    after: DiskTableManager<C>,
    names: Seq<String>,
    memtables: Seq<HashMemtable>,
    t: int,
    k: int,
)
    requires
        distinct(names),
        names.len() == memtables.len(),
        0 <= t < names.len(),
        memtables[t].wf(),
        0 <= k < memtables[t].key_list().len(),
        brought_so_far(start, before, names, memtables, t, k),
        entry_written(
            before,
            after,
            names[t]@,
            memtables[t].key_list()[k]@,
            handed(reading(memtables[t].entries(), memtables[t].key_list()[k]@)),
        ),
    ensures
        brought_so_far(start, after, names, memtables, t, k + 1),
{
    let table = names[t]@;
    let keys = memtables[t].key_list();
    let key = keys[k]@;
    let held = reading(memtables[t].entries(), key);
    lemma_name_index(names, table);
    assert(name_index(names, table) == t) by {
        if name_index(names, table) < t {
            assert(names[name_index(names, table)]@ == names[t]@);
        }
    }
    memtables[t].lemma_keys();
    lemma_name_index(keys, key);
    assert(name_index(keys, key) == k) by {
        if name_index(keys, key) < k {
            assert(keys[name_index(keys, key)]@ == keys[k]@);
        }
    }
    assert(crate::names::listed(keys, key));
    assert(held != Reading::NotFound);
    assert(before.kept(table));
    assert forall|other: Seq<char>| #[trigger] after.kept(other) by {
        assert(before.kept(other));
        if other != table {
            assert(after.index_manager.index(other) == before.index_manager.index(other));
            assert(after.segment_manager.table(other) == before.segment_manager.table(other));
            assert(after.notes_of(other) == before.notes_of(other));
        }
    }
    assert forall|other: Seq<char>, k2: Seq<char>|
        #[trigger] after.disk_reading(other, k2) == flushed(
            start.disk_reading(other, k2),
            brought(names, memtables, t, k + 1, other, k2),
        ) by {
        lemma_name_index(names, other);
        lemma_name_index(keys, k2);
        assert(before.disk_reading(other, k2) == flushed(
            start.disk_reading(other, k2),
            brought(names, memtables, t, k, other, k2),
        ));
        if other != table {
            assert(after.index_manager.index(other) == before.index_manager.index(other));
            assert(after.segment_manager.table(other) == before.segment_manager.table(other));
            assert(after.disk_reading(other, k2) == before.disk_reading(other, k2));
        } else if k2 != key {
            assert(after.disk_reading(table, k2) == before.disk_reading(table, k2));
        }
    }
}

/// When every key of the memtable at place `t` is brought to the disk, the
/// tables in front of place `t + 1` are done.
pub proof fn lemma_brought_next<C: TableRecordCodec>(
    start: DiskTableManager<C>,
    now: DiskTableManager<C>,
    names: Seq<String>,
    memtables: Seq<HashMemtable>,
    t: int,
)
    requires
        names.len() == memtables.len(),
        0 <= t < names.len(),
        memtables[t].wf(),
        brought_so_far(start, now, names, memtables, t, memtables[t].key_list().len() as int),
    ensures
        brought_so_far(start, now, names, memtables, t + 1, 0),
{
    let keys = memtables[t].key_list();
    memtables[t].lemma_keys();
    assert forall|table: Seq<char>, key: Seq<char>|
        #[trigger] now.disk_reading(table, key) == flushed(
            start.disk_reading(table, key),
            brought(names, memtables, t + 1, 0, table, key),
        ) by {
        lemma_name_index(names, table);
        lemma_name_index(keys, key);
        if t + 1 < memtables.len() {
            lemma_name_index(memtables[t + 1].key_list(), key);
        }
        assert(now.disk_reading(table, key) == flushed(
            start.disk_reading(table, key),
            brought(names, memtables, t, keys.len() as int, table, key),
        ));
    }
}

/// When the tables in front of every place are done, the generation is on the disk.
pub proof fn lemma_brought_all<C: TableRecordCodec>(
    start: DiskTableManager<C>,
    now: DiskTableManager<C>,
    names: Seq<String>,
    memtables: Seq<HashMemtable>,
)
    requires
        names.len() == memtables.len(),
        brought_so_far(start, now, names, memtables, names.len() as int, 0),
    ensures
        forall|table: Seq<char>, key: Seq<char>|
            #[trigger] now.disk_reading(table, key) == flushed(
                start.disk_reading(table, key),
                generation_reading(names, memtables, table, key),
            ),
{
    assert forall|table: Seq<char>, key: Seq<char>|
        #[trigger] now.disk_reading(table, key) == flushed(
            start.disk_reading(table, key),
            generation_reading(names, memtables, table, key),
        ) by {
        lemma_name_index(names, table);
        assert(now.disk_reading(table, key) == flushed(
            start.disk_reading(table, key),
            brought(names, memtables, names.len() as int, 0, table, key),
        ));
    }
}

} // verus!
