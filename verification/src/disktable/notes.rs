//! The records that were appended to a table, and why writing one leaves the others alone.

use vstd::prelude::*;
use crate::disktable::index::btree::{BTreeIndex, Lookup};
use crate::disktable::index::looked_up;
use crate::disktable::segment::encode::TableRecordCodec;
use crate::disktable::segment::position::TableRecordPosition;
use crate::disktable::segment::state::TableSegmentState;
use crate::disktable::index::sound_in;
use crate::disktable::segment::record::PayloadView;
use crate::disktable::segment::state::no_segments;
use crate::disktable::segment::{
    body, body_len, file_of, frame_appended_from, frame_inside, others_same, place_for,
    record_marked, segments_wf, TableSegments,
};
use crate::disktable::{stored_reading, DiskTableManager};

verus! {

/// A record that was appended to a table: where its frame starts, and the
/// payload it holds.
pub struct Note {
    pub position: TableRecordPosition,
    pub payload: Seq<u8>,
}

/// The offset behind the frame of a record.
pub open spec fn note_end(n: Note) -> int {
    n.position.offset + 5 + n.payload.len()
}

/// Whether the files hold the frame of a record where the record was appended.
pub open spec fn note_written(files: Seq<Vec<u8>>, n: Note) -> bool {
    &&& file_of(files, n.position.segment_id.0) is Some
    &&& frame_inside(file_of(files, n.position.segment_id.0).unwrap(), n.position.offset as int)
    &&& body(file_of(files, n.position.segment_id.0).unwrap(), n.position.offset as int)
        == n.payload
}

/// Whether the frame of one record lies in front of the frame of another:
/// in an earlier segment, or in the same segment and ending where the other
/// starts or before.
pub open spec fn note_before(a: Note, b: Note) -> bool {
    a.position.segment_id.0 < b.position.segment_id.0 || (a.position.segment_id.0
        == b.position.segment_id.0 && note_end(a) <= b.position.offset)
}

/// Whether the frame of a record lies in front of the place where the next
/// record goes.
pub open spec fn note_below(state: TableSegmentState, n: Note) -> bool {
    n.position.segment_id.0 < state.last_segment_id.0 || (n.position.segment_id.0
        == state.last_segment_id.0 && note_end(n) <= state.current_page_offset)
}

/// Whether the files hold every record that was appended, in the order in
/// which they were appended, one behind the other, and in front of the place
/// where the next record goes.
pub open spec fn notes_kept(state: TableSegmentState, files: Seq<Vec<u8>>, notes: Seq<Note>) -> bool {
    &&& forall|i: int|
        0 <= i < notes.len() ==> note_written(files, #[trigger] notes[i]) && note_below(
            state,
            notes[i],
        )
    &&& forall|i: int, j: int|
        0 <= i < j < notes.len() ==> note_before(#[trigger] notes[i], #[trigger] notes[j])
}

/// Where a file holds a frame and another file agrees with it from the
/// byte behind the frame's flag to the end of the frame, the other file holds
/// the same frame with the same payload.
pub proof fn lemma_frame_same(a: Seq<u8>, b: Seq<u8>, at: int)
    requires
        frame_inside(a, at),
        at + 5 + body_len(a, at) <= b.len(),
        forall|i: int| at + 1 <= i < at + 5 + body_len(a, at) ==> b[i] == a[i],
    ensures
        body_len(b, at) == body_len(a, at),
        frame_inside(b, at),
        body(b, at) == body(a, at),
{
    assert(crate::bytes::window(b, at + 1, 4) =~= crate::bytes::window(a, at + 1, 4));
    assert(body(b, at) =~= body(a, at));
}

/// Marking one record as deleted leaves every record where it was appended
/// and changes what no other record says.
pub proof fn lemma_marked_kept<C: TableRecordCodec>(
    codec: C,
    state: TableSegmentState,
    before: Seq<Vec<u8>>,
    after: Seq<Vec<u8>>,
    notes: Seq<Note>,
    j: int,
)
    requires
        notes_kept(state, before, notes),
        0 <= j < notes.len(),
        others_same(before, after, notes[j].position.segment_id.0 - 1),
        after[notes[j].position.segment_id.0 - 1]@ == before[notes[j].position.segment_id.0
            - 1]@.update(notes[j].position.offset as int, 2u8),
    ensures
        notes_kept(state, after, notes),
        forall|i: int|
            0 <= i < notes.len() && i != j ==> stored_reading(
                codec,
                after,
                (#[trigger] notes[i]).position,
            ) == stored_reading(codec, before, notes[i].position),
{
    let marked = notes[j];
    let seg = marked.position.segment_id.0;
    let at = marked.position.offset as int;
    assert(note_written(before, notes[j]));
    assert forall|i: int| 0 <= i < notes.len() implies note_written(after, #[trigger] notes[i])
        && (i != j ==> stored_reading(codec, after, notes[i].position) == stored_reading(
        codec,
        before,
        notes[i].position,
    )) by {
        let n = notes[i];
        assert(note_written(before, notes[i]));
        let id = n.position.segment_id.0;
        let a = file_of(before, id).unwrap();
        if id == seg {
            let b = file_of(after, id).unwrap();
            let start = n.position.offset as int;
            if i < j {
                assert(note_before(notes[i], notes[j]));
            } else if i > j {
                assert(note_before(notes[j], notes[i]));
            }
            lemma_frame_same(a, b, start);
        } else {
            assert(after[id - 1] == before[id - 1]);
        }
    }
}

/// Appending a record leaves every record where it was appended, changes
/// what none of them says, and the new record lies behind them all.
pub proof fn lemma_appended_kept<C: TableRecordCodec>(
    codec: C,
    state: TableSegmentState,
    files: Seq<Vec<u8>>,
    after: TableSegments,
    payload: Seq<u8>,
    position: TableRecordPosition,
    notes: Seq<Note>,
)
    requires
        segments_wf(state, files),
        notes_kept(state, files, notes),
        frame_appended_from(state, files, after, payload, Ok(position)),
    ensures
        notes_kept(after.state, after.files@, notes.push(Note { position, payload })),
        forall|i: int|
            0 <= i < notes.len() ==> stored_reading(
                codec,
                after.files@,
                (#[trigger] notes[i]).position,
            ) == stored_reading(codec, files, notes[i].position),
{
    let total = 5 + payload.len() as int;
    let place = place_for(state, total);
    let fresh = Note { position, payload };
    let now = notes.push(fresh);
    assert forall|i: int| 0 <= i < notes.len() implies note_written(
        after.files@,
        #[trigger] notes[i],
    ) && note_below(after.state, notes[i]) && note_before(notes[i], fresh) && stored_reading(
        codec,
        after.files@,
        notes[i].position,
    ) == stored_reading(codec, files, notes[i].position) by {
        let n = notes[i];
        assert(note_written(files, notes[i]));
        assert(note_below(state, notes[i]));
        let id = n.position.segment_id.0;
        let a = file_of(files, id).unwrap();
        if id != position.segment_id.0 {
            assert(file_of(files, id) is Some);
            assert(file_of(after.files@, id) == file_of(files, id));
        } else {
            let b = file_of(after.files@, id).unwrap();
            lemma_frame_same(a, b, n.position.offset as int);
        }
    }
    assert forall|i: int| 0 <= i < now.len() implies note_written(
        after.files@,
        #[trigger] now[i],
    ) && note_below(after.state, now[i]) by {
        if i < notes.len() {
            assert(now[i] == notes[i]);
        }
    }
    assert forall|i: int, j: int| 0 <= i < j < now.len() implies note_before(
        #[trigger] now[i],
        #[trigger] now[j],
    ) by {
        assert(now[i] == notes[i]);
        if j < notes.len() {
            assert(now[j] == notes[j]);
        }
    }
}

/// Whether the records that were appended hold one at `position` whose
/// payload decodes to a pair with `key`.
pub open spec fn names_record<C: TableRecordCodec>(
    codec: C,
    notes: Seq<Note>,
    position: TableRecordPosition,
    key: Seq<char>,
) -> bool {
    exists|i: int|
        0 <= i < notes.len() && (#[trigger] notes[i]).position == position && codec.decoding(
            notes[i].payload,
        ) is Some && codec.decoding(notes[i].payload).unwrap().key == key
}

/// Whether an index names for each key that it holds a record that was
/// appended with that key.
pub open spec fn faithful<C: TableRecordCodec>(
    codec: C,
    index: Option<BTreeIndex>,
    notes: Seq<Note>,
) -> bool {
    forall|k: Seq<char>|
        (#[trigger] looked_up(index, k)) matches Lookup::Found(p) ==> names_record(
            codec,
            notes,
            p,
            k,
        )
}

/// After the record that the index names for `key` was marked as deleted,
/// a table that was kept is kept, and the disk says of every other key what
/// it said.
pub proof fn lemma_record_marked_kept<C: TableRecordCodec>(
    before: DiskTableManager<C>,
    after: DiskTableManager<C>,
    table: Seq<char>,
    key: Seq<char>,
    p: TableRecordPosition,
)
    requires
        before.kept(table),
        looked_up(before.index_manager.index(table), key) == Lookup::Found(p),
        after.index_manager.index(table) == before.index_manager.index(table),
        after.notes_of(table) == before.notes_of(table),
        after.segment_manager.codec == before.segment_manager.codec,
        before.segment_manager.table(table) is Some ==> after.segment_manager.table(table)
            is Some && record_marked(
            before.segment_manager.table(table).unwrap(),
            after.segment_manager.table(table).unwrap(),
            p,
            Ok(()),
        ),
    ensures
        after.kept(table),
        forall|k: Seq<char>|
            k != key ==> #[trigger] after.disk_reading(table, k) == before.disk_reading(table, k),
{
    let codec = before.segment_manager.codec;
    let index = before.index_manager.index(table);
    let notes = before.notes_of(table);
    assert(names_record(codec, notes, p, key));
    let j = choose|j: int|
        0 <= j < notes.len() && (#[trigger] notes[j]).position == p && codec.decoding(
            notes[j].payload,
        ) is Some && codec.decoding(notes[j].payload).unwrap().key == key;
    let held = before.segment_manager.table(table).unwrap();
    let now = after.segment_manager.table(table).unwrap();
    assert(note_written(held.files@, notes[j]));
    assert(note_below(held.state, notes[j]));
    lemma_marked_kept(codec, held.state, held.files@, now.files@, notes, j);
    assert forall|k: Seq<char>| k != key implies #[trigger] after.disk_reading(table, k)
        == before.disk_reading(table, k) by {
        match looked_up(index, k) {
            Lookup::Found(q) => {
                assert(names_record(codec, notes, q, k));
                let i = choose|i: int|
                    0 <= i < notes.len() && (#[trigger] notes[i]).position == q && codec.decoding(
                        notes[i].payload,
                    ) is Some && codec.decoding(notes[i].payload).unwrap().key == k;
                assert(i != j);
                assert(stored_reading(codec, now.files@, notes[i].position) == stored_reading(
                    codec,
                    held.files@,
                    notes[i].position,
                ));
            },
            _ => {},
        }
    }
}

/// After a record with a key was appended and the index was made to name
/// it for the key, a table that was kept is kept, and the disk says of every
/// other key what it said.
pub proof fn lemma_record_appended_kept<C: TableRecordCodec>(
    before: DiskTableManager<C>,
    appended: DiskTableManager<C>,
    after: DiskTableManager<C>,
    table: Seq<char>,
    record: PayloadView,
    position: TableRecordPosition,
)
    requires
        before.kept(table),
        appended.index_manager.index(table) == before.index_manager.index(table),
        appended.segment_manager.codec == before.segment_manager.codec,
        appended.segment_manager.table(table) is Some,
        match before.segment_manager.table(table) {
            Some(held) => frame_appended_from(
                held.state,
                held.files@,
                appended.segment_manager.table(table).unwrap(),
                before.segment_manager.codec.encoding(record),
                Ok(position),
            ),
            None => frame_appended_from(
                no_segments(),
                Seq::empty(),
                appended.segment_manager.table(table).unwrap(),
                before.segment_manager.codec.encoding(record),
                Ok(position),
            ),
        },
        before.segment_manager.codec.decoding(before.segment_manager.codec.encoding(record))
            == Some(record),
        after.segment_manager.table(table) == appended.segment_manager.table(table),
        after.segment_manager.codec == before.segment_manager.codec,
        after.notes_of(table) == before.notes_of(table).push(
            Note { position, payload: before.segment_manager.codec.encoding(record) },
        ),
        sound_in(after.index_manager.index(table)),
        looked_up(after.index_manager.index(table), record.key) == Lookup::Found(position),
        forall|other: Seq<char>|
            other != record.key ==> #[trigger] looked_up(after.index_manager.index(table), other)
                == looked_up(before.index_manager.index(table), other),
    ensures
        after.kept(table),
        forall|k: Seq<char>|
            k != record.key ==> #[trigger] after.disk_reading(table, k) == before.disk_reading(
                table,
                k,
            ),
{
    let codec = before.segment_manager.codec;
    let index = before.index_manager.index(table);
    let notes = before.notes_of(table);
    let payload = codec.encoding(record);
    let fresh = Note { position, payload };
    let later = notes.push(fresh);
    let now = appended.segment_manager.table(table).unwrap();
    let (state, files) = match before.segment_manager.table(table) {
        Some(held) => (held.state, held.files@),
        None => (no_segments(), Seq::<Vec<u8>>::empty()),
    };
    assert(segments_wf(state, files));
    assert(notes_kept(state, files, notes));
    lemma_appended_kept(codec, state, files, now, payload, position, notes);
    assert forall|k: Seq<char>|
        (#[trigger] looked_up(after.index_manager.index(table), k)) is Found implies names_record(
        codec,
        later,
        looked_up(after.index_manager.index(table), k)->Found_0,
        k,
    ) by {
        let q = looked_up(after.index_manager.index(table), k)->Found_0;
        if k == record.key {
            assert(later[notes.len() as int] == fresh);
        } else {
            assert(looked_up(index, k) == Lookup::Found(q));
            assert(names_record(codec, notes, q, k));
            let i = choose|i: int|
                0 <= i < notes.len() && (#[trigger] notes[i]).position == q && codec.decoding(
                    notes[i].payload,
                ) is Some && codec.decoding(notes[i].payload).unwrap().key == k;
            assert(later[i] == notes[i]);
        }
    }
    assert forall|k: Seq<char>| k != record.key implies #[trigger] after.disk_reading(table, k)
        == before.disk_reading(table, k) by {
        assert(looked_up(after.index_manager.index(table), k) == looked_up(index, k));
        match looked_up(index, k) {
            Lookup::Found(q) => {
                assert(names_record(codec, notes, q, k));
                let i = choose|i: int|
                    0 <= i < notes.len() && (#[trigger] notes[i]).position == q && codec.decoding(
                        notes[i].payload,
                    ) is Some && codec.decoding(notes[i].payload).unwrap().key == k;
                assert(stored_reading(codec, now.files@, notes[i].position) == stored_reading(
                    codec,
                    files,
                    notes[i].position,
                ));
            },
            _ => {},
        }
    }
}

/// The disk can tell what it holds for every key of a table that is kept.
pub proof fn lemma_kept_reads<C: TableRecordCodec>(
    manager: DiskTableManager<C>,
    table: Seq<char>,
    key: Seq<char>,
)
    requires
        manager.kept(table),
    ensures
        manager.disk_reading(table, key) is Some,
{
    let codec = manager.segment_manager.codec;
    let index = manager.index_manager.index(table);
    let notes = manager.notes_of(table);
    match index {
        Some(held) => {
            held.lemma_sound_ordered();
        },
        None => {},
    }
    match looked_up(index, key) {
        Lookup::Found(p) => {
            assert(names_record(codec, notes, p, key));
            let i = choose|i: int|
                0 <= i < notes.len() && (#[trigger] notes[i]).position == p && codec.decoding(
                    notes[i].payload,
                ) is Some && codec.decoding(notes[i].payload).unwrap().key == key;
            let held = manager.segment_manager.table(table).unwrap();
            assert(note_written(held.files@, notes[i]));
        },
        _ => {},
    }
}

/// In a table that is kept, the record that the index names for a key can
/// be marked as deleted and lies in front of the place where the next record
/// goes, and the segments are in order.
pub proof fn lemma_kept_marks<C: TableRecordCodec>(
    manager: DiskTableManager<C>,
    table: Seq<char>,
    key: Seq<char>,
)
    requires
        manager.kept(table),
    ensures
        manager.mark_fault(table, key) is None,
        manager.names_written(table, key),
        manager.segment_manager.table(table) matches Some(held) ==> held.wf(),
{
    let codec = manager.segment_manager.codec;
    let index = manager.index_manager.index(table);
    let notes = manager.notes_of(table);
    match index {
        Some(held) => {
            held.lemma_sound_ordered();
        },
        None => {},
    }
    match looked_up(index, key) {
        Lookup::Found(p) => {
            assert(names_record(codec, notes, p, key));
            let i = choose|i: int|
                0 <= i < notes.len() && (#[trigger] notes[i]).position == p && codec.decoding(
                    notes[i].payload,
                ) is Some && codec.decoding(notes[i].payload).unwrap().key == key;
            let held = manager.segment_manager.table(table).unwrap();
            assert(note_written(held.files@, notes[i]));
            assert(note_below(held.state, notes[i]));
        },
        _ => {},
    }
}

} // verus!
