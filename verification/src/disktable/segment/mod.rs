use vstd::prelude::*;
use vstd::slice::slice_subrange;
use crate::bytes::{
    be_bytes_of, be_u32, lemma_be_u32_round_trip, overlay, read_be_u32, u32_be_bytes, window,
    write_at, zero_from, zeros,
};
use crate::config::{
    DISKTABLE_PAGE_SIZE, DISKTABLE_SEGMENT_SIZE, TABLE_SEGMENT_RECORD_HEADER_SIZE,
};
use crate::disktable::segment::encode::TableRecordCodec;
use crate::disktable::segment::position::TableRecordPosition;
use crate::disktable::segment::record::{
    flag_of, PayloadView, RecordStateFlags, TableSegmentPayload,
};
use crate::disktable::segment::segment_id::TableSegmentID;
use crate::disktable::segment::state::{no_segments, TableSegmentState};
use crate::errors::{failure, ErrorCodes, Errors};

pub mod encode;
pub mod manager;
pub mod position;
pub mod record;
pub mod segment_id;
pub mod state;

verus! {

/// A segment file as a directory listing shows it.
#[derive(Debug)]
pub struct ListSegmentFileResultItem {
    pub file_name: String,
    pub file_size: u32,
}

/// A record found when a segment file is read from end to end.
#[derive(Debug)]
pub struct ScanSegmentFileResult {
    pub state_flags: RecordStateFlags,
    pub position: TableRecordPosition,
    pub payload: TableSegmentPayload,
}

/// A record found in a segment file, as a value: flag, offset and pair.
pub struct ScanItemView {
    pub flag: RecordStateFlags,
    pub offset: int,
    pub payload: PayloadView,
}

/// The frame of a live record: the flag byte 1, the payload's length in four
/// bytes, most significant first, and the payload.
pub open spec fn record_frame(payload: Seq<u8>) -> Seq<u8> {
    seq![1u8] + u32_be_bytes(payload.len() as u32) + payload
}

/// The payload length that the frame at `at` declares.
pub open spec fn body_len(file: Seq<u8>, at: int) -> int {
    be_u32(window(file, at + 1, 4))
}

/// The payload of the frame at `at`.
pub open spec fn body(file: Seq<u8>, at: int) -> Seq<u8> {
    window(file, at + 5, body_len(file, at))
}

/// Whether the frame at `at` lies inside the file: its five bytes of header
/// and the payload they declare.
pub open spec fn frame_inside(file: Seq<u8>, at: int) -> bool {
    &&& 0 <= at
    &&& at + 5 <= file.len()
    &&& at + 5 + body_len(file, at) <= file.len()
}

/// The file of the segment with number `id`. Segments are numbered from 1.
pub open spec fn file_of(files: Seq<Vec<u8>>, id: u64) -> Option<Seq<u8>> {
    if 1 <= id <= files.len() {
        Some(files[id - 1]@)
    } else {
        None
    }
}

/// A page of zeros.
pub open spec fn blank_page() -> Seq<u8> {
    Seq::new(DISKTABLE_PAGE_SIZE as nat, |i: int| 0u8)
}

/// Whether two lists of files agree but for the file at `index`.
pub open spec fn others_same(before: Seq<Vec<u8>>, after: Seq<Vec<u8>>, index: int) -> bool {
    &&& after.len() == before.len()
    &&& forall|i: int| 0 <= i < before.len() && i != index ==> #[trigger] after[i] == before[i]
}

/// Whether a frame of `total` bytes does not fit behind the offset.
pub open spec fn overflows(state: TableSegmentState, total: int) -> bool {
    state.current_page_offset + total > state.segment_file_size
}

/// Whether a frame of `total` bytes starts a new segment: it does not fit
/// behind the offset, and there is no segment yet or the segment would grow
/// beyond its largest size.
pub open spec fn starts_segment(state: TableSegmentState, total: int) -> bool {
    overflows(state, total) && (state.segment_file_size == 0 || state.segment_file_size + total
        > DISKTABLE_SEGMENT_SIZE)
}

/// The state in which a frame of `total` bytes is written: after a new
/// segment of one page was started, or the segment grew by a page, where the
/// frame did not fit.
pub open spec fn place_for(state: TableSegmentState, total: int) -> TableSegmentState {
    if starts_segment(state, total) {
        TableSegmentState {
            last_segment_id: TableSegmentID((state.last_segment_id.0 + 1) as u64),
            segment_file_size: DISKTABLE_PAGE_SIZE,
            current_page_offset: 0,
            current_page_index: 0,
        }
    } else if overflows(state, total) {
        TableSegmentState {
            last_segment_id: state.last_segment_id,
            segment_file_size: (state.segment_file_size + DISKTABLE_PAGE_SIZE) as u32,
            current_page_offset: state.segment_file_size,
            current_page_index: (state.current_page_index + 1) as u32,
        }
    } else {
        state
    }
}

/// The file in which a frame of `total` bytes is written, before it is
/// written: a new file of one page of zeros, the last file with a page of
/// zeros behind it, or the last file as it is.
pub open spec fn room_for(files: Seq<Vec<u8>>, state: TableSegmentState, total: int) -> Seq<u8> {
    if starts_segment(state, total) {
        blank_page()
    } else if overflows(state, total) {
        files[state.last_segment_id.0 - 1]@ + blank_page()
    } else {
        files[state.last_segment_id.0 - 1]@
    }
}

/// What holds of a file into which the frame of a live record was laid at
/// `at`: the frame can be read there, and where only zeros followed `at`,
/// only zeros follow the frame.
pub proof fn lemma_frame_written(before: Seq<u8>, at: int, payload: Seq<u8>)
    requires
        0 <= at,
        at + 5 + payload.len() <= before.len(),
        payload.len() <= u32::MAX,
    ensures
        frame_inside(overlay(before, at, record_frame(payload)), at),
        overlay(before, at, record_frame(payload))[at] == 1,
        body(overlay(before, at, record_frame(payload)), at) == payload,
        zero_from(before, at) ==> zero_from(
            overlay(before, at, record_frame(payload)),
            at + 5 + payload.len(),
        ),
{
    let now = overlay(before, at, record_frame(payload));
    lemma_be_u32_round_trip(payload.len() as u32);
    assert(window(now, at + 1, 4) =~= u32_be_bytes(payload.len() as u32));
    assert(body(now, at) =~= payload);
}

/// What reading the frames of a page's end gives: the offset of the first
/// byte that holds no record, a frame that is cut off, or a flag that is
/// neither live nor deleted.
pub enum Described {
    At(int),
    CutOff,
    BadFlag,
}

/// Follows the frames in `file` from `at` on.
pub open spec fn described(file: Seq<u8>, at: int) -> Described
    decreases file.len() - at,
{
    if at < 0 || at >= file.len() {
        Described::At(at)
    } else if file[at] == 0 {
        Described::At(at)
    } else if file[at] != 1 && file[at] != 2 {
        Described::BadFlag
    } else if at + 5 > file.len() || at + 5 + body_len(file, at) > u32::MAX {
        Described::CutOff
    } else if at + 5 + body_len(file, at) >= file.len() {
        Described::At(at + 5 + body_len(file, at))
    } else {
        described(file, at + 5 + body_len(file, at))
    }
}

/// Why a segment file does not tell where its segment stands: it is
/// shorter than a page or longer than a segment can be, a frame of its last
/// page is cut off, or a flag there is neither live nor deleted. Nothing for a
/// file that tells it.
pub open spec fn untold(bytes: Seq<u8>) -> Option<ErrorCodes> {
    if bytes.len() < DISKTABLE_PAGE_SIZE || bytes.len() > u32::MAX {
        Some(ErrorCodes::FileReadError)
    } else {
        match described(bytes, bytes.len() - DISKTABLE_PAGE_SIZE) {
            Described::At(_) => None,
            Described::CutOff => Some(ErrorCodes::FileReadError),
            Described::BadFlag => Some(ErrorCodes::UnknownTableRecordHeaderFlag),
        }
    }
}

/// State and files still fit together after a frame was written behind the
/// offset, inside the last file.
pub proof fn lemma_written_fits(before: TableSegments, after: TableSegments, payload: Seq<u8>)
    requires
        before.wf(),
        before.state.last_segment_id.0 > 0,
        before.state.current_page_offset + 5 + payload.len() <= before.state.segment_file_size,
        after.state == (TableSegmentState {
            current_page_offset: (before.state.current_page_offset + 5 + payload.len()) as u32,
            ..before.state
        }),
        others_same(before.files@, after.files@, before.state.last_segment_id.0 - 1),
        after.files@[before.state.last_segment_id.0 - 1]@ == overlay(
            before.files@[before.state.last_segment_id.0 - 1]@,
            before.state.current_page_offset as int,
            record_frame(payload),
        ),
    ensures
        after.wf(),
{
    lemma_frame_written(
        before.files@[before.state.last_segment_id.0 - 1]@,
        before.state.current_page_offset as int,
        payload,
    );
}

/// Whether a state and files fit together: there are as many files as the
/// last segment's number says; the last file has the size the state names,
/// whole pages of it and no more than a segment may have; the offset lies
/// inside it, in the page the state names; and only zeros follow the offset.
pub open spec fn segments_wf(state: TableSegmentState, files: Seq<Vec<u8>>) -> bool {
    &&& files.len() == state.last_segment_id.0
    &&& state.last_segment_id.0 == 0 ==> state == no_segments()
    &&& state.last_segment_id.0 > 0 ==> {
        &&& files[state.last_segment_id.0 - 1]@.len() == state.segment_file_size
        &&& 0 < state.segment_file_size <= DISKTABLE_SEGMENT_SIZE
        &&& state.segment_file_size as int % 1048576 == 0
        &&& state.current_page_offset <= state.segment_file_size
        &&& state.current_page_index as int == state.segment_file_size as int / 1048576 - 1
        &&& zero_from(files[state.last_segment_id.0 - 1]@, state.current_page_offset as int)
    }
}

/// Whether a frame with a payload of `len` bytes can be appended in a state:
/// it fits into a page, and a segment number is left where it starts a new
/// segment.
pub open spec fn can_append_in(state: TableSegmentState, len: int) -> bool {
    &&& 5 + len <= DISKTABLE_PAGE_SIZE
    &&& starts_segment(state, 5 + len) ==> state.last_segment_id.0 < u64::MAX
}

/// What holds after the frame of a live record with `payload` was appended
/// to segments that stood at `state` with `files`, and `r` came back: where
/// state and files fitted together, they still do, and the call succeeded
/// exactly when the frame could be appended; on success the frame lies at the
/// position given, in the file that had room for it, the files of other
/// segments are as they were, and the frame can be read back; on failure with
/// state and files that fitted together nothing changed.
pub open spec fn frame_appended_from(
    state: TableSegmentState,
    files: Seq<Vec<u8>>,
    after: TableSegments,
    payload: Seq<u8>,
    r: Result<TableRecordPosition, Errors>,
) -> bool {
    &&& segments_wf(state, files) ==> after.wf()
    &&& segments_wf(state, files) ==> (r is Ok <==> can_append_in(state, payload.len() as int))
    &&& r is Ok ==> can_append_in(state, payload.len() as int)
    &&& match r {
        Ok(position) => {
            let place = place_for(state, 5 + payload.len() as int);
            &&& position.segment_id == place.last_segment_id
            &&& position.offset == place.current_page_offset
            &&& after.state == (TableSegmentState {
                current_page_offset: (place.current_page_offset + 5 + payload.len()) as u32,
                ..place
            })
            &&& file_of(after.files@, position.segment_id.0) == Some(
                overlay(
                    room_for(files, state, 5 + payload.len() as int),
                    position.offset as int,
                    record_frame(payload),
                ),
            )
            &&& forall|id: u64|
                id != position.segment_id.0 && (#[trigger] file_of(files, id)) is Some ==> file_of(
                    after.files@,
                    id,
                ) == file_of(files, id)
            &&& frame_inside(
                file_of(after.files@, position.segment_id.0).unwrap(),
                position.offset as int,
            )
            &&& file_of(after.files@, position.segment_id.0).unwrap()[position.offset as int] == 1
            &&& body(file_of(after.files@, position.segment_id.0).unwrap(), position.offset as int)
                == payload
        },
        Err(e) => {
            &&& e.error_code == ErrorCodes::TableSegmentFileWriteError || e.error_code
                == ErrorCodes::TableSegmentFileCreateError || e.error_code
                == ErrorCodes::TableSegmentFileOpenError
            &&& segments_wf(state, files) ==> after.state == state && after.files@ == files
        },
    }
}

/// What holds after the frame of a live record with `payload` was appended
/// to a table's segments and `r` came back.
pub open spec fn frame_appended(
    before: TableSegments,
    after: TableSegments,
    payload: Seq<u8>,
    r: Result<TableRecordPosition, Errors>,
) -> bool {
    frame_appended_from(before.state, before.files@, after, payload, r)
}

/// What reading the record at `position` gives: the flag at the position and
/// the pair that the payload decodes to; a failure where the segment has no
/// file, the frame does not lie inside the file, or the payload does not
/// decode.
pub open spec fn record_read<C: TableRecordCodec>(
    codec: C,
    files: Seq<Vec<u8>>,
    position: TableRecordPosition,
    r: Result<(RecordStateFlags, TableSegmentPayload), Errors>,
) -> bool {
    match file_of(files, position.segment_id.0) {
        None => failure(r) == Some(ErrorCodes::TableSegmentFileOpenError),
        Some(file) => if frame_inside(file, position.offset as int) {
            match codec.decoding(body(file, position.offset as int)) {
                Some(pair) => {
                    &&& r matches Ok(found)
                    &&& found.0 == flag_of(file[position.offset as int])
                    &&& found.1@ == pair
                },
                None => failure(r) == Some(ErrorCodes::TableRecordDecodeError),
            }
        } else {
            failure(r) == Some(ErrorCodes::FileReadError)
        },
    }
}

/// What holds after the record at `position` was marked as deleted and `r`
/// came back: the byte at the position is 2 and no other byte changed; a
/// failure, with nothing changed, where the position lies in no file.
pub open spec fn record_marked(
    before: TableSegments,
    after: TableSegments,
    position: TableRecordPosition,
    r: Result<(), Errors>,
) -> bool {
    &&& after.state == before.state
    &&& match file_of(before.files@, position.segment_id.0) {
        None => failure(r) == Some(ErrorCodes::TableSegmentFileOpenError) && after.files
            == before.files,
        Some(file) => if position.offset < file.len() {
            &&& r is Ok
            &&& others_same(before.files@, after.files@, position.segment_id.0 - 1)
            &&& after.files@[position.segment_id.0 - 1]@ == file.update(
                position.offset as int,
                2u8,
            )
        } else {
            failure(r) == Some(ErrorCodes::FileWriteError) && after.files == before.files
        },
    }
    &&& before.wf() && (position.segment_id != before.state.last_segment_id || position.offset
        < before.state.current_page_offset) ==> after.wf()
}

/// What holds after room was made for a frame and the frame was written.
pub proof fn lemma_appended(
    before: TableSegments,
    between: TableSegments,
    after: TableSegments,
    payload: Seq<u8>,
    position: TableRecordPosition,
)
    requires
        5 + payload.len() <= DISKTABLE_PAGE_SIZE,
        between.state == place_for(before.state, 5 + payload.len() as int),
        file_of(between.files@, between.state.last_segment_id.0) is Some ==> file_of(
            between.files@,
            between.state.last_segment_id.0,
        ) == Some(room_for(before.files@, before.state, 5 + payload.len() as int)),
        forall|id: u64|
            id != between.state.last_segment_id.0 && (#[trigger] file_of(before.files@, id))
                is Some ==> file_of(between.files@, id) == file_of(before.files@, id),
        file_of(between.files@, between.state.last_segment_id.0) is Some,
        between.state.current_page_offset + 5 + payload.len() <= file_of(
            between.files@,
            between.state.last_segment_id.0,
        ).unwrap().len(),
        position.segment_id == between.state.last_segment_id,
        position.offset == between.state.current_page_offset,
        others_same(between.files@, after.files@, position.segment_id.0 - 1),
        after.files@[position.segment_id.0 - 1]@ == overlay(
            between.files@[position.segment_id.0 - 1]@,
            position.offset as int,
            record_frame(payload),
        ),
    ensures
        file_of(after.files@, position.segment_id.0) == Some(
            overlay(
                room_for(before.files@, before.state, 5 + payload.len() as int),
                position.offset as int,
                record_frame(payload),
            ),
        ),
        forall|id: u64|
            id != position.segment_id.0 && (#[trigger] file_of(before.files@, id)) is Some
                ==> file_of(after.files@, id) == file_of(before.files@, id),
        frame_inside(
            file_of(after.files@, position.segment_id.0).unwrap(),
            position.offset as int,
        ),
        file_of(after.files@, position.segment_id.0).unwrap()[position.offset as int] == 1,
        body(file_of(after.files@, position.segment_id.0).unwrap(), position.offset as int)
            == payload,
{
    let index = position.segment_id.0 - 1;
    lemma_frame_written(between.files@[index]@, position.offset as int, payload);
    assert forall|id: u64|
        id != position.segment_id.0 && (#[trigger] file_of(before.files@, id)) is Some implies file_of(
        after.files@,
        id,
    ) == file_of(before.files@, id) by {
        assert(file_of(between.files@, id) == file_of(before.files@, id));
        assert(after.files@[id - 1] == between.files@[id - 1]);
    }
}

/// A table's segment files and where they stand.
pub struct TableSegments {
    pub state: TableSegmentState,
    /// The segment files; the segment with number `k` is at index `k - 1`.
    pub files: Vec<Vec<u8>>,
}

impl TableSegments {
    /// A table without segments.
    pub fn new() -> (t: Self)
        ensures
            t.state == no_segments(),
            t.files@.len() == 0,
            t.wf(),
    {
        TableSegments { state: TableSegmentState::default(), files: Vec::new() }
    }

    /// Whether state and files fit together.
    pub open spec fn wf(&self) -> bool {
        segments_wf(self.state, self.files@)
    }

    /// Starts a new segment of `size` zero bytes. It fails where no segment
    /// number is left or the files are not those the state counts.
    pub fn create_segment(&mut self, size: u32) -> (r: Result<(), Errors>)
        ensures
            r is Ok <==> old(self).state.last_segment_id.0 < u64::MAX && old(self).files@.len()
                == old(self).state.last_segment_id.0,
            match r {
                Ok(_) => {
                    &&& final(self).state == (TableSegmentState {
                        last_segment_id: TableSegmentID(
                            (old(self).state.last_segment_id.0 + 1) as u64,
                        ),
                        segment_file_size: size,
                        current_page_offset: 0,
                        current_page_index: 0,
                    })
                    &&& final(self).files@.len() == old(self).files@.len() + 1
                    &&& others_same(
                        old(self).files@,
                        final(self).files@.drop_last(),
                        old(self).files@.len() as int,
                    )
                    &&& final(self).files@.last()@ == Seq::new(size as nat, |i: int| 0u8)
                },
                Err(e) => e.error_code == ErrorCodes::TableSegmentFileCreateError && *final(self)
                    == *old(self),
            },
    {
        if self.state.last_segment_id.0 == u64::MAX || self.files.len() as u64
            != self.state.last_segment_id.0 {
            return Err(Errors::new(ErrorCodes::TableSegmentFileCreateError));
        }
        self.state.last_segment_id.increment();
        self.state.current_page_index = 0;
        self.state.current_page_offset = 0;
        self.state.segment_file_size = size;
        self.files.push(zeros(size as usize));
        Ok(())
    }

    /// Grows the last segment by `size` zero bytes and moves the offset to
    /// where the segment ended. It fails where the last segment has no file or
    /// the counters would go beyond their range.
    pub fn increase_segment(&mut self, size: u32) -> (r: Result<(), Errors>)
        ensures
            r is Ok <==> file_of(old(self).files@, old(self).state.last_segment_id.0) is Some
                && old(self).state.segment_file_size + size <= u32::MAX && old(self).state.current_page_index < u32::MAX,
            match r {
                Ok(_) => {
                    &&& final(self).state == (TableSegmentState {
                        last_segment_id: old(self).state.last_segment_id,
                        segment_file_size: (old(self).state.segment_file_size + size) as u32,
                        current_page_offset: old(self).state.segment_file_size,
                        current_page_index: (old(self).state.current_page_index + 1) as u32,
                    })
                    &&& others_same(
                        old(self).files@,
                        final(self).files@,
                        old(self).state.last_segment_id.0 - 1,
                    )
                    &&& final(self).files@[old(self).state.last_segment_id.0 - 1]@ == old(self).files@[old(self).state.last_segment_id.0 - 1]@ + Seq::new(
                        size as nat,
                        |i: int| 0u8,
                    )
                },
                Err(e) => e.error_code == ErrorCodes::TableSegmentFileOpenError && *final(self)
                    == *old(self),
            },
    {
        let id = self.state.last_segment_id.0;
        if id == 0 || id > self.files.len() as u64 {
            return Err(Errors::new(ErrorCodes::TableSegmentFileOpenError));
        }
        if size > u32::MAX - self.state.segment_file_size || self.state.current_page_index
            == u32::MAX {
            return Err(Errors::new(ErrorCodes::TableSegmentFileOpenError));
        }
        let index = (id - 1) as usize;
        let more = zeros(size as usize);
        let file = &mut self.files[index];
        file.extend_from_slice(more.as_slice());
        self.state.current_page_offset = self.state.segment_file_size;
        self.state.current_page_index = self.state.current_page_index + 1;
        self.state.segment_file_size = self.state.segment_file_size + size;
        Ok(())
    }

    /// Whether a frame with a payload of `len` bytes can be appended.
    pub open spec fn can_append(&self, len: int) -> bool {
        can_append_in(self.state, len)
    }

    /// Makes room for a frame of `total` bytes: where the frame does not fit
    /// behind the offset, a new segment of one page is started or the last
    /// segment grows by a page.
    pub fn make_room(&mut self, total: u32) -> (r: Result<(), Errors>)
        requires
            5 <= total <= DISKTABLE_PAGE_SIZE,
        ensures
            match r {
                Ok(_) => {
                    &&& final(self).state == place_for(old(self).state, total as int)
                    &&& file_of(final(self).files@, final(self).state.last_segment_id.0) is Some
                        ==> file_of(final(self).files@, final(self).state.last_segment_id.0)
                        == Some(room_for(old(self).files@, old(self).state, total as int))
                    &&& forall|id: u64|
                        id != final(self).state.last_segment_id.0 && (#[trigger] file_of(
                            old(self).files@,
                            id,
                        )) is Some ==> file_of(final(self).files@, id) == file_of(
                            old(self).files@,
                            id,
                        )
                },
                Err(e) => {
                    &&& e.error_code == ErrorCodes::TableSegmentFileCreateError || e.error_code
                        == ErrorCodes::TableSegmentFileOpenError
                    &&& *final(self) == *old(self)
                },
            },
            old(self).wf() ==> (r is Ok <==> !(starts_segment(old(self).state, total as int)
                && old(self).state.last_segment_id.0 == u64::MAX)),
            r is Ok && starts_segment(old(self).state, total as int) ==> old(self).state.last_segment_id.0 < u64::MAX,
            old(self).wf() && r is Ok ==> {
                &&& final(self).wf()
                &&& final(self).state.current_page_offset + total <= final(self).state.segment_file_size
            },
    {
        if self.state.current_page_offset as u64 + total as u64
            > self.state.segment_file_size as u64 {
            if self.state.segment_file_size == 0 || self.state.segment_file_size as u64
                + total as u64 > DISKTABLE_SEGMENT_SIZE as u64 {
                let r = self.create_segment(DISKTABLE_PAGE_SIZE);
                proof {
                    if r is Ok {
                        let n = old(self).files@.len() as int;
                        assert forall|id: u64|
                            id != self.state.last_segment_id.0 && (#[trigger] file_of(
                                old(self).files@,
                                id,
                            )) is Some implies file_of(self.files@, id) == file_of(
                            old(self).files@,
                            id,
                        ) by {
                            assert(self.files@.drop_last()[id - 1] == old(self).files@[id - 1]);
                        }
                    }
                }
                r
            } else {
                proof {
                    if old(self).wf() {
                        let size = self.state.segment_file_size as int;
                        assert(size % 1048576 == 0);
                        assert(size + 1048576 <= 1073741824);
                    }
                }
                self.increase_segment(DISKTABLE_PAGE_SIZE)
            }
        } else {
            Ok(())
        }
    }

    /// Writes the frame of a live record with the payload `encoded` at the
    /// offset and moves the offset behind it. It fails where the last segment
    /// has no file or the frame does not lie inside it.
    pub fn write_frame(&mut self, encoded: &Vec<u8>) -> (r: Result<TableRecordPosition, Errors>)
        requires
            5 + encoded@.len() <= DISKTABLE_PAGE_SIZE,
        ensures
            r is Ok <==> {
                &&& file_of(old(self).files@, old(self).state.last_segment_id.0) is Some
                &&& old(self).state.current_page_offset + 5 + encoded@.len() <= file_of(
                    old(self).files@,
                    old(self).state.last_segment_id.0,
                ).unwrap().len()
                &&& old(self).state.current_page_offset + 5 + encoded@.len() <= u32::MAX
            },
            match r {
                Ok(position) => {
                    &&& position.segment_id == old(self).state.last_segment_id
                    &&& position.offset == old(self).state.current_page_offset
                    &&& final(self).state == (TableSegmentState {
                        current_page_offset: (old(self).state.current_page_offset + 5
                            + encoded@.len()) as u32,
                        ..old(self).state
                    })
                    &&& others_same(
                        old(self).files@,
                        final(self).files@,
                        position.segment_id.0 - 1,
                    )
                    &&& final(self).files@[position.segment_id.0 - 1]@ == overlay(
                        old(self).files@[position.segment_id.0 - 1]@,
                        position.offset as int,
                        record_frame(encoded@),
                    )
                },
                Err(e) => {
                    &&& e.error_code == ErrorCodes::TableSegmentFileWriteError || e.error_code
                        == ErrorCodes::TableSegmentFileOpenError
                    &&& *final(self) == *old(self)
                },
            },
    {
        let total: u32 = TABLE_SEGMENT_RECORD_HEADER_SIZE + encoded.len() as u32;
        let id = self.state.last_segment_id.0;
        if id == 0 || id > self.files.len() as u64 {
            return Err(Errors::new(ErrorCodes::TableSegmentFileOpenError));
        }
        let index = (id - 1) as usize;
        let at = self.state.current_page_offset as usize;
        if self.state.current_page_offset > u32::MAX - total {
            return Err(Errors::new(ErrorCodes::TableSegmentFileWriteError));
        }
        if at + total as usize > self.files[index].len() {
            return Err(Errors::new(ErrorCodes::TableSegmentFileWriteError));
        }
        let size_bytes = be_bytes_of(encoded.len() as u32);
        let mut frame: Vec<u8> = Vec::new();
        frame.push(1u8);
        frame.extend_from_slice(size_bytes.as_slice());
        frame.extend_from_slice(encoded.as_slice());
        assert(frame@ =~= record_frame(encoded@));
        let file = &mut self.files[index];
        write_at(file, at, frame.as_slice());
        let position = TableRecordPosition {
            segment_id: self.state.last_segment_id,
            offset: self.state.current_page_offset,
        };
        self.state.current_page_offset = self.state.current_page_offset + total;
        Ok(position)
    }

    /// Appends the frame of a live record with the payload `encoded`. Where
    /// the frame does not fit behind the offset, the segment grows by a page
    /// and the frame goes to the start of that page; where there is no
    /// segment yet or the segment would grow beyond its largest size, a new
    /// segment of one page is started. It gives the position of the frame.
    ///
    /// Where state and files fit together, they do so afterwards, the files
    /// of other segments stay as they were, and the frame can be read at the
    /// position given.
    #[verifier::rlimit(50)]
    pub fn append_frame(&mut self, encoded: &Vec<u8>) -> (r: Result<TableRecordPosition, Errors>)
        ensures
            frame_appended(*old(self), *final(self), encoded@, r),
    {
        if encoded.len() > (DISKTABLE_PAGE_SIZE - TABLE_SEGMENT_RECORD_HEADER_SIZE) as usize {
            return Err(Errors::new(ErrorCodes::TableSegmentFileWriteError));
        }
        let total: u32 = TABLE_SEGMENT_RECORD_HEADER_SIZE + encoded.len() as u32;
        match self.make_room(total) {
            Ok(_) => {},
            Err(e) => { return Err(e); },
        }
        let ghost between = *self;
        let r = self.write_frame(encoded);
        proof {
            if old(self).wf() {
                lemma_written_fits(between, *self, encoded@);
            }
            if r is Ok {
                lemma_appended(*old(self), between, *self, encoded@, r->Ok_0);
            }
        }
        r
    }

    /// Reads the frame at `position`: its flag and its payload.
    pub fn read_frame(&self, position: TableRecordPosition) -> (r: Result<
        (RecordStateFlags, &[u8]),
        Errors,
    >)
        ensures
            match file_of(self.files@, position.segment_id.0) {
                None => failure(r) == Some(ErrorCodes::TableSegmentFileOpenError),
                Some(file) => if frame_inside(file, position.offset as int) {
                    &&& r matches Ok(found)
                    &&& found.0 == flag_of(file[position.offset as int])
                    &&& found.1@ == body(file, position.offset as int)
                } else {
                    failure(r) == Some(ErrorCodes::FileReadError)
                },
            },
    {
        let id = position.segment_id.0;
        if id == 0 || id > self.files.len() as u64 {
            return Err(Errors::new(ErrorCodes::TableSegmentFileOpenError));
        }
        let file = &self.files[(id - 1) as usize];
        let at = position.offset as usize;
        let len = file.len();
        if at > len || len - at < 5 {
            return Err(Errors::new(ErrorCodes::FileReadError));
        }
        let flag = RecordStateFlags::from_byte(file[at]);
        let size = read_be_u32(file.as_slice(), at + 1) as usize;
        if size > len - at - 5 {
            return Err(Errors::new(ErrorCodes::FileReadError));
        }
        let payload = slice_subrange(file.as_slice(), at + 5, at + 5 + size);
        Ok((flag, payload))
    }

    /// Reads the record at `position`: its flag and the pair it holds.
    pub fn find_record<C: TableRecordCodec>(&self, codec: &C, position: TableRecordPosition) -> (r:
        Result<(RecordStateFlags, TableSegmentPayload), Errors>)
        ensures
            record_read(*codec, self.files@, position, r),
    {
        let (flag, payload) = match self.read_frame(position) {
            Ok(found) => found,
            Err(e) => { return Err(e); },
        };
        match codec.decode(payload) {
            Ok(record) => Ok((flag, record)),
            Err(e) => Err(e),
        }
    }

    /// Marks the record at `position` as deleted: the byte at the position
    /// becomes 2 and no other byte changes. It fails where the position lies
    /// in no file.
    pub fn mark_deleted_record(&mut self, position: TableRecordPosition) -> (r: Result<(), Errors>)
        ensures
            record_marked(*old(self), *final(self), position, r),
    {
        let id = position.segment_id.0;
        if id == 0 || id > self.files.len() as u64 {
            return Err(Errors::new(ErrorCodes::TableSegmentFileOpenError));
        }
        let index = (id - 1) as usize;
        let at = position.offset as usize;
        if at >= self.files[index].len() {
            return Err(Errors::new(ErrorCodes::FileWriteError));
        }
        self.files[index][at] = 2u8;
        Ok(())
    }

    /// Whether `state` is what the last segment's file tells: the file's
    /// size, the number of its last page, and the offset behind the frames of
    /// that page.
    pub open spec fn told_from(state: TableSegmentState, id: u64, bytes: Seq<u8>) -> bool {
        &&& DISKTABLE_PAGE_SIZE <= bytes.len() <= u32::MAX
        &&& described(bytes, bytes.len() - DISKTABLE_PAGE_SIZE) matches Described::At(offset)
        &&& state == (TableSegmentState {
            last_segment_id: TableSegmentID(id),
            segment_file_size: bytes.len() as u32,
            current_page_index: (bytes.len() / (DISKTABLE_PAGE_SIZE as nat) - 1) as u32,
            current_page_offset: offset as u32,
        })
    }

    /// Tells where a segment stands from its file: the size of the file, the
    /// number of its last page, and the offset behind the frames of that
    /// page. It fails on a file shorter than a page, on a frame that is cut
    /// off and on a flag that is neither live nor deleted.
    pub fn describe_segment_file(segment_id: &TableSegmentID, bytes: &[u8]) -> (r: Result<
        TableSegmentState,
        Errors,
    >)
        ensures
            if bytes@.len() < DISKTABLE_PAGE_SIZE || bytes@.len() > u32::MAX {
                failure(r) == Some(ErrorCodes::FileReadError)
            } else {
                match described(bytes@, bytes@.len() - DISKTABLE_PAGE_SIZE) {
                    Described::At(offset) => r matches Ok(state) && state == (TableSegmentState {
                        last_segment_id: *segment_id,
                        segment_file_size: bytes@.len() as u32,
                        current_page_index: (bytes@.len() / (DISKTABLE_PAGE_SIZE as nat) - 1) as u32,
                        current_page_offset: offset as u32,
                    }),
                    Described::CutOff => failure(r) == Some(ErrorCodes::FileReadError),
                    Described::BadFlag => failure(r) == Some(
                        ErrorCodes::UnknownTableRecordHeaderFlag,
                    ),
                }
            },
    {
        let len = bytes.len();
        if len < DISKTABLE_PAGE_SIZE as usize || len > u32::MAX as usize {
            return Err(Errors::new(ErrorCodes::FileReadError));
        }
        let file_size = len as u32;
        let total_page_number = file_size / DISKTABLE_PAGE_SIZE;
        let current_page_index = total_page_number - 1;
        let mut offset: u32 = file_size - DISKTABLE_PAGE_SIZE;
        let mut done = false;
        while !done
            invariant
                len == bytes@.len(),
                file_size == len,
                described(bytes@, len - DISKTABLE_PAGE_SIZE) == described(bytes@, offset as int),
                done ==> described(bytes@, offset as int) == Described::At(offset as int),
            decreases
                    (if offset < len {
                        len - offset
                    } else {
                        0
                    }),
                    if done { 0int } else { 1int },
        {
            if offset >= file_size {
                done = true;
            } else {
                let flag = RecordStateFlags::from_byte(bytes[offset as usize]);
                match flag {
                    RecordStateFlags::Nothing => {
                        done = true;
                    },
                    RecordStateFlags::Unknown => {
                        return Err(Errors::new(ErrorCodes::UnknownTableRecordHeaderFlag));
                    },
                    _ => {
                        if file_size - offset < TABLE_SEGMENT_RECORD_HEADER_SIZE {
                            return Err(Errors::new(ErrorCodes::FileReadError));
                        }
                        let size_header = read_be_u32(bytes, offset as usize + 1);
                        if size_header > u32::MAX - TABLE_SEGMENT_RECORD_HEADER_SIZE - offset {
                            return Err(Errors::new(ErrorCodes::FileReadError));
                        }
                        offset = offset + TABLE_SEGMENT_RECORD_HEADER_SIZE + size_header;
                    },
                }
            }
        }
        Ok(
            TableSegmentState {
                last_segment_id: *segment_id,
                segment_file_size: file_size,
                current_page_index,
                current_page_offset: offset,
            },
        )
    }
}


/// What reading a segment file from end to end gives: the records found, or
/// the failure at which reading stopped.
pub enum Scanned {
    Items(Seq<ScanItemView>),
    Failed(ErrorCodes),
}

/// What two readings give one after the other: the records of both, or the
/// first failure.
pub open spec fn then(first: Scanned, rest: Scanned) -> Scanned {
    match first {
        Scanned::Failed(e) => Scanned::Failed(e),
        Scanned::Items(a) => match rest {
            Scanned::Failed(e) => Scanned::Failed(e),
            Scanned::Items(b) => Scanned::Items(a + b),
        },
    }
}

/// The records of a page from `at` on, where the page ends at `end`: frame
/// after frame up to a flag byte of zero or the end of the page. A flag that
/// is neither live nor deleted, a frame that goes beyond the page and a
/// payload that does not decode are failures.
pub open spec fn page_items<C: TableRecordCodec>(codec: C, file: Seq<u8>, at: int, end: int) -> Scanned
    decreases end - at,
{
    if at < 0 || at >= end || end > file.len() {
        Scanned::Items(Seq::empty())
    } else if file[at] == 0 {
        Scanned::Items(Seq::empty())
    } else if file[at] != 1 && file[at] != 2 {
        Scanned::Failed(ErrorCodes::UnknownTableRecordHeaderFlag)
    } else if at + 5 > end || at + 5 + body_len(file, at) > end {
        Scanned::Failed(ErrorCodes::FileReadError)
    } else {
        match codec.decoding(body(file, at)) {
            None => Scanned::Failed(ErrorCodes::TableRecordDecodeError),
            Some(pair) => then(
                Scanned::Items(
                    seq![ScanItemView { flag: flag_of(file[at]), offset: at, payload: pair }],
                ),
                page_items(codec, file, at + 5 + body_len(file, at), end),
            ),
        }
    }
}

/// The records of the whole pages of a file from page `page` on, where the
/// file has `pages` whole pages.
pub open spec fn file_items<C: TableRecordCodec>(codec: C, file: Seq<u8>, page: int, pages: int) -> Scanned
    decreases pages - page,
{
    if page < 0 || page >= pages {
        Scanned::Items(Seq::empty())
    } else {
        then(
            page_items(codec, file, page * 1048576, (page + 1) * 1048576),
            file_items(codec, file, page + 1, pages),
        )
    }
}

/// The records in a vector as values.
pub open spec fn item_views(items: Seq<ScanSegmentFileResult>) -> Seq<ScanItemView> {
    Seq::new(
        items.len(),
        |i: int|
            ScanItemView {
                flag: items[i].state_flags,
                offset: items[i].position.offset as int,
                payload: items[i].payload@,
            },
    )
}

/// Reads the records of a segment file page by page. Bytes behind the last
/// whole page are not read. It fails on a file of more than 4 GiB.
pub fn scan_segment_file<C: TableRecordCodec>(
    codec: &C,
    segment_id: TableSegmentID,
    bytes: &[u8],
) -> (r: Result<Vec<ScanSegmentFileResult>, Errors>)
    ensures
        if bytes@.len() > u32::MAX {
            failure(r) == Some(ErrorCodes::FileReadError)
        } else {
            match file_items(*codec, bytes@, 0, bytes@.len() as int / 1048576) {
                Scanned::Items(found) => {
                    &&& r matches Ok(items)
                    &&& item_views(items@) == found
                    &&& forall|i: int|
                        0 <= i < items@.len() ==> (#[trigger] items@[i]).position.segment_id
                            == segment_id
                },
                Scanned::Failed(e) => failure(r) == Some(e),
            }
        },
{
    let len = bytes.len();
    if len > u32::MAX as usize {
        return Err(Errors::new(ErrorCodes::FileReadError));
    }
    let page_size = DISKTABLE_PAGE_SIZE as usize;
    let pages = len / page_size;
    let mut items: Vec<ScanSegmentFileResult> = Vec::new();
    let ghost whole = file_items(*codec, bytes@, 0, pages as int);
    assert(pages as int == bytes@.len() as int / 1048576);
    let mut page: usize = 0;
    assert(item_views(items@) =~= Seq::empty());
    assert(then(Scanned::Items(Seq::empty()), whole) == whole) by {
        match whole {
            Scanned::Items(b) => {
                assert(Seq::<ScanItemView>::empty() + b =~= b);
            },
            Scanned::Failed(_) => {},
        }
    }
    while page < pages
        invariant
            len == bytes@.len(),
            len <= u32::MAX,
            page_size == 1048576,
            pages == len / page_size,
            page <= pages,
            whole == file_items(*codec, bytes@, 0, bytes@.len() as int / 1048576),
            whole == then(
                Scanned::Items(item_views(items@)),
                file_items(*codec, bytes@, page as int, pages as int),
            ),
            forall|i: int|
                0 <= i < items@.len() ==> (#[trigger] items@[i]).position.segment_id == segment_id,
        decreases pages - page,
    {
        let end = (page + 1) * page_size;
        let mut at: usize = page * page_size;
        let ghost later = file_items(*codec, bytes@, page + 1, pages as int);
        let mut done = false;
        while !done
            invariant
                len == bytes@.len(),
                len <= u32::MAX,
                page_size == 1048576,
                page < pages,
                pages == len / page_size,
                end == (page + 1) * page_size,
                end <= len,
                page * page_size <= at,
                later == file_items(*codec, bytes@, page + 1, pages as int),
                whole == file_items(*codec, bytes@, 0, bytes@.len() as int / 1048576),
                !done ==> whole == then(
                    Scanned::Items(item_views(items@)),
                    then(page_items(*codec, bytes@, at as int, end as int), later),
                ),
                done ==> whole == then(Scanned::Items(item_views(items@)), later),
                forall|i: int|
                    0 <= i < items@.len() ==> (#[trigger] items@[i]).position.segment_id
                        == segment_id,
            decreases
                    (if at < end {
                        end - at
                    } else {
                        0
                    }),
                    if done { 0int } else { 1int },
        {
            proof {
                lemma_then_empty(later);
            }
            if at >= end {
                done = true;
            } else {
                let flag = RecordStateFlags::from_byte(bytes[at]);
                match flag {
                    RecordStateFlags::Nothing => {
                        done = true;
                    },
                    RecordStateFlags::Unknown => {
                        return Err(Errors::new(ErrorCodes::UnknownTableRecordHeaderFlag));
                    },
                    _ => {
                        if end - at < 5 {
                            return Err(Errors::new(ErrorCodes::FileReadError));
                        }
                        let size = read_be_u32(bytes, at + 1) as usize;
                        if size > end - at - 5 {
                            return Err(Errors::new(ErrorCodes::FileReadError));
                        }
                        let payload = slice_subrange(bytes, at + 5, at + 5 + size);
                        let record = match codec.decode(payload) {
                            Ok(record) => record,
                            Err(e) => { return Err(e); },
                        };
                        let item = ScanSegmentFileResult {
                            state_flags: flag,
                            position: TableRecordPosition { segment_id, offset: at as u32 },
                            payload: record,
                        };
                        proof {
                            let one = ScanItemView {
                                flag: flag_of(bytes@[at as int]),
                                offset: at as int,
                                payload: record@,
                            };
                            assert(item_views(items@.push(item)) =~= item_views(items@) + seq![
                                one,
                            ]);
                            lemma_then_step(
                                item_views(items@),
                                one,
                                page_items(*codec, bytes@, at + 5 + size, end as int),
                                later,
                            );
                        }
                        items.push(item);
                        at = at + 5 + size;
                    },
                }
            }
        }
        page = page + 1;
    }
    proof {
        match whole {
            Scanned::Items(b) => {
                assert(item_views(items@) + Seq::<ScanItemView>::empty() =~= item_views(items@));
            },
            Scanned::Failed(_) => {},
        }
    }
    Ok(items)
}

/// Nothing read in front changes nothing.
pub proof fn lemma_then_empty(rest: Scanned)
    ensures
        then(Scanned::Items(Seq::empty()), rest) == rest,
{
    match rest {
        Scanned::Items(b) => {
            assert(Seq::<ScanItemView>::empty() + b =~= b);
        },
        Scanned::Failed(_) => {},
    }
}

/// A record read next may be counted with those read before it.
pub proof fn lemma_then_step(done: Seq<ScanItemView>, one: ScanItemView, rest: Scanned, later: Scanned)
    ensures
        then(Scanned::Items(done), then(then(Scanned::Items(seq![one]), rest), later)) == then(
            Scanned::Items(done + seq![one]),
            then(rest, later),
        ),
{
    match rest {
        Scanned::Items(b) => {
            match later {
                Scanned::Items(c) => {
                    assert(done + ((seq![one] + b) + c) =~= (done + seq![one]) + (b + c));
                },
                Scanned::Failed(_) => {},
            }
        },
        Scanned::Failed(_) => {},
    }
}

} // verus!
