use vstd::prelude::*;
use vstd::slice::slice_subrange;
use vstd::utf8::encode_utf8;
use crate::bytes::{
    be_bytes_of, be_u32, lemma_be_u32_round_trip, overlay, read_be_u32, u32_be_bytes, window,
    write_at, zero_from, zero_tail,
};
use crate::config::{WAL_RECORD_HEADER_SIZE, WAL_SEGMENT_SIZE};
use crate::errors::{ErrorCodes, Errors};
use crate::hex::parsed_hex16;
use crate::wal::encode::WALRecordCodec;
use crate::wal::record::{
    capped, payload_room, RecordType, WALPayload, WALRecord, WALRecordView,
};
use crate::wal::record_id::WALRecordID;
use crate::wal::segment::WALSegmentWriteHandle;
use crate::wal::segment_id::WALSegmentID;
use crate::wal::state::WALGlobalState;

pub mod encode;
pub mod record;
pub mod record_id;
pub mod segment;
pub mod segment_id;
pub mod state;

verus! {

/// The payload length that the four bytes at `at` declare.
pub open spec fn frame_len(bytes: Seq<u8>, at: int) -> int {
    be_u32(window(bytes, at, 4))
}

/// The payload of the frame at `at`.
pub open spec fn frame_payload(bytes: Seq<u8>, at: int) -> Seq<u8> {
    window(bytes, at + 4, frame_len(bytes, at))
}

/// Where the frame after the one at `at` begins.
pub open spec fn frame_next(bytes: Seq<u8>, at: int) -> int {
    at + 4 + frame_len(bytes, at)
}

/// Whether a record can be read at `at`: the length prefix lies inside the
/// bytes, it declares more than nothing, the payload lies inside the bytes,
/// and the payload decodes.
pub open spec fn frame_ok<C: WALRecordCodec>(codec: C, bytes: Seq<u8>, at: int) -> bool {
    &&& 0 <= at
    &&& at + 4 <= bytes.len()
    &&& frame_len(bytes, at) > 0
    &&& frame_next(bytes, at) <= bytes.len()
    &&& codec.decoding(frame_payload(bytes, at)) is Some
}

/// The offset at which reading records from `at` on stops: that of the first
/// frame that cannot be read.
pub open spec fn scan_end<C: WALRecordCodec>(codec: C, bytes: Seq<u8>, at: int) -> int
    decreases bytes.len() - at,
{
    if frame_ok(codec, bytes, at) {
        scan_end(codec, bytes, frame_next(bytes, at))
    } else {
        at
    }
}

/// The records read from `at` on, up to the first frame that cannot be read.
pub open spec fn scanned<C: WALRecordCodec>(codec: C, bytes: Seq<u8>, at: int) -> Seq<WALRecordView>
    decreases bytes.len() - at,
{
    if frame_ok(codec, bytes, at) {
        seq![codec.decoding(frame_payload(bytes, at)).unwrap()] + scanned(
            codec,
            bytes,
            frame_next(bytes, at),
        )
    } else {
        Seq::empty()
    }
}

/// Reading never stops before it began.
pub proof fn lemma_scan_end_bounds<C: WALRecordCodec>(codec: C, bytes: Seq<u8>, at: int)
    ensures
        at <= scan_end(codec, bytes, at),
        at <= bytes.len() ==> scan_end(codec, bytes, at) <= bytes.len(),
        !frame_ok(codec, bytes, scan_end(codec, bytes, at)),
    decreases bytes.len() - at,
{
    if frame_ok(codec, bytes, at) {
        lemma_scan_end_bounds(codec, bytes, frame_next(bytes, at));
    }
}

/// What is read up to the place where reading stopped does not depend on
/// the bytes from that place on.
pub proof fn lemma_scan_tail<C: WALRecordCodec>(
    codec: C,
    before: Seq<u8>,
    after: Seq<u8>,
    at: int,
    stop: int,
)
    requires
        0 <= at,
        stop == scan_end(codec, before, at),
        after.len() == before.len(),
        forall|i: int| 0 <= i < stop && i < before.len() ==> after[i] == before[i],
    ensures
        scanned(codec, after, at) == scanned(codec, before, at) + scanned(codec, after, stop),
        scan_end(codec, after, at) == scan_end(codec, after, stop),
    decreases before.len() - at,
{
    if frame_ok(codec, before, at) {
        let next = frame_next(before, at);
        lemma_scan_end_bounds(codec, before, next);
        assert(window(after, at, 4) =~= window(before, at, 4));
        assert(frame_payload(after, at) =~= frame_payload(before, at));
        lemma_scan_tail(codec, before, after, next, stop);
        assert(scanned(codec, after, at) =~= scanned(codec, before, at) + scanned(
            codec,
            after,
            stop,
        ));
    } else {
        assert(scanned(codec, before, at) + scanned(codec, after, stop) =~= scanned(
            codec,
            after,
            stop,
        ));
    }
}

/// Nothing is read where only zeros follow.
pub proof fn lemma_scan_zeros<C: WALRecordCodec>(codec: C, bytes: Seq<u8>, at: int)
    requires
        0 <= at,
        zero_from(bytes, at),
    ensures
        !frame_ok(codec, bytes, at),
{
    if at + 4 <= bytes.len() {
        let header = window(bytes, at, 4);
        assert(header[0] == 0 && header[1] == 0 && header[2] == 0 && header[3] == 0);
    }
}

/// A segment with a frame laid into it: the payload from four bytes behind
/// `at` on, and in front of it the payload's length in four bytes, most
/// significant first.
pub open spec fn framed(base: Seq<u8>, at: int, payload: Seq<u8>) -> Seq<u8> {
    overlay(overlay(base, at + 4, payload), at, u32_be_bytes(payload.len() as u32))
}

/// The records in a vector as values.
pub open spec fn record_views(records: Seq<WALRecord>) -> Seq<WALRecordView> {
    Seq::new(records.len(), |i: int| records[i]@)
}

/// A record with another number.
pub open spec fn stamped(record: WALRecordView, id: u64) -> WALRecordView {
    WALRecordView { record_id: id, ..record }
}

/// The counters after recovery from the last segment file: the segment is
/// the one the file is named by, the offset is where reading stopped, and the
/// last record is the last one read, where one was read.
pub open spec fn recovered(
    state: WALGlobalState,
    segment: u64,
    stop: int,
    records: Seq<WALRecordView>,
) -> WALGlobalState {
    WALGlobalState {
        last_record_id: if records.len() > 0 {
            WALRecordID(records.last().record_id)
        } else {
            state.last_record_id
        },
        last_segment_id: WALSegmentID(segment),
        last_segment_file_offset: stop as usize,
        ..state
    }
}

/// Recovering a second time from the same file changes nothing.
pub proof fn lemma_recovery_idempotent(
    state: WALGlobalState,
    segment: u64,
    stop: int,
    records: Seq<WALRecordView>,
)
    ensures
        recovered(recovered(state, segment, stop, records), segment, stop, records) == recovered(
            state,
            segment,
            stop,
            records,
        ),
{
}

/// The names among `names` whose number lies below `checkpoint`, in their order.
pub open spec fn names_below(names: Seq<Seq<char>>, checkpoint: u64) -> Seq<Seq<char>>
    decreases names.len(),
{
    if names.len() == 0 {
        Seq::empty()
    } else {
        let rest = names_below(names.drop_last(), checkpoint);
        match parsed_hex16(encode_utf8(names.last())) {
            Some(id) => if id < checkpoint {
                rest.push(names.last())
            } else {
                rest
            },
            None => rest,
        }
    }
}

/// The texts in a vector as values.
pub open spec fn text_views(texts: Seq<String>) -> Seq<Seq<char>> {
    Seq::new(texts.len(), |i: int| texts[i]@)
}

/// Whether every name spells a segment number.
pub open spec fn all_parse(names: Seq<Seq<char>>) -> bool {
    forall|i: int| 0 <= i < names.len() ==> parsed_hex16(encode_utf8(#[trigger] names[i])) is Some
}

/// The sum of the sizes.
pub open spec fn total(sizes: Seq<u64>) -> int
    decreases sizes.len(),
{
    if sizes.len() == 0 {
        0
    } else {
        total(sizes.drop_last()) + sizes.last()
    }
}

/// The write-ahead log: its codec, its counters and the image of the segment
/// it writes to. `appended` remembers, for the proofs only, in which segment
/// each record went that was appended since the log was loaded.
pub struct WALManager<C: WALRecordCodec> {
    pub codec: C,
    pub wal_state: WALGlobalState,
    pub wal_write_handles: WALSegmentWriteHandle,
    pub appended: Ghost<Seq<(u64, u64)>>,
}

impl<C: WALRecordCodec> WALManager<C> {
    /// A log with fresh counters and no open segment.
    pub fn new(codec: C) -> (wal: Self)
        ensures
            wal.codec == codec,
            wal.wal_state == crate::wal::state::fresh_state(),
            wal.image().len() == 0,
            wal.appended@.len() == 0,
            wal.wf(),
    {
        WALManager {
            codec,
            wal_state: WALGlobalState::default(),
            wal_write_handles: WALSegmentWriteHandle::empty(),
            appended: Ghost(Seq::empty()),
        }
    }

    /// The bytes of the open segment.
    pub open spec fn image(&self) -> Seq<u8> {
        self.wal_write_handles.mmap@
    }

    /// The records that reading the open segment gives.
    pub open spec fn records(&self) -> Seq<WALRecordView> {
        scanned(self.codec, self.image(), 0)
    }

    /// Whether the counters fit together and every record appended since the
    /// log was loaded lies at or below the last segment and record, and at or
    /// below the checkpoint record where its segment lies below the
    /// checkpoint segment.
    pub open spec fn wf(&self) -> bool {
        &&& self.wal_state.wf()
        &&& forall|i: int|
            0 <= i < self.appended@.len() ==> {
                &&& (#[trigger] self.appended@[i]).0 <= self.wal_state.last_segment_id.0
                &&& self.appended@[i].1 <= self.wal_state.last_record_id.0
                &&& self.appended@[i].0 < self.wal_state.last_checkpoint_segment_id.0
                    ==> self.appended@[i].1 <= self.wal_state.last_checkpoint_record_id.0
            }
    }

    /// Whether the open segment is a whole segment, the offset is where
    /// reading it stops, and only zeros follow from there.
    pub open spec fn synced(&self) -> bool {
        &&& self.image().len() == WAL_SEGMENT_SIZE
        &&& self.wal_state.last_segment_file_offset == scan_end(self.codec, self.image(), 0)
        &&& zero_from(self.image(), self.wal_state.last_segment_file_offset as int)
    }

    /// Reads the records of a segment file from its start and tells where
    /// reading stopped: at the first frame whose length is zero, whose payload
    /// is cut off by the end of the file or does not decode, or where fewer
    /// than four bytes are left.
    pub fn scan_records(&self, bytes: &[u8]) -> (r: (Vec<WALRecord>, usize))
        ensures
            record_views(r.0@) == scanned(self.codec, bytes@, 0),
            r.1 == scan_end(self.codec, bytes@, 0),
            r.1 <= bytes@.len(),
    {
        let mut records: Vec<WALRecord> = Vec::new();
        let mut offset: usize = 0;
        let len = bytes.len();
        assert(record_views(records@) + scanned(self.codec, bytes@, 0) =~= scanned(
            self.codec,
            bytes@,
            0,
        ));
        let mut done = false;
        while !done
            invariant
                len == bytes@.len(),
                offset <= len,
                scanned(self.codec, bytes@, 0) == record_views(records@) + scanned(
                    self.codec,
                    bytes@,
                    offset as int,
                ),
                scan_end(self.codec, bytes@, 0) == scan_end(self.codec, bytes@, offset as int),
                done ==> !frame_ok(self.codec, bytes@, offset as int),
            decreases len - offset, if done { 0int } else { 1int },
        {
            if len - offset < WAL_RECORD_HEADER_SIZE {
                done = true;
            } else {
                let payload_size = read_be_u32(bytes, offset) as usize;
                if payload_size == 0 || payload_size > len - offset - WAL_RECORD_HEADER_SIZE {
                    done = true;
                } else {
                    let start = offset + WAL_RECORD_HEADER_SIZE;
                    let payload = slice_subrange(bytes, start, start + payload_size);
                    match self.codec.decode(payload) {
                        Ok(record) => {
                            proof {
                                assert(frame_ok(self.codec, bytes@, offset as int));
                                assert(record_views(records@.push(record)) =~= record_views(
                                    records@,
                                ) + seq![record@]);
                                assert(record_views(records@.push(record)) + scanned(
                                    self.codec,
                                    bytes@,
                                    frame_next(bytes@, offset as int),
                                ) =~= record_views(records@) + scanned(
                                    self.codec,
                                    bytes@,
                                    offset as int,
                                ));
                            }
                            records.push(record);
                            offset = start + payload_size;
                        },
                        Err(_) => {
                            done = true;
                        },
                    }
                }
            }
        }
        assert(record_views(records@) + Seq::<WALRecordView>::empty() =~= record_views(records@));
        (records, offset)
    }
}


/// A frame laid where reading stopped and only zeros followed is read as one
/// more record, and only zeros follow it.
pub proof fn lemma_frame_appended<C: WALRecordCodec>(
    codec: C,
    base: Seq<u8>,
    at: int,
    payload: Seq<u8>,
    record: WALRecordView,
)
    requires
        at == scan_end(codec, base, 0),
        zero_from(base, at),
        0 < payload.len() <= u32::MAX,
        at + 4 + payload.len() <= base.len(),
        codec.decoding(payload) == Some(record),
    ensures
        scan_end(codec, framed(base, at, payload), 0) == at + 4 + payload.len(),
        scanned(codec, framed(base, at, payload), 0) == scanned(codec, base, 0).push(record),
        zero_from(framed(base, at, payload), at + 4 + payload.len()),
{
    let now = framed(base, at, payload);
    let next = at + 4 + payload.len();
    lemma_scan_end_bounds(codec, base, 0);
    lemma_be_u32_round_trip(payload.len() as u32);
    assert(window(now, at, 4) =~= u32_be_bytes(payload.len() as u32));
    assert(frame_payload(now, at) =~= payload);
    assert(frame_ok(codec, now, at));
    assert(zero_from(now, next));
    lemma_scan_zeros(codec, now, next);
    lemma_scan_tail(codec, base, now, 0, at);
    assert(frame_next(now, at) == next);
    assert(scan_end(codec, now, next) == next);
    assert(scan_end(codec, now, at) == next);
    assert(scanned(codec, now, next) =~= Seq::<WALRecordView>::empty());
    assert(scanned(codec, now, at) =~= seq![record]);
    assert(scanned(codec, base, 0) + seq![record] =~= scanned(codec, base, 0).push(record));
}

/// Where reading stopped and only zeros followed, bytes that changed behind
/// the length prefix and are zero again change nothing.
pub proof fn lemma_frame_withdrawn<C: WALRecordCodec>(
    codec: C,
    base: Seq<u8>,
    now: Seq<u8>,
    at: int,
)
    requires
        at == scan_end(codec, base, 0),
        zero_from(base, at),
        now.len() == base.len(),
        forall|i: int| 0 <= i < at + 4 && i < base.len() ==> now[i] == base[i],
        zero_from(now, at + 4),
    ensures
        scan_end(codec, now, 0) == at,
        scanned(codec, now, 0) == scanned(codec, base, 0),
        zero_from(now, at),
{
    lemma_scan_end_bounds(codec, base, 0);
    lemma_scan_tail(codec, base, now, 0, at);
    assert(zero_from(now, at));
    lemma_scan_zeros(codec, now, at);
    assert(scanned(codec, base, 0) + Seq::<WALRecordView>::empty() =~= scanned(codec, base, 0));
}

/// A whole segment of zeros.
pub open spec fn blank_segment() -> Seq<u8> {
    Seq::new(WAL_SEGMENT_SIZE as nat, |i: int| 0u8)
}

impl<C: WALRecordCodec> WALManager<C> {
    /// Whether the log starts a new segment before it writes `record`: the
    /// room that the record is counted with does not fit behind the offset.
    pub open spec fn rotates(&self, record: WALRecordView) -> bool {
        self.wal_state.last_segment_file_offset + capped(
            9 + payload_room(record.table, record.key, record.value),
        ) > WAL_SEGMENT_SIZE
    }

    /// The segment into which `record` is written: a new one where the log rotates.
    pub open spec fn target_image(&self, record: WALRecordView) -> Seq<u8> {
        if self.rotates(record) {
            blank_segment()
        } else {
            self.image()
        }
    }

    /// The offset at which the frame of `record` begins.
    pub open spec fn target_offset(&self, record: WALRecordView) -> int {
        if self.rotates(record) {
            0
        } else {
            self.wal_state.last_segment_file_offset as int
        }
    }

    /// The bytes of `record` under the number it is appended with.
    pub open spec fn payload(&self, record: WALRecordView) -> Seq<u8> {
        self.codec.encoding(stamped(record, (self.wal_state.last_record_id.0 + 1) as u64))
    }

    /// Whether `record` can be appended: a segment is open, a record number
    /// is left, a segment number is left where the log rotates, and the frame
    /// fits behind the offset, into the image and into the size of a segment.
    pub open spec fn can_append(&self, record: WALRecordView) -> bool {
        &&& self.image().len() > 0
        &&& self.wal_state.last_record_id.0 < u64::MAX
        &&& self.rotates(record) ==> self.wal_state.last_segment_id.0 < u64::MAX
        &&& self.target_offset(record) + 4 + self.payload(record).len() <= self.target_image(
            record,
        ).len()
        &&& self.target_offset(record) + 4 + self.payload(record).len() <= WAL_SEGMENT_SIZE
    }

    /// Starts a new segment: the next segment number, offset zero, and a
    /// whole segment of zeros as image. It fails where no segment number is left.
    pub fn new_segment_file(&mut self) -> (r: Result<WALSegmentWriteHandle, Errors>)
        ensures
            final(self).codec == old(self).codec,
            final(self).wal_write_handles == old(self).wal_write_handles,
            final(self).appended == old(self).appended,
            r is Ok <==> old(self).wal_state.last_segment_id.0 < u64::MAX,
            match r {
                Ok(handle) => {
                    &&& handle.mmap@ == blank_segment()
                    &&& final(self).wal_state == (WALGlobalState {
                        last_segment_id: WALSegmentID(
                            (old(self).wal_state.last_segment_id.0 + 1) as u64,
                        ),
                        last_segment_file_offset: 0,
                        ..old(self).wal_state
                    })
                },
                Err(e) => e.error_code == ErrorCodes::WALSegmentFileOpenError && final(self).wal_state == old(self).wal_state,
            },
    {
        if self.wal_state.last_segment_id.0 == u64::MAX {
            return Err(Errors::new(ErrorCodes::WALSegmentFileOpenError));
        }
        self.wal_state.last_segment_id.increment();
        self.wal_state.last_segment_file_offset = 0;
        Ok(WALSegmentWriteHandle::zeroed())
    }

    /// Appends `record` under the number after the last one. Where the room
    /// the record is counted with does not fit behind the offset, a new
    /// segment is started first. The payload is written four bytes behind the
    /// offset and its length, in four bytes, at the offset.
    ///
    /// The record's number is the last number plus one. The frame lies inside
    /// the segment. Where the segment was in step with the counters, it is so
    /// afterwards, and reading it gives the records it gave before and then
    /// this one.
    #[verifier::rlimit(40)]
    pub fn append(&mut self, record: WALRecord) -> (r: Result<(), Errors>)
        ensures
            final(self).codec == old(self).codec,
            final(self).wal_state.last_checkpoint_record_id == old(self).wal_state.last_checkpoint_record_id,
            final(self).wal_state.last_checkpoint_segment_id == old(self).wal_state.last_checkpoint_segment_id,
            old(self).wf() ==> final(self).wf(),
            final(self).wal_state.last_segment_id.0 >= old(self).wal_state.last_segment_id.0,
            r is Ok <==> old(self).can_append(record@),
            match r {
                Ok(_) => {
                    &&& final(self).wal_state.last_record_id.0 == old(self).wal_state.last_record_id.0 + 1
                    &&& final(self).wal_state.last_segment_id.0 == old(self).wal_state.last_segment_id.0 + if old(self).rotates(record@) {
                        1int
                    } else {
                        0int
                    }
                    &&& final(self).wal_state.last_segment_file_offset == old(self).target_offset(
                        record@,
                    ) + 4 + old(self).payload(record@).len()
                    &&& final(self).image() == framed(
                        old(self).target_image(record@),
                        old(self).target_offset(record@),
                        old(self).payload(record@),
                    )
                    &&& final(self).appended@ == old(self).appended@.push(
                        (
                            final(self).wal_state.last_segment_id.0,
                            final(self).wal_state.last_record_id.0,
                        ),
                    )
                    &&& old(self).synced() || old(self).rotates(record@) ==> {
                        &&& final(self).synced()
                        &&& final(self).records() == (if old(self).rotates(record@) {
                            Seq::<WALRecordView>::empty()
                        } else {
                            old(self).records()
                        }).push(stamped(record@, final(self).wal_state.last_record_id.0))
                    }
                },
                Err(e) => {
                    &&& e.error_code == ErrorCodes::WALSegmentFileOpenError || e.error_code
                        == ErrorCodes::WALRecordWriteError || e.error_code
                        == ErrorCodes::WALRecordEncodeError
                    &&& final(self).wal_state.last_record_id == old(self).wal_state.last_record_id
                    &&& final(self).appended == old(self).appended
                    &&& old(self).image().len() == 0 ==> *final(self) == *old(self)
                    &&& old(self).synced() ==> final(self).synced() && (final(self).records()
                        == old(self).records() || final(self).records().len() == 0)
                },
            },
    {
        let mut record = record;
        if self.wal_write_handles.is_empty() {
            return Err(Errors::new(ErrorCodes::WALSegmentFileOpenError));
        }
        if self.wal_state.last_record_id.0 == u64::MAX {
            return Err(Errors::new(ErrorCodes::WALRecordWriteError));
        }
        let size = record.size();
        let before = self.wal_state.last_segment_file_offset;
        if before > WAL_SEGMENT_SIZE || size > WAL_SEGMENT_SIZE - before {
            match self.new_segment_file() {
                Ok(handle) => {
                    self.wal_write_handles = handle;
                    proof {
                        lemma_scan_zeros(self.codec, self.image(), 0);
                    }
                },
                Err(e) => { return Err(e); },
            }
        }
        let ghost base = self.image();
        let ghost in_step = self.synced();
        let offset = self.wal_state.last_segment_file_offset;
        let new_record_id = self.wal_state.last_record_id.0 + 1;
        record.record_id = new_record_id;
        let len = self.wal_write_handles.mmap.len();
        if offset > len || WAL_RECORD_HEADER_SIZE > len - offset {
            return Err(Errors::new(ErrorCodes::WALRecordEncodeError));
        }
        let payload_start = offset + WAL_RECORD_HEADER_SIZE;
        let written = self.codec.encode(&record, &mut self.wal_write_handles.mmap, payload_start);
        let payload_size = match written {
            Ok(n) => n,
            Err(e) => {
                let ghost touched = self.image();
                zero_tail(&mut self.wal_write_handles.mmap, payload_start);
                proof {
                    if in_step {
                        let now = self.image();
                        assert forall|i: int| 0 <= i < payload_start implies now[i] == base[i] by {
                            assert(window(touched, 0, payload_start as int)[i] == window(
                                base,
                                0,
                                payload_start as int,
                            )[i]);
                        }
                        lemma_frame_withdrawn(self.codec, base, now, offset as int);
                    }
                }
                return Err(e);
            },
        };
        if payload_size > WAL_SEGMENT_SIZE - WAL_RECORD_HEADER_SIZE || payload_start
            > WAL_SEGMENT_SIZE - payload_size {
            let ghost touched = self.image();
            zero_tail(&mut self.wal_write_handles.mmap, payload_start);
            proof {
                if in_step {
                    let now = self.image();
                    assert forall|i: int| 0 <= i < payload_start implies now[i] == base[i] by {
                        assert(window(touched, 0, payload_start as int)[i] == window(
                            base,
                            0,
                            payload_start as int,
                        )[i]);
                    }
                    lemma_frame_withdrawn(self.codec, base, now, offset as int);
                }
            }
            return Err(Errors::new(ErrorCodes::WALRecordEncodeError));
        }
        let ghost payload = self.codec.encoding(record@);
        let header = be_bytes_of(payload_size as u32);
        write_at(&mut self.wal_write_handles.mmap, offset, header.as_slice());
        self.wal_state.last_record_id = WALRecordID(new_record_id);
        self.wal_state.last_segment_file_offset = payload_start + payload_size;
        proof {
            self.appended@ = self.appended@.push((self.wal_state.last_segment_id.0, new_record_id));
            assert(self.image() =~= framed(base, offset as int, payload));
            if in_step {
                lemma_frame_appended(self.codec, base, offset as int, payload, record@);
            }
        }
        Ok(())
    }

    /// Appends the record that empties a table.
    pub fn truncate_table(&mut self, table_name: &str) -> (r: Result<(), Errors>)
        ensures
            final(self).codec == old(self).codec,
            old(self).wf() ==> final(self).wf(),
            r is Ok <==> old(self).can_append(truncation(table_name@)),
            r is Ok ==> {
                &&& final(self).wal_state.last_record_id.0 == old(self).wal_state.last_record_id.0
                    + 1
                &&& old(self).synced() || old(self).rotates(truncation(table_name@)) ==> {
                    &&& final(self).synced()
                    &&& final(self).records() == (if old(self).rotates(truncation(table_name@)) {
                        Seq::<WALRecordView>::empty()
                    } else {
                        old(self).records()
                    }).push(
                        stamped(truncation(table_name@), final(self).wal_state.last_record_id.0),
                    )
                }
            },
    {
        let record = WALRecord {
            record_id: 0,
            record_type: RecordType::Truncate,
            data: WALPayload { table: table_name.to_owned(), key: String::new(), value: None },
        };
        self.append(record)
    }

    /// Whether the checkpoint can be moved to a segment and a record: neither
    /// lies below the checkpoint as it stands, and neither lies beyond the
    /// last segment and the last record.
    pub open spec fn moves_to(&self, segment_id: u64, record_id: u64) -> bool {
        &&& self.wal_state.last_checkpoint_segment_id.0 <= segment_id
            <= self.wal_state.last_segment_id.0
        &&& self.wal_state.last_checkpoint_record_id.0 <= record_id
            <= self.wal_state.last_record_id.0
    }

    /// Moves the checkpoint to a segment and a record. A checkpoint that
    /// would go back, or beyond the last segment or the last record, is not
    /// taken, and the checkpoint stays where it is. So the checkpoint never
    /// goes back, and it stays at or below the end of the log where it was
    /// there before. The counters stay fit where no record appended to a
    /// segment below the new checkpoint has a number above it.
    pub fn move_checkpoint(&mut self, segment_id: u64, record_id: u64)
        ensures
            final(self).wal_state == (if old(self).moves_to(segment_id, record_id) {
                WALGlobalState {
                    last_checkpoint_segment_id: WALSegmentID(segment_id),
                    last_checkpoint_record_id: WALRecordID(record_id),
                    ..old(self).wal_state
                }
            } else {
                old(self).wal_state
            }),
            final(self).wal_state.last_checkpoint_segment_id.0 >= old(self).wal_state.last_checkpoint_segment_id.0,
            final(self).wal_state.last_checkpoint_record_id.0 >= old(self).wal_state.last_checkpoint_record_id.0,
            old(self).wal_state.last_checkpoint_segment_id.0 <= old(self).wal_state.last_segment_id.0 ==> final(self).wal_state.last_checkpoint_segment_id.0
                <= final(self).wal_state.last_segment_id.0,
            old(self).wal_state.last_checkpoint_record_id.0 <= old(self).wal_state.last_record_id.0 ==> final(self).wal_state.last_checkpoint_record_id.0
                <= final(self).wal_state.last_record_id.0,
            final(self).codec == old(self).codec,
            final(self).wal_write_handles == old(self).wal_write_handles,
            final(self).appended == old(self).appended,
            old(self).wf() && (forall|i: int|
                0 <= i < old(self).appended@.len() && (#[trigger] old(self).appended@[i]).0
                    < segment_id ==> old(self).appended@[i].1 <= record_id) ==> final(self).wf(),
    {
        if self.wal_state.last_checkpoint_segment_id.0 <= segment_id && segment_id
            <= self.wal_state.last_segment_id.0 && self.wal_state.last_checkpoint_record_id.0
            <= record_id && record_id <= self.wal_state.last_record_id.0 {
            self.wal_state.last_checkpoint_segment_id = WALSegmentID::new(segment_id);
            self.wal_state.last_checkpoint_record_id = WALRecordID::new(record_id);
        }
    }

    /// Moves the checkpoint to the last record and segment: everything
    /// appended so far is no longer needed. The checkpoint never moves back.
    pub fn advance_checkpoint(&mut self)
        ensures
            final(self).wal_state == (WALGlobalState {
                last_checkpoint_segment_id: old(self).wal_state.last_segment_id,
                last_checkpoint_record_id: old(self).wal_state.last_record_id,
                ..old(self).wal_state
            }),
            final(self).codec == old(self).codec,
            final(self).wal_write_handles == old(self).wal_write_handles,
            final(self).appended == old(self).appended,
            old(self).wf() ==> {
                &&& final(self).wf()
                &&& final(self).wal_state.last_checkpoint_record_id.0 >= old(self).wal_state.last_checkpoint_record_id.0
                &&& final(self).wal_state.last_checkpoint_segment_id.0 >= old(self).wal_state.last_checkpoint_segment_id.0
            },
    {
        self.wal_state.last_checkpoint_segment_id = self.wal_state.last_segment_id;
        self.wal_state.last_checkpoint_record_id = self.wal_state.last_record_id;
    }

    /// Tells which of the segment files are no longer needed: those whose
    /// number lies below the checkpoint segment, in the order of the list. It
    /// fails where a name is not that of a segment file.
    ///
    /// Every record appended since the log was loaded that lies in such a
    /// file has a number at or below the checkpoint record.
    pub fn remove_old_wal_segments(&self, segment_files: &Vec<String>) -> (r: Result<
        Vec<String>,
        Errors,
    >)
        ensures
            r is Ok <==> all_parse(text_views(segment_files@)),
            match r {
                Ok(names) => {
                    &&& text_views(names@) == names_below(
                        text_views(segment_files@),
                        self.wal_state.last_checkpoint_segment_id.0,
                    )
                    &&& self.wf() ==> forall|k: int, i: int|
                        0 <= k < names@.len() && 0 <= i < self.appended@.len() && parsed_hex16(
                            encode_utf8(#[trigger] names@[k]@),
                        ) == Some((#[trigger] self.appended@[i]).0) ==> self.appended@[i].1
                            <= self.wal_state.last_checkpoint_record_id.0
                },
                Err(e) => e.error_code == ErrorCodes::WALSegmentIDParseError,
            },
    {
        let ghost all = text_views(segment_files@);
        let mut names: Vec<String> = Vec::new();
        let mut i: usize = 0;
        assert(all.subrange(0, 0) =~= Seq::empty());
        while i < segment_files.len()
            invariant
                i <= segment_files.len(),
                all == text_views(segment_files@),
                all_parse(all.subrange(0, i as int)),
                text_views(names@) == names_below(
                    all.subrange(0, i as int),
                    self.wal_state.last_checkpoint_segment_id.0,
                ),
                forall|k: int|
                    0 <= k < names@.len() ==> {
                        &&& parsed_hex16(encode_utf8(#[trigger] names@[k]@)) is Some
                        &&& parsed_hex16(encode_utf8(names@[k]@)).unwrap()
                            < self.wal_state.last_checkpoint_segment_id.0
                    },
            decreases segment_files.len() - i,
        {
            let name = &segment_files[i];
            let ghost upto = all.subrange(0, i as int);
            let ghost with = all.subrange(0, i + 1);
            proof {
                assert(with.drop_last() =~= upto);
                assert(with.last() == name@);
            }
            let id = match WALSegmentID::from_file_name(name.as_str()) {
                Ok(id) => id,
                Err(e) => {
                    proof {
                        assert(parsed_hex16(encode_utf8(all[i as int])) is None);
                    }
                    return Err(e);
                },
            };
            proof {
                assert forall|j: int| 0 <= j < with.len() implies parsed_hex16(
                    encode_utf8(#[trigger] with[j]),
                ) is Some by {
                    if j < i {
                        assert(with[j] == upto[j]);
                    }
                }
            }
            if id.0 < self.wal_state.last_checkpoint_segment_id.0 {
                let copy = name.clone();
                proof {
                    assert(text_views(names@.push(copy)) =~= text_views(names@).push(name@));
                }
                names.push(copy);
            }
            i += 1;
        }
        proof {
            assert(all.subrange(0, i as int) =~= all);
        }
        Ok(names)
    }

    /// The sum of the sizes of the segment files; the largest `u64` where the
    /// sum goes beyond it.
    pub fn total_file_size(&self, sizes: &Vec<u64>) -> (r: u64)
        ensures
            r == if total(sizes@) > u64::MAX {
                u64::MAX as int
            } else {
                total(sizes@)
            },
    {
        let mut sum: u64 = 0;
        let mut i: usize = 0;
        assert(sizes@.subrange(0, 0) =~= Seq::empty());
        while i < sizes.len()
            invariant
                i <= sizes.len(),
                total(sizes@.subrange(0, i as int)) >= 0,
                sum == if total(sizes@.subrange(0, i as int)) > u64::MAX {
                    u64::MAX as int
                } else {
                    total(sizes@.subrange(0, i as int))
                },
            decreases sizes.len() - i,
        {
            proof {
                assert(sizes@.subrange(0, i + 1).drop_last() =~= sizes@.subrange(0, i as int));
            }
            sum = sum.saturating_add(sizes[i]);
            i += 1;
        }
        assert(sizes@.subrange(0, i as int) =~= sizes@);
        sum
    }

    /// Recovers the counters from the last segment file: the last segment is
    /// the one the file is named by, the offset is where reading the file
    /// stops, and the last record is the last one read, where one was read.
    /// It fails where the name is not that of a segment file. The records
    /// remembered as appended are forgotten.
    pub fn recover_state(&mut self, last_segment_file: &str, bytes: &[u8]) -> (r: Result<
        (),
        Errors,
    >)
        ensures
            final(self).codec == old(self).codec,
            final(self).wal_write_handles == old(self).wal_write_handles,
            r is Ok <==> parsed_hex16(encode_utf8(last_segment_file@)) is Some,
            match r {
                Ok(_) => {
                    &&& final(self).wal_state == recovered(
                        old(self).wal_state,
                        parsed_hex16(encode_utf8(last_segment_file@)).unwrap(),
                        scan_end(old(self).codec, bytes@, 0),
                        scanned(old(self).codec, bytes@, 0),
                    )
                    &&& final(self).appended@.len() == 0
                },
                Err(e) => e.error_code == ErrorCodes::WALSegmentIDParseError && *final(self)
                    == *old(self),
            },
    {
        let id = match WALSegmentID::from_file_name(last_segment_file) {
            Ok(id) => id,
            Err(e) => { return Err(e); },
        };
        let (records, offset) = self.scan_records(bytes);
        self.wal_state.last_segment_id = id;
        self.wal_state.last_segment_file_offset = offset;
        if records.len() > 0 {
            self.wal_state.last_record_id = WALRecordID(records[records.len() - 1].record_id);
        }
        self.appended = Ghost(Seq::empty());
        Ok(())
    }

    /// Loads the log: takes the counters read from the state file, recovers
    /// them from the last segment file, and opens that file for writing.
    pub fn load(&mut self, state: WALGlobalState, last_segment_file: &str, segment: Vec<u8>) -> (r:
        Result<(), Errors>)
        ensures
            final(self).codec == old(self).codec,
            r is Ok <==> parsed_hex16(encode_utf8(last_segment_file@)) is Some,
            match r {
                Ok(_) => {
                    &&& final(self).wal_state == recovered(
                        state,
                        parsed_hex16(encode_utf8(last_segment_file@)).unwrap(),
                        scan_end(old(self).codec, segment@, 0),
                        scanned(old(self).codec, segment@, 0),
                    )
                    &&& final(self).image() == segment@
                    &&& final(self).appended@.len() == 0
                    &&& final(self).synced() <==> segment@.len() == WAL_SEGMENT_SIZE && zero_from(
                        segment@,
                        scan_end(old(self).codec, segment@, 0),
                    )
                },
                Err(e) => e.error_code == ErrorCodes::WALSegmentIDParseError && final(self).wal_write_handles == old(self).wal_write_handles,
            },
    {
        self.wal_state = state;
        proof {
            lemma_scan_end_bounds(self.codec, segment@, 0);
        }
        match self.recover_state(last_segment_file, segment.as_slice()) {
            Ok(_) => {},
            Err(e) => { return Err(e); },
        }
        self.wal_write_handles = WALSegmentWriteHandle::new(segment);
        Ok(())
    }
}

/// The record that empties a table, before it is given a number.
pub open spec fn truncation(table: Seq<char>) -> WALRecordView {
    WALRecordView {
        record_id: 0,
        record_type: RecordType::Truncate,
        table,
        key: Seq::empty(),
        value: None,
    }
}

} // verus!
