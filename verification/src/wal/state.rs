use vstd::prelude::*;
use crate::config::WAL_SEGMENT_SIZE;
use crate::wal::record_id::WALRecordID;
use crate::wal::segment_id::WALSegmentID;

verus! {

/// The counters of the log: the last record and segment, the record and
/// segment up to which the log is no longer needed, and where the next record
/// goes in the current segment.
#[derive(Debug, Clone, Copy, PartialEq, Eq, Structural)]
pub struct WALGlobalState {
    pub last_record_id: WALRecordID,
    pub last_checkpoint_record_id: WALRecordID,
    pub last_segment_id: WALSegmentID,
    pub last_checkpoint_segment_id: WALSegmentID,
    pub last_segment_file_offset: usize,
}

impl WALGlobalState {
    /// Whether the counters fit together: the checkpoint is not beyond the
    /// last record and segment, and the offset lies inside a segment.
    pub open spec fn wf(&self) -> bool {
        &&& self.last_checkpoint_record_id.0 <= self.last_record_id.0
        &&& self.last_checkpoint_segment_id.0 <= self.last_segment_id.0
        &&& self.last_segment_file_offset <= WAL_SEGMENT_SIZE
    }
}

impl Default for WALGlobalState {
    fn default() -> (s: Self)
        ensures
            s == fresh_state(),
            s.wf(),
    {
        WALGlobalState {
            last_record_id: WALRecordID(0),
            last_checkpoint_record_id: WALRecordID(0),
            last_segment_id: WALSegmentID(0),
            last_checkpoint_segment_id: WALSegmentID(0),
            last_segment_file_offset: 0,
        }
    }
}

/// The counters of a log that holds nothing.
pub open spec fn fresh_state() -> WALGlobalState {
    WALGlobalState {
        last_record_id: WALRecordID(0),
        last_checkpoint_record_id: WALRecordID(0),
        last_segment_id: WALSegmentID(0),
        last_checkpoint_segment_id: WALSegmentID(0),
        last_segment_file_offset: 0,
    }
}

} // verus!
