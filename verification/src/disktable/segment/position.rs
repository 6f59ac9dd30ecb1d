use vstd::prelude::*;
use crate::disktable::segment::segment_id::TableSegmentID;

verus! {

/// Where a record lies: the segment file and the offset of the record's first byte in it.
#[derive(Debug, Clone, Copy, PartialEq, Eq, Structural)]
pub struct TableRecordPosition {
    pub segment_id: TableSegmentID,
    pub offset: u32,
}

} // verus!
