use vstd::prelude::*;
use crate::disktable::segment::segment_id::TableSegmentID;

verus! {

/// Where a table's segments stand: the last segment, its size, the offset at
/// which the next record goes, and the number of the page that offset lies in.
#[derive(Debug, Clone, Copy, PartialEq, Eq, Structural)]
pub struct TableSegmentState {
    pub last_segment_id: TableSegmentID,
    pub segment_file_size: u32,
    pub current_page_offset: u32,
    pub current_page_index: u32,
}

impl Default for TableSegmentState {
    fn default() -> (s: Self)
        ensures
            s == no_segments(),
    {
        TableSegmentState {
            last_segment_id: TableSegmentID(0),
            segment_file_size: 0,
            current_page_offset: 0,
            current_page_index: 0,
        }
    }
}

/// The state of a table without segments.
pub open spec fn no_segments() -> TableSegmentState {
    TableSegmentState {
        last_segment_id: TableSegmentID(0),
        segment_file_size: 0,
        current_page_offset: 0,
        current_page_index: 0,
    }
}

} // verus!
