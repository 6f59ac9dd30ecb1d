use vstd::prelude::*;
use crate::config::WAL_SEGMENT_SIZE;

verus! {

/// The image of the segment that the log writes to. An image without bytes
/// says that no segment is open.
pub struct WALSegmentWriteHandle {
    pub mmap: Vec<u8>,
}

impl WALSegmentWriteHandle {
    /// The handle of no segment.
    pub fn empty() -> (h: Self)
        ensures
            h.mmap@.len() == 0,
    {
        WALSegmentWriteHandle { mmap: Vec::new() }
    }

    /// Whether no segment is open.
    pub fn is_empty(&self) -> (r: bool)
        ensures
            r == (self.mmap@.len() == 0),
    {
        self.mmap.len() == 0
    }

    /// The handle of the segment with the given image.
    pub fn new(mmap: Vec<u8>) -> (h: Self)
        ensures
            h.mmap == mmap,
    {
        WALSegmentWriteHandle { mmap }
    }

    /// The handle of a new segment: a whole segment of zeros.
    pub fn zeroed() -> (h: Self)
        ensures
            h.mmap@ == Seq::new(WAL_SEGMENT_SIZE as nat, |i: int| 0u8),
    {
        WALSegmentWriteHandle { mmap: crate::bytes::zeros(WAL_SEGMENT_SIZE) }
    }
}

} // verus!
