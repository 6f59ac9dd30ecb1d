use vstd::prelude::*;

verus! {

/// Number of a log record. Records are numbered from 1 in the order in which
/// they were appended; 0 says that there is none yet.
#[derive(Debug, Clone, Copy, PartialEq, Eq, Structural)]
pub struct WALRecordID(pub u64);

impl WALRecordID {
    /// The identifier with the given number.
    pub fn new(id: u64) -> (r: Self)
        ensures
            r.0 == id,
    {
        WALRecordID(id)
    }

    /// Moves to the next number; the largest number stays as it is.
    pub fn increment(&mut self)
        ensures
            final(self).0 == if old(self).0 == u64::MAX {
                u64::MAX
            } else {
                (old(self).0 + 1) as u64
            },
    {
        self.0 = self.0.saturating_add(1);
    }

    /// The identifier `rhs` numbers further on, or the largest where that is too far.
    pub fn add(&self, rhs: u64) -> (r: Self)
        ensures
            r.0 == if self.0 + rhs > u64::MAX {
                u64::MAX
            } else {
                (self.0 + rhs) as u64
            },
    {
        WALRecordID(self.0.saturating_add(rhs))
    }
}

impl Default for WALRecordID {
    fn default() -> (r: Self)
        ensures
            r.0 == 0,
    {
        WALRecordID(0)
    }
}

} // verus!
