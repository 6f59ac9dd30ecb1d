use vstd::prelude::*;
use vstd::utf8::encode_utf8;
use crate::errors::{ErrorCodes, Errors};
use crate::hex::{format_hex16, hex16, parse_hex16, parsed_hex16};

verus! {

/// Number of a log segment file. Segment files are named by it.
#[derive(Debug, Clone, Copy, PartialEq, Eq, Structural)]
pub struct WALSegmentID(pub u64);

impl WALSegmentID {
    /// The identifier with the given number.
    pub fn new(id: u64) -> (r: Self)
        ensures
            r.0 == id,
    {
        WALSegmentID(id)
    }

    /// Moves to the next number; the largest number stays as it is.
    pub fn increment(&mut self)
        ensures
            final(self).0 == if old(self).0 == u64::MAX {
                u64::MAX
            } else {
                (old(self).0 + 1) as u64
            },
    {
        self.0 = self.0.saturating_add(1);
    }
}

impl WALSegmentID {
    /// The name of the segment file: the number in sixteen upper-case
    /// hexadecimal digits.
    pub fn file_name(&self) -> (name: String)
        ensures
            encode_utf8(name@) == hex16(self.0),
    {
        format_hex16(self.0)
    }

    /// Reads the number from a segment file's name. A name that is not
    /// sixteen hexadecimal digits is refused.
    pub fn from_file_name(name: &str) -> (r: Result<Self, Errors>)
        ensures
            match r {
                Ok(id) => parsed_hex16(encode_utf8(name@)) == Some(id.0),
                Err(e) => e.error_code == ErrorCodes::WALSegmentIDParseError && parsed_hex16(
                    encode_utf8(name@),
                ) is None,
            },
    {
        match parse_hex16(name) {
            Some(id) => Ok(WALSegmentID(id)),
            None => Err(Errors::new(ErrorCodes::WALSegmentIDParseError)),
        }
    }
}

impl Default for WALSegmentID {
    fn default() -> (r: Self)
        ensures
            r.0 == 0,
    {
        WALSegmentID(0)
    }
}

} // verus!
