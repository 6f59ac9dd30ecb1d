use vstd::prelude::*;
use crate::bytes::{byte_len, text_len};

verus! {

/// What a log record asks for.
#[derive(Debug, Clone, Copy, PartialEq, Eq, Structural)]
pub enum RecordType {
    Put,
    Delete,
    Truncate,
}

/// What a log record is about: a table, a key in it and, for a put, the value.
#[derive(Debug, Clone)]
pub struct WALPayload {
    pub table: String,
    pub key: String,
    pub value: Option<String>,
}

/// A log record.
#[derive(Debug, Clone)]
pub struct WALRecord {
    pub record_id: u64,
    pub record_type: RecordType,
    pub data: WALPayload,
}

/// A log record as a value.
pub struct WALRecordView {
    pub record_id: u64,
    pub record_type: RecordType,
    pub table: Seq<char>,
    pub key: Seq<char>,
    pub value: Option<Seq<char>>,
}

impl View for WALRecord {
    type V = WALRecordView;

    open spec fn view(&self) -> WALRecordView {
        WALRecordView {
            record_id: self.record_id,
            record_type: self.record_type,
            table: self.data.table@,
            key: self.data.key@,
            value: match self.data.value {
                Some(v) => Some(v@),
                None => None,
            },
        }
    }
}

/// The room that a payload is counted with: eight bytes and the bytes of
/// the text for each of table, key and value, where a missing value has no
/// bytes.
pub open spec fn payload_room(table: Seq<char>, key: Seq<char>, value: Option<Seq<char>>) -> int {
    8 + byte_len(table) + 8 + byte_len(key) + 8 + match value {
        Some(v) => byte_len(v) as int,
        None => 0,
    }
}

/// The smaller of a number and the largest `usize`.
pub open spec fn capped(n: int) -> int {
    if n > usize::MAX {
        usize::MAX as int
    } else {
        n
    }
}

impl WALPayload {
    /// The room that the payload is counted with; the largest `usize` where
    /// the count goes beyond it.
    pub fn size(&self) -> (n: usize)
        ensures
            n == capped(payload_room(self.table@, self.key@, text_of(self.value))),
    {
        let table_size = text_len(self.table.as_str());
        let key_size = text_len(self.key.as_str());
        let value_size = match &self.value {
            Some(v) => text_len(v.as_str()),
            None => 0,
        };
        let n: usize = 8;
        let n = n.saturating_add(table_size);
        let n = n.saturating_add(8);
        let n = n.saturating_add(key_size);
        let n = n.saturating_add(8);
        n.saturating_add(value_size)
    }
}

/// The value inside an optional text.
pub open spec fn text_of(text: Option<String>) -> Option<Seq<char>> {
    match text {
        Some(t) => Some(t@),
        None => None,
    }
}

impl WALRecord {
    /// The room that the record is counted with when the log decides whether
    /// to start a new segment: eight bytes for the number, one for the kind,
    /// and the room of the payload; the largest `usize` where the count goes
    /// beyond it.
    pub fn size(&self) -> (n: usize)
        ensures
            n == capped(9 + payload_room(self@.table, self@.key, self@.value)),
    {
        let payload_size = self.data.size();
        let n: usize = 9;
        n.saturating_add(payload_size)
    }
}

} // verus!
