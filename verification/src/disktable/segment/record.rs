use vstd::prelude::*;

verus! {

/// What a table segment stores for a key.
#[derive(Debug, Clone)]
pub struct TableSegmentPayload {
    pub key: String,
    pub value: String,
}

/// A stored pair as a value: key and value.
pub struct PayloadView {
    pub key: Seq<char>,
    pub value: Seq<char>,
}

impl View for TableSegmentPayload {
    type V = PayloadView;

    open spec fn view(&self) -> PayloadView {
        PayloadView { key: self.key@, value: self.value@ }
    }
}

/// The state of a record in a segment, held in the record's first byte:
/// 0 where nothing was written yet, 1 for a live record, 2 for a deleted one.
/// Any other byte is unknown.
#[derive(Debug, Clone, Copy, PartialEq, Eq, Structural)]
pub enum RecordStateFlags {
    Nothing,
    Alive,
    Deleted,
    Unknown,
}

/// The state that a byte stands for.
pub open spec fn flag_of(byte: u8) -> RecordStateFlags {
    if byte == 0 {
        RecordStateFlags::Nothing
    } else if byte == 1 {
        RecordStateFlags::Alive
    } else if byte == 2 {
        RecordStateFlags::Deleted
    } else {
        RecordStateFlags::Unknown
    }
}

/// The byte that stands for a state; 255 for the unknown one.
pub open spec fn flag_byte(flag: RecordStateFlags) -> u8 {
    match flag {
        RecordStateFlags::Nothing => 0,
        RecordStateFlags::Alive => 1,
        RecordStateFlags::Deleted => 2,
        RecordStateFlags::Unknown => 255,
    }
}

impl RecordStateFlags {
    /// The state that a byte stands for.
    pub fn from_byte(value: u8) -> (flag: Self)
        ensures
            flag == flag_of(value),
    {
        if value == 0 {
            RecordStateFlags::Nothing
        } else if value == 1 {
            RecordStateFlags::Alive
        } else if value == 2 {
            RecordStateFlags::Deleted
        } else {
            RecordStateFlags::Unknown
        }
    }

    /// The byte that stands for the state.
    pub fn to_byte(&self) -> (byte: u8)
        ensures
            byte == flag_byte(*self),
            *self != RecordStateFlags::Unknown ==> flag_of(byte) == *self,
    {
        match self {
            RecordStateFlags::Nothing => 0,
            RecordStateFlags::Alive => 1,
            RecordStateFlags::Deleted => 2,
            RecordStateFlags::Unknown => 255,
        }
    }

    /// Whether the record is deleted.
    pub fn is_deleted(&self) -> (r: bool)
        ensures
            r == (*self == RecordStateFlags::Deleted),
    {
        matches!(self, RecordStateFlags::Deleted)
    }
}

} // verus!
