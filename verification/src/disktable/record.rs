use vstd::prelude::*;

verus! {

/// A key with its value as an older layout of the disk table kept them.
#[derive(Debug, Clone)]
pub struct DisktablePayload {
    pub key: String,
    pub value: String,
}

/// Whether a record of the older layout is live or deleted.
#[derive(Debug, Clone, Copy, PartialEq, Eq, Structural)]
pub enum DisktableRecordStatus {
    Alive,
    Deleted,
}

/// A record of the older layout: its status and its pair.
#[derive(Debug, Clone)]
pub struct DisktableRecord {
    pub record_type: DisktableRecordStatus,
    pub data: DisktablePayload,
}

} // verus!
