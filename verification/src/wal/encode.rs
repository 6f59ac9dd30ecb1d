use vstd::prelude::*;
use crate::bytes::{overlay, window};
use crate::codec::{
    decode_record_fields, encode_record_fields_into, record_bytes, record_decoding, RecordFields,
};
use crate::config::WAL_SEGMENT_SIZE;
use crate::errors::{ErrorCodes, Errors};
use crate::wal::record::{RecordType, WALPayload, WALRecord, WALRecordView};

verus! {

/// How log records become bytes and bytes become records.
pub trait WALRecordCodec {
    /// The bytes that stand for a record.
    spec fn encoding(&self, record: WALRecordView) -> Seq<u8>;

    /// The record that the front of `data` stands for, where it stands for one.
    spec fn decoding(&self, data: Seq<u8>) -> Option<WALRecordView>;

    /// Writes the bytes of `record` into `buf` from `start` on and gives
    /// their number, which is more than none. It fails exactly when they do
    /// not fit into what is left of `buf`, and may then have written a part of
    /// them. Bytes before `start` are never touched. What was written decodes
    /// to the record again, as long as it is no more than a segment holds.
    fn encode(&self, record: &WALRecord, buf: &mut Vec<u8>, start: usize) -> (r: Result<
        usize,
        Errors,
    >)
        requires
            start <= old(buf)@.len(),
        ensures
            final(buf)@.len() == old(buf)@.len(),
            window(final(buf)@, 0, start as int) == window(old(buf)@, 0, start as int),
            r is Ok <==> start + self.encoding(record@).len() <= old(buf)@.len(),
            match r {
                Ok(n) => {
                    &&& n > 0
                    &&& n == self.encoding(record@).len()
                    &&& final(buf)@ == overlay(old(buf)@, start as int, self.encoding(record@))
                    &&& n <= WAL_SEGMENT_SIZE ==> self.decoding(self.encoding(record@)) == Some(
                        record@,
                    )
                },
                Err(e) => e.error_code == ErrorCodes::WALRecordEncodeError,
            },
    ;

    /// Reads a record from the front of `data`.
    fn decode(&self, data: &[u8]) -> (r: Result<WALRecord, Errors>)
        ensures
            match r {
                Ok(record) => self.decoding(data@) == Some(record@),
                Err(e) => e.error_code == ErrorCodes::WALRecordDecodeError && self.decoding(data@)
                    is None,
            },
    ;
}

/// The number under which a kind of record is encoded.
pub open spec fn kind_number(t: RecordType) -> u32 {
    match t {
        RecordType::Put => 0,
        RecordType::Delete => 1,
        RecordType::Truncate => 2,
    }
}

/// The fields of a record in the order in which they are encoded.
pub open spec fn record_fields(record: WALRecordView) -> RecordFields {
    (record.record_id, kind_number(record.record_type), record.table, record.key, record.value)
}

/// The record that decoded fields stand for; none where the kind is unknown.
pub open spec fn fields_record(f: RecordFields) -> Option<WALRecordView> {
    if f.1 > 2 {
        None
    } else {
        Some(
            WALRecordView {
                record_id: f.0,
                record_type: if f.1 == 0 {
                    RecordType::Put
                } else if f.1 == 1 {
                    RecordType::Delete
                } else {
                    RecordType::Truncate
                },
                table: f.2,
                key: f.3,
                value: f.4,
            },
        )
    }
}

/// The codec that writes records with fixed-width little-endian integers and
/// length-prefixed texts.
#[derive(Debug, Clone, Copy)]
pub struct WALRecordBincodeCodec;

impl WALRecordCodec for WALRecordBincodeCodec {
    open spec fn encoding(&self, record: WALRecordView) -> Seq<u8> {
        record_bytes(record_fields(record))
    }

    open spec fn decoding(&self, data: Seq<u8>) -> Option<WALRecordView> {
        match record_decoding(data) {
            Some(f) => fields_record(f),
            None => None,
        }
    }

    fn encode(&self, record: &WALRecord, buf: &mut Vec<u8>, start: usize) -> (r: Result<
        usize,
        Errors,
    >) {
        let kind: u32 = match record.record_type {
            RecordType::Put => 0,
            RecordType::Delete => 1,
            RecordType::Truncate => 2,
        };
        proof {
            vstd::bytes::lemma_auto_spec_u64_to_from_le_bytes();
            vstd::bytes::lemma_auto_spec_u32_to_from_le_bytes();
        }
        match encode_record_fields_into(
            record.record_id,
            kind,
            &record.data.table,
            &record.data.key,
            &record.data.value,
            buf,
            start,
        ) {
            Ok(n) => Ok(n),
            Err(_) => Err(Errors::new(ErrorCodes::WALRecordEncodeError)),
        }
    }

    fn decode(&self, data: &[u8]) -> (r: Result<WALRecord, Errors>) {
        let (record_id, kind, table, key, value) = match decode_record_fields(data) {
            Ok(f) => f,
            Err(_) => { return Err(Errors::new(ErrorCodes::WALRecordDecodeError)); },
        };
        let record_type = if kind == 0 {
            RecordType::Put
        } else if kind == 1 {
            RecordType::Delete
        } else if kind == 2 {
            RecordType::Truncate
        } else {
            return Err(Errors::new(ErrorCodes::WALRecordDecodeError));
        };
        Ok(WALRecord { record_id, record_type, data: WALPayload { table, key, value } })
    }
}

} // verus!
