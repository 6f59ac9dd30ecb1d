use vstd::prelude::*;
use crate::bytes::{overlay, window};
use crate::codec::{decode_pair, encode_pair, encode_pair_into, pair_bytes, pair_decoding};
use crate::disktable::segment::record::{PayloadView, TableSegmentPayload};
use crate::errors::{ErrorCodes, Errors};

verus! {

/// Payloads above this many bytes are not promised to decode again.
pub const TABLE_RECORD_SIZE_LIMIT: usize = 33554432;

/// How stored pairs become bytes and bytes become pairs.
pub trait TableRecordCodec {
    /// The bytes that stand for a pair.
    spec fn encoding(&self, record: PayloadView) -> Seq<u8>;

    /// The pair that the front of `data` stands for, where it stands for one.
    spec fn decoding(&self, data: Seq<u8>) -> Option<PayloadView>;

    /// Whether the codec gives bytes for a pair.
    spec fn encodes(&self, record: PayloadView) -> bool;

    /// The bytes of `record`, for a pair that the codec gives bytes for. As
    /// long as they are no more than the limit, they decode to the record
    /// again.
    fn encode(&self, record: &TableSegmentPayload) -> (r: Result<Vec<u8>, Errors>)
        ensures
            r is Ok <==> self.encodes(record@),
            match r {
                Ok(bytes) => {
                    &&& bytes@ == self.encoding(record@)
                    &&& bytes@.len() <= TABLE_RECORD_SIZE_LIMIT ==> self.decoding(bytes@) == Some(
                        record@,
                    )
                },
                Err(e) => e.error_code == ErrorCodes::TableRecordEncodeError,
            },
    ;

    /// Writes the bytes of `record` into `buf` from `start` on and gives
    /// their number. It fails exactly when they do not fit into what is left
    /// of `buf`, and may then have written a part of them. Bytes before
    /// `start` are never touched.
    fn encode_zero_copy(&self, record: &TableSegmentPayload, buf: &mut Vec<u8>, start: usize) -> (r:
        Result<usize, Errors>)
        requires
            start <= old(buf)@.len(),
        ensures
            final(buf)@.len() == old(buf)@.len(),
            window(final(buf)@, 0, start as int) == window(old(buf)@, 0, start as int),
            r is Ok <==> start + self.encoding(record@).len() <= old(buf)@.len(),
            match r {
                Ok(n) => {
                    &&& n == self.encoding(record@).len()
                    &&& final(buf)@ == overlay(old(buf)@, start as int, self.encoding(record@))
                },
                Err(e) => e.error_code == ErrorCodes::TableRecordEncodeError,
            },
    ;

    /// Reads a pair from the front of `data`.
    fn decode(&self, data: &[u8]) -> (r: Result<TableSegmentPayload, Errors>)
        ensures
            match r {
                Ok(record) => self.decoding(data@) == Some(record@),
                Err(e) => e.error_code == ErrorCodes::TableRecordDecodeError && self.decoding(
                    data@,
                ) is None,
            },
    ;
}

/// The codec that writes pairs with fixed-width little-endian integers and
/// length-prefixed texts.
#[derive(Debug, Clone, Copy)]
pub struct TableRecordBincodeCodec;

impl TableRecordCodec for TableRecordBincodeCodec {
    open spec fn encoding(&self, record: PayloadView) -> Seq<u8> {
        pair_bytes(record.key, record.value)
    }

    open spec fn decoding(&self, data: Seq<u8>) -> Option<PayloadView> {
        match pair_decoding(data) {
            Some(p) => Some(PayloadView { key: p.0, value: p.1 }),
            None => None,
        }
    }

    open spec fn encodes(&self, record: PayloadView) -> bool {
        true
    }

    fn encode(&self, record: &TableSegmentPayload) -> (r: Result<Vec<u8>, Errors>) {
        match encode_pair(&record.key, &record.value) {
            Ok(bytes) => Ok(bytes),
            Err(_) => Err(Errors::new(ErrorCodes::TableRecordEncodeError)),
        }
    }

    fn encode_zero_copy(&self, record: &TableSegmentPayload, buf: &mut Vec<u8>, start: usize) -> (r:
        Result<usize, Errors>) {
        match encode_pair_into(&record.key, &record.value, buf, start) {
            Ok(n) => Ok(n),
            Err(_) => Err(Errors::new(ErrorCodes::TableRecordEncodeError)),
        }
    }

    fn decode(&self, data: &[u8]) -> (r: Result<TableSegmentPayload, Errors>) {
        match decode_pair(data) {
            Ok(p) => Ok(TableSegmentPayload { key: p.0, value: p.1 }),
            Err(_) => Err(Errors::new(ErrorCodes::TableRecordDecodeError)),
        }
    }
}

} // verus!
