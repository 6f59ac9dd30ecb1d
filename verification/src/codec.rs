//! The calls into `bincode`, each behind a contract that is believed and not
//! proved.

use vstd::bytes::{spec_u32_to_le_bytes, spec_u64_to_le_bytes};
use vstd::prelude::*;
use vstd::utf8::encode_utf8;
use crate::bytes::overlay;
use crate::bytes::window;

verus! {

/// The error that `bincode` gives when it cannot encode.
#[verifier::external_type_specification]
#[verifier::external_body]
pub struct ExEncodeError(bincode::error::EncodeError);

/// The error that `bincode` gives when it cannot decode.
#[verifier::external_type_specification]
#[verifier::external_body]
pub struct ExDecodeError(bincode::error::DecodeError);

/// The fields of an index node in the order in which they are encoded: kind,
/// parent, leaf entries (key, segment, offset), internal entries (key,
/// child), leftmost child.
pub type NodeFields = (
    u32,
    Option<u64>,
    Seq<(Seq<char>, u64, u32)>,
    Seq<(Seq<char>, u64)>,
    Option<u64>,
);

/// The fields of the index metadata in the order in which they are encoded:
/// root, order, next offset.
pub type MetadataFields = (Option<u64>, u16, u64);

/// Leaf rows as values.
pub open spec fn leaf_rows(rows: Seq<(String, u64, u32)>) -> Seq<(Seq<char>, u64, u32)> {
    Seq::new(rows.len(), |i: int| (rows[i].0@, rows[i].1, rows[i].2))
}

/// Internal rows as values.
pub open spec fn internal_rows(rows: Seq<(String, u64)>) -> Seq<(Seq<char>, u64)> {
    Seq::new(rows.len(), |i: int| (rows[i].0@, rows[i].1))
}

/// The bytes `bincode` gives for the fields of a node in its standard
/// configuration, where it gives any.
pub uninterp spec fn node_encoding(fields: NodeFields) -> Option<Seq<u8>>;

/// The fields `bincode` reads from the front of `data` in its standard
/// configuration with a limit of 16 MiB, where it reads any. The library asks
/// for it on the bytes of one block at most.
pub uninterp spec fn node_decoding(data: Seq<u8>) -> Option<NodeFields>;

/// The bytes `bincode` gives for the index metadata in its standard
/// configuration, where it gives any.
pub uninterp spec fn metadata_encoding(fields: MetadataFields) -> Option<Seq<u8>>;

/// The metadata `bincode` reads from the front of `data` in its standard
/// configuration, where it reads any.
pub uninterp spec fn metadata_decoding(data: Seq<u8>) -> Option<MetadataFields>;

/// `bincode::encode_to_vec` on the fields of a node as one tuple, standard
/// configuration. The call cannot fail: integers, texts, options and vectors
/// are encoded without a failure of their own, and the writer into a vector
/// takes every byte. The contract names the bytes and claims three things of
/// them: there is at least one (the kind comes first and takes a byte or
/// more); the call is a function of the fields; and when the bytes are no more
/// than 8188, `bincode::decode_from_slice` with a limit of 16 MiB reads the
/// same fields back from them.
#[verifier::external_body]
pub(crate) fn encode_node_fields(
    kind: u32,
    parent: Option<u64>,
    leaves: &Vec<(String, u64, u32)>,
    internals: &Vec<(String, u64)>,
    leftmost: Option<u64>,
) -> (r: Result<Vec<u8>, bincode::error::EncodeError>)
    ensures
        r is Ok,
        match r {
            Ok(bytes) => {
                &&& node_encoding(
                    (kind, parent, leaf_rows(leaves@), internal_rows(internals@), leftmost),
                ) == Some(bytes@)
                &&& bytes@.len() > 0
                &&& bytes@.len() <= 8188 ==> node_decoding(bytes@) == Some(
                    (kind, parent, leaf_rows(leaves@), internal_rows(internals@), leftmost),
                )
            },
            Err(_) => node_encoding(
                (kind, parent, leaf_rows(leaves@), internal_rows(internals@), leftmost),
            ) is None,
        },
{
    bincode::encode_to_vec(
        (kind, parent, leaves, internals, leftmost),
        bincode::config::standard(),
    )
}

/// `bincode::decode_from_slice` for the fields of a node as one tuple,
/// standard configuration with a limit of 16 MiB on what it may claim, so that
/// a length read from damaged bytes is refused and not allocated. Bytes after
/// the fields are left unread. The contract names the result. It is asked
/// for the bytes of one block at most: the limit counts a vector by the size
/// of its elements in memory, and a length that one machine refuses and
/// another takes needs more bytes than a block holds to be read in full, so
/// that for these inputs the result is the same on every machine.
#[verifier::external_body]
pub(crate) fn decode_node_fields(data: &[u8]) -> (r: Result<
    (u32, Option<u64>, Vec<(String, u64, u32)>, Vec<(String, u64)>, Option<u64>),
    bincode::error::DecodeError,
>)
    requires
        data@.len() <= 8188,
    ensures
        match r {
            Ok(f) => node_decoding(data@) == Some(
                (f.0, f.1, leaf_rows(f.2@), internal_rows(f.3@), f.4),
            ),
            Err(_) => node_decoding(data@) is None,
        },
{
    let config = bincode::config::standard().with_limit::<16777216>();
    let r: Result<
        ((u32, Option<u64>, Vec<(String, u64, u32)>, Vec<(String, u64)>, Option<u64>), usize),
        bincode::error::DecodeError,
    > = bincode::decode_from_slice(data, config);
    r.map(|read| read.0)
}

/// `bincode::encode_to_vec` on the index metadata as one tuple, standard
/// configuration. The call cannot fail: an optional integer and two integers
/// are encoded without a failure of their own, and the writer into a vector
/// takes every byte. The contract names the bytes and claims that
/// `bincode::decode_from_slice` reads the same metadata back from them.
#[verifier::external_body]
pub(crate) fn encode_metadata_fields(root: Option<u64>, order: u16, next_offset: u64) -> (r: Result<
    Vec<u8>,
    bincode::error::EncodeError,
>)
    ensures
        r is Ok,
        match r {
            Ok(bytes) => {
                &&& metadata_encoding((root, order, next_offset)) == Some(bytes@)
                &&& metadata_decoding(bytes@) == Some((root, order, next_offset))
            },
            Err(_) => metadata_encoding((root, order, next_offset)) is None,
        },
{
    bincode::encode_to_vec((root, order, next_offset), bincode::config::standard())
}

/// `bincode::decode_from_slice` for the index metadata as one tuple, standard
/// configuration. Bytes after the metadata are left unread. The contract
/// names the result.
#[verifier::external_body]
pub(crate) fn decode_metadata_fields(data: &[u8]) -> (r: Result<
    (Option<u64>, u16, u64),
    bincode::error::DecodeError,
>)
    ensures
        match r {
            Ok(f) => metadata_decoding(data@) == Some(f),
            Err(_) => metadata_decoding(data@) is None,
        },
{
    let r: Result<((Option<u64>, u16, u64), usize), bincode::error::DecodeError> =
        bincode::decode_from_slice(data, bincode::config::standard());
    r.map(|read| read.0)
}


/// The fields of a log record in the order in which they are encoded: record
/// number, kind, table, key, value.
pub type RecordFields = (u64, u32, Seq<char>, Seq<char>, Option<Seq<char>>);

/// A text as `bincode` writes it with fixed-width integers: the number of its
/// UTF-8 bytes in eight bytes, least significant first, then those bytes.
pub open spec fn text_bytes(text: Seq<char>) -> Seq<u8> {
    spec_u64_to_le_bytes(encode_utf8(text).len() as u64) + encode_utf8(text)
}

/// An optional text as `bincode` writes it: one byte, 0 for none and 1 for
/// some, then the text where there is one.
pub open spec fn optional_text_bytes(text: Option<Seq<char>>) -> Seq<u8> {
    match text {
        None => seq![0u8],
        Some(t) => seq![1u8] + text_bytes(t),
    }
}

/// A log record as `bincode` writes it with fixed-width little-endian
/// integers: the record number in eight bytes, the kind in four, then table,
/// key and optional value.
pub open spec fn record_bytes(f: RecordFields) -> Seq<u8> {
    spec_u64_to_le_bytes(f.0) + spec_u32_to_le_bytes(f.1) + text_bytes(f.2) + text_bytes(f.3)
        + optional_text_bytes(f.4)
}

/// A table record as `bincode` writes it with fixed-width little-endian
/// integers: key, then value.
pub open spec fn pair_bytes(key: Seq<char>, value: Seq<char>) -> Seq<u8> {
    text_bytes(key) + text_bytes(value)
}

/// The fields of a log record that `bincode` reads from the front of `data`
/// with fixed-width little-endian integers and a limit of 32 MiB, where it
/// reads any.
pub uninterp spec fn record_decoding(data: Seq<u8>) -> Option<RecordFields>;

/// The key and value that `bincode` reads from the front of `data` with
/// fixed-width little-endian integers and a limit of 32 MiB, where it reads
/// any.
pub uninterp spec fn pair_decoding(data: Seq<u8>) -> Option<(Seq<char>, Seq<char>)>;

/// The value inside an optional text.
pub open spec fn text_view(text: Option<String>) -> Option<Seq<char>> {
    match text {
        Some(t) => Some(t@),
        None => None,
    }
}

/// `bincode::encode_into_slice` on the fields of a log record as one tuple,
/// fixed-width little-endian integers, into `dst` from `at` on. It writes the
/// bytes of `record_bytes` and gives their number; it fails exactly when they
/// do not fit into what is left of `dst`, and may then have written a part of
/// them. Bytes before `at` are never touched. Where no more than 32 MiB were
/// written, `bincode::decode_from_slice` with that limit reads the same fields
/// back from them.
#[verifier::external_body]
pub(crate) fn encode_record_fields_into(
    record_id: u64,
    kind: u32,
    table: &String,
    key: &String,
    value: &Option<String>,
    dst: &mut Vec<u8>,
    at: usize,
) -> (r: Result<usize, bincode::error::EncodeError>)
    requires
        at <= old(dst)@.len(),
    ensures
        final(dst)@.len() == old(dst)@.len(),
        window(final(dst)@, 0, at as int) == window(old(dst)@, 0, at as int),
        r is Ok <==> at + record_bytes((record_id, kind, table@, key@, text_view(*value))).len()
            <= old(dst)@.len(),
        match r {
            Ok(n) => {
                &&& n == record_bytes((record_id, kind, table@, key@, text_view(*value))).len()
                &&& final(dst)@ == overlay(
                    old(dst)@,
                    at as int,
                    record_bytes((record_id, kind, table@, key@, text_view(*value))),
                )
                &&& n <= 33554432 ==> record_decoding(
                    record_bytes((record_id, kind, table@, key@, text_view(*value))),
                ) == Some((record_id, kind, table@, key@, text_view(*value)))
            },
            Err(_) => true,
        },
{
    let config = bincode::config::standard().with_fixed_int_encoding().with_little_endian();
    bincode::encode_into_slice((record_id, kind, table, key, value), &mut dst[at..], config)
}

/// `bincode::decode_from_slice` for the fields of a log record as one tuple,
/// fixed-width little-endian integers, with a limit of 32 MiB on what it may
/// claim, so that a length read from damaged bytes is refused and not
/// allocated. Bytes after the fields are left unread. The contract names the
/// result.
#[verifier::external_body]
pub(crate) fn decode_record_fields(data: &[u8]) -> (r: Result<
    (u64, u32, String, String, Option<String>),
    bincode::error::DecodeError,
>)
    ensures
        match r {
            Ok(f) => record_decoding(data@) == Some((f.0, f.1, f.2@, f.3@, text_view(f.4))),
            Err(_) => record_decoding(data@) is None,
        },
{
    let config = bincode::config::standard().with_fixed_int_encoding().with_little_endian()
        .with_limit::<33554432>();
    let r: Result<((u64, u32, String, String, Option<String>), usize), bincode::error::DecodeError> =
        bincode::decode_from_slice(data, config);
    r.map(|read| read.0)
}

/// `bincode::encode_to_vec` on a key and a value as one tuple, fixed-width
/// little-endian integers. The call cannot fail: texts are encoded without a
/// failure of their own, and the writer into a vector takes every byte. The
/// bytes are those of `pair_bytes`, and where they are no more than 32 MiB,
/// `bincode::decode_from_slice` with that limit reads the same pair back from
/// them.
#[verifier::external_body]
pub(crate) fn encode_pair(key: &String, value: &String) -> (r: Result<
    Vec<u8>,
    bincode::error::EncodeError,
>)
    ensures
        r is Ok,
        match r {
            Ok(bytes) => {
                &&& bytes@ == pair_bytes(key@, value@)
                &&& bytes@.len() <= 33554432 ==> pair_decoding(bytes@) == Some((key@, value@))
            },
            Err(_) => true,
        },
{
    let config = bincode::config::standard().with_fixed_int_encoding().with_little_endian();
    bincode::encode_to_vec((key, value), config)
}

/// `bincode::encode_into_slice` on a key and a value as one tuple, fixed-width
/// little-endian integers, into `dst` from `at` on. It writes the bytes of
/// `pair_bytes` and gives their number; it fails exactly when they do not fit
/// into what is left of `dst`, and may then have written a part of them.
/// Bytes before `at` are never touched.
#[verifier::external_body]
pub(crate) fn encode_pair_into(key: &String, value: &String, dst: &mut Vec<u8>, at: usize) -> (r:
    Result<usize, bincode::error::EncodeError>)
    requires
        at <= old(dst)@.len(),
    ensures
        final(dst)@.len() == old(dst)@.len(),
        window(final(dst)@, 0, at as int) == window(old(dst)@, 0, at as int),
        r is Ok <==> at + pair_bytes(key@, value@).len() <= old(dst)@.len(),
        match r {
            Ok(n) => {
                &&& n == pair_bytes(key@, value@).len()
                &&& final(dst)@ == overlay(old(dst)@, at as int, pair_bytes(key@, value@))
            },
            Err(_) => true,
        },
{
    let config = bincode::config::standard().with_fixed_int_encoding().with_little_endian();
    bincode::encode_into_slice((key, value), &mut dst[at..], config)
}

/// `bincode::decode_from_slice` for a key and a value as one tuple,
/// fixed-width little-endian integers, with a limit of 32 MiB on what it may
/// claim. Bytes after the pair are left unread. The contract names the result.
#[verifier::external_body]
pub(crate) fn decode_pair(data: &[u8]) -> (r: Result<(String, String), bincode::error::DecodeError>)
    ensures
        match r {
            Ok(f) => pair_decoding(data@) == Some((f.0@, f.1@)),
            Err(_) => pair_decoding(data@) is None,
        },
{
    let config = bincode::config::standard().with_fixed_int_encoding().with_little_endian()
        .with_limit::<33554432>();
    let r: Result<((String, String), usize), bincode::error::DecodeError> =
        bincode::decode_from_slice(data, config);
    r.map(|read| read.0)
}

} // verus!
