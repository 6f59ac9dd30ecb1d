use vstd::prelude::*;
use crate::bytes::{byte_len, text_len};
use crate::config::{KEY_BYTES_MAX_SIZE, TABLE_NAME_MAX_SIZE, VALUE_BYTES_MAX_SIZE};
use crate::errors::{failure, ErrorCodes, Errors};

verus! {

/// Whether a byte may stand in a table's name.
pub open spec fn name_byte(b: u8) -> bool {
    (97 <= b <= 122) || (65 <= b <= 90) || (48 <= b <= 57) || b == 95
}

/// Whether every byte may stand in a table's name.
pub open spec fn name_bytes(bytes: Seq<u8>) -> bool {
    forall|i: int| 0 <= i < bytes.len() ==> name_byte(#[trigger] bytes[i])
}

/// What is wrong with a table's name, in the order in which it is checked:
/// it is empty, it is longer than allowed, or it holds a byte that is none of
/// an ASCII letter, an ASCII digit and the underscore.
pub open spec fn table_name_fault(bytes: Seq<u8>) -> Option<ErrorCodes> {
    if bytes.len() == 0 {
        Some(ErrorCodes::TableNameIsEmpty)
    } else if bytes.len() > TABLE_NAME_MAX_SIZE {
        Some(ErrorCodes::TableNameTooLong)
    } else if !name_bytes(bytes) {
        Some(ErrorCodes::TableNameIsInvalid)
    } else {
        None
    }
}

/// What is wrong with a key: it is empty or longer than allowed.
pub open spec fn key_fault(len: nat) -> Option<ErrorCodes> {
    if len == 0 {
        Some(ErrorCodes::KeyIsEmpty)
    } else if len > KEY_BYTES_MAX_SIZE {
        Some(ErrorCodes::KeySizeTooLarge)
    } else {
        None
    }
}

/// What is wrong with a value: it is longer than allowed.
pub open spec fn value_fault(len: nat) -> Option<ErrorCodes> {
    if len > VALUE_BYTES_MAX_SIZE {
        Some(ErrorCodes::ValueSizeTooLarge)
    } else {
        None
    }
}

/// Checks a table's name: not empty, no longer than allowed, and made of
/// ASCII letters, ASCII digits and underscores only. The failure for a name
/// with another byte carries the name as its message; the other failures
/// carry none.
pub fn validate_table_name(table: &str) -> (r: Result<(), Errors>)
    ensures
        failure(r) == table_name_fault(vstd::utf8::encode_utf8(table@)),
        r is Err ==> (if r->Err_0.error_code == ErrorCodes::TableNameIsInvalid {
            r->Err_0.message is Some && r->Err_0.message->Some_0@ == table@
        } else {
            r->Err_0.message is None
        }),
{
    let bytes = table.as_bytes();
    if bytes.len() == 0 {
        return Err(Errors::new(ErrorCodes::TableNameIsEmpty));
    }
    if bytes.len() > TABLE_NAME_MAX_SIZE {
        return Err(Errors::new(ErrorCodes::TableNameTooLong));
    }
    let mut i: usize = 0;
    while i < bytes.len()
        invariant
            i <= bytes.len(),
            bytes@ == vstd::utf8::encode_utf8(table@),
            0 < bytes@.len() <= TABLE_NAME_MAX_SIZE,
            forall|j: int| 0 <= j < i ==> name_byte(#[trigger] bytes@[j]),
        decreases bytes.len() - i,
    {
        let b = bytes[i];
        let ok = (97 <= b && b <= 122) || (65 <= b && b <= 90) || (48 <= b && b <= 57) || b == 95;
        if !ok {
            return Err(
                Errors::new(ErrorCodes::TableNameIsInvalid).with_message(table.to_owned()),
            );
        }
        i += 1;
    }
    Ok(())
}

/// Checks a key: not empty and no longer than allowed.
pub fn validate_key(key: &str) -> (r: Result<(), Errors>)
    ensures
        failure(r) == key_fault(byte_len(key@)),
{
    let len = text_len(key);
    if len == 0 {
        return Err(Errors::new(ErrorCodes::KeyIsEmpty));
    }
    if len > KEY_BYTES_MAX_SIZE {
        return Err(Errors::new(ErrorCodes::KeySizeTooLarge));
    }
    Ok(())
}

/// Checks a value: no longer than allowed.
pub fn validate_value(value: &str) -> (r: Result<(), Errors>)
    ensures
        failure(r) == value_fault(byte_len(value@)),
{
    if text_len(value) > VALUE_BYTES_MAX_SIZE {
        return Err(Errors::new(ErrorCodes::ValueSizeTooLarge));
    }
    Ok(())
}

} // verus!
