//! The key of the encrypted layout as it is given on the command line.

use crate::endian::be_bytes;
use vstd::prelude::*;
use vstd::string::*;

verus! {

/// What `u128::from_str_radix` with radix 16 makes of a text: the number
/// that its hexadecimal digits stand for, or `None` where the text is no
/// such number or the number does not fit 128 bits.
pub uninterp spec fn hex_u128(text: Seq<char>) -> Option<u128>;

/// Calls `u128::from_str_radix` with radix 16.
#[verifier::external_body]
fn parse_hex_u128(text: &str) -> (number: Option<u128>)
    ensures
        number == hex_u128(text@),
{
    u128::from_str_radix(text, 16).ok()
}

/// Calls `u128::to_be_bytes`: the sixteen bytes of the number, most
/// significant byte first.
#[verifier::external_body]
fn u128_to_be_bytes(number: u128) -> (bytes: [u8; 16])
    ensures
        bytes@ == be_bytes(number as nat, 16),
{
    number.to_be_bytes()
}

/// The message for a key that is no hexadecimal number of 128 bits.
pub open spec fn invalid_key_message() -> Seq<char> {
    "Encryption key is not a valid 16 byte hex string."@
}

/// The key that a parsed number stands for: its sixteen bytes, most
/// significant byte first.
pub fn key_of_number(number: Option<u128>) -> (key: Result<[u8; 16], String>)
    ensures
        match number {
            Some(n) => key matches Ok(bytes) && bytes@ == be_bytes(n as nat, 16),
            None => key matches Err(message) && message@ == invalid_key_message(),
        },
{
    match number {
        Some(n) => Ok(u128_to_be_bytes(n)),
        None => Err("Encryption key is not a valid 16 byte hex string.".to_owned()),
    }
}

/// The key that a hexadecimal text stands for.
pub fn decode_encryption_key(hex_string: &str) -> (key: Result<[u8; 16], String>)
    ensures
        match hex_u128(hex_string@) {
            Some(n) => key matches Ok(bytes) && bytes@ == be_bytes(n as nat, 16),
            None => key matches Err(message) && message@ == invalid_key_message(),
        },
{
    key_of_number(parse_hex_u128(hex_string))
}

} // verus!
