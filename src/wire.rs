//! Wire type codes and decoding errors.
use vstd::prelude::*;

verus! {

/// One byte, signed.
pub const BYTE: u8 = 0;
/// Two bytes, big-endian signed.
pub const SHORT: u8 = 1;
/// Four bytes, big-endian signed.
pub const INT: u8 = 2;
/// Eight bytes, big-endian signed.
pub const LONG: u8 = 3;
/// Four-byte IEEE-754 float.
pub const FLOAT: u8 = 4;
/// Eight-byte IEEE-754 float.
pub const DOUBLE: u8 = 5;
/// String whose length fits in one byte.
pub const STRING1: u8 = 6;
/// String with a four-byte signed length.
pub const STRING4: u8 = 7;
/// Map: a count field, then key and value fields.
pub const MAP: u8 = 8;
/// List: a count field, then element fields.
pub const LIST: u8 = 9;
/// Opens a nested struct.
pub const STRUCT_BEGIN: u8 = 10;
/// Closes a nested struct.
pub const STRUCT_END: u8 = 11;
/// A numeric zero with no payload.
pub const ZERO_TAG: u8 = 12;
/// Raw byte array: a count field, then the bytes.
pub const SIMPLE_LIST: u8 = 13;

/// Why a decode failed. Every error ends the current decode.
#[derive(Clone, Copy, Debug, PartialEq, Eq, Structural)]
pub enum JceError {
    /// The input ended before the value did.
    BufferUnderrun,
    /// A wire type, tag or length that the decoder cannot accept.
    TypeMismatch,
    /// A struct ended without its closing header.
    MissingTerminator,
}

} // verus!
