//! The codec that every field value type offers, so that a struct's encoder and
//! decoder can treat each of its fields alike.
use vstd::prelude::*;
use bytes::{Bytes, BytesMut};
use crate::buf::{unread, written};
use crate::codec::{byte_field, byte_payload, is_int_field, read_byte, write_byte, write_int};
use crate::head::{int_payload, read_int};
use crate::wire::JceError;

verus! {

/// A value that can stand in a field.
pub trait JceType: Sized {
    /// `e` is a field holding `v` under `tag`.
    spec fn encodes(e: Seq<u8>, v: Self, tag: u8) -> bool;

    /// The value of wire type `ty` at the front of `s`, and how many bytes it takes.
    spec fn decodes(ty: u8, s: Seq<u8>) -> Result<(Self, int), JceError>;

    /// Appends a field holding this value under `tag`.
    fn to_bytes(&self, b: &mut BytesMut, tag: u8)
        ensures
            written(*final(b)).take(written(*old(b)).len() as int) == written(*old(b)),
            Self::encodes(written(*final(b)).skip(written(*old(b)).len() as int), *self, tag),
    ;

    /// Reads a payload of wire type `ty`; wire types the value does not take are refused.
    fn from_bytes(b: &mut Bytes, ty: u8) -> (r: Result<Self, JceError>)
        ensures
            match Self::decodes(ty, unread(*old(b))) {
                Err(e) => r == Err::<Self, JceError>(e),
                Ok((v, n)) => r == Ok::<Self, JceError>(v) && unread(*final(b)) == unread(*old(b)).skip(n),
            },
    ;
}

impl JceType for u8 {
    open spec fn encodes(e: Seq<u8>, v: u8, tag: u8) -> bool {
        e == byte_field(v, tag)
    }

    open spec fn decodes(ty: u8, s: Seq<u8>) -> Result<(u8, int), JceError> {
        byte_payload(ty, s)
    }

    fn to_bytes(&self, b: &mut BytesMut, tag: u8) {
        let ghost o = written(*b);
        write_byte(b, *self, tag);
        proof {
            assert(written(*b).take(o.len() as int) =~= o);
            assert(written(*b).skip(o.len() as int) =~= byte_field(*self, tag));
        }
    }

    fn from_bytes(b: &mut Bytes, ty: u8) -> (r: Result<u8, JceError>) {
        read_byte(b, ty)
    }
}

impl JceType for i32 {
    open spec fn encodes(e: Seq<u8>, v: i32, tag: u8) -> bool {
        is_int_field(e, v as int, tag)
    }

    open spec fn decodes(ty: u8, s: Seq<u8>) -> Result<(i32, int), JceError> {
        match int_payload(ty, s) {
            Err(e) => Err(e),
            Ok((v, n)) => Ok((v as i32, n)),
        }
    }

    fn to_bytes(&self, b: &mut BytesMut, tag: u8) {
        write_int(b, *self, tag);
    }

    fn from_bytes(b: &mut Bytes, ty: u8) -> (r: Result<i32, JceError>) {
        read_int(b, ty)
    }
}

} // verus!
