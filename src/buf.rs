//! Read cursor and write buffer, backed by the `bytes` crate.
use vstd::prelude::*;
use bytes::{Buf, BufMut, Bytes, BytesMut};

verus! {

#[verifier::external_type_specification]
#[verifier::external_body]
pub struct ExBytes(Bytes);

#[verifier::external_type_specification]
#[verifier::external_body]
pub struct ExBytesMut(BytesMut);

/// The bytes that a read cursor has not yet consumed.
pub uninterp spec fn unread(b: Bytes) -> Seq<u8>;

/// The bytes written so far into an output buffer.
pub uninterp spec fn written(b: BytesMut) -> Seq<u8>;

/// Big-endian unsigned value of a byte sequence.
pub open spec fn be_value(s: Seq<u8>) -> nat
    decreases s.len(),
{
    if s.len() == 0 {
        0
    } else {
        be_value(s.drop_last()) * 256 + s.last() as nat
    }
}

/// Two's-complement value of the big-endian `s` read as a signed integer.
pub open spec fn be_signed(s: Seq<u8>) -> int {
    let u = be_value(s) as int;
    let half = vstd::arithmetic::power2::pow2((8 * s.len() - 1) as nat) as int;
    if u >= half { u - 2 * half } else { u }
}

/// Relies on `Buf::remaining` for `Bytes`: the number of unread bytes.
#[verifier::external_body]
pub(crate) fn remaining(b: &Bytes) -> (r: usize)
    ensures
        r == unread(*b).len(),
{
    b.remaining()
}

/// Relies on `Buf::get_u8`: returns the first unread byte and consumes it.
#[verifier::external_body]
pub(crate) fn get_u8(b: &mut Bytes) -> (r: u8)
    requires
        unread(*old(b)).len() >= 1,
    ensures
        r == unread(*old(b))[0],
        unread(*final(b)) == unread(*old(b)).skip(1),
{
    b.get_u8()
}

/// Relies on `Buf::get_i8`: the next byte as a signed integer.
#[verifier::external_body]
pub(crate) fn get_i8(b: &mut Bytes) -> (r: i8)
    requires
        unread(*old(b)).len() >= 1,
    ensures
        r as int == be_signed(unread(*old(b)).take(1)),
        unread(*final(b)) == unread(*old(b)).skip(1),
{
    b.get_i8()
}

/// Relies on `Buf::get_i16`: the next two bytes as a big-endian signed integer.
#[verifier::external_body]
pub(crate) fn get_i16(b: &mut Bytes) -> (r: i16)
    requires
        unread(*old(b)).len() >= 2,
    ensures
        r as int == be_signed(unread(*old(b)).take(2)),
        unread(*final(b)) == unread(*old(b)).skip(2),
{
    b.get_i16()
}

/// Relies on `Buf::get_i32`: the next four bytes as a big-endian signed integer.
#[verifier::external_body]
pub(crate) fn get_i32(b: &mut Bytes) -> (r: i32)
    requires
        unread(*old(b)).len() >= 4,
    ensures
        r as int == be_signed(unread(*old(b)).take(4)),
        unread(*final(b)) == unread(*old(b)).skip(4),
{
    b.get_i32()
}

/// Relies on `Buf::advance` for `Bytes`: drops `n` unread bytes.
#[verifier::external_body]
pub(crate) fn advance(b: &mut Bytes, n: usize)
    requires
        n <= unread(*old(b)).len(),
    ensures
        unread(*final(b)) == unread(*old(b)).skip(n as int),
{
    b.advance(n)
}

/// Relies on `BufMut::put_u8` for `BytesMut`: appends one byte.
#[verifier::external_body]
pub(crate) fn put_u8(b: &mut BytesMut, v: u8)
    ensures
        written(*final(b)) == written(*old(b)).push(v),
{
    b.put_u8(v)
}

/// Relies on `BufMut::put_i8` for `BytesMut`: appends `v` big-endian in 1 byte.
#[verifier::external_body]
pub(crate) fn put_i8(b: &mut BytesMut, v: i8)
    ensures
        written(*final(b)).len() == written(*old(b)).len() + 1,
        written(*final(b)).take(written(*old(b)).len() as int) == written(*old(b)),
        be_signed(written(*final(b)).skip(written(*old(b)).len() as int)) == v as int,
{
    b.put_i8(v)
}

/// Relies on `BufMut::put_i16` for `BytesMut`: appends `v` big-endian in 2 bytes.
#[verifier::external_body]
pub(crate) fn put_i16(b: &mut BytesMut, v: i16)
    ensures
        written(*final(b)).len() == written(*old(b)).len() + 2,
        written(*final(b)).take(written(*old(b)).len() as int) == written(*old(b)),
        be_signed(written(*final(b)).skip(written(*old(b)).len() as int)) == v as int,
{
    b.put_i16(v)
}

/// Relies on `BufMut::put_i32` for `BytesMut`: appends `v` big-endian in 4 bytes.
#[verifier::external_body]
pub(crate) fn put_i32(b: &mut BytesMut, v: i32)
    ensures
        written(*final(b)).len() == written(*old(b)).len() + 4,
        written(*final(b)).take(written(*old(b)).len() as int) == written(*old(b)),
        be_signed(written(*final(b)).skip(written(*old(b)).len() as int)) == v as int,
{
    b.put_i32(v)
}

/// Relies on `BufMut::put_slice` for `BytesMut`: appends the bytes of `s` in order.
#[verifier::external_body]
pub(crate) fn put_slice(b: &mut BytesMut, s: &[u8])
    ensures
        written(*final(b)) == written(*old(b)) + s@,
{
    b.put_slice(s)
}

} // verus!
