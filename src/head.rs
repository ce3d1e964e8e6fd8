//! Field headers, count fields, and skipping values of any wire type.
use vstd::prelude::*;
use bytes::{Bytes, BytesMut};
use crate::buf::{advance, be_signed, get_i16, get_i32, get_i8, get_u8, put_u8, remaining, unread, written};
use crate::wire::{JceError, BYTE, DOUBLE, FLOAT, INT, LIST, LONG, MAP, SHORT, SIMPLE_LIST, STRING1, STRING4, STRUCT_BEGIN, STRUCT_END, ZERO_TAG};

verus! {

/// A field header: the wire type of the payload and the field's tag.
#[derive(Clone, Copy, Debug, PartialEq, Eq, Structural)]
pub struct HeadData {
    pub wire_type: u8,
    pub tag: u8,
}

/// The bytes of a header: one byte for tags up to 14, else an escape byte and the tag.
pub open spec fn head_bytes(h: HeadData) -> Seq<u8> {
    if h.tag <= 14 {
        seq![h.wire_type | (h.tag << 4u8)]
    } else {
        seq![h.wire_type | 0xF0u8, h.tag]
    }
}

/// The header at the front of `s` and how many bytes it takes, if `s` holds one.
pub open spec fn parse_head(s: Seq<u8>) -> Option<(HeadData, int)> {
    if s.len() < 1 {
        None
    } else {
        let t = (s[0] & 0xF0u8) >> 4u8;
        if t != 15 {
            Some((HeadData { wire_type: s[0] & 0x0Fu8, tag: t }, 1))
        } else if s.len() < 2 {
            None
        } else {
            Some((HeadData { wire_type: s[0] & 0x0Fu8, tag: s[1] }, 2))
        }
    }
}

/// `n` bytes if `s` holds that many.
pub open spec fn fixed_len(n: int, s: Seq<u8>) -> Result<int, JceError> {
    if s.len() < n {
        Err(JceError::BufferUnderrun)
    } else {
        Ok(n)
    }
}

/// An integer payload of wire type `ty` at the front of `s`: its value and length.
pub open spec fn int_payload(ty: u8, s: Seq<u8>) -> Result<(int, int), JceError> {
    if ty == ZERO_TAG {
        Ok((0, 0))
    } else if ty == BYTE || ty == SHORT || ty == INT {
        let n: int = if ty == BYTE { 1 } else if ty == SHORT { 2 } else { 4 };
        if s.len() < n {
            Err(JceError::BufferUnderrun)
        } else {
            Ok((be_signed(s.take(n)), n))
        }
    } else {
        Err(JceError::TypeMismatch)
    }
}

/// A count field at the front of `s` (a tag-0 integer field, not negative):
/// the count and the bytes it takes.
pub open spec fn count_field(s: Seq<u8>) -> Result<(int, int), JceError> {
    match parse_head(s) {
        None => Err(JceError::BufferUnderrun),
        Some((h, c)) => if h.tag != 0 {
            Err(JceError::TypeMismatch)
        } else {
            match int_payload(h.wire_type, s.skip(c)) {
                Err(e) => Err(e),
                Ok((v, m)) => if v < 0 {
                    Err(JceError::TypeMismatch)
                } else {
                    Ok((v, c + m))
                },
            }
        },
    }
}

/// The length of the payload of wire type `ty` at the front of `s`.
pub open spec fn value_len(ty: u8, s: Seq<u8>) -> Result<int, JceError>
    decreases s.len(), 1int,
{
    if ty > 13 {
        Err(JceError::TypeMismatch)
    } else if ty == BYTE {
        fixed_len(1, s)
    } else if ty == SHORT || ty == FLOAT {
        fixed_len(if ty == SHORT { 2 } else { 4 }, s)
    } else if ty == INT {
        fixed_len(4, s)
    } else if ty == LONG || ty == DOUBLE {
        fixed_len(8, s)
    } else if ty == STRING1 {
        if s.len() < 1 {
            Err(JceError::BufferUnderrun)
        } else {
            fixed_len(1 + s[0], s)
        }
    } else if ty == STRING4 {
        if s.len() < 4 {
            Err(JceError::BufferUnderrun)
        } else if be_signed(s.take(4)) < 0 {
            Err(JceError::TypeMismatch)
        } else {
            fixed_len(4 + be_signed(s.take(4)), s)
        }
    } else if ty == MAP || ty == LIST || ty == SIMPLE_LIST {
        match count_field(s) {
            Err(e) => Err(e),
            Ok((n, c)) => if c < 1 || c > s.len() {
                Err(JceError::BufferUnderrun)
            } else if ty == SIMPLE_LIST {
                fixed_len(c + n, s)
            } else {
                match items_len(if ty == MAP { 2 * n } else { n }, s.skip(c)) {
                    Err(e) => Err(e),
                    Ok(m) => Ok(c + m),
                }
            },
        }
    } else if ty == STRUCT_BEGIN {
        fields_len(s)
    } else {
        Ok(0)
    }
}

/// The length of `k` fields (header and payload each) at the front of `s`.
pub open spec fn items_len(k: int, s: Seq<u8>) -> Result<int, JceError>
    decreases s.len(), 0int,
{
    if k <= 0 {
        Ok(0)
    } else {
        match parse_head(s) {
            None => Err(JceError::BufferUnderrun),
            Some((h, c)) => if c < 1 || c > s.len() {
                Err(JceError::BufferUnderrun)
            } else {
                match value_len(h.wire_type, s.skip(c)) {
                    Err(e) => Err(e),
                    Ok(m) => if m < 0 || c + m > s.len() {
                        Err(JceError::BufferUnderrun)
                    } else {
                        match items_len(k - 1, s.skip(c + m)) {
                            Err(e) => Err(e),
                            Ok(r) => Ok(c + m + r),
                        }
                    },
                }
            },
        }
    }
}

/// The length of the fields of a struct, its closing header included.
pub open spec fn fields_len(s: Seq<u8>) -> Result<int, JceError>
    decreases s.len(), 0int,
{
    match parse_head(s) {
        None => Err(JceError::BufferUnderrun),
        Some((h, c)) => if c < 1 || c > s.len() {
            Err(JceError::BufferUnderrun)
        } else if h.wire_type == STRUCT_END {
            Ok(c)
        } else {
            match value_len(h.wire_type, s.skip(c)) {
                Err(e) => Err(e),
                Ok(m) => if m < 0 || c + m > s.len() {
                    Err(JceError::BufferUnderrun)
                } else {
                    match fields_len(s.skip(c + m)) {
                        Err(e) => Err(e),
                        Ok(r) => Ok(c + m + r),
                    }
                },
            }
        },
    }
}

impl HeadData {
    /// A header for a field of wire type `wire_type` under `tag`.
    pub fn new(wire_type: u8, tag: u8) -> (r: HeadData)
        ensures
            r == (HeadData { wire_type, tag }),
    {
        HeadData { wire_type, tag }
    }

    /// Reads one header from the cursor.
    pub fn parse(b: &mut Bytes) -> (r: Result<HeadData, JceError>)
        ensures
            match parse_head(unread(*old(b))) {
                None => r == Err::<HeadData, JceError>(JceError::BufferUnderrun),
                Some((h, c)) => r == Ok::<HeadData, JceError>(h) && 1 <= c <= unread(*old(b)).len()
                    && unread(*final(b)) == unread(*old(b)).skip(c),
            },
    {
        if remaining(b) < 1 {
            return Err(JceError::BufferUnderrun);
        }
        let ghost s = unread(*b);
        let f = get_u8(b);
        let t = (f & 240) >> 4;
        if t != 15 {
            Ok(HeadData { wire_type: f & 15, tag: t })
        } else {
            if remaining(b) < 1 {
                return Err(JceError::BufferUnderrun);
            }
            let tag = get_u8(b);
            proof {
                assert(unread(*b) =~= s.skip(2));
            }
            Ok(HeadData { wire_type: f & 15, tag })
        }
    }

    /// Appends this header to `b`.
    pub fn format(&self, b: &mut BytesMut)
        ensures
            written(*final(b)) == written(*old(b)) + head_bytes(*self),
    {
        if self.tag <= 14 {
            put_u8(b, self.wire_type | (self.tag << 4));
            proof {
                assert(written(*b) =~= written(*old(b)) + head_bytes(*self));
            }
        } else {
            put_u8(b, self.wire_type | 240);
            put_u8(b, self.tag);
            proof {
                assert(written(*b) =~= written(*old(b)) + head_bytes(*self));
            }
        }
    }

    /// Reads a count field: a tag-0 integer field whose value is not negative.
    pub fn parse_ttl4(b: &mut Bytes) -> (r: Result<usize, JceError>)
        ensures
            match count_field(unread(*old(b))) {
                Err(e) => r == Err::<usize, JceError>(e),
                Ok((n, c)) => r == Ok::<usize, JceError>(n as usize) && n == r->Ok_0 && n <= i32::MAX && 1 <= c <= unread(*old(b)).len()
                    && unread(*final(b)) == unread(*old(b)).skip(c),
            },
    {
        let ghost s = unread(*b);
        let head = HeadData::parse(b)?;
        let ghost c = s.len() - unread(*b).len();
        if head.tag != 0 {
            return Err(JceError::TypeMismatch);
        }
        let ghost mid = unread(*b);
        let v = read_int(b, head.wire_type)?;
        if v < 0 {
            return Err(JceError::TypeMismatch);
        }
        proof {
            assert(mid == s.skip(c));
            assert(unread(*b) =~= s.skip(c + (mid.len() - unread(*b).len())));
        }
        Ok(v as usize)
    }

    /// Consumes the payload that this header announces, without decoding it.
    pub fn skip_value(&self, b: &mut Bytes) -> (r: Result<(), JceError>)
        ensures
            match value_len(self.wire_type, unread(*old(b))) {
                Err(e) => r == Err::<(), JceError>(e),
                Ok(n) => r == Ok::<(), JceError>(()) && 0 <= n <= unread(*old(b)).len()
                    && unread(*final(b)) == unread(*old(b)).skip(n),
            },
        decreases unread(*old(b)).len(), 1int,
    {
        let ghost s = unread(*b);
        let ty = self.wire_type;
        if ty > 13 {
            return Err(JceError::TypeMismatch);
        }
        let len: usize = if ty == BYTE {
            1
        } else if ty == SHORT {
            2
        } else if ty == INT || ty == FLOAT {
            4
        } else if ty == LONG || ty == DOUBLE {
            8
        } else if ty == STRING1 {
            if remaining(b) < 1 {
                return Err(JceError::BufferUnderrun);
            }
            let n = get_u8(b);
            proof { assert(n == s[0]); }
            n as usize
        } else if ty == STRING4 {
            if remaining(b) < 4 {
                return Err(JceError::BufferUnderrun);
            }
            let n = get_i32(b);
            if n < 0 {
                return Err(JceError::TypeMismatch);
            }
            n as usize
        } else if ty == MAP || ty == LIST || ty == SIMPLE_LIST {
            let n = HeadData::parse_ttl4(b)?;
            let ghost c = s.len() - unread(*b).len();
            proof { assert(unread(*b) =~= s.skip(c)); }
            if ty == SIMPLE_LIST {
                n
            } else {
                let k: u128 = if ty == MAP { 2 * (n as u128) } else { n as u128 };
                skip_items(k, b)?;
                proof { assert(unread(*b) =~= s.skip(s.len() - unread(*b).len())); }
                0
            }
        } else if ty == STRUCT_BEGIN {
            skip_fields(b)?;
            proof { assert(unread(*b) =~= s.skip(s.len() - unread(*b).len())); }
            0
        } else {
            0
        };
        if remaining(b) < len {
            return Err(JceError::BufferUnderrun);
        }
        advance(b, len);
        proof { assert(unread(*b) =~= s.skip(s.len() - unread(*b).len())); }
        Ok(())
    }
}

/// Reads an integer payload of wire type `ty`.
pub fn read_int(b: &mut Bytes, ty: u8) -> (r: Result<i32, JceError>)
    ensures
        match int_payload(ty, unread(*old(b))) {
            Err(e) => r == Err::<i32, JceError>(e),
            Ok((v, n)) => r == Ok::<i32, JceError>(v as i32) && v == r->Ok_0 && 0 <= n <= unread(*old(b)).len()
                && unread(*final(b)) == unread(*old(b)).skip(n),
        },
{
    if ty == ZERO_TAG {
        proof { assert(unread(*b) =~= unread(*b).skip(0)); }
        Ok(0)
    } else if ty == BYTE {
        if remaining(b) < 1 {
            return Err(JceError::BufferUnderrun);
        }
        Ok(get_i8(b) as i32)
    } else if ty == SHORT {
        if remaining(b) < 2 {
            return Err(JceError::BufferUnderrun);
        }
        Ok(get_i16(b) as i32)
    } else if ty == INT {
        if remaining(b) < 4 {
            return Err(JceError::BufferUnderrun);
        }
        Ok(get_i32(b))
    } else {
        Err(JceError::TypeMismatch)
    }
}

/// Skips `k` fields, header and payload each.
fn skip_items(k: u128, b: &mut Bytes) -> (r: Result<(), JceError>)
    ensures
        match items_len(k as int, unread(*old(b))) {
            Err(e) => r == Err::<(), JceError>(e),
            Ok(n) => r == Ok::<(), JceError>(()) && 0 <= n <= unread(*old(b)).len()
                && unread(*final(b)) == unread(*old(b)).skip(n),
        },
    decreases unread(*old(b)).len(), 0int,
{
    let ghost s = unread(*b);
    if k == 0 {
        proof { assert(s =~= s.skip(0)); }
        return Ok(());
    }
    let h = HeadData::parse(b)?;
    let ghost c = s.len() - unread(*b).len();
    let ghost mid = unread(*b);
    h.skip_value(b)?;
    let ghost m = mid.len() - unread(*b).len();
    let ghost mid2 = unread(*b);
    proof { assert(mid2 =~= s.skip(c + m)); }
    skip_items(k - 1, b)?;
    proof { assert(unread(*b) =~= s.skip(s.len() - unread(*b).len())); }
    Ok(())
}

/// Skips the fields of a struct up to and including its closing header.
fn skip_fields(b: &mut Bytes) -> (r: Result<(), JceError>)
    ensures
        match fields_len(unread(*old(b))) {
            Err(e) => r == Err::<(), JceError>(e),
            Ok(n) => r == Ok::<(), JceError>(()) && 0 <= n <= unread(*old(b)).len()
                && unread(*final(b)) == unread(*old(b)).skip(n),
        },
    decreases unread(*old(b)).len(), 0int,
{
    let ghost s = unread(*b);
    let h = HeadData::parse(b)?;
    let ghost c = s.len() - unread(*b).len();
    if h.wire_type == STRUCT_END {
        return Ok(());
    }
    let ghost mid = unread(*b);
    h.skip_value(b)?;
    let ghost m = mid.len() - unread(*b).len();
    proof { assert(unread(*b) =~= s.skip(c + m)); }
    skip_fields(b)?;
    proof { assert(unread(*b) =~= s.skip(s.len() - unread(*b).len())); }
    Ok(())
}

} // verus!
