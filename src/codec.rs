//! Encoders and decoders for field values: integers, bytes, strings, structs, lists,
//! maps and raw byte arrays.
use vstd::prelude::*;
use bytes::{Bytes, BytesMut};
use crate::buf::{be_signed, get_i32, get_u8, put_i16, put_i32, put_i8, put_slice, put_u8, remaining, unread, written};
use crate::head::{count_field, head_bytes, parse_head, value_len, HeadData};
use crate::wire::{JceError, BYTE, INT, LIST, MAP, SHORT, SIMPLE_LIST, STRING1, STRING4, STRUCT_BEGIN, STRUCT_END, ZERO_TAG};

verus! {

/// The wire type that an integer field holding `v` is written with: the narrowest that fits.
pub open spec fn int_type(v: int) -> u8 {
    if v == 0 {
        ZERO_TAG
    } else if -128 <= v < 128 {
        BYTE
    } else if -32768 <= v < 32768 {
        SHORT
    } else {
        INT
    }
}

/// Payload width of an integer wire type.
pub open spec fn int_width(ty: u8) -> int {
    if ty == ZERO_TAG {
        0
    } else if ty == BYTE {
        1
    } else if ty == SHORT {
        2
    } else {
        4
    }
}

/// `e` is an integer field holding `v` under `tag`: the header, then `v` big-endian
/// in the width of its wire type.
pub open spec fn is_int_field(e: Seq<u8>, v: int, tag: u8) -> bool {
    let h = head_bytes(HeadData { wire_type: int_type(v), tag });
    &&& e.len() == h.len() + int_width(int_type(v))
    &&& e.take(h.len() as int) == h
    &&& int_width(int_type(v)) > 0 ==> be_signed(e.skip(h.len() as int)) == v
}

/// The bytes of a one-byte field holding `v` under `tag`.
pub open spec fn byte_field(v: u8, tag: u8) -> Seq<u8> {
    head_bytes(HeadData { wire_type: BYTE, tag }) + seq![v]
}

/// `e` is a string field holding the UTF-8 bytes `s` under `tag`: a one-byte length
/// when it fits, else a four-byte big-endian one, then the bytes.
pub open spec fn is_string_field(e: Seq<u8>, s: Seq<u8>, tag: u8) -> bool {
    if s.len() <= 255 {
        e == head_bytes(HeadData { wire_type: STRING1, tag }) + seq![s.len() as u8] + s
    } else {
        let h = head_bytes(HeadData { wire_type: STRING4, tag });
        &&& e.len() == h.len() + 4 + s.len()
        &&& e.take(h.len() as int) == h
        &&& be_signed(e.subrange(h.len() as int, h.len() + 4int)) == s.len()
        &&& e.skip(h.len() + 4int) == s
    }
}

/// The payload of a string of wire type `ty` at the front of `s`: its bytes and its length.
pub open spec fn string_payload(ty: u8, s: Seq<u8>) -> Result<(Seq<u8>, int), JceError> {
    if ty == STRING1 {
        if s.len() < 1 {
            Err(JceError::BufferUnderrun)
        } else if s.len() < 1 + s[0] {
            Err(JceError::BufferUnderrun)
        } else {
            Ok((s.subrange(1, 1 + s[0]), 1 + s[0]))
        }
    } else if ty == STRING4 {
        if s.len() < 4 {
            Err(JceError::BufferUnderrun)
        } else if be_signed(s.take(4)) < 0 {
            Err(JceError::TypeMismatch)
        } else if s.len() < 4 + be_signed(s.take(4)) {
            Err(JceError::BufferUnderrun)
        } else {
            Ok((s.subrange(4, 4 + be_signed(s.take(4))), 4 + be_signed(s.take(4))))
        }
    } else {
        Err(JceError::TypeMismatch)
    }
}

/// The payload of a one-byte value of wire type `ty` at the front of `s`.
pub open spec fn byte_payload(ty: u8, s: Seq<u8>) -> Result<(u8, int), JceError> {
    if ty == ZERO_TAG {
        Ok((0, 0))
    } else if ty == BYTE {
        if s.len() < 1 {
            Err(JceError::BufferUnderrun)
        } else {
            Ok((s[0], 1))
        }
    } else {
        Err(JceError::TypeMismatch)
    }
}

/// A sequence that starts with `m` is `m` followed by the rest.
proof fn lemma_split(w: Seq<u8>, m: Seq<u8>)
    requires
        w.len() >= m.len(),
        w.take(m.len() as int) == m,
    ensures
        w == m + w.skip(m.len() as int),
{
    assert(w =~= m + w.skip(m.len() as int));
}

/// Appends an integer field holding `v` under `tag`, in the narrowest wire type that fits.
pub fn write_int(b: &mut BytesMut, v: i32, tag: u8)
    ensures
        written(*final(b)).take(written(*old(b)).len() as int) == written(*old(b)),
        is_int_field(written(*final(b)).skip(written(*old(b)).len() as int), v as int, tag),
        written(*final(b)).len() >= written(*old(b)).len(),
{
    let ghost o = written(*b);
    let ty: u8 = if v == 0 {
        ZERO_TAG
    } else if -128 <= v && v < 128 {
        BYTE
    } else if -32768 <= v && v < 32768 {
        SHORT
    } else {
        INT
    };
    let h = HeadData::new(ty, tag);
    h.format(b);
    let ghost m = written(*b);
    if ty == BYTE {
        put_i8(b, v as i8);
    } else if ty == SHORT {
        put_i16(b, v as i16);
    } else if ty == INT {
        put_i32(b, v);
    }
    proof {
        let w = written(*b);
        let hb = head_bytes(h);
        assert(w.take(m.len() as int) =~= m);
        lemma_split(w, m);
        let t = w.skip(m.len() as int);
        assert(w == o + hb + t);
        let e = w.skip(o.len() as int);
        assert(e =~= hb + t);
        assert(w.take(o.len() as int) =~= o);
        assert(e.take(hb.len() as int) =~= hb);
        assert(e.skip(hb.len() as int) =~= t);
    }
}

/// Appends a one-byte field holding `v` under `tag`.
pub fn write_byte(b: &mut BytesMut, v: u8, tag: u8)
    ensures
        written(*final(b)) == written(*old(b)) + byte_field(v, tag),
{
    HeadData::new(BYTE, tag).format(b);
    put_u8(b, v);
    proof {
        assert(written(*final(b)) =~= written(*old(b)) + byte_field(v, tag));
    }
}

/// Reads a one-byte value of wire type `ty` (a zero marker reads as 0).
pub fn read_byte(b: &mut Bytes, ty: u8) -> (r: Result<u8, JceError>)
    ensures
        match byte_payload(ty, unread(*old(b))) {
            Err(e) => r == Err::<u8, JceError>(e),
            Ok((v, n)) => r == Ok::<u8, JceError>(v) && value_len(ty, unread(*old(b))) == Ok::<int, JceError>(n)
                && unread(*final(b)) == unread(*old(b)).skip(n),
        },
{
    if ty == ZERO_TAG {
        proof { assert(unread(*b) =~= unread(*b).skip(0)); }
        Ok(0)
    } else if ty == BYTE {
        if remaining(b) < 1 {
            return Err(JceError::BufferUnderrun);
        }
        Ok(get_u8(b))
    } else {
        Err(JceError::TypeMismatch)
    }
}

/// Takes the next `n` unread bytes.
fn take_bytes(b: &mut Bytes, n: usize) -> (r: Vec<u8>)
    requires
        n <= unread(*old(b)).len(),
    ensures
        r@ == unread(*old(b)).take(n as int),
        unread(*final(b)) == unread(*old(b)).skip(n as int),
{
    let ghost s = unread(*b);
    let mut v: Vec<u8> = Vec::new();
    let mut i: usize = 0;
    while i < n
        invariant
            i <= n,
            n <= s.len(),
            v@ == s.take(i as int),
            unread(*b) == s.skip(i as int),
        decreases n - i,
    {
        let x = get_u8(b);
        v.push(x);
        i = i + 1;
        proof {
            assert(v@ =~= s.take(i as int));
            assert(unread(*b) =~= s.skip(i as int));
        }
    }
    v
}

/// Appends a string field holding the UTF-8 bytes `s` under `tag`: a one-byte length
/// when it fits, else a four-byte one.
pub fn write_string(b: &mut BytesMut, s: &[u8], tag: u8)
    requires
        s@.len() <= i32::MAX,
    ensures
        written(*final(b)).take(written(*old(b)).len() as int) == written(*old(b)),
        is_string_field(written(*final(b)).skip(written(*old(b)).len() as int), s@, tag),
        written(*final(b)).len() >= written(*old(b)).len(),
{
    let ghost o = written(*b);
    let n = s.len();
    if n <= 255 {
        HeadData::new(STRING1, tag).format(b);
        put_u8(b, n as u8);
        put_slice(b, s);
        proof {
            assert(written(*b).take(o.len() as int) =~= o);
            assert(written(*b).skip(o.len() as int)
                =~= head_bytes(HeadData { wire_type: STRING1, tag }) + seq![n as u8] + s@);
        }
    } else {
        let h = HeadData::new(STRING4, tag);
        h.format(b);
        let ghost m = written(*b);
        put_i32(b, n as i32);
        let ghost m2 = written(*b);
        put_slice(b, s);
        proof {
            let hb = head_bytes(h);
            let w = written(*b);
            lemma_split(m2, m);
            let p = m2.skip(m.len() as int);
            assert(w == o + hb + p + s@);
            let e = w.skip(o.len() as int);
            assert(e =~= hb + p + s@);
            assert(w.take(o.len() as int) =~= o);
            assert(e.take(hb.len() as int) =~= hb);
            assert(e.subrange(hb.len() as int, hb.len() + 4int) =~= m2.skip(m.len() as int));
            assert(e.skip(hb.len() + 4int) =~= s@);
        }
    }
}

/// Reads a string payload of wire type `ty`, returning its UTF-8 bytes.
pub fn read_string(b: &mut Bytes, ty: u8) -> (r: Result<Vec<u8>, JceError>)
    ensures
        match string_payload(ty, unread(*old(b))) {
            Err(e) => r == Err::<Vec<u8>, JceError>(e),
            Ok((v, n)) => r is Ok && r->Ok_0@ == v && value_len(ty, unread(*old(b))) == Ok::<int, JceError>(n)
                && unread(*final(b)) == unread(*old(b)).skip(n),
        },
{
    let ghost s = unread(*b);
    let n: usize;
    if ty == STRING1 {
        if remaining(b) < 1 {
            return Err(JceError::BufferUnderrun);
        }
        n = get_u8(b) as usize;
    } else if ty == STRING4 {
        if remaining(b) < 4 {
            return Err(JceError::BufferUnderrun);
        }
        let m = get_i32(b);
        if m < 0 {
            return Err(JceError::TypeMismatch);
        }
        n = m as usize;
    } else {
        return Err(JceError::TypeMismatch);
    }
    let ghost k = s.len() - unread(*b).len();
    if remaining(b) < n {
        return Err(JceError::BufferUnderrun);
    }
    let v = take_bytes(b, n);
    proof {
        assert(v@ =~= s.subrange(k, k + n));
        assert(unread(*b) =~= s.skip(k + n));
    }
    Ok(v)
}

/// The bytes of a struct field under `tag` whose own fields encode as `fields`.
pub open spec fn struct_field(fields: Seq<u8>, tag: u8) -> Seq<u8> {
    head_bytes(HeadData { wire_type: STRUCT_BEGIN, tag }) + fields + head_bytes(
        HeadData { wire_type: STRUCT_END, tag: 0 },
    )
}

/// Appends a struct field under `tag`: the opening header, the already encoded
/// `fields`, and the closing header.
pub fn write_struct(b: &mut BytesMut, fields: &[u8], tag: u8)
    ensures
        written(*final(b)) == written(*old(b)) + struct_field(fields@, tag),
{
    HeadData::new(STRUCT_BEGIN, tag).format(b);
    put_slice(b, fields);
    HeadData::new(STRUCT_END, 0).format(b);
    proof {
        assert(written(*final(b)) =~= written(*old(b)) + struct_field(fields@, tag));
    }
}

/// Reads the header that closes a struct. A stream that ends first lacks its terminator.
pub fn read_struct_end(b: &mut Bytes) -> (r: Result<(), JceError>)
    ensures
        match parse_head(unread(*old(b))) {
            None => r == Err::<(), JceError>(JceError::MissingTerminator),
            Some((h, c)) => if h == (HeadData { wire_type: STRUCT_END, tag: 0 }) {
                r == Ok::<(), JceError>(()) && unread(*final(b)) == unread(*old(b)).skip(c)
            } else {
                r == Err::<(), JceError>(JceError::TypeMismatch)
            },
        },
{
    match HeadData::parse(b) {
        Err(_) => Err(JceError::MissingTerminator),
        Ok(h) => if h.wire_type == STRUCT_END && h.tag == 0 {
            Ok(())
        } else {
            Err(JceError::TypeMismatch)
        },
    }
}

/// The length of a count field holding `n`.
pub open spec fn count_len(n: int) -> int {
    head_bytes(HeadData { wire_type: int_type(n), tag: 0 }).len() + int_width(int_type(n))
}

/// `e` is a raw byte-array field holding `v` under `tag`: the header, a count field
/// holding the length, then the bytes themselves.
pub open spec fn is_simple_list_field(e: Seq<u8>, v: Seq<u8>, tag: u8) -> bool {
    let h = head_bytes(HeadData { wire_type: SIMPLE_LIST, tag });
    let c = count_len(v.len() as int);
    &&& e.len() == h.len() + c + v.len()
    &&& e.take(h.len() as int) == h
    &&& is_int_field(e.subrange(h.len() as int, h.len() + c), v.len() as int, 0)
    &&& e.skip(h.len() + c) == v
}

/// Appends a raw byte-array field holding `v` under `tag`.
pub fn write_simple_list(b: &mut BytesMut, v: &[u8], tag: u8)
    requires
        v@.len() <= i32::MAX,
    ensures
        written(*final(b)).take(written(*old(b)).len() as int) == written(*old(b)),
        is_simple_list_field(written(*final(b)).skip(written(*old(b)).len() as int), v@, tag),
        written(*final(b)).len() >= written(*old(b)).len(),
{
    let ghost o = written(*b);
    let h = HeadData::new(SIMPLE_LIST, tag);
    h.format(b);
    let ghost m = written(*b);
    write_int(b, v.len() as i32, 0);
    let ghost m2 = written(*b);
    put_slice(b, v);
    proof {
        let hb = head_bytes(h);
        let w = written(*b);
        lemma_split(m2, m);
        let p = m2.skip(m.len() as int);
        assert(w == o + hb + p + v@);
        let e = w.skip(o.len() as int);
        assert(e =~= hb + p + v@);
        assert(w.take(o.len() as int) =~= o);
        assert(e.take(hb.len() as int) =~= hb);
        assert(e.subrange(hb.len() as int, hb.len() + p.len() as int) =~= p);
        assert(e.skip(hb.len() + p.len() as int) =~= v@);
    }
}

/// Reads a raw byte-array payload of wire type `ty`: a count field, then that many bytes.
pub fn read_simple_list(b: &mut Bytes, ty: u8) -> (r: Result<Vec<u8>, JceError>)
    ensures
        ty != SIMPLE_LIST ==> r == Err::<Vec<u8>, JceError>(JceError::TypeMismatch),
        ty == SIMPLE_LIST ==> match count_field(unread(*old(b))) {
            Err(e) => r == Err::<Vec<u8>, JceError>(e),
            Ok((k, c)) => if unread(*old(b)).len() < c + k {
                r == Err::<Vec<u8>, JceError>(JceError::BufferUnderrun)
            } else {
                r is Ok && r->Ok_0@ == unread(*old(b)).subrange(c, c + k)
                    && value_len(ty, unread(*old(b))) == Ok::<int, JceError>(c + k)
                    && unread(*final(b)) == unread(*old(b)).skip(c + k)
            },
        },
{
    if ty != SIMPLE_LIST {
        return Err(JceError::TypeMismatch);
    }
    let ghost s = unread(*b);
    let n = HeadData::parse_ttl4(b)?;
    let ghost c = s.len() - unread(*b).len();
    if remaining(b) < n {
        return Err(JceError::BufferUnderrun);
    }
    let v = take_bytes(b, n);
    proof {
        assert(v@ =~= s.subrange(c, c + n));
        assert(unread(*b) =~= s.skip(c + n));
    }
    Ok(v)
}

/// The bytes of tag-0 one-byte fields holding the elements of `v` in order.
pub open spec fn byte_items(v: Seq<u8>) -> Seq<u8>
    decreases v.len(),
{
    if v.len() == 0 {
        Seq::empty()
    } else {
        byte_items(v.drop_last()) + byte_field(v.last(), 0)
    }
}

/// `e` is a list field holding the one-byte elements `v` under `tag`: the header,
/// a count field, then one tag-0 field per element.
pub open spec fn is_byte_list_field(e: Seq<u8>, v: Seq<u8>, tag: u8) -> bool {
    let h = head_bytes(HeadData { wire_type: LIST, tag });
    let c = count_len(v.len() as int);
    &&& e.len() == h.len() + c + byte_items(v).len()
    &&& e.take(h.len() as int) == h
    &&& is_int_field(e.subrange(h.len() as int, h.len() + c), v.len() as int, 0)
    &&& e.skip(h.len() + c) == byte_items(v)
}

/// `k` one-byte fields at the front of `s`: their values and the bytes they take.
pub open spec fn byte_elems(k: int, s: Seq<u8>) -> Result<(Seq<u8>, int), JceError>
    decreases k,
{
    if k <= 0 {
        Ok((Seq::empty(), 0))
    } else {
        match parse_head(s) {
            None => Err(JceError::BufferUnderrun),
            Some((h, c)) => match byte_payload(h.wire_type, s.skip(c)) {
                Err(e) => Err(e),
                Ok((x, m)) => match byte_elems(k - 1, s.skip(c + m)) {
                    Err(e) => Err(e),
                    Ok((xs, r)) => Ok((seq![x] + xs, c + m + r)),
                },
            },
        }
    }
}

/// `r` with `p` put before its values and `c` added to its length.
pub open spec fn after(p: Seq<u8>, c: int, r: Result<(Seq<u8>, int), JceError>) -> Result<(Seq<u8>, int), JceError> {
    match r {
        Err(e) => Err(e),
        Ok((xs, m)) => Ok((p + xs, c + m)),
    }
}

/// Appends a list field holding the one-byte elements `v` under `tag`.
pub fn write_byte_list(b: &mut BytesMut, v: &[u8], tag: u8)
    requires
        v@.len() <= i32::MAX,
    ensures
        written(*final(b)).take(written(*old(b)).len() as int) == written(*old(b)),
        is_byte_list_field(written(*final(b)).skip(written(*old(b)).len() as int), v@, tag),
        written(*final(b)).len() >= written(*old(b)).len(),
{
    let ghost o = written(*b);
    let h = HeadData::new(LIST, tag);
    h.format(b);
    let ghost m = written(*b);
    write_int(b, v.len() as i32, 0);
    let ghost m2 = written(*b);
    let mut i: usize = 0;
    while i < v.len()
        invariant
            i <= v@.len(),
            written(*b) == m2 + byte_items(v@.take(i as int)),
        decreases v@.len() - i,
    {
        write_byte(b, v[i], 0);
        i = i + 1;
        proof {
            let t = v@.take(i as int);
            assert(t.drop_last() =~= v@.take(i - 1));
            assert(written(*b) =~= m2 + byte_items(t));
        }
    }
    proof {
        assert(v@.take(v@.len() as int) =~= v@);
        let hb = head_bytes(h);
        let w = written(*b);
        lemma_split(m2, m);
        let p = m2.skip(m.len() as int);
        assert(w == o + hb + p + byte_items(v@));
        let e = w.skip(o.len() as int);
        assert(e =~= hb + p + byte_items(v@));
        assert(w.take(o.len() as int) =~= o);
        assert(e.take(hb.len() as int) =~= hb);
        assert(e.subrange(hb.len() as int, hb.len() + p.len() as int) =~= p);
        assert(e.skip(hb.len() + p.len() as int) =~= byte_items(v@));
    }
}

/// Reads `k` one-byte fields, header and payload each.
fn read_byte_fields(b: &mut Bytes, k: usize) -> (r: Result<Vec<u8>, JceError>)
    ensures
        match byte_elems(k as int, unread(*old(b))) {
            Err(e) => r == Err::<Vec<u8>, JceError>(e),
            Ok((xs, m)) => r is Ok && r->Ok_0@ == xs && xs.len() == k && 0 <= m <= unread(*old(b)).len()
                && unread(*final(b)) == unread(*old(b)).skip(m),
        },
{
    let ghost s0 = unread(*b);
    let mut v: Vec<u8> = Vec::new();
    let mut i: usize = 0;
    proof { assert(s0.skip(0) =~= s0); }
    while i < k
        invariant
            s0 == unread(*old(b)),
            i <= k,
            v@.len() == i,
            0 <= s0.len() - unread(*b).len() <= s0.len(),
            unread(*b) == s0.skip(s0.len() - unread(*b).len()),
            byte_elems(k as int, s0) == after(v@, s0.len() - unread(*b).len(), byte_elems(k - i, unread(*b))),
        decreases k - i,
    {
        let ghost cur = unread(*b);
        let h = match HeadData::parse(b) {
            Ok(h) => h,
            Err(e) => {
                proof { assert(byte_elems(k - i, cur) == Err::<(Seq<u8>, int), JceError>(e)); }
                return Err(e);
            },
        };
        let ghost c1 = cur.len() - unread(*b).len();
        let ghost mid = unread(*b);
        let x = match read_byte(b, h.wire_type) {
            Ok(x) => x,
            Err(e) => {
                proof { assert(byte_elems(k - i, cur) == Err::<(Seq<u8>, int), JceError>(e)); }
                return Err(e);
            },
        };
        let ghost m1 = mid.len() - unread(*b).len();
        let ghost v0 = v@;
        v.push(x);
        i = i + 1;
        proof {
            let cur2 = unread(*b);
            assert(cur2 =~= cur.skip(c1 + m1));
            assert(cur2 =~= s0.skip(s0.len() - cur2.len()));
            match byte_elems(k - i, cur2) {
                Err(e) => {},
                Ok((xs, r)) => {
                    assert(v@ + xs =~= v0 + (seq![x] + xs));
                },
            }
        }
    }
    proof {
        assert(v@ + Seq::<u8>::empty() =~= v@);
    }
    Ok(v)
}

/// Reads a list payload of one-byte elements: a count field, then one field per element.
pub fn read_byte_list(b: &mut Bytes, ty: u8) -> (r: Result<Vec<u8>, JceError>)
    ensures
        ty != LIST ==> r == Err::<Vec<u8>, JceError>(JceError::TypeMismatch),
        ty == LIST ==> match count_field(unread(*old(b))) {
            Err(e) => r == Err::<Vec<u8>, JceError>(e),
            Ok((k, c)) => match byte_elems(k, unread(*old(b)).skip(c)) {
                Err(e) => r == Err::<Vec<u8>, JceError>(e),
                Ok((xs, m)) => r is Ok && r->Ok_0@ == xs && unread(*final(b)) == unread(*old(b)).skip(c + m),
            },
        },
{
    if ty != LIST {
        return Err(JceError::TypeMismatch);
    }
    let ghost s = unread(*b);
    let k = HeadData::parse_ttl4(b)?;
    let ghost c = s.len() - unread(*b).len();
    proof { assert(unread(*b) =~= s.skip(c)); }
    let v = read_byte_fields(b, k)?;
    proof { assert(unread(*b) =~= s.skip(s.len() - unread(*b).len())); }
    Ok(v)
}

/// The keys and values of `m`, in order, each key before its value.
pub open spec fn flat(m: Seq<(u8, u8)>) -> Seq<u8>
    decreases m.len(),
{
    if m.len() == 0 {
        Seq::empty()
    } else {
        flat(m.drop_last()) + seq![m.last().0, m.last().1]
    }
}

/// Consecutive bytes of `xs` taken as key and value.
pub open spec fn pairs_of(xs: Seq<u8>) -> Seq<(u8, u8)> {
    Seq::new((xs.len() / 2) as nat, |i: int| (xs[2 * i], xs[2 * i + 1]))
}

/// `e` is a map field holding the one-byte entries `m` under `tag`: the header, a count
/// field, then a tag-0 field for each key and each value.
pub open spec fn is_byte_map_field(e: Seq<u8>, m: Seq<(u8, u8)>, tag: u8) -> bool {
    let h = head_bytes(HeadData { wire_type: MAP, tag });
    let c = count_len(m.len() as int);
    &&& e.len() == h.len() + c + byte_items(flat(m)).len()
    &&& e.take(h.len() as int) == h
    &&& is_int_field(e.subrange(h.len() as int, h.len() + c), m.len() as int, 0)
    &&& e.skip(h.len() + c) == byte_items(flat(m))
}

/// Appends a map field holding the one-byte entries `m` under `tag`, in the given order.
pub fn write_byte_map(b: &mut BytesMut, m: &[(u8, u8)], tag: u8)
    requires
        m@.len() <= i32::MAX,
    ensures
        written(*final(b)).take(written(*old(b)).len() as int) == written(*old(b)),
        is_byte_map_field(written(*final(b)).skip(written(*old(b)).len() as int), m@, tag),
        written(*final(b)).len() >= written(*old(b)).len(),
{
    let ghost o = written(*b);
    let h = HeadData::new(MAP, tag);
    h.format(b);
    let ghost w1 = written(*b);
    write_int(b, m.len() as i32, 0);
    let ghost w2 = written(*b);
    let mut i: usize = 0;
    while i < m.len()
        invariant
            i <= m@.len(),
            written(*b) == w2 + byte_items(flat(m@.take(i as int))),
        decreases m@.len() - i,
    {
        let (k, v) = m[i];
        let ghost x = flat(m@.take(i as int));
        write_byte(b, k, 0);
        write_byte(b, v, 0);
        i = i + 1;
        proof {
            let t = m@.take(i as int);
            assert(t.drop_last() =~= m@.take(i - 1));
            assert(flat(t) =~= x + seq![k, v]);
            assert((x + seq![k, v]).drop_last() =~= x.push(k));
            assert(x.push(k).drop_last() =~= x);
            assert(byte_items(x.push(k)) == byte_items(x) + byte_field(k, 0));
            assert((x + seq![k, v]).last() == v);
            assert(byte_items(x + seq![k, v]) == byte_items(x.push(k)) + byte_field(v, 0));
            assert(written(*b) =~= w2 + byte_items(flat(t)));
        }
    }
    proof {
        assert(m@.take(m@.len() as int) =~= m@);
        let hb = head_bytes(h);
        let w = written(*b);
        lemma_split(w2, w1);
        let p = w2.skip(w1.len() as int);
        assert(w == o + hb + p + byte_items(flat(m@)));
        let e = w.skip(o.len() as int);
        assert(e =~= hb + p + byte_items(flat(m@)));
        assert(w.take(o.len() as int) =~= o);
        assert(e.take(hb.len() as int) =~= hb);
        assert(e.subrange(hb.len() as int, hb.len() + p.len() as int) =~= p);
        assert(e.skip(hb.len() + p.len() as int) =~= byte_items(flat(m@)));
    }
}

/// Reads a map payload of one-byte keys and values: a count field, then a field for
/// each key and each value.
pub fn read_byte_map(b: &mut Bytes, ty: u8) -> (r: Result<Vec<(u8, u8)>, JceError>)
    ensures
        ty != MAP ==> r == Err::<Vec<(u8, u8)>, JceError>(JceError::TypeMismatch),
        ty == MAP ==> match count_field(unread(*old(b))) {
            Err(e) => r == Err::<Vec<(u8, u8)>, JceError>(e),
            Ok((k, c)) => match byte_elems(2 * k, unread(*old(b)).skip(c)) {
                Err(e) => r == Err::<Vec<(u8, u8)>, JceError>(e),
                Ok((xs, m)) => r is Ok && r->Ok_0@ == pairs_of(xs) && unread(*final(b)) == unread(*old(b)).skip(c + m),
            },
        },
{
    if ty != MAP {
        return Err(JceError::TypeMismatch);
    }
    let ghost s = unread(*b);
    let n = HeadData::parse_ttl4(b)?;
    let ghost c = s.len() - unread(*b).len();
    proof { assert(unread(*b) =~= s.skip(c)); }
    let xs = read_byte_fields(b, 2 * n)?;
    proof { assert(unread(*b) =~= s.skip(s.len() - unread(*b).len())); }
    let mut r: Vec<(u8, u8)> = Vec::new();
    let mut j: usize = 0;
    while j < n
        invariant
            j <= n,
            n <= i32::MAX,
            xs@.len() == 2 * n,
            r@.len() == j,
            forall|t: int| 0 <= t < j ==> #[trigger] r@[t] == (xs@[2 * t], xs@[2 * t + 1]),
        decreases n - j,
    {
        r.push((xs[2 * j], xs[2 * j + 1]));
        j = j + 1;
    }
    proof { assert(r@ =~= pairs_of(xs@)); }
    Ok(r)
}

} // verus!
