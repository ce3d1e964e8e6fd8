//! Laws that relate the encoders, the decoders and the skip algorithm.
use vstd::prelude::*;
use crate::codec::{
    byte_elems, byte_field, byte_items, byte_payload, count_len, flat, is_byte_map_field, pairs_of, int_type, int_width, is_byte_list_field,
    is_int_field, is_simple_list_field, is_string_field, string_payload, struct_field,
};
use crate::head::{count_field, fields_len, head_bytes, int_payload, items_len, parse_head, value_len, HeadData};
use crate::wire::{JceError, BYTE, LIST, MAP, SIMPLE_LIST, STRING1, STRING4, STRUCT_BEGIN, STRUCT_END};

verus! {

proof fn lemma_packed_bits(t: u8, tag: u8) by (bit_vector)
    requires
        t < 16,
        tag <= 14,
    ensures
        ((t | (tag << 4u8)) & 0xF0u8) >> 4u8 == tag,
        (t | (tag << 4u8)) & 0x0Fu8 == t,
        (t | (tag << 4u8)) >> 4u8 == tag,
        tag == 0 ==> t | (tag << 4u8) == t,
{
}

proof fn lemma_escaped_bits(t: u8) by (bit_vector)
    requires
        t < 16,
    ensures
        ((t | 0xF0u8) & 0xF0u8) >> 4u8 == 15,
        (t | 0xF0u8) & 0x0Fu8 == t,
        (t | 0xF0u8) >> 4u8 == 15,
{
}

/// A header of any wire type below 16 and any tag reads back as itself, whatever
/// follows it, and takes exactly its own bytes.
pub proof fn lemma_head_round_trip(h: HeadData, rest: Seq<u8>)
    requires
        h.wire_type < 16,
    ensures
        parse_head(head_bytes(h) + rest) == Some((h, head_bytes(h).len() as int)),
{
    let e = head_bytes(h) + rest;
    if h.tag <= 14 {
        lemma_packed_bits(h.wire_type, h.tag);
        assert(e[0] == head_bytes(h)[0]);
    } else {
        lemma_escaped_bits(h.wire_type);
        assert(e[0] == head_bytes(h)[0]);
        assert(e[1] == h.tag);
    }
}

/// Tags up to 14 pack into the header byte; tags from 15 take a second byte, and the
/// first byte's high nibble is then 0xF.
pub proof fn lemma_head_packing(h: HeadData)
    requires
        h.wire_type < 16,
    ensures
        h.tag <= 14 ==> head_bytes(h).len() == 1,
        h.tag >= 15 ==> head_bytes(h).len() == 2 && head_bytes(h)[0] >> 4u8 == 15 && head_bytes(h)[1] == h.tag,
{
    if h.tag <= 14 {
        lemma_packed_bits(h.wire_type, h.tag);
    } else {
        lemma_escaped_bits(h.wire_type);
    }
}

/// An integer field reads back as its tag and value, whatever follows it.
pub proof fn lemma_int_round_trip(e: Seq<u8>, v: int, tag: u8, rest: Seq<u8>)
    requires
        i32::MIN <= v <= i32::MAX,
        is_int_field(e, v, tag),
    ensures
        ({
            let h = HeadData { wire_type: int_type(v), tag };
            let hl = head_bytes(h).len() as int;
            &&& parse_head(e + rest) == Some((h, hl))
            &&& int_payload(int_type(v), (e + rest).skip(hl)) == Ok::<(int, int), JceError>((v, int_width(int_type(v))))
        }),
{
    let h = HeadData { wire_type: int_type(v), tag };
    let hb = head_bytes(h);
    let hl = hb.len() as int;
    let p = e.skip(hl);
    assert(e =~= hb + p);
    assert(e + rest =~= hb + (p + rest));
    lemma_head_round_trip(h, p + rest);
    assert((e + rest).skip(hl) =~= p + rest);
    assert((p + rest).take(p.len() as int) =~= p);
}

/// A one-byte field reads back as its tag and value, whatever follows it.
pub proof fn lemma_byte_round_trip(v: u8, tag: u8, rest: Seq<u8>)
    ensures
        ({
            let h = HeadData { wire_type: BYTE, tag };
            let hl = head_bytes(h).len() as int;
            &&& parse_head(byte_field(v, tag) + rest) == Some((h, hl))
            &&& byte_payload(BYTE, (byte_field(v, tag) + rest).skip(hl)) == Ok::<(u8, int), JceError>((v, 1))
        }),
{
    let h = HeadData { wire_type: BYTE, tag };
    let hb = head_bytes(h);
    assert(byte_field(v, tag) + rest =~= hb + (seq![v] + rest));
    lemma_head_round_trip(h, seq![v] + rest);
    assert((byte_field(v, tag) + rest).skip(hb.len() as int) =~= seq![v] + rest);
}

/// A string field reads back as its tag and bytes, whatever follows it.
pub proof fn lemma_string_round_trip(e: Seq<u8>, s: Seq<u8>, tag: u8, rest: Seq<u8>)
    requires
        s.len() <= i32::MAX,
        is_string_field(e, s, tag),
    ensures
        ({
            let h = HeadData { wire_type: if s.len() <= 255 { STRING1 } else { STRING4 }, tag };
            let hl = head_bytes(h).len() as int;
            &&& parse_head(e + rest) == Some((h, hl))
            &&& string_payload(h.wire_type, (e + rest).skip(hl)) == Ok::<(Seq<u8>, int), JceError>(
                (s, e.len() - hl),
            )
        }),
{
    let h = HeadData { wire_type: if s.len() <= 255 { STRING1 } else { STRING4 }, tag };
    let hb = head_bytes(h);
    let hl = hb.len() as int;
    let p = e.skip(hl);
    if s.len() <= 255 {
        assert(p =~= seq![s.len() as u8] + s);
    } else {
        assert(e.take(hl) == hb);
        assert(p.take(4) =~= e.subrange(hl, hl + 4));
        assert(p.subrange(4, 4 + s.len() as int) =~= s);
    }
    assert(e =~= hb + p);
    assert(e + rest =~= hb + (p + rest));
    lemma_head_round_trip(h, p + rest);
    let q = (e + rest).skip(hl);
    assert(q =~= p + rest);
    if s.len() <= 255 {
        assert(q.subrange(1, 1 + s.len() as int) =~= s);
    } else {
        assert(q.take(4) =~= p.take(4));
        assert(q.subrange(4, 4 + s.len() as int) =~= s);
    }
}

/// Decoding an integer payload consumes exactly what skipping it does.
pub proof fn lemma_int_skip(ty: u8, s: Seq<u8>)
    ensures
        int_payload(ty, s) is Ok ==> value_len(ty, s) == Ok::<int, JceError>(int_payload(ty, s)->Ok_0.1),
{
}

/// An empty struct under tag 0 is exactly its opening and closing headers; with the
/// closing header removed, the terminator cannot be read.
pub proof fn lemma_empty_struct()
    ensures
        struct_field(Seq::empty(), 0) == seq![STRUCT_BEGIN, STRUCT_END],
        parse_head(struct_field(Seq::empty(), 0).skip(1).drop_last()) is None,
{
    lemma_packed_bits(STRUCT_BEGIN, 0);
    lemma_packed_bits(STRUCT_END, 0);
    assert(struct_field(Seq::empty(), 0) =~= seq![STRUCT_BEGIN, STRUCT_END]);
}

/// The encoded elements of a non-empty list start with the first element's field.
proof fn lemma_byte_items_front(v: Seq<u8>)
    requires
        v.len() > 0,
    ensures
        byte_items(v) == byte_field(v[0], 0) + byte_items(v.skip(1)),
    decreases v.len(),
{
    if v.len() == 1 {
        assert(v.drop_last() =~= Seq::<u8>::empty());
        assert(v.skip(1) =~= Seq::<u8>::empty());
        assert(byte_items(v) =~= byte_field(v[0], 0) + byte_items(v.skip(1)));
    } else {
        let d = v.drop_last();
        lemma_byte_items_front(d);
        assert(v.skip(1).drop_last() =~= d.skip(1));
        assert(v.skip(1).last() == v.last());
        assert(byte_items(v) =~= byte_field(v[0], 0) + byte_items(v.skip(1)));
    }
}

/// The fields of `v` read back as `v`, whatever follows them.
proof fn lemma_byte_elems_round_trip(v: Seq<u8>, rest: Seq<u8>)
    ensures
        byte_elems(v.len() as int, byte_items(v) + rest) == Ok::<(Seq<u8>, int), JceError>((v, byte_items(v).len() as int)),
    decreases v.len(),
{
    if v.len() == 0 {
        assert(v =~= Seq::<u8>::empty());
    } else {
        let t = v.skip(1);
        lemma_byte_items_front(v);
        lemma_byte_elems_round_trip(t, rest);
        lemma_byte_round_trip(v[0], 0, byte_items(t) + rest);
        let e = byte_items(v) + rest;
        assert(e =~= byte_field(v[0], 0) + (byte_items(t) + rest));
        let h = HeadData { wire_type: BYTE, tag: 0 };
        let hl = head_bytes(h).len() as int;
        assert(e.skip(hl + 1) =~= byte_items(t) + rest);
        assert(seq![v[0]] + t =~= v);
    }
}

/// A count field of `n` reads back as `n`, whatever follows it.
pub proof fn lemma_count_round_trip(e: Seq<u8>, n: int, rest: Seq<u8>)
    requires
        0 <= n <= i32::MAX,
        is_int_field(e, n, 0),
    ensures
        count_field(e + rest) == Ok::<(int, int), JceError>((n, count_len(n))),
        e.len() == count_len(n),
{
    lemma_int_round_trip(e, n, 0, rest);
}

/// A list field of one-byte elements reads back as its tag and elements, in order,
/// whatever follows it.
pub proof fn lemma_byte_list_round_trip(e: Seq<u8>, v: Seq<u8>, tag: u8, rest: Seq<u8>)
    requires
        v.len() <= i32::MAX,
        is_byte_list_field(e, v, tag),
    ensures
        ({
            let h = HeadData { wire_type: LIST, tag };
            let hl = head_bytes(h).len() as int;
            let q = (e + rest).skip(hl);
            &&& parse_head(e + rest) == Some((h, hl))
            &&& count_field(q) == Ok::<(int, int), JceError>((v.len() as int, count_len(v.len() as int)))
            &&& byte_elems(v.len() as int, q.skip(count_len(v.len() as int))) == Ok::<(Seq<u8>, int), JceError>(
                (v, byte_items(v).len() as int),
            )
        }),
{
    let h = HeadData { wire_type: LIST, tag };
    let hb = head_bytes(h);
    let hl = hb.len() as int;
    let n = v.len() as int;
    let c = count_len(n);
    let ce = e.subrange(hl, hl + c);
    assert(e =~= hb + (ce + byte_items(v)));
    assert(e + rest =~= hb + (ce + (byte_items(v) + rest)));
    lemma_head_round_trip(h, ce + (byte_items(v) + rest));
    let q = (e + rest).skip(hl);
    assert(q =~= ce + (byte_items(v) + rest));
    lemma_count_round_trip(ce, n, byte_items(v) + rest);
    assert(q.skip(c) =~= byte_items(v) + rest);
    lemma_byte_elems_round_trip(v, rest);
}

/// Reading `k` one-byte fields consumes exactly what skipping `k` fields does.
pub proof fn lemma_byte_elems_skip(k: int, s: Seq<u8>)
    ensures
        byte_elems(k, s) is Ok ==> items_len(k, s) == Ok::<int, JceError>(byte_elems(k, s)->Ok_0.1),
    decreases k,
{
    if k > 0 {
        if let Some((h, c)) = parse_head(s) {
            lemma_int_skip(h.wire_type, s.skip(c));
            if let Ok((x, m)) = byte_payload(h.wire_type, s.skip(c)) {
                lemma_byte_elems_skip(k - 1, s.skip(c + m));
                assert(s.skip(c).skip(m) =~= s.skip(c + m));
            }
        }
    }
}

/// Decoding a list of one-byte elements consumes exactly what skipping the list does.
pub proof fn lemma_byte_list_skip(s: Seq<u8>)
    ensures
        count_field(s) is Ok && byte_elems(count_field(s)->Ok_0.0, s.skip(count_field(s)->Ok_0.1)) is Ok
            ==> value_len(LIST, s) == Ok::<int, JceError>(
                count_field(s)->Ok_0.1 + byte_elems(count_field(s)->Ok_0.0, s.skip(count_field(s)->Ok_0.1))->Ok_0.1,
            ),
{
    if let Ok((k, c)) = count_field(s) {
        lemma_byte_elems_skip(k, s.skip(c));
    }
}

/// A raw byte-array field reads back as its tag and bytes, whatever follows it, and
/// skipping it consumes exactly the field.
pub proof fn lemma_simple_list_round_trip(e: Seq<u8>, v: Seq<u8>, tag: u8, rest: Seq<u8>)
    requires
        v.len() <= i32::MAX,
        is_simple_list_field(e, v, tag),
    ensures
        ({
            let h = HeadData { wire_type: SIMPLE_LIST, tag };
            let hl = head_bytes(h).len() as int;
            let q = (e + rest).skip(hl);
            let c = count_len(v.len() as int);
            &&& parse_head(e + rest) == Some((h, hl))
            &&& count_field(q) == Ok::<(int, int), JceError>((v.len() as int, c))
            &&& q.subrange(c, c + v.len()) == v
            &&& value_len(SIMPLE_LIST, q) == Ok::<int, JceError>(e.len() - hl)
        }),
{
    let h = HeadData { wire_type: SIMPLE_LIST, tag };
    let hb = head_bytes(h);
    let hl = hb.len() as int;
    let n = v.len() as int;
    let c = count_len(n);
    let ce = e.subrange(hl, hl + c);
    assert(e =~= hb + (ce + v));
    assert(e + rest =~= hb + (ce + (v + rest)));
    lemma_head_round_trip(h, ce + (v + rest));
    let q = (e + rest).skip(hl);
    assert(q =~= ce + (v + rest));
    lemma_count_round_trip(ce, n, v + rest);
    assert(q.subrange(c, c + n) =~= v);
}

/// What a length measured on all of `s` becomes on its first `k` bytes.
pub open spec fn cut(r: Result<int, JceError>, k: int) -> Result<int, JceError> {
    match r {
        Err(e) => Err(e),
        Ok(n) => if k >= n {
            Ok(n)
        } else {
            Err(JceError::BufferUnderrun)
        },
    }
}

proof fn lemma_head_prefix(s: Seq<u8>, k: int)
    requires
        0 <= k <= s.len(),
        parse_head(s) is Some,
    ensures
        ({
            let (h, c) = parse_head(s)->Some_0;
            parse_head(s.take(k)) == if k >= c { Some((h, c)) } else { None }
        }),
{
    let t = s.take(k);
    if k >= 1 {
        assert(t[0] == s[0]);
    }
    if k >= 2 {
        assert(t[1] == s[1]);
    }
}

proof fn lemma_count_prefix(s: Seq<u8>, k: int)
    requires
        0 <= k <= s.len(),
        count_field(s) is Ok,
    ensures
        count_field(s.take(k)) == if k >= count_field(s)->Ok_0.1 {
            count_field(s)
        } else {
            Err::<(int, int), JceError>(JceError::BufferUnderrun)
        },
        1 <= count_field(s)->Ok_0.1 <= s.len(),
{
    lemma_head_prefix(s, k);
    let (h, c) = parse_head(s)->Some_0;
    let t = s.take(k);
    if k >= c {
        let p = s.skip(c);
        assert(t.skip(c) =~= p.take(k - c));
        if k - c >= 4 {
            assert(t.skip(c).take(4) =~= p.take(4));
        }
        if k - c >= 2 {
            assert(t.skip(c).take(2) =~= p.take(2));
        }
        if k - c >= 1 {
            assert(t.skip(c).take(1) =~= p.take(1));
        }
    }
}

proof fn lemma_value_prefix(ty: u8, s: Seq<u8>, k: int)
    requires
        0 <= k <= s.len(),
    ensures
        value_len(ty, s) is Ok ==> 0 <= value_len(ty, s)->Ok_0 <= s.len()
            && value_len(ty, s.take(k)) == cut(value_len(ty, s), k),
    decreases s.len(), 1int,
{
    if value_len(ty, s) is Ok {
        let t = s.take(k);
        if ty == STRING1 && k >= 1 {
            assert(t[0] == s[0]);
        } else if ty == STRING4 && k >= 4 {
            assert(t.take(4) =~= s.take(4));
        } else if ty == MAP || ty == LIST || ty == SIMPLE_LIST {
            lemma_count_prefix(s, k);
            let (n, c) = count_field(s)->Ok_0;
            if ty != SIMPLE_LIST {
                let j = if ty == MAP { 2 * n } else { n };
                let q = s.skip(c);
                if k >= c {
                    assert(t.skip(c) =~= q.take(k - c));
                    lemma_items_prefix(j, q, k - c);
                } else {
                    lemma_items_prefix(j, q, 0);
                }
            }
        } else if ty == STRUCT_BEGIN {
            lemma_fields_prefix(s, k);
        }
    }
}

proof fn lemma_items_prefix(j: int, s: Seq<u8>, k: int)
    requires
        0 <= k <= s.len(),
    ensures
        items_len(j, s) is Ok ==> 0 <= items_len(j, s)->Ok_0 <= s.len()
            && items_len(j, s.take(k)) == cut(items_len(j, s), k),
    decreases s.len(), 0int,
{
    if j > 0 && items_len(j, s) is Ok {
        lemma_head_prefix(s, k);
        let (h, c) = parse_head(s)->Some_0;
        let t = s.take(k);
        let p = s.skip(c);
        let m = value_len(h.wire_type, p)->Ok_0;
        let q = s.skip(c + m);
        if k >= c {
            assert(t.skip(c) =~= p.take(k - c));
            lemma_value_prefix(h.wire_type, p, k - c);
            if k >= c + m {
                assert(t.skip(c + m) =~= q.take(k - c - m));
                lemma_items_prefix(j - 1, q, k - c - m);
            } else {
                lemma_items_prefix(j - 1, q, 0);
            }
        } else {
            lemma_value_prefix(h.wire_type, p, 0);
            lemma_items_prefix(j - 1, q, 0);
        }
    }
}

proof fn lemma_fields_prefix(s: Seq<u8>, k: int)
    requires
        0 <= k <= s.len(),
    ensures
        fields_len(s) is Ok ==> 0 <= fields_len(s)->Ok_0 <= s.len()
            && fields_len(s.take(k)) == cut(fields_len(s), k),
    decreases s.len(), 0int,
{
    if fields_len(s) is Ok {
        lemma_head_prefix(s, k);
        let (h, c) = parse_head(s)->Some_0;
        if h.wire_type != STRUCT_END {
            let t = s.take(k);
            let p = s.skip(c);
            let m = value_len(h.wire_type, p)->Ok_0;
            let q = s.skip(c + m);
            if k >= c {
                assert(t.skip(c) =~= p.take(k - c));
                lemma_value_prefix(h.wire_type, p, k - c);
                if k >= c + m {
                    assert(t.skip(c + m) =~= q.take(k - c - m));
                    lemma_fields_prefix(q, k - c - m);
                } else {
                    lemma_fields_prefix(q, 0);
                }
            } else {
                lemma_value_prefix(h.wire_type, p, 0);
                lemma_fields_prefix(q, 0);
            }
        }
    }
}

/// Every strict prefix of a well-formed field fails to decode for want of bytes:
/// either its header is cut, or skipping the payload runs out of input.
pub proof fn lemma_truncated_field(s: Seq<u8>, k: int)
    requires
        parse_head(s) is Some,
        value_len(parse_head(s)->Some_0.0.wire_type, s.skip(parse_head(s)->Some_0.1)) is Ok,
        0 <= k < parse_head(s)->Some_0.1 + value_len(
            parse_head(s)->Some_0.0.wire_type,
            s.skip(parse_head(s)->Some_0.1),
        )->Ok_0,
    ensures
        ({
            let (h, c) = parse_head(s)->Some_0;
            parse_head(s.take(k)) is None || (parse_head(s.take(k)) == Some((h, c))
                && value_len(h.wire_type, s.take(k).skip(c)) == Err::<int, JceError>(JceError::BufferUnderrun))
        }),
{
    let (h, c) = parse_head(s)->Some_0;
    let p = s.skip(c);
    lemma_value_prefix(h.wire_type, p, 0);
    let n = value_len(h.wire_type, p)->Ok_0;
    let kk = if k <= s.len() { k } else { s.len() as int };
    lemma_head_prefix(s, kk);
    if k >= c {
        assert(s.take(k).skip(c) =~= p.take(k - c));
        lemma_value_prefix(h.wire_type, p, k - c);
    }
}

/// Where each key and value of `m` stands in `flat(m)`.
proof fn lemma_flat(m: Seq<(u8, u8)>)
    ensures
        flat(m).len() == 2 * m.len(),
        forall|i: int| 0 <= i < m.len() ==> flat(m)[2 * i] == m[i].0 && flat(m)[2 * i + 1] == m[i].1,
    decreases m.len(),
{
    if m.len() > 0 {
        let d = m.drop_last();
        lemma_flat(d);
        assert forall|i: int| 0 <= i < m.len() implies flat(m)[2 * i] == m[i].0 && flat(m)[2 * i + 1] == m[i].1 by {
            if i < d.len() {
                assert(m[i] == d[i]);
            }
        }
    }
}

/// A map field of one-byte entries reads back as its tag and entries, in order,
/// whatever follows it.
pub proof fn lemma_byte_map_round_trip(e: Seq<u8>, m: Seq<(u8, u8)>, tag: u8, rest: Seq<u8>)
    requires
        m.len() <= i32::MAX,
        is_byte_map_field(e, m, tag),
    ensures
        ({
            let h = HeadData { wire_type: MAP, tag };
            let hl = head_bytes(h).len() as int;
            let q = (e + rest).skip(hl);
            let c = count_len(m.len() as int);
            &&& parse_head(e + rest) == Some((h, hl))
            &&& count_field(q) == Ok::<(int, int), JceError>((m.len() as int, c))
            &&& byte_elems(2 * m.len() as int, q.skip(c)) is Ok
            &&& pairs_of(byte_elems(2 * m.len() as int, q.skip(c))->Ok_0.0) == m
        }),
{
    let h = HeadData { wire_type: MAP, tag };
    let hb = head_bytes(h);
    let hl = hb.len() as int;
    let n = m.len() as int;
    let c = count_len(n);
    let ce = e.subrange(hl, hl + c);
    let items = byte_items(flat(m));
    assert(e =~= hb + (ce + items));
    assert(e + rest =~= hb + (ce + (items + rest)));
    lemma_head_round_trip(h, ce + (items + rest));
    let q = (e + rest).skip(hl);
    assert(q =~= ce + (items + rest));
    lemma_count_round_trip(ce, n, items + rest);
    assert(q.skip(c) =~= items + rest);
    lemma_flat(m);
    lemma_byte_elems_round_trip(flat(m), rest);
    assert(pairs_of(flat(m)) =~= m);
}

/// Decoding a map of one-byte entries consumes exactly what skipping the map does.
pub proof fn lemma_byte_map_skip(s: Seq<u8>)
    ensures
        count_field(s) is Ok && byte_elems(2 * count_field(s)->Ok_0.0, s.skip(count_field(s)->Ok_0.1)) is Ok
            ==> value_len(MAP, s) == Ok::<int, JceError>(
                count_field(s)->Ok_0.1 + byte_elems(2 * count_field(s)->Ok_0.0, s.skip(count_field(s)->Ok_0.1))->Ok_0.1,
            ),
{
    if let Ok((k, c)) = count_field(s) {
        lemma_byte_elems_skip(2 * k, s.skip(c));
    }
}

} // verus!
