use bytes::{Bytes, BytesMut};
use jce::codec::{
    read_byte, read_byte_list, read_byte_map, read_simple_list, read_string, read_struct_end, write_byte,
    write_byte_list, write_byte_map, write_int, write_simple_list, write_string, write_struct,
};
use jce::head::{read_int, HeadData};
use jce::value::JceType;
use jce::wire::{JceError, BYTE, INT, LIST, MAP, SHORT, ZERO_TAG, SIMPLE_LIST, STRING1, STRING4, STRUCT_BEGIN};

#[test]
fn byte_to_bytes() {
    let mut b = BytesMut::new();
    write_byte(&mut b, 114, 0);
    assert_eq!(b.to_vec(), vec![0, 114]);
}

#[test]
fn byte_from_bytes() {
    assert_eq!(read_byte(&mut Bytes::from(vec![114]), BYTE), Ok(114));
}

#[test]
fn jstruct_to_bytes() {
    let mut fields = BytesMut::new();
    write_string(&mut fields, "千".as_bytes(), 0);
    let mut b = BytesMut::new();
    write_struct(&mut b, &fields.to_vec(), 0);
    assert_eq!(b.to_vec(), vec![10, 6, 3, 229, 141, 131, 11]);
}

#[test]
fn jstruct_from_bytes() {
    let mut c = Bytes::from(vec![6, 3, 229, 141, 131, 11]);
    let h = HeadData::parse(&mut c).unwrap();
    let name = read_string(&mut c, h.wire_type).unwrap();
    assert_eq!(read_struct_end(&mut c), Ok(()));
    assert_eq!(String::from_utf8(name).unwrap(), String::from("千"));
}

#[test]
fn int_round_trip() {
    for v in [0i32, 1, -1, 127, -128, 128, -129, 32767, -32768, 32768, i32::MAX, i32::MIN] {
        for tag in [0u8, 14, 15, 255] {
            let mut b = BytesMut::new();
            write_int(&mut b, v, tag);
            let mut c = Bytes::from(b.to_vec());
            let h = HeadData::parse(&mut c).unwrap();
            assert_eq!(h.tag, tag);
            assert_eq!(read_int(&mut c, h.wire_type), Ok(v));
            assert!(c.is_empty());
        }
    }
}

#[test]
fn int_narrowest_type() {
    let mut b = BytesMut::new();
    write_int(&mut b, 0, 1);
    assert_eq!(b.to_vec(), vec![0x1C]);
    let mut b = BytesMut::new();
    write_int(&mut b, 300, 0);
    assert_eq!(b.to_vec(), vec![SHORT, 0x01, 0x2C]);
    let mut b = BytesMut::new();
    write_int(&mut b, 70000, 0);
    assert_eq!(b.to_vec(), vec![INT, 0x00, 0x01, 0x11, 0x70]);
    assert_eq!(read_int(&mut Bytes::from(vec![1]), STRING1), Err(JceError::TypeMismatch));
}

#[test]
fn string_round_trip_and_skip() {
    let long = vec![b'z'; 300];
    for s in [vec![], b"hello".to_vec(), long] {
        for tag in [0u8, 14, 15, 255] {
            let mut b = BytesMut::new();
            write_string(&mut b, &s, tag);
            write_byte(&mut b, 42, 3);
            let bytes = b.to_vec();
            let mut c = Bytes::from(bytes.clone());
            let h = HeadData::parse(&mut c).unwrap();
            assert_eq!(h.tag, tag);
            assert_eq!(h.wire_type, if s.len() <= 255 { STRING1 } else { STRING4 });
            assert_eq!(read_string(&mut c, h.wire_type), Ok(s.clone()));
            let mut d = Bytes::from(bytes);
            let g = HeadData::parse(&mut d).unwrap();
            g.skip_value(&mut d).unwrap();
            assert_eq!(c.len(), d.len());
            assert_eq!(HeadData::parse(&mut d), Ok(HeadData::new(BYTE, 3)));
        }
    }
}

#[test]
fn string_errors() {
    assert_eq!(read_string(&mut Bytes::from(vec![4, b'a']), STRING1), Err(JceError::BufferUnderrun));
    assert_eq!(read_string(&mut Bytes::from(vec![0x80, 0, 0, 0]), STRING4), Err(JceError::TypeMismatch));
    assert_eq!(read_string(&mut Bytes::from(vec![0]), BYTE), Err(JceError::TypeMismatch));
}

#[test]
fn empty_struct_framing() {
    let mut b = BytesMut::new();
    write_struct(&mut b, &[], 0);
    assert_eq!(b.to_vec(), vec![STRUCT_BEGIN, 11]);
    let mut c = Bytes::from(vec![STRUCT_BEGIN]);
    let h = HeadData::parse(&mut c).unwrap();
    assert_eq!(h.wire_type, STRUCT_BEGIN);
    assert_eq!(read_struct_end(&mut c), Err(JceError::MissingTerminator));
    assert_eq!(read_struct_end(&mut Bytes::from(vec![0x1B])), Err(JceError::TypeMismatch));
    assert_eq!(read_struct_end(&mut Bytes::from(vec![0x00])), Err(JceError::TypeMismatch));
}

#[test]
fn byte_list_of_three() {
    let mut b = BytesMut::new();
    write_byte_list(&mut b, &[1, 2, 3], 0);
    let bytes = b.to_vec();
    assert_eq!(bytes, vec![LIST, 0, 3, 0, 1, 0, 2, 0, 3]);
    let mut c = Bytes::from(bytes.clone());
    let h = HeadData::parse(&mut c).unwrap();
    assert_eq!(read_byte_list(&mut c, h.wire_type), Ok(vec![1, 2, 3]));
    assert!(c.is_empty());
    let mut d = Bytes::from(bytes);
    HeadData::parse(&mut d).unwrap().skip_value(&mut d).unwrap();
    assert!(d.is_empty());
}

#[test]
fn byte_list_edges() {
    let mut b = BytesMut::new();
    write_byte_list(&mut b, &[], 15);
    assert_eq!(b.to_vec(), vec![0xF9, 15, 0x0C]);
    assert_eq!(read_byte_list(&mut Bytes::from(vec![0x0C]), LIST), Ok(vec![]));
    assert_eq!(read_byte_list(&mut Bytes::from(vec![0x00, 2, 0x00, 1]), LIST), Err(JceError::BufferUnderrun));
    assert_eq!(read_byte_list(&mut Bytes::from(vec![0x00, 1, 0x06, 1]), LIST), Err(JceError::TypeMismatch));
    assert_eq!(read_byte_list(&mut Bytes::from(vec![0x0C]), SIMPLE_LIST), Err(JceError::TypeMismatch));
}

#[test]
fn simple_list_round_trip() {
    for v in [vec![], vec![9u8, 8, 7], vec![5u8; 200]] {
        let mut b = BytesMut::new();
        write_simple_list(&mut b, &v, 255);
        let bytes = b.to_vec();
        let mut c = Bytes::from(bytes.clone());
        let h = HeadData::parse(&mut c).unwrap();
        assert_eq!(h, HeadData::new(SIMPLE_LIST, 255));
        assert_eq!(read_simple_list(&mut c, h.wire_type), Ok(v.clone()));
        assert!(c.is_empty());
        let mut d = Bytes::from(bytes);
        HeadData::parse(&mut d).unwrap().skip_value(&mut d).unwrap();
        assert!(d.is_empty());
    }
    let mut b = BytesMut::new();
    write_simple_list(&mut b, &[7, 8], 0);
    assert_eq!(b.to_vec(), vec![SIMPLE_LIST, 0, 2, 7, 8]);
    assert_eq!(read_simple_list(&mut Bytes::from(vec![0x00, 3, 1]), SIMPLE_LIST), Err(JceError::BufferUnderrun));
}

#[test]
fn truncated_prefixes_fail() {
    let mut fields = BytesMut::new();
    write_string(&mut fields, b"abc", 0);
    write_byte_list(&mut fields, &[1, 2], 1);
    write_simple_list(&mut fields, &[3], 2);
    let mut b = BytesMut::new();
    write_struct(&mut b, &fields.to_vec(), 0);
    let bytes = b.to_vec();
    let mut whole = Bytes::from(bytes.clone());
    HeadData::parse(&mut whole).unwrap().skip_value(&mut whole).unwrap();
    assert!(whole.is_empty());
    for k in 0..bytes.len() {
        let mut c = Bytes::from(bytes[..k].to_vec());
        let r = match HeadData::parse(&mut c) {
            Ok(h) => h.skip_value(&mut c),
            Err(e) => Err(e),
        };
        assert_eq!(r, Err(JceError::BufferUnderrun));
    }
}

#[test]
fn byte_map_round_trip() {
    let m = vec![(1u8, 10u8), (2, 20), (1, 30)];
    let mut b = BytesMut::new();
    write_byte_map(&mut b, &m, 4);
    let bytes = b.to_vec();
    assert_eq!(bytes, vec![0x48, 0, 3, 0, 1, 0, 10, 0, 2, 0, 20, 0, 1, 0, 30]);
    let mut c = Bytes::from(bytes.clone());
    let h = HeadData::parse(&mut c).unwrap();
    assert_eq!(h, HeadData::new(MAP, 4));
    assert_eq!(read_byte_map(&mut c, h.wire_type), Ok(m));
    assert!(c.is_empty());
    let mut d = Bytes::from(bytes);
    HeadData::parse(&mut d).unwrap().skip_value(&mut d).unwrap();
    assert!(d.is_empty());
}

#[test]
fn byte_map_errors() {
    assert_eq!(read_byte_map(&mut Bytes::from(vec![0x0C]), MAP), Ok(vec![]));
    assert_eq!(read_byte_map(&mut Bytes::from(vec![0x00, 1, 0x00, 1]), MAP), Err(JceError::BufferUnderrun));
    assert_eq!(read_byte_map(&mut Bytes::from(vec![0x0C]), LIST), Err(JceError::TypeMismatch));
}

#[test]
fn zero_marker_reads_as_zero() {
    assert_eq!(read_byte(&mut Bytes::from(vec![]), ZERO_TAG), Ok(0));
    assert_eq!(read_int(&mut Bytes::from(vec![]), ZERO_TAG), Ok(0));
    assert_eq!(read_byte(&mut Bytes::from(vec![]), BYTE), Err(JceError::BufferUnderrun));
}

#[test]
fn value_codec_trait() {
    let mut b = BytesMut::new();
    114u8.to_bytes(&mut b, 0);
    (-2i32).to_bytes(&mut b, 16);
    assert_eq!(b.to_vec(), vec![0, 114, 0xF0, 16, 0xFE]);
    let mut c = Bytes::from(b.to_vec());
    let h = HeadData::parse(&mut c).unwrap();
    assert_eq!(u8::from_bytes(&mut c, h.wire_type), Ok(114));
    let h = HeadData::parse(&mut c).unwrap();
    assert_eq!(h.tag, 16);
    assert_eq!(i32::from_bytes(&mut c, h.wire_type), Ok(-2));
    assert_eq!(u8::from_bytes(&mut Bytes::from(vec![1, 2]), SHORT), Err(JceError::TypeMismatch));
}
