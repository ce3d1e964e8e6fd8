use bytes::{Bytes, BytesMut};
use jce::head::HeadData;
use jce::wire::{JceError, BYTE, LIST, MAP, SIMPLE_LIST, STRING1, STRING4, STRUCT_BEGIN};

#[test]
fn parse() {
    let cases: Vec<(Vec<u8>, HeadData)> = vec![
        (vec![0], HeadData { wire_type: 0, tag: 0 }),
        (vec![1], HeadData { wire_type: 1, tag: 0 }),
        (vec![33], HeadData { wire_type: 1, tag: 2 }),
        (vec![130], HeadData { wire_type: 2, tag: 8 }),
        (vec![244, 24], HeadData { wire_type: 4, tag: 24 }),
    ];
    for (bytes, want) in cases {
        assert_eq!(HeadData::parse(&mut Bytes::from(bytes)), Ok(want));
    }
}

#[test]
fn format() {
    let cases: Vec<(HeadData, Vec<u8>)> = vec![
        (HeadData { wire_type: 0, tag: 0 }, vec![0]),
        (HeadData { wire_type: 1, tag: 0 }, vec![1]),
        (HeadData { wire_type: 1, tag: 2 }, vec![33]),
        (HeadData { wire_type: 2, tag: 8 }, vec![130]),
        (HeadData { wire_type: 4, tag: 24 }, vec![244, 24]),
    ];
    for (h, want) in cases {
        let mut b = BytesMut::new();
        h.format(&mut b);
        assert_eq!(b.to_vec(), want);
    }
}

#[test]
fn header_packing_boundary() {
    let mut b = BytesMut::new();
    HeadData::new(STRING1, 14).format(&mut b);
    assert_eq!(b.to_vec(), vec![0xE6]);
    for tag in [15u8, 255u8] {
        let mut b = BytesMut::new();
        HeadData::new(STRING1, tag).format(&mut b);
        let v = b.to_vec();
        assert_eq!(v.len(), 2);
        assert_eq!(v[0] >> 4, 0xF);
        assert_eq!(v, vec![0xF6, tag]);
    }
}

#[test]
fn header_round_trip() {
    for ty in 0u8..16 {
        for tag in [0u8, 14, 15, 255] {
            let h = HeadData::new(ty, tag);
            let mut b = BytesMut::new();
            h.format(&mut b);
            let mut c = Bytes::from(b.to_vec());
            assert_eq!(HeadData::parse(&mut c), Ok(h));
            assert!(c.is_empty());
        }
    }
}

#[test]
fn parse_truncated() {
    assert_eq!(HeadData::parse(&mut Bytes::from(vec![])), Err(JceError::BufferUnderrun));
    assert_eq!(HeadData::parse(&mut Bytes::from(vec![0xF0])), Err(JceError::BufferUnderrun));
}

#[test]
fn ttl4_counts() {
    assert_eq!(HeadData::parse_ttl4(&mut Bytes::from(vec![0x0C])), Ok(0));
    assert_eq!(HeadData::parse_ttl4(&mut Bytes::from(vec![0x00, 3])), Ok(3));
    assert_eq!(HeadData::parse_ttl4(&mut Bytes::from(vec![0x01, 0x01, 0x00])), Ok(256));
    assert_eq!(HeadData::parse_ttl4(&mut Bytes::from(vec![0x02, 0, 1, 0, 0])), Ok(65536));
    assert_eq!(HeadData::parse_ttl4(&mut Bytes::from(vec![0x10, 3])), Err(JceError::TypeMismatch));
    assert_eq!(HeadData::parse_ttl4(&mut Bytes::from(vec![0x00, 0xFF])), Err(JceError::TypeMismatch));
    assert_eq!(HeadData::parse_ttl4(&mut Bytes::from(vec![0x06, 3])), Err(JceError::TypeMismatch));
    assert_eq!(HeadData::parse_ttl4(&mut Bytes::from(vec![0x02, 0, 1])), Err(JceError::BufferUnderrun));
}

#[test]
fn skip_fixed_and_strings() {
    let mut c = Bytes::from(vec![1, 2, 3, 4, 5, 6, 7, 8, 9]);
    HeadData::new(2, 0).skip_value(&mut c).unwrap();
    assert_eq!(c.len(), 5);
    assert_eq!(HeadData::new(3, 0).skip_value(&mut c), Err(JceError::BufferUnderrun));
    let mut c = Bytes::from(vec![2, b'h', b'i', 0x7F]);
    HeadData::new(STRING1, 0).skip_value(&mut c).unwrap();
    assert_eq!(HeadData::parse(&mut c), Ok(HeadData::new(15, 7)));
    let mut c = Bytes::from(vec![0, 0, 0, 1, b'x', 0x2C]);
    HeadData::new(STRING4, 0).skip_value(&mut c).unwrap();
    assert_eq!(HeadData::parse(&mut c), Ok(HeadData::new(12, 2)));
    let mut c = Bytes::from(vec![0xFF, 0xFF, 0xFF, 0xFF]);
    assert_eq!(HeadData::new(STRING4, 0).skip_value(&mut c), Err(JceError::TypeMismatch));
    assert_eq!(HeadData::new(14, 0).skip_value(&mut Bytes::from(vec![0])), Err(JceError::TypeMismatch));
}

#[test]
fn skip_containers() {
    // a map of one entry: byte key 1, string value "ab"; then a byte field under tag 1
    let mut c = Bytes::from(vec![0x00, 1, 0x00, 1, 0x06, 2, b'a', b'b', 0x10, 9]);
    HeadData::new(MAP, 0).skip_value(&mut c).unwrap();
    assert_eq!(HeadData::parse(&mut c), Ok(HeadData::new(BYTE, 1)));
    // a list of two elements: a zero marker and a nested struct holding one byte field
    let mut c = Bytes::from(vec![0x00, 2, 0x0C, 0x0A, 0x00, 5, 0x0B, 0x21]);
    HeadData::new(LIST, 0).skip_value(&mut c).unwrap();
    assert_eq!(HeadData::parse(&mut c), Ok(HeadData::new(1, 2)));
    // a raw byte array of three bytes
    let mut c = Bytes::from(vec![0x00, 3, 7, 8, 9, 0x31]);
    HeadData::new(SIMPLE_LIST, 0).skip_value(&mut c).unwrap();
    assert_eq!(HeadData::parse(&mut c), Ok(HeadData::new(1, 3)));
    // a struct that never closes
    let mut c = Bytes::from(vec![0x00, 5]);
    assert_eq!(HeadData::new(STRUCT_BEGIN, 0).skip_value(&mut c), Err(JceError::BufferUnderrun));
}
