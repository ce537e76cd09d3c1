use asw::varint::{decode, encode};

#[test]
fn roundtrip_zero() {
    let mut buf = Vec::new();
    encode(0, &mut buf);
    assert_eq!(buf.len(), 1);
    let (val, pos) = decode(&buf, 0);
    assert_eq!(val, 0);
    assert_eq!(pos, 1);
}

#[test]
fn roundtrip_single_byte() {
    let mut buf = Vec::new();
    encode(127, &mut buf);
    assert_eq!(buf.len(), 1);
    let (val, _) = decode(&buf, 0);
    assert_eq!(val, 127);
}

#[test]
fn roundtrip_two_bytes() {
    let mut buf = Vec::new();
    encode(128, &mut buf);
    assert_eq!(buf.len(), 2);
    let (val, pos) = decode(&buf, 0);
    assert_eq!(val, 128);
    assert_eq!(pos, 2);
}

#[test]
fn roundtrip_large() {
    let mut buf = Vec::new();
    encode(40_000_000, &mut buf);
    let (val, _) = decode(&buf, 0);
    assert_eq!(val, 40_000_000);
}

#[test]
fn roundtrip_max() {
    let mut buf = Vec::new();
    encode(u32::MAX, &mut buf);
    assert_eq!(buf.len(), 5);
    let (val, _) = decode(&buf, 0);
    assert_eq!(val, u32::MAX);
}

#[test]
fn multiple_values_sequential() {
    let mut buf = Vec::new();
    encode(100, &mut buf);
    encode(200, &mut buf);
    encode(300, &mut buf);
    let (v1, p1) = decode(&buf, 0);
    let (v2, p2) = decode(&buf, p1);
    let (v3, _) = decode(&buf, p2);
    assert_eq!((v1, v2, v3), (100, 200, 300));
}

#[test]
fn low_bits_come_first() {
    let mut buf = Vec::new();
    encode(300, &mut buf);
    assert_eq!(buf, vec![0xac, 0x02]);
}

#[test]
fn decode_starts_at_its_position() {
    let data = [0xff, 0x05, 0x80, 0x01];
    assert_eq!(decode(&data, 1), (5, 2));
    assert_eq!(decode(&data, 2), (128, 4));
}

#[test]
fn decode_drops_bits_beyond_the_word() {
    // Ten groups of ones are more than 32 bits hold.
    let data = [0xff, 0xff, 0xff, 0xff, 0x7f];
    assert_eq!(decode(&data, 0), (u32::MAX, 5));
}
