use bytes::BytesMut;
use moq::coding::{
    decode_string, decode_u8, decode_varint, encode_string, encode_u8, encode_varint, DecodeError,
};

fn encoded(v: u64) -> Vec<u8> {
    let mut buf = BytesMut::new();
    encode_varint(v, &mut buf);
    buf.to_vec()
}

#[test]
fn varint_picks_narrowest_width() {
    assert_eq!(encoded(0), vec![0x00]);
    assert_eq!(encoded(37), vec![0x25]);
    assert_eq!(encoded(63), vec![0x3f]);
    assert_eq!(encoded(64), vec![0x40, 0x40]);
    assert_eq!(encoded(15293), vec![0x7b, 0xbd]);
    assert_eq!(encoded(16383), vec![0x7f, 0xff]);
    assert_eq!(encoded(16384), vec![0x80, 0x00, 0x40, 0x00]);
    assert_eq!(encoded(494878333), vec![0x9d, 0x7f, 0x3e, 0x7d]);
    assert_eq!(encoded((1 << 30) - 1), vec![0xbf, 0xff, 0xff, 0xff]);
    assert_eq!(encoded(1 << 30), vec![0xc0, 0, 0, 0, 0x40, 0, 0, 0]);
    assert_eq!(
        encoded(151288809941952652),
        vec![0xc2, 0x19, 0x7c, 0x5e, 0xff, 0x14, 0xe8, 0x8c]
    );
    assert_eq!(encoded((1 << 62) - 1), vec![0xff; 8]);
}

#[test]
fn varint_roundtrip_values() {
    for v in [0u64, 1, 63, 64, 300, 16383, 16384, 1 << 29, (1 << 30) - 1, 1 << 30, (1 << 62) - 1] {
        let mut buf = BytesMut::new();
        encode_varint(v, &mut buf);
        buf.extend_from_slice(&[0xaa, 0xbb]);
        assert_eq!(decode_varint(&mut buf), Ok(v));
        assert_eq!(&buf[..], &[0xaa, 0xbb]);
    }
}

#[test]
fn varint_accepts_wider_than_needed() {
    let mut buf = BytesMut::from(&[0x40u8, 0x25][..]);
    assert_eq!(decode_varint(&mut buf), Ok(37));
    assert!(buf.is_empty());
    let mut buf = BytesMut::from(&[0x80u8, 0, 0, 0x25][..]);
    assert_eq!(decode_varint(&mut buf), Ok(37));
}

#[test]
fn varint_short_input() {
    let mut buf = BytesMut::new();
    assert_eq!(decode_varint(&mut buf), Err(DecodeError::Short));
    let mut buf = BytesMut::from(&[0x7bu8][..]);
    assert_eq!(decode_varint(&mut buf), Err(DecodeError::Short));
    let mut buf = BytesMut::from(&[0xc2u8, 0x19, 0x7c, 0x5e, 0xff, 0x14, 0xe8][..]);
    assert_eq!(decode_varint(&mut buf), Err(DecodeError::Short));
}

#[test]
fn u8_roundtrip_and_short() {
    let mut buf = BytesMut::new();
    encode_u8(0xfe, &mut buf);
    encode_u8(7, &mut buf);
    assert_eq!(&buf[..], &[0xfe, 7]);
    assert_eq!(decode_u8(&mut buf), Ok(0xfe));
    assert_eq!(decode_u8(&mut buf), Ok(7));
    assert_eq!(decode_u8(&mut buf), Err(DecodeError::Short));
}

#[test]
fn string_layout_and_roundtrip() {
    let mut buf = BytesMut::new();
    encode_string("héllo", &mut buf);
    assert_eq!(&buf[..], &[6, b'h', 0xc3, 0xa9, b'l', b'l', b'o']);
    buf.extend_from_slice(&[9]);
    assert_eq!(decode_string(&mut buf), Ok("héllo".to_string()));
    assert_eq!(&buf[..], &[9]);
}

#[test]
fn string_long_length_uses_two_bytes() {
    let text = "x".repeat(100);
    let mut buf = BytesMut::new();
    encode_string(&text, &mut buf);
    assert_eq!(&buf[..2], &[0x40, 100]);
    assert_eq!(buf.len(), 102);
    assert_eq!(decode_string(&mut buf), Ok(text));
}

#[test]
fn string_errors() {
    let mut buf = BytesMut::from(&[3u8, b'a', b'b'][..]);
    assert_eq!(decode_string(&mut buf), Err(DecodeError::Short));
    let mut buf = BytesMut::from(&[2u8, 0xff, 0xfe][..]);
    assert_eq!(decode_string(&mut buf), Err(DecodeError::InvalidString));
    let mut buf = BytesMut::from(&[2u8, 0xed, 0xa0, 0x80][..]);
    assert_eq!(decode_string(&mut buf), Err(DecodeError::InvalidString));
    let mut buf = BytesMut::from(&[3u8, 0xed, 0xa0, 0x80][..]);
    assert_eq!(decode_string(&mut buf), Err(DecodeError::InvalidString));
    let mut buf = BytesMut::new();
    assert_eq!(decode_string(&mut buf), Err(DecodeError::Short));
}
