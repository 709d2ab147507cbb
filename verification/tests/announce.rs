use bytes::BytesMut;
use moq::announce::{Announce, AnnounceRequest, AnnounceStatus};
use moq::buffer::buffer_len;
use moq::coding::DecodeError;

#[test]
fn suffix_of_both_variants() {
    let a = Announce::Active { suffix: "video".to_string() };
    let e = Announce::Ended { suffix: "audio".to_string() };
    assert_eq!(a.suffix(), "video");
    assert_eq!(e.suffix(), "audio");
}

#[test]
fn announce_wire_layout() {
    let mut buf = BytesMut::new();
    Announce::Active { suffix: "foo".to_string() }.encode(&mut buf);
    Announce::Ended { suffix: "bar".to_string() }.encode(&mut buf);
    assert_eq!(&buf[..], &[1, 3, b'f', b'o', b'o', 0, 3, b'b', b'a', b'r']);
}

#[test]
fn announce_roundtrip() {
    for msg in [
        Announce::Active { suffix: "room/alice".to_string() },
        Announce::Ended { suffix: String::new() },
        Announce::Active { suffix: "ünïcödé/🎥".to_string() },
        Announce::Ended { suffix: "z".repeat(70) },
    ] {
        let mut buf = BytesMut::new();
        msg.encode(&mut buf);
        buf.extend_from_slice(b"rest");
        assert_eq!(Announce::decode(&mut buf), Ok(msg));
        assert_eq!(&buf[..], b"rest");
    }
}

#[test]
fn announce_decode_errors() {
    let mut buf = BytesMut::new();
    assert_eq!(Announce::decode(&mut buf), Err(DecodeError::Short));
    let mut buf = BytesMut::from(&[2u8, 1, b'a'][..]);
    assert_eq!(Announce::decode(&mut buf), Err(DecodeError::InvalidValue));
    let mut buf = BytesMut::from(&[1u8][..]);
    assert_eq!(Announce::decode(&mut buf), Err(DecodeError::Short));
    let mut buf = BytesMut::from(&[0u8, 4, b'a', b'b'][..]);
    assert_eq!(Announce::decode(&mut buf), Err(DecodeError::Short));
    let mut buf = BytesMut::from(&[1u8, 1, 0x80][..]);
    assert_eq!(Announce::decode(&mut buf), Err(DecodeError::InvalidString));
}

#[test]
fn announce_every_truncation_is_short() {
    let mut full = BytesMut::new();
    Announce::Active { suffix: "x".repeat(80) }.encode(&mut full);
    for cut in 0..full.len() {
        let mut buf = BytesMut::from(&full[..cut]);
        assert_eq!(Announce::decode(&mut buf), Err(DecodeError::Short));
    }
}

#[test]
fn status_codes() {
    let mut buf = BytesMut::new();
    AnnounceStatus::Ended.encode(&mut buf);
    AnnounceStatus::Active.encode(&mut buf);
    assert_eq!(&buf[..], &[0, 1]);
    assert_eq!(AnnounceStatus::decode(&mut buf), Ok(AnnounceStatus::Ended));
    assert_eq!(AnnounceStatus::decode(&mut buf), Ok(AnnounceStatus::Active));
    let mut buf = BytesMut::from(&[0xffu8][..]);
    assert_eq!(AnnounceStatus::decode(&mut buf), Err(DecodeError::InvalidValue));
}

#[test]
fn request_roundtrip() {
    let req = AnnounceRequest { prefix: "live/".to_string() };
    let mut buf = BytesMut::new();
    req.encode(&mut buf);
    assert_eq!(&buf[..], &[5, b'l', b'i', b'v', b'e', b'/']);
    let back = AnnounceRequest::decode(&mut buf).unwrap();
    assert_eq!(back.prefix, "live/");
    assert!(buf.is_empty());
    let mut buf = BytesMut::from(&[9u8, b'a'][..]);
    assert_eq!(AnnounceRequest::decode(&mut buf).unwrap_err(), DecodeError::Short);
}

#[test]
fn announce_decode_then_encode_is_identity_for_narrowest_length() {
    let input = [1u8, 3, b'a', b'b', b'c'];
    let mut buf = BytesMut::from(&input[..]);
    let msg = Announce::decode(&mut buf).unwrap();
    let mut out = BytesMut::new();
    msg.encode(&mut out);
    assert_eq!(&out[..], &input[..]);
}

#[test]
fn announce_wide_length_decodes_but_encodes_narrow() {
    let mut buf = BytesMut::from(&[1u8, 0x40, 3, b'a', b'b', b'c'][..]);
    let msg = Announce::decode(&mut buf).unwrap();
    assert_eq!(msg, Announce::Active { suffix: "abc".to_string() });
    assert!(buf.is_empty());
    let mut out = BytesMut::new();
    msg.encode(&mut out);
    assert_eq!(&out[..], &[1, 3, b'a', b'b', b'c']);
}

#[test]
fn failed_decodes_take_exactly_the_bytes_read() {
    // a status byte that is not a status is taken, the rest stays
    let mut buf = BytesMut::from(&[7u8, 1, 2][..]);
    assert_eq!(AnnounceStatus::decode(&mut buf), Err(DecodeError::InvalidValue));
    assert_eq!(&buf[..], &[1, 2]);
    // a length that promises more than follows: status and length are taken
    let mut buf = BytesMut::from(&[1u8, 5, b'a'][..]);
    assert_eq!(Announce::decode(&mut buf), Err(DecodeError::Short));
    assert_eq!(&buf[..], b"a");
    // a truncated two-byte length: status and its first byte are taken
    let mut buf = BytesMut::from(&[0u8, 0x40][..]);
    assert_eq!(Announce::decode(&mut buf), Err(DecodeError::Short));
    assert!(buf.is_empty());
    // invalid UTF-8: status, length and bytes are taken
    let mut buf = BytesMut::from(&[1u8, 1, 0x80, 9][..]);
    assert_eq!(Announce::decode(&mut buf), Err(DecodeError::InvalidString));
    assert_eq!(&buf[..], &[9]);
    // an empty buffer stays empty
    let mut buf = BytesMut::new();
    assert_eq!(Announce::decode(&mut buf), Err(DecodeError::Short));
    assert!(buf.is_empty());
}

#[test]
fn buffer_len_counts_unread_bytes() {
    let mut buf = BytesMut::from(&[0u8, 2, b'h', b'i', 3][..]);
    assert_eq!(buffer_len(&buf), 5);
    Announce::decode(&mut buf).unwrap();
    assert_eq!(buffer_len(&buf), 1);
}
