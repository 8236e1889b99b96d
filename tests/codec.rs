use byteframe::codec::decode_frame;
use byteframe::header::HeaderError;
use byteframe::{decode, encode, fnv1a32, CodecError, Header, Packet};

fn frame(packet: &Packet) -> Vec<u8> {
    let mut buf = Vec::new();
    encode(packet, &mut buf).unwrap();
    buf
}

#[test]
fn encode_decode_ping_round_trip() {
    let mut buf = Vec::new();
    encode(&Packet::Ping, &mut buf).unwrap();
    let decoded = decode(&buf).unwrap();
    assert_eq!(decoded, Packet::Ping);
}

#[test]
fn encode_decode_message_round_trip() {
    let packet = Packet::Message("hello".into());
    let mut buf = Vec::new();
    encode(&packet, &mut buf).unwrap();
    let decoded = decode(&buf).unwrap();
    assert_eq!(decoded, packet);
}

#[test]
fn rejects_bad_checksum() {
    let packet = Packet::Message("hello".into());
    let mut buf = Vec::new();
    encode(&packet, &mut buf).unwrap();
    let last = buf.len() - 1;
    buf[last] ^= 0xFF;
    let err = decode(&buf).unwrap_err();
    assert!(matches!(err, CodecError::ChecksumMismatch { .. }));
}

#[test]
fn errors_on_invalid_opcode() {
    let mut buf = Vec::new();
    let header = Header::new(0xFF, 0, fnv1a32(&[]));
    buf.extend_from_slice(&header.to_bytes());
    let err = decode(&buf).unwrap_err();
    assert!(matches!(err, CodecError::InvalidOpcode(0xFF)));
}

#[test]
fn round_trips_every_variant() {
    let packets = vec![
        Packet::Ping,
        Packet::Pong,
        Packet::Message(String::new()),
        Packet::Message("h\u{e9}llo \u{1F600}".to_string()),
        Packet::Data(vec![]),
        Packet::Data(vec![0, 1, 0xAA, 0x55, 0xFF]),
    ];
    for packet in &packets {
        assert_eq!(&decode(&frame(packet)).unwrap(), packet);
    }
}

#[test]
fn encodes_exact_frame_bytes() {
    let bytes = frame(&Packet::Message("hi".to_string()));
    let checksum = fnv1a32(b"hi").to_be_bytes();
    let mut expected = vec![0xAA, 0x55, 0x03, 0x00, 0x02];
    expected.extend_from_slice(&checksum);
    expected.extend_from_slice(b"hi");
    assert_eq!(bytes, expected);
    assert_eq!(frame(&Packet::Ping), vec![0xAA, 0x55, 1, 0, 0, 0x81, 0x1C, 0x9D, 0xC5]);
}

#[test]
fn encode_appends_to_existing_bytes() {
    let mut buf = vec![7, 7];
    encode(&Packet::Pong, &mut buf).unwrap();
    assert_eq!(buf.len(), 11);
    assert_eq!(&buf[..2], &[7, 7]);
    assert_eq!(decode(&buf[2..]).unwrap(), Packet::Pong);
}

#[test]
fn data_payload_boundaries() {
    let empty = Packet::Data(vec![]);
    let empty_frame = frame(&empty);
    assert_eq!(empty_frame.len(), 9);
    assert_eq!(decode(&empty_frame).unwrap(), empty);

    let largest = Packet::Data(vec![0x5A; 65535]);
    let largest_frame = frame(&largest);
    assert_eq!(largest_frame.len(), 9 + 65535);
    assert_eq!(&largest_frame[3..5], &[0xFF, 0xFF]);
    assert_eq!(decode(&largest_frame).unwrap(), largest);

    let mut buf = vec![1, 2, 3];
    let err = encode(&Packet::Data(vec![0; 65536]), &mut buf).unwrap_err();
    assert!(matches!(err, CodecError::PayloadTooLarge(65536)));
    assert_eq!(buf, vec![1, 2, 3]);
}

#[test]
fn oversized_message_is_rejected() {
    let text = "x".repeat(70000);
    let mut buf = Vec::new();
    let err = encode(&Packet::Message(text), &mut buf).unwrap_err();
    assert!(matches!(err, CodecError::PayloadTooLarge(70000)));
    assert!(buf.is_empty());
}

#[test]
fn flipping_any_payload_bit_is_a_checksum_mismatch() {
    let packet = Packet::Data(vec![3, 1, 4, 1, 5, 9, 2, 6]);
    let good = frame(&packet);
    for i in 9..good.len() {
        for bit in 0..8 {
            let mut bad = good.clone();
            bad[i] ^= 1u8 << bit;
            match decode(&bad) {
                Err(CodecError::ChecksumMismatch { expected, actual }) => {
                    assert_eq!(expected, fnv1a32(&good[9..]));
                    assert_eq!(actual, fnv1a32(&bad[9..]));
                }
                other => panic!("unexpected outcome {:?}", other),
            }
        }
    }
}

#[test]
fn short_input_is_frame_too_short() {
    assert!(matches!(decode(&[0xAA, 0x55, 1]), Err(CodecError::FrameTooShort(3))));
    let mut truncated = frame(&Packet::Data(vec![1, 2, 3, 4]));
    truncated.pop();
    assert!(matches!(decode(&truncated), Err(CodecError::FrameTooShort(12))));
}

#[test]
fn bad_magic_is_a_header_error() {
    let mut bytes = frame(&Packet::Ping);
    bytes[1] = 0x00;
    assert!(matches!(
        decode(&bytes),
        Err(CodecError::Header(HeaderError::InvalidMagic(0xAA00)))
    ));
}

#[test]
fn ping_with_payload_is_a_length_mismatch() {
    let payload = [1u8, 2];
    let mut bytes = Header::new(1, 2, fnv1a32(&payload)).to_bytes().to_vec();
    bytes.extend_from_slice(&payload);
    assert!(matches!(
        decode(&bytes),
        Err(CodecError::PayloadLengthMismatch { declared: 0, actual: 2 })
    ));
}

#[test]
fn located_payload_of_wrong_length_is_rejected() {
    let header = Header::new(4, 3, 0);
    assert!(matches!(
        decode_frame(&header, &[1, 2]),
        Err(CodecError::PayloadLengthMismatch { declared: 3, actual: 2 })
    ));
}

#[test]
fn invalid_utf8_message_is_rejected() {
    let payload = [0xC3u8, 0x28];
    let mut bytes = Header::new(3, 2, fnv1a32(&payload)).to_bytes().to_vec();
    bytes.extend_from_slice(&payload);
    assert!(matches!(decode(&bytes), Err(CodecError::InvalidUtf8(_))));
}

#[test]
fn multibyte_text_decodes_to_the_same_characters() {
    let payload = "gr\u{fc}\u{df}e".as_bytes().to_vec();
    let mut bytes = Header::new(3, payload.len() as u16, fnv1a32(&payload)).to_bytes().to_vec();
    bytes.extend_from_slice(&payload);
    assert_eq!(decode(&bytes).unwrap(), Packet::Message("gr\u{fc}\u{df}e".to_string()));
}
