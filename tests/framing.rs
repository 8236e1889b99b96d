use byteframe::{encode, CodecError, FrameDecoder, FrameError, Packet};

fn frame(packet: &Packet) -> Vec<u8> {
    let mut buf = Vec::new();
    encode(packet, &mut buf).unwrap();
    buf
}

#[test]
fn decodes_across_partial_chunks() {
    let mut stream = Vec::new();
    stream.extend_from_slice(&frame(&Packet::Ping));
    stream.extend_from_slice(&frame(&Packet::Message("hi".into())));

    let mut decoder = FrameDecoder::new();
    let mut packets = Vec::new();

    for chunk in stream.chunks(3) {
        let output = decoder.decode(chunk);
        assert!(output.errors.is_empty());
        packets.extend(output.packets);
    }

    assert_eq!(packets.len(), 2);
    assert_eq!(packets[0], Packet::Ping);
    assert_eq!(packets[1], Packet::Message("hi".into()));
}

#[test]
fn resyncs_after_invalid_header() {
    let mut corrupted = frame(&Packet::Ping);
    corrupted[0] ^= 0xFF;
    let mut stream = corrupted.clone();
    stream.extend_from_slice(&frame(&Packet::Pong));

    let mut decoder = FrameDecoder::new();
    let output = decoder.decode(&stream);
    assert!(output.packets.contains(&Packet::Pong));
    assert!(output.errors.iter().any(|err| matches!(err, FrameError::InvalidMagic(_))));
}

#[test]
fn detects_checksum_failure_and_continues() {
    let mut stream = frame(&Packet::Message("hello".into()));
    let last = stream.len() - 1;
    stream[last] ^= 0xFF;
    stream.extend_from_slice(&frame(&Packet::Data(vec![1, 2, 3])));

    let mut decoder = FrameDecoder::new();
    let output = decoder.decode(&stream);

    assert!(output.packets.contains(&Packet::Data(vec![1, 2, 3])));
    assert!(output
        .errors
        .iter()
        .any(|err| matches!(err, FrameError::Codec(CodecError::ChecksumMismatch { .. }))));
}

#[test]
fn message_then_ping_in_three_byte_chunks() {
    let mut stream = frame(&Packet::Message("hi".to_string()));
    stream.extend_from_slice(&frame(&Packet::Ping));
    assert_eq!(stream.len(), 20);

    let mut decoder = FrameDecoder::new();
    let mut packets = Vec::new();
    let mut errors = 0;
    for chunk in stream.chunks(3) {
        let output = decoder.decode(chunk);
        errors += output.errors.len();
        packets.extend(output.packets);
    }
    assert_eq!(packets, vec![Packet::Message("hi".to_string()), Packet::Ping]);
    assert_eq!(errors, 0);
}

#[test]
fn one_byte_at_a_time_matches_one_call() {
    let packets = vec![
        Packet::Message("abc".to_string()),
        Packet::Pong,
        Packet::Data(vec![0xAA, 0x55, 0x00]),
        Packet::Ping,
    ];
    let mut stream = vec![0x00, 0xAA];
    for p in &packets {
        stream.extend_from_slice(&frame(p));
    }

    let mut whole = FrameDecoder::new();
    let at_once = whole.decode(&stream);

    let mut bytewise = FrameDecoder::new();
    let mut one_by_one = Vec::new();
    let mut magic_errors = 0;
    for b in &stream {
        let output = bytewise.decode(&[*b]);
        magic_errors += output.errors.len();
        one_by_one.extend(output.packets);
    }
    assert_eq!(at_once.packets, packets);
    assert_eq!(one_by_one, packets);
    assert_eq!(at_once.errors.len(), 2);
    assert_eq!(magic_errors, 2);
}

#[test]
fn resync_reports_one_error_per_garbage_byte() {
    let mut stream = vec![0x01, 0x02, 0x03];
    stream.extend_from_slice(&frame(&Packet::Message("ok".to_string())));
    let mut decoder = FrameDecoder::new();
    let output = decoder.decode(&stream);
    assert_eq!(output.packets, vec![Packet::Message("ok".to_string())]);
    assert_eq!(output.errors.len(), 3);
    assert!(matches!(output.errors[0], FrameError::InvalidMagic(0x0102)));
    assert!(matches!(output.errors[1], FrameError::InvalidMagic(0x0203)));
    assert!(matches!(output.errors[2], FrameError::InvalidMagic(0x03AA)));
}

#[test]
fn corrupted_frame_then_valid_frame() {
    let mut stream = frame(&Packet::Data(vec![10, 20, 30]));
    stream[10] ^= 0x04;
    stream.extend_from_slice(&frame(&Packet::Pong));
    let mut decoder = FrameDecoder::new();
    let output = decoder.decode(&stream);
    assert_eq!(output.packets, vec![Packet::Pong]);
    assert_eq!(output.errors.len(), 1);
    assert!(matches!(
        output.errors[0],
        FrameError::Codec(CodecError::ChecksumMismatch { .. })
    ));
}

#[test]
fn zero_length_frame_is_still_validated() {
    let mut stream = frame(&Packet::Ping);
    stream[8] ^= 0x01;
    stream.extend_from_slice(&frame(&Packet::Ping));
    let mut decoder = FrameDecoder::new();
    let output = decoder.decode(&stream);
    assert_eq!(output.packets, vec![Packet::Ping]);
    assert!(matches!(
        output.errors[0],
        FrameError::Codec(CodecError::ChecksumMismatch { .. })
    ));
    assert_eq!(output.errors.len(), 1);
}

#[test]
fn partial_input_waits_for_more() {
    let bytes = frame(&Packet::Data(vec![1, 2, 3, 4, 5]));
    let mut decoder = FrameDecoder::new();
    let first = decoder.decode(&bytes[..12]);
    assert!(first.packets.is_empty() && first.errors.is_empty());
    let empty = decoder.decode(&[]);
    assert!(empty.packets.is_empty() && empty.errors.is_empty());
    let rest = decoder.decode(&bytes[12..]);
    assert_eq!(rest.packets, vec![Packet::Data(vec![1, 2, 3, 4, 5])]);
    assert!(rest.errors.is_empty());
}

#[test]
fn invalid_opcode_frame_is_reported_and_skipped() {
    let mut stream = Vec::new();
    let header = byteframe::Header::new(9, 0, byteframe::fnv1a32(&[]));
    stream.extend_from_slice(&header.to_bytes());
    stream.extend_from_slice(&frame(&Packet::Pong));
    let mut decoder = FrameDecoder::new();
    let output = decoder.decode(&stream);
    assert_eq!(output.packets, vec![Packet::Pong]);
    assert!(matches!(output.errors[0], FrameError::Codec(CodecError::InvalidOpcode(9))));
}
