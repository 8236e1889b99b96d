use byteframe::{decode, CodecError, Packet, PacketWriter};

#[test]
fn staged_frame_decodes_to_the_packet() {
    let mut writer = PacketWriter::new(Vec::<u8>::new());
    writer.stage_packet(&Packet::Message("test".to_string())).unwrap();
    let (sink, frame) = writer.sink_and_frame();
    assert_eq!(&frame[..5], &[0xAA, 0x55, 0x03, 0x00, 0x04]);
    assert_eq!(&frame[9..13], b"test");
    sink.extend_from_slice(frame);
    let bytes = writer.into_writer();
    assert_eq!(decode(&bytes).unwrap(), Packet::Message("test".to_string()));
}

#[test]
fn staging_replaces_the_previous_frame() {
    let mut writer = PacketWriter::with_capacity(0u8, 4);
    writer.stage_packet(&Packet::Data(vec![1, 2, 3])).unwrap();
    writer.stage_packet(&Packet::Ping).unwrap();
    let (_, frame) = writer.sink_and_frame();
    assert_eq!(frame.len(), 9);
    assert_eq!(decode(frame).unwrap(), Packet::Ping);
}

#[test]
fn oversized_packet_leaves_nothing_staged() {
    let mut writer = PacketWriter::new(());
    writer.stage_packet(&Packet::Pong).unwrap();
    let err = writer.stage_packet(&Packet::Data(vec![0u8; 70000])).unwrap_err();
    assert!(matches!(err, CodecError::PayloadTooLarge(70000)));
    let (_, frame) = writer.sink_and_frame();
    assert!(frame.is_empty());
}

#[test]
fn writer_gives_access_to_its_sink() {
    let mut writer = PacketWriter::new(5u32);
    assert_eq!(*writer.get_ref(), 5);
    *writer.get_mut() = 6;
    assert_eq!(writer.into_writer(), 6);
}
