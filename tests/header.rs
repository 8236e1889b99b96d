use byteframe::{Header, HeaderError, HEADER_LEN, HEADER_MAGIC};

#[test]
fn round_trips_header_bytes() {
    let header = Header::new(0x10, 42, 0xDEADBEEF);
    let bytes = header.to_bytes();
    let decoded = Header::from_bytes(&bytes).unwrap();
    assert_eq!(decoded.magic, HEADER_MAGIC);
    assert_eq!(decoded.opcode, 0x10);
    assert_eq!(decoded.length, 42);
    assert_eq!(decoded.checksum, 0xDEADBEEF);
}

#[test]
fn rejects_wrong_magic() {
    let mut bytes = Header::new(1, 0, 0).to_bytes();
    bytes[0] ^= 0xFF;
    let err = Header::from_bytes(&bytes).unwrap_err();
    assert!(matches!(err, HeaderError::InvalidMagic(_)));
}

#[test]
fn detects_short_buffer() {
    let bytes = [0u8; 4];
    let err = Header::from_bytes(&bytes).unwrap_err();
    assert!(matches!(err, HeaderError::ShortBuffer(4)));
}

#[test]
fn serializes_big_endian_layout() {
    let header = Header::new(0x03, 0x0102, 0x0A0B0C0D);
    assert_eq!(header.magic, 0xAA55);
    assert_eq!(
        header.to_bytes(),
        [0xAA, 0x55, 0x03, 0x01, 0x02, 0x0A, 0x0B, 0x0C, 0x0D]
    );
    assert_eq!(HEADER_LEN, 9);
}

#[test]
fn reports_observed_magic_and_ignores_trailing_bytes() {
    let bytes = [0x12, 0x34, 1, 0, 0, 0, 0, 0, 0];
    assert_eq!(Header::from_bytes(&bytes), Err(HeaderError::InvalidMagic(0x1234)));
    let mut longer = Header::new(0xFE, 7, 1).to_bytes().to_vec();
    longer.extend_from_slice(&[1, 2, 3]);
    assert_eq!(Header::from_bytes(&longer), Ok(Header::new(0xFE, 7, 1)));
    assert_eq!(Header::from_bytes(&[]), Err(HeaderError::ShortBuffer(0)));
}
