//! The fixed nine-byte frame header and its big-endian wire layout.

use vstd::prelude::*;

verus! {

/// Value of the first two bytes of every well-formed frame.
pub const HEADER_MAGIC: u16 = 0xAA55;

/// Number of bytes taken by a serialized header.
pub const HEADER_LEN: usize = 9;

/// Wire header of every frame.
#[derive(Debug, Clone, Copy, PartialEq, Eq, Structural)]
pub struct Header {
    pub magic: u16,
    pub opcode: u8,
    pub length: u16,
    pub checksum: u32,
}

/// Why a header could not be read from a byte buffer.
#[derive(Debug, Clone, PartialEq, Eq, Structural)]
pub enum HeaderError {
    /// Fewer than `HEADER_LEN` bytes were given; holds how many there were.
    ShortBuffer(usize),
    /// The first two bytes, read big-endian, are not `HEADER_MAGIC`.
    InvalidMagic(u16),
}

/// The big-endian value of two bytes.
pub open spec fn be16(hi: u8, lo: u8) -> u16 {
    (hi as int * 0x100 + lo as int) as u16
}

/// The big-endian value of four bytes.
pub open spec fn be32(b3: u8, b2: u8, b1: u8, b0: u8) -> u32 {
    (b3 as int * 0x1000000 + b2 as int * 0x10000 + b1 as int * 0x100 + b0 as int) as u32
}

/// The nine bytes of a serialized header: magic, opcode, length and
/// checksum, multi-byte fields most significant byte first.
pub open spec fn header_bytes(h: Header) -> Seq<u8> {
    seq![
        (h.magic / 0x100) as u8,
        (h.magic % 0x100) as u8,
        h.opcode,
        (h.length / 0x100) as u8,
        (h.length % 0x100) as u8,
        (h.checksum / 0x1000000) as u8,
        (h.checksum / 0x10000 % 0x100) as u8,
        (h.checksum / 0x100 % 0x100) as u8,
        (h.checksum % 0x100) as u8,
    ]
}

/// Reading a header from the front of a byte sequence: too few bytes, a
/// wrong magic, or the header whose fields stand at their fixed offsets.
/// Bytes after the first nine play no part.
pub open spec fn parse_header(bytes: Seq<u8>) -> Result<Header, HeaderError> {
    if bytes.len() < HEADER_LEN {
        Err(HeaderError::ShortBuffer(bytes.len() as usize))
    } else if be16(bytes[0], bytes[1]) != HEADER_MAGIC {
        Err(HeaderError::InvalidMagic(be16(bytes[0], bytes[1])))
    } else {
        Ok(
            Header {
                magic: be16(bytes[0], bytes[1]),
                opcode: bytes[2],
                length: be16(bytes[3], bytes[4]),
                checksum: be32(bytes[5], bytes[6], bytes[7], bytes[8]),
            },
        )
    }
}

impl Header {
    /// A header with the protocol's magic and the given fields.
    pub fn new(opcode: u8, length: u16, checksum: u32) -> (r: Self)
        ensures
            r == (Header { magic: HEADER_MAGIC, opcode, length, checksum }),
    {
        Self { magic: HEADER_MAGIC, opcode, length, checksum }
    }

    /// Serializes the header in network byte order.
    pub fn to_bytes(&self) -> (r: [u8; HEADER_LEN])
        ensures
            r@ == header_bytes(*self),
    {
        let bytes: [u8; HEADER_LEN] = [
            (self.magic / 0x100) as u8,
            (self.magic % 0x100) as u8,
            self.opcode,
            (self.length / 0x100) as u8,
            (self.length % 0x100) as u8,
            (self.checksum / 0x1000000) as u8,
            (self.checksum / 0x10000 % 0x100) as u8,
            (self.checksum / 0x100 % 0x100) as u8,
            (self.checksum % 0x100) as u8,
        ];
        assert(bytes@ == header_bytes(*self));
        bytes
    }

    /// Reads a header from the first nine bytes of `bytes`.
    pub fn from_bytes(bytes: &[u8]) -> (r: Result<Self, HeaderError>)
        ensures
            r == parse_header(bytes@),
    {
        if bytes.len() < HEADER_LEN {
            return Err(HeaderError::ShortBuffer(bytes.len()));
        }
        let magic: u16 = bytes[0] as u16 * 0x100 + bytes[1] as u16;
        if magic != HEADER_MAGIC {
            return Err(HeaderError::InvalidMagic(magic));
        }
        let opcode: u8 = bytes[2];
        let length: u16 = bytes[3] as u16 * 0x100 + bytes[4] as u16;
        let checksum: u32 = bytes[5] as u32 * 0x1000000 + bytes[6] as u32 * 0x10000
            + bytes[7] as u32 * 0x100 + bytes[8] as u32;
        Ok(Self { magic, opcode, length, checksum })
    }
}

/// A serialized header reads back as the same header, whatever follows it.
pub proof fn lemma_header_round_trip(h: Header, rest: Seq<u8>)
    requires
        h.magic == HEADER_MAGIC,
    ensures
        parse_header(header_bytes(h) + rest) == Ok::<Header, HeaderError>(h),
{
    let b = header_bytes(h) + rest;
    assert(b[0] == header_bytes(h)[0]);
    assert(b[1] == header_bytes(h)[1]);
    assert(b[2] == h.opcode);
    assert(b[3] == header_bytes(h)[3]);
    assert(b[4] == header_bytes(h)[4]);
    assert(b[5] == header_bytes(h)[5]);
    assert(b[6] == header_bytes(h)[6]);
    assert(b[7] == header_bytes(h)[7]);
    assert(b[8] == header_bytes(h)[8]);
    assert(be16(b[3], b[4]) == h.length);
    assert(be32(b[5], b[6], b[7], b[8]) == h.checksum);
}

} // verus!
