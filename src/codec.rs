//! Single-frame encoding and decoding.

use vstd::prelude::*;
use vstd::slice::slice_to_vec;
use vstd::utf8::{decode_utf8, encode_utf8, encode_utf8_decode_utf8, encode_utf8_valid_utf8, valid_utf8};

use crate::checksum::{fnv1a32, fnv1a_spec, lemma_single_byte_change_detected};
use crate::header::{header_bytes, lemma_header_round_trip, parse_header, Header, HeaderError, HEADER_LEN, HEADER_MAGIC};
use crate::packet::{
    opcode_of, payload_of, Packet, PacketView, OPCODE_DATA, OPCODE_MESSAGE, OPCODE_PING,
    OPCODE_PONG,
};

verus! {

/// Largest payload that a header's length field can describe.
pub const MAX_PAYLOAD_LEN: usize = 0xFFFF;

/// The error of `String::from_utf8`, carried unchanged by
/// `CodecError::InvalidUtf8`; nothing is read from it.
#[verifier::external_type_specification]
#[verifier::external_body]
pub struct ExFromUtf8Error(std::string::FromUtf8Error);

/// Why a packet could not be encoded or a frame could not be decoded.
#[derive(Debug)]
#[allow(inconsistent_fields)]
pub enum CodecError {
    Header(HeaderError),
    FrameTooShort(usize),
    PayloadTooLarge(usize),
    PayloadLengthMismatch { declared: u16, actual: usize },
    InvalidOpcode(u8),
    InvalidUtf8(std::string::FromUtf8Error),
    ChecksumMismatch { expected: u32, actual: u32 },
}

/// The content of a `CodecError`; an invalid UTF-8 payload is reported
/// without the details of where it went wrong.
#[allow(inconsistent_fields)]
pub enum CodecErrorView {
    Header(HeaderError),
    FrameTooShort(usize),
    PayloadTooLarge(usize),
    PayloadLengthMismatch { declared: u16, actual: usize },
    InvalidOpcode(u8),
    InvalidUtf8,
    ChecksumMismatch { expected: u32, actual: u32 },
}

impl View for CodecError {
    type V = CodecErrorView;

    open spec fn view(&self) -> CodecErrorView {
        match self {
            CodecError::Header(e) => CodecErrorView::Header(*e),
            CodecError::FrameTooShort(n) => CodecErrorView::FrameTooShort(*n),
            CodecError::PayloadTooLarge(n) => CodecErrorView::PayloadTooLarge(*n),
            CodecError::PayloadLengthMismatch { declared, actual } => {
                CodecErrorView::PayloadLengthMismatch { declared: *declared, actual: *actual }
            },
            CodecError::InvalidOpcode(op) => CodecErrorView::InvalidOpcode(*op),
            CodecError::InvalidUtf8(_) => CodecErrorView::InvalidUtf8,
            CodecError::ChecksumMismatch { expected, actual } => {
                CodecErrorView::ChecksumMismatch { expected: *expected, actual: *actual }
            },
        }
    }
}

impl From<HeaderError> for CodecError {
    fn from(err: HeaderError) -> (r: Self) {
        CodecError::Header(err)
    }
}

impl vstd::std_specs::convert::FromSpecImpl<HeaderError> for CodecError {
    open spec fn obeys_from_spec() -> bool {
        true
    }

    open spec fn from_spec(v: HeaderError) -> CodecError {
        CodecError::Header(v)
    }
}

/// The content of a decoding outcome.
pub open spec fn packet_result_view(r: Result<Packet, CodecError>) -> Result<
    PacketView,
    CodecErrorView,
> {
    match r {
        Ok(p) => Ok(p@),
        Err(e) => Err(e@),
    }
}

/// The header that announces a packet's payload.
pub open spec fn header_of(p: PacketView) -> Header {
    Header {
        magic: HEADER_MAGIC,
        opcode: opcode_of(p),
        length: payload_of(p).len() as u16,
        checksum: fnv1a_spec(payload_of(p)),
    }
}

/// The complete frame of a packet: its header, then its payload.
pub open spec fn frame_of(p: PacketView) -> Seq<u8> {
    header_bytes(header_of(p)) + payload_of(p)
}

/// A packet can be encoded when its payload fits the header's length field.
pub open spec fn encodable(p: PacketView) -> bool {
    payload_of(p).len() <= MAX_PAYLOAD_LEN
}

/// Encoding a packet: its frame, or `PayloadTooLarge` with the payload's
/// length.
pub open spec fn encode_spec(p: PacketView) -> Result<Seq<u8>, CodecErrorView> {
    if encodable(p) {
        Ok(frame_of(p))
    } else {
        Err(CodecErrorView::PayloadTooLarge(payload_of(p).len() as usize))
    }
}

/// The packet that an opcode and a payload stand for, once the payload has
/// passed its length and checksum checks.
pub open spec fn packet_from_opcode_spec(opcode: u8, payload: Seq<u8>) -> Result<
    PacketView,
    CodecErrorView,
> {
    if opcode == OPCODE_PING || opcode == OPCODE_PONG {
        if payload.len() != 0 {
            Err(CodecErrorView::PayloadLengthMismatch { declared: 0, actual: payload.len() as usize })
        } else if opcode == OPCODE_PING {
            Ok(PacketView::Ping)
        } else {
            Ok(PacketView::Pong)
        }
    } else if opcode == OPCODE_MESSAGE {
        if valid_utf8(payload) {
            Ok(PacketView::Message(decode_utf8(payload)))
        } else {
            Err(CodecErrorView::InvalidUtf8)
        }
    } else if opcode == OPCODE_DATA {
        Ok(PacketView::Data(payload))
    } else {
        Err(CodecErrorView::InvalidOpcode(opcode))
    }
}

/// Decoding a located frame: the payload must have the declared length and
/// checksum, then the opcode decides the packet.
pub open spec fn decode_frame_spec(header: Header, payload: Seq<u8>) -> Result<
    PacketView,
    CodecErrorView,
> {
    if payload.len() != header.length as int {
        Err(
            CodecErrorView::PayloadLengthMismatch {
                declared: header.length,
                actual: payload.len() as usize,
            },
        )
    } else if fnv1a_spec(payload) != header.checksum {
        Err(
            CodecErrorView::ChecksumMismatch {
                expected: header.checksum,
                actual: fnv1a_spec(payload),
            },
        )
    } else {
        packet_from_opcode_spec(header.opcode, payload)
    }
}

/// Decoding the frame at the front of a byte sequence; bytes after the
/// frame play no part.
pub open spec fn decode_spec(bytes: Seq<u8>) -> Result<PacketView, CodecErrorView> {
    if bytes.len() < HEADER_LEN {
        Err(CodecErrorView::FrameTooShort(bytes.len() as usize))
    } else {
        match parse_header(bytes.subrange(0, HEADER_LEN as int)) {
            Err(e) => Err(CodecErrorView::Header(e)),
            Ok(header) => {
                if bytes.len() < HEADER_LEN + header.length {
                    Err(CodecErrorView::FrameTooShort(bytes.len() as usize))
                } else {
                    decode_frame_spec(
                        header,
                        bytes.subrange(HEADER_LEN as int, HEADER_LEN + header.length),
                    )
                }
            },
        }
    }
}

/// Relies on `String::from_utf8`: it succeeds exactly when the bytes are
/// valid UTF-8, and the string it returns consists of those bytes.
#[verifier::external_body]
fn string_from_utf8(bytes: Vec<u8>) -> (r: Result<String, std::string::FromUtf8Error>)
    ensures
        r is Ok <==> valid_utf8(bytes@),
        r matches Ok(s) ==> encode_utf8(s@) == bytes@,
{
    String::from_utf8(bytes)
}

/// Appends `bytes` to `buf`.
fn append_bytes(buf: &mut Vec<u8>, bytes: &[u8])
    ensures
        final(buf)@ == old(buf)@ + bytes@,
{
    let mut i: usize = 0;
    while i < bytes.len()
        invariant
            i <= bytes@.len(),
            buf@ == old(buf)@ + bytes@.subrange(0, i as int),
        decreases bytes@.len() - i,
    {
        buf.push(bytes[i]);
        i += 1;
        assert(buf@ =~= old(buf)@ + bytes@.subrange(0, i as int));
    }
    assert(bytes@.subrange(0, bytes@.len() as int) =~= bytes@);
}

/// Encodes `packet` as one frame appended to `buf`. A payload longer than
/// `MAX_PAYLOAD_LEN` is refused with `PayloadTooLarge` before anything is
/// written.
pub fn encode(packet: &Packet, buf: &mut Vec<u8>) -> (r: Result<(), CodecError>)
    ensures
        match encode_spec(packet@) {
            Ok(frame) => r is Ok && final(buf)@ == old(buf)@ + frame,
            Err(e) => r matches Err(err) && err@ == e && final(buf)@ == old(buf)@,
        },
{
    let payload = extract_payload(packet);
    if payload.len() > MAX_PAYLOAD_LEN {
        return Err(CodecError::PayloadTooLarge(payload.len()));
    }
    let length = payload.len() as u16;
    let checksum = fnv1a32(payload);
    let header = Header::new(packet.opcode(), length, checksum);
    let header_bytes = header.to_bytes();
    append_bytes(buf, header_bytes.as_slice());
    append_bytes(buf, payload);
    assert(final(buf)@ =~= old(buf)@ + frame_of(packet@));
    Ok(())
}

/// Decodes the frame at the front of `bytes`.
pub fn decode(bytes: &[u8]) -> (r: Result<Packet, CodecError>)
    ensures
        packet_result_view(r) == decode_spec(bytes@),
{
    if bytes.len() < HEADER_LEN {
        return Err(CodecError::FrameTooShort(bytes.len()));
    }
    let header = match Header::from_bytes(&bytes[0..HEADER_LEN]) {
        Ok(h) => h,
        Err(e) => return Err(CodecError::from(e)),
    };
    let payload_len = header.length as usize;
    if bytes.len() < HEADER_LEN + payload_len {
        return Err(CodecError::FrameTooShort(bytes.len()));
    }
    let payload = &bytes[HEADER_LEN..HEADER_LEN + payload_len];
    decode_frame(&header, payload)
}

/// Decodes a frame whose header and payload have already been located.
pub fn decode_frame(header: &Header, payload: &[u8]) -> (r: Result<Packet, CodecError>)
    ensures
        packet_result_view(r) == decode_frame_spec(*header, payload@),
{
    if payload.len() != header.length as usize {
        return Err(
            CodecError::PayloadLengthMismatch { declared: header.length, actual: payload.len() },
        );
    }
    let actual = fnv1a32(payload);
    if actual != header.checksum {
        return Err(CodecError::ChecksumMismatch { expected: header.checksum, actual });
    }
    packet_from_opcode(header.opcode, payload)
}

/// The payload bytes that `packet` carries.
fn extract_payload(packet: &Packet) -> (r: &[u8])
    ensures
        r@ == payload_of(packet@),
{
    match packet {
        Packet::Ping | Packet::Pong => &[],
        Packet::Message(text) => text.as_str().as_bytes(),
        Packet::Data(bytes) => bytes.as_slice(),
    }
}

/// The packet that `opcode` selects, built from `payload`.
fn packet_from_opcode(opcode: u8, payload: &[u8]) -> (r: Result<Packet, CodecError>)
    ensures
        packet_result_view(r) == packet_from_opcode_spec(opcode, payload@),
{
    if opcode == OPCODE_PING {
        if payload.len() != 0 {
            return Err(CodecError::PayloadLengthMismatch { declared: 0, actual: payload.len() });
        }
        Ok(Packet::Ping)
    } else if opcode == OPCODE_PONG {
        if payload.len() != 0 {
            return Err(CodecError::PayloadLengthMismatch { declared: 0, actual: payload.len() });
        }
        Ok(Packet::Pong)
    } else if opcode == OPCODE_MESSAGE {
        match string_from_utf8(slice_to_vec(payload)) {
            Ok(text) => {
                proof {
                    encode_utf8_decode_utf8(text@);
                }
                Ok(Packet::Message(text))
            },
            Err(e) => Err(CodecError::InvalidUtf8(e)),
        }
    } else if opcode == OPCODE_DATA {
        Ok(Packet::Data(slice_to_vec(payload)))
    } else {
        Err(CodecError::InvalidOpcode(opcode))
    }
}

/// The frame of a packet holds its header in the first `HEADER_LEN` bytes
/// and its payload after them.
pub proof fn lemma_frame_layout(p: PacketView)
    requires
        encodable(p),
    ensures
        frame_of(p).len() == HEADER_LEN + payload_of(p).len(),
        frame_of(p).subrange(0, HEADER_LEN as int) == header_bytes(header_of(p)),
        frame_of(p).subrange(HEADER_LEN as int, frame_of(p).len() as int) == payload_of(p),
        parse_header(frame_of(p).subrange(0, HEADER_LEN as int)) == Ok::<Header, HeaderError>(
            header_of(p),
        ),
        header_of(p).length as int == payload_of(p).len(),
{
    let h = header_of(p);
    assert(frame_of(p).subrange(0, HEADER_LEN as int) =~= header_bytes(h));
    assert(frame_of(p).subrange(HEADER_LEN as int, frame_of(p).len() as int) =~= payload_of(p));
    lemma_header_round_trip(h, Seq::empty());
    assert(header_bytes(h) + Seq::<u8>::empty() =~= header_bytes(h));
}

/// The payload of a packet passes its own header's checks and decodes as
/// that packet.
pub proof fn lemma_payload_decodes(p: PacketView)
    requires
        encodable(p),
    ensures
        decode_frame_spec(header_of(p), payload_of(p)) == Ok::<PacketView, CodecErrorView>(p),
{
    if let PacketView::Message(text) = p {
        encode_utf8_valid_utf8(text);
        encode_utf8_decode_utf8(text);
    }
}

/// Round trip: every packet whose payload fits the length field encodes
/// to its frame, and that frame decodes back to the same packet.
pub proof fn lemma_round_trip(p: PacketView)
    requires
        encodable(p),
    ensures
        encode_spec(p) == Ok::<Seq<u8>, CodecErrorView>(frame_of(p)),
        decode_spec(frame_of(p)) == Ok::<PacketView, CodecErrorView>(p),
{
    lemma_frame_layout(p);
    lemma_payload_decodes(p);
    let frame = frame_of(p);
    assert(frame.subrange(HEADER_LEN as int, HEADER_LEN + header_of(p).length) == payload_of(p));
}

/// Corruption detection: flipping any bit of any payload byte in a
/// packet's frame makes decoding fail with a checksum mismatch that names
/// the checksum the header announced and the one the damaged payload has.
pub proof fn lemma_corruption_detected(p: PacketView, i: int, bit: u8)
    requires
        encodable(p),
        0 <= i < payload_of(p).len(),
        bit < 8,
    ensures
        ({
            let payload = payload_of(p);
            let damaged = payload.update(i, payload[i] ^ (1u8 << bit));
            let frame = frame_of(p);
            let j = HEADER_LEN + i;
            &&& fnv1a_spec(damaged) != fnv1a_spec(payload)
            &&& decode_spec(frame.update(j, frame[j] ^ (1u8 << bit))) == Err::<
                PacketView,
                CodecErrorView,
            >(
                CodecErrorView::ChecksumMismatch {
                    expected: fnv1a_spec(payload),
                    actual: fnv1a_spec(damaged),
                },
            )
        }),
{
    lemma_frame_layout(p);
    let payload = payload_of(p);
    let old_byte = payload[i];
    let new_byte = old_byte ^ (1u8 << bit);
    assert(new_byte != old_byte) by (bit_vector)
        requires
            bit < 8,
            new_byte == old_byte ^ (1u8 << bit),
    ;
    let damaged = payload.update(i, new_byte);
    lemma_single_byte_change_detected(payload, i, new_byte);
    let frame = frame_of(p);
    let j = HEADER_LEN + i;
    assert(frame[j] == old_byte);
    let corrupted = frame.update(j, new_byte);
    assert(corrupted.subrange(0, HEADER_LEN as int) =~= frame.subrange(0, HEADER_LEN as int));
    assert(corrupted.subrange(HEADER_LEN as int, HEADER_LEN + header_of(p).length) =~= damaged);
}

} // verus!
