//! The closed set of application messages and their opcodes.

use vstd::prelude::*;
use vstd::utf8::encode_utf8;

verus! {

pub const OPCODE_PING: u8 = 0x01;

pub const OPCODE_PONG: u8 = 0x02;

pub const OPCODE_MESSAGE: u8 = 0x03;

pub const OPCODE_DATA: u8 = 0x04;

/// A message exchanged over the wire.
#[derive(Debug, Clone, PartialEq, Eq)]
pub enum Packet {
    Ping,
    Pong,
    Message(String),
    Data(Vec<u8>),
}

/// The mathematical content of a `Packet`: its variant and its payload.
pub enum PacketView {
    Ping,
    Pong,
    Message(Seq<char>),
    Data(Seq<u8>),
}

impl View for Packet {
    type V = PacketView;

    open spec fn view(&self) -> PacketView {
        match self {
            Packet::Ping => PacketView::Ping,
            Packet::Pong => PacketView::Pong,
            Packet::Message(text) => PacketView::Message(text@),
            Packet::Data(bytes) => PacketView::Data(bytes@),
        }
    }
}

/// The opcode that identifies a packet's variant on the wire.
pub open spec fn opcode_of(p: PacketView) -> u8 {
    match p {
        PacketView::Ping => OPCODE_PING,
        PacketView::Pong => OPCODE_PONG,
        PacketView::Message(_) => OPCODE_MESSAGE,
        PacketView::Data(_) => OPCODE_DATA,
    }
}

/// The payload bytes that a packet carries on the wire: nothing for `Ping`
/// and `Pong`, the UTF-8 encoding of the text for `Message`, the raw bytes
/// for `Data`.
pub open spec fn payload_of(p: PacketView) -> Seq<u8> {
    match p {
        PacketView::Ping => Seq::empty(),
        PacketView::Pong => Seq::empty(),
        PacketView::Message(text) => encode_utf8(text),
        PacketView::Data(bytes) => bytes,
    }
}

impl Packet {
    /// The opcode of this packet's variant.
    pub fn opcode(&self) -> (r: u8)
        ensures
            r == opcode_of(self@),
    {
        match self {
            Packet::Ping => OPCODE_PING,
            Packet::Pong => OPCODE_PONG,
            Packet::Message(_) => OPCODE_MESSAGE,
            Packet::Data(_) => OPCODE_DATA,
        }
    }
}

} // verus!
