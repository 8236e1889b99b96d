//! A length-prefixed, checksum-protected binary framing protocol: a codec
//! for single frames and a streaming decoder that recovers frame
//! boundaries from an arbitrarily chunked byte stream.

pub mod checksum;
pub mod codec;
pub mod framing;
pub mod header;
pub mod packet;
pub mod reader;
pub mod writer;

pub use checksum::fnv1a32;
pub use codec::{decode, encode, CodecError};
pub use framing::{DecodeResult, FrameDecoder, FrameError};
pub use header::{Header, HeaderError, HEADER_LEN, HEADER_MAGIC};
pub use packet::Packet;
pub use reader::PacketReader;
pub use writer::PacketWriter;
