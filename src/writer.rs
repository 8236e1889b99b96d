//! Packet-level writing over a byte sink: each packet is encoded into a
//! frame held by the writer, which the caller then sends to the sink whole.

use vstd::prelude::*;

use crate::codec::{encode, encode_spec, CodecError};
use crate::packet::Packet;

verus! {

/// Default capacity of the frame buffer.
pub const DEFAULT_ENCODE_CAPACITY: usize = 1024;

/// A byte sink together with the frame most recently encoded for it.
pub struct PacketWriter<W> {
    writer: W,
    encode_buffer: Vec<u8>,
}

impl<W> PacketWriter<W> {
    /// The wrapped sink.
    pub closed spec fn sink(&self) -> W {
        self.writer
    }

    /// The bytes of the frame waiting to be sent.
    pub closed spec fn staged(&self) -> Seq<u8> {
        self.encode_buffer@
    }

    /// A writer over `writer` with the default frame buffer capacity.
    pub fn new(writer: W) -> (r: Self)
        ensures
            r.sink() == writer,
            r.staged() == Seq::<u8>::empty(),
    {
        Self::with_capacity(writer, DEFAULT_ENCODE_CAPACITY)
    }

    /// A writer over `writer` whose frame buffer starts with room for
    /// `capacity` bytes.
    pub fn with_capacity(writer: W, capacity: usize) -> (r: Self)
        ensures
            r.sink() == writer,
            r.staged() == Seq::<u8>::empty(),
    {
        Self { writer, encode_buffer: Vec::with_capacity(capacity) }
    }

    /// Encodes `packet` as the frame to send next, replacing the previous
    /// one. A payload too large for a frame leaves nothing to send.
    pub fn stage_packet(&mut self, packet: &Packet) -> (r: Result<(), CodecError>)
        ensures
            final(self).sink() == old(self).sink(),
            match encode_spec(packet@) {
                Ok(frame) => r is Ok && final(self).staged() == frame,
                Err(e) => r matches Err(err) && err@ == e && final(self).staged()
                    == Seq::<u8>::empty(),
            },
    {
        self.encode_buffer.clear();
        let r = encode(packet, &mut self.encode_buffer);
        proof {
            if r is Ok {
                assert(Seq::<u8>::empty() + encode_spec(packet@)->Ok_0 =~= encode_spec(
                    packet@,
                )->Ok_0);
            }
        }
        r
    }

    /// The sink and the staged frame, to send the frame through the sink.
    pub fn sink_and_frame(&mut self) -> (r: (&mut W, &[u8]))
        ensures
            *r.0 == old(self).sink(),
            r.1@ == old(self).staged(),
            final(self).sink() == *final(r.0),
            final(self).staged() == old(self).staged(),
    {
        (&mut self.writer, self.encode_buffer.as_slice())
    }

    /// The wrapped sink.
    pub fn get_ref(&self) -> (r: &W)
        ensures
            *r == self.sink(),
    {
        &self.writer
    }

    /// The wrapped sink, for changes.
    pub fn get_mut(&mut self) -> (r: &mut W)
        ensures
            *r == old(self).sink(),
            final(self).sink() == *final(r),
            final(self).staged() == old(self).staged(),
    {
        &mut self.writer
    }

    /// Gives back the wrapped sink.
    pub fn into_writer(self) -> (r: W)
        ensures
            r == self.sink(),
    {
        self.writer
    }
}

} // verus!
