//! Packet-level reading over a byte source. The reader keeps the decoder,
//! the read buffer and the packets decoded but not yet handed out; the
//! caller fills the buffer from the source and reports how much it got.

use vstd::prelude::*;

use crate::framing::{feed, initial_state, DecoderView, FrameDecoder, FrameError};
use crate::packet::{Packet, PacketView};

verus! {

/// Default size of the read buffer.
pub const DEFAULT_READ_CAPACITY: usize = 4096;

/// A byte source, a streaming decoder, a read buffer and the packets that
/// are decoded and waiting to be handed out.
pub struct PacketReader<R> {
    reader: R,
    decoder: FrameDecoder,
    read_buffer: Vec<u8>,
    packet_buffer: Vec<Packet>,
}

/// Why a chunk read from the source did not yield packets.
#[derive(Debug)]
pub enum ReadFailure {
    /// The source ended before a complete packet arrived.
    UnexpectedEof,
    /// The chunk held a framing error; the first one met.
    Framing(FrameError),
}

impl<R> PacketReader<R> {
    /// The wrapped source.
    pub closed spec fn source(&self) -> R {
        self.reader
    }

    /// The decoder's state.
    pub closed spec fn decoder_state(&self) -> DecoderView {
        self.decoder@
    }

    /// The contents of the read buffer.
    pub closed spec fn buffer(&self) -> Seq<u8> {
        self.read_buffer@
    }

    /// The packets decoded and not yet handed out, oldest first.
    pub closed spec fn pending(&self) -> Seq<PacketView> {
        self.packet_buffer@.map_values(|p: Packet| p@)
    }

    pub closed spec fn wf(&self) -> bool {
        self.decoder.wf()
    }

    /// A reader over `reader` with the default read buffer size.
    pub fn new(reader: R) -> (r: Self)
        ensures
            r.wf(),
            r.source() == reader,
            r.decoder_state() == initial_state(),
            r.buffer().len() == DEFAULT_READ_CAPACITY,
            r.pending() == Seq::<PacketView>::empty(),
    {
        Self::with_capacity(reader, DEFAULT_READ_CAPACITY)
    }

    /// A reader over `reader` whose read buffer holds `capacity` bytes.
    pub fn with_capacity(reader: R, capacity: usize) -> (r: Self)
        ensures
            r.wf(),
            r.source() == reader,
            r.decoder_state() == initial_state(),
            r.buffer().len() == capacity,
            r.pending() == Seq::<PacketView>::empty(),
    {
        let r = Self {
            reader,
            decoder: FrameDecoder::new(),
            read_buffer: vec![0u8; capacity],
            packet_buffer: Vec::new(),
        };
        assert(r.pending() =~= Seq::<PacketView>::empty());
        r
    }

    /// Hands out the oldest pending packet, if there is one.
    pub fn next_buffered(&mut self) -> (r: Option<Packet>)
        ensures
            final(self).wf() == old(self).wf(),
            final(self).source() == old(self).source(),
            final(self).decoder_state() == old(self).decoder_state(),
            final(self).buffer() == old(self).buffer(),
            old(self).pending().len() == 0 ==> r is None && final(self).pending() == old(
                self,
            ).pending(),
            old(self).pending().len() > 0 ==> (r matches Some(p) && p@ == old(self).pending()[0]
                && final(self).pending() == old(self).pending().drop_first()),
    {
        if self.packet_buffer.is_empty() {
            return None;
        }
        let p = self.packet_buffer.remove(0);
        assert(self.pending() =~= old(self).pending().drop_first());
        Some(p)
    }

    /// The source and the read buffer, to fill the buffer from the source.
    pub fn source_and_buffer(&mut self) -> (r: (&mut R, &mut Vec<u8>))
        ensures
            *r.0 == old(self).source(),
            r.1@ == old(self).buffer(),
            final(self).source() == *final(r.0),
            final(self).buffer() == final(r.1)@,
            final(self).wf() == old(self).wf(),
            final(self).decoder_state() == old(self).decoder_state(),
            final(self).pending() == old(self).pending(),
    {
        (&mut self.reader, &mut self.read_buffer)
    }

    /// Takes in the first `n` bytes of the read buffer, just read from the
    /// source. No bytes means the source has ended. Otherwise they go
    /// through the decoder; if it reports any error, the first one is
    /// returned and the packets of this chunk are dropped, else those
    /// packets join the pending ones.
    pub fn accept_read(&mut self, n: usize) -> (r: Result<(), ReadFailure>)
        requires
            old(self).wf(),
            n <= old(self).buffer().len(),
        ensures
            final(self).wf(),
            final(self).source() == old(self).source(),
            final(self).buffer() == old(self).buffer(),
            n == 0 ==> (r matches Err(ReadFailure::UnexpectedEof) && final(self).decoder_state()
                == old(self).decoder_state() && final(self).pending() == old(self).pending()),
            n > 0 ==> ({
                let (d, out) = feed(old(self).decoder_state(), old(self).buffer().subrange(0, n as int));
                &&& final(self).decoder_state() == d
                &&& out.errors.len() > 0 ==> (r matches Err(ReadFailure::Framing(e)) && e@
                    == out.errors[0] && final(self).pending() == old(self).pending())
                &&& out.errors.len() == 0 ==> r is Ok && final(self).pending() == old(
                    self,
                ).pending() + out.packets
            }),
    {
        if n == 0 {
            return Err(ReadFailure::UnexpectedEof);
        }
        let mut decoded = self.decoder.decode(&self.read_buffer.as_slice()[0..n]);
        if decoded.errors.len() > 0 {
            let first = decoded.errors.remove(0);
            return Err(ReadFailure::Framing(first));
        }
        let ghost out = decoded@;
        self.packet_buffer.append(&mut decoded.packets);
        assert(self.pending() =~= old(self).pending() + out.packets);
        Ok(())
    }

    /// The wrapped source.
    pub fn get_ref(&self) -> (r: &R)
        ensures
            *r == self.source(),
    {
        &self.reader
    }

    /// The wrapped source, for changes.
    pub fn get_mut(&mut self) -> (r: &mut R)
        ensures
            *r == old(self).source(),
            final(self).source() == *final(r),
            final(self).wf() == old(self).wf(),
            final(self).decoder_state() == old(self).decoder_state(),
            final(self).buffer() == old(self).buffer(),
            final(self).pending() == old(self).pending(),
    {
        &mut self.reader
    }

    /// Gives back the wrapped source; anything buffered is dropped.
    pub fn into_reader(self) -> (r: R)
        ensures
            r == self.source(),
    {
        self.reader
    }
}

} // verus!
