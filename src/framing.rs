//! Streaming state machine that turns an arbitrarily chunked byte stream
//! into packets, resynchronizing one byte at a time after a bad magic.

use vstd::prelude::*;

use crate::checksum::{fnv1a_spec, lemma_single_byte_change_detected};
use crate::codec::{
    decode_frame, decode_frame_spec, encodable, frame_of, header_of, lemma_frame_layout,
    lemma_payload_decodes, CodecError, CodecErrorView,
};
use crate::header::{
    be16, header_bytes, lemma_header_round_trip, parse_header, Header, HeaderError, HEADER_LEN,
    HEADER_MAGIC,
};
use crate::packet::{payload_of, Packet, PacketView};

verus! {

/// Incremental frame decoder: holds the bytes of a header being collected,
/// or a parsed header and the bytes of its payload being collected.
#[derive(Debug)]
pub struct FrameDecoder {
    header_buf: Vec<u8>,
    current_header: Option<Header>,
    payload_buf: Vec<u8>,
}

/// What one call of `FrameDecoder::decode` produced, each list in the order
/// in which it arose.
#[derive(Debug)]
pub struct DecodeResult {
    pub packets: Vec<Packet>,
    pub errors: Vec<FrameError>,
}

/// A problem met in the stream; decoding goes on after each one.
#[derive(Debug)]
pub enum FrameError {
    /// A nine-byte window did not start with the magic; holds the value read.
    InvalidMagic(u16),
    /// A complete frame failed validation.
    Codec(CodecError),
}

/// The content of a `FrameError`.
pub enum FrameErrorView {
    InvalidMagic(u16),
    Codec(CodecErrorView),
}

impl View for FrameError {
    type V = FrameErrorView;

    open spec fn view(&self) -> FrameErrorView {
        match self {
            FrameError::InvalidMagic(m) => FrameErrorView::InvalidMagic(*m),
            FrameError::Codec(e) => FrameErrorView::Codec(e@),
        }
    }
}

/// The state of a decoder: pending header bytes, the header whose payload
/// is being collected if any, and the payload bytes collected so far.
pub struct DecoderView {
    pub header_buf: Seq<u8>,
    pub current: Option<Header>,
    pub payload_buf: Seq<u8>,
}

impl View for FrameDecoder {
    type V = DecoderView;

    closed spec fn view(&self) -> DecoderView {
        DecoderView {
            header_buf: self.header_buf@,
            current: self.current_header,
            payload_buf: self.payload_buf@,
        }
    }
}

/// Packets and errors, each in order.
pub struct DecodeOutput {
    pub packets: Seq<PacketView>,
    pub errors: Seq<FrameErrorView>,
}

impl View for DecodeResult {
    type V = DecodeOutput;

    open spec fn view(&self) -> DecodeOutput {
        DecodeOutput {
            packets: self.packets@.map_values(|p: Packet| p@),
            errors: self.errors@.map_values(|e: FrameError| e@),
        }
    }
}

/// Nothing produced.
pub open spec fn no_output() -> DecodeOutput {
    DecodeOutput { packets: Seq::empty(), errors: Seq::empty() }
}

/// The output `a` followed by the output `b`.
pub open spec fn concat(a: DecodeOutput, b: DecodeOutput) -> DecodeOutput {
    DecodeOutput { packets: a.packets + b.packets, errors: a.errors + b.errors }
}

/// The state of a fresh decoder: collecting a header, nothing buffered.
pub open spec fn initial_state() -> DecoderView {
    DecoderView { header_buf: Seq::empty(), current: None, payload_buf: Seq::empty() }
}

/// What finishing a complete frame produces: its packet, or its error.
pub open spec fn finish_spec(header: Header, payload: Seq<u8>) -> DecodeOutput {
    match decode_frame_spec(header, payload) {
        Ok(p) => DecodeOutput { packets: seq![p], errors: Seq::empty() },
        Err(e) => DecodeOutput { packets: Seq::empty(), errors: seq![FrameErrorView::Codec(e)] },
    }
}

/// Looking for a header at the front of `buf`: while nine bytes are there
/// and do not start with the magic, report the magic read and drop one
/// byte. Gives the bytes left, the header found if any, and the errors.
pub open spec fn scan_header(buf: Seq<u8>) -> (Seq<u8>, Option<Header>, Seq<FrameErrorView>)
    decreases buf.len(),
{
    if buf.len() < HEADER_LEN {
        (buf, None, Seq::empty())
    } else {
        match parse_header(buf.subrange(0, HEADER_LEN as int)) {
            Ok(h) => (buf.subrange(HEADER_LEN as int, buf.len() as int), Some(h), Seq::empty()),
            Err(HeaderError::InvalidMagic(m)) => {
                let (rest, found, errors) = scan_header(buf.subrange(1, buf.len() as int));
                (rest, found, seq![FrameErrorView::InvalidMagic(m)] + errors)
            },
            Err(HeaderError::ShortBuffer(_)) => (buf, None, Seq::empty()),
        }
    }
}

/// The effect of one byte on a decoder.
pub open spec fn step(d: DecoderView, byte: u8) -> (DecoderView, DecodeOutput) {
    match d.current {
        None => {
            let (rest, found, errors) = scan_header(d.header_buf.push(byte));
            let scanned = DecodeOutput { packets: Seq::empty(), errors };
            match found {
                None => (DecoderView { header_buf: rest, ..d }, scanned),
                Some(h) => {
                    if h.length == 0 {
                        (
                            DecoderView { header_buf: rest, ..d },
                            concat(scanned, finish_spec(h, Seq::empty())),
                        )
                    } else {
                        (
                            DecoderView {
                                header_buf: rest,
                                current: Some(h),
                                payload_buf: Seq::empty(),
                            },
                            scanned,
                        )
                    }
                },
            }
        },
        Some(h) => {
            let payload = d.payload_buf.push(byte);
            if payload.len() == h.length as int {
                (
                    DecoderView { current: None, payload_buf: Seq::empty(), ..d },
                    finish_spec(h, payload),
                )
            } else {
                (DecoderView { payload_buf: payload, ..d }, no_output())
            }
        },
    }
}

/// The effect of a sequence of bytes on a decoder, one byte after another:
/// the final state and everything produced on the way.
pub open spec fn feed(d: DecoderView, bytes: Seq<u8>) -> (DecoderView, DecodeOutput)
    decreases bytes.len(),
{
    if bytes.len() == 0 {
        (d, no_output())
    } else {
        let (mid, first) = feed(d, bytes.drop_last());
        let (last_state, last) = step(mid, bytes.last());
        (last_state, concat(first, last))
    }
}

/// A decoder is either collecting a header, with fewer than nine bytes
/// pending and no payload, or collecting the payload of a held header that
/// carried the magic, with fewer bytes than it declared.
pub open spec fn decoder_wf(d: DecoderView) -> bool {
    &&& d.header_buf.len() < HEADER_LEN
    &&& match d.current {
        None => d.payload_buf.len() == 0,
        Some(h) => h.magic == HEADER_MAGIC && d.payload_buf.len() < h.length as int,
    }
}

impl FrameDecoder {
    pub open spec fn wf(&self) -> bool {
        decoder_wf(self@)
    }

    /// A decoder collecting a header, with nothing buffered.
    pub fn new() -> (r: Self)
        ensures
            r@ == initial_state(),
            r.wf(),
    {
        FrameDecoder { header_buf: Vec::new(), current_header: None, payload_buf: Vec::new() }
    }

    /// Feeds a chunk of the stream to the decoder and returns the packets
    /// completed and the errors met during this call.
    pub fn decode(&mut self, input: &[u8]) -> (r: DecodeResult)
        requires
            old(self).wf(),
        ensures
            final(self).wf(),
            (final(self)@, r@) == feed(old(self)@, input@),
    {
        let mut result = DecodeResult::default();
        let mut i: usize = 0;
        while i < input.len()
            invariant
                i <= input@.len(),
                self.wf(),
                (self@, result@) == feed(old(self)@, input@.subrange(0, i as int)),
            decreases input@.len() - i,
        {
            let byte = input[i];
            proof {
                lemma_step_wf(self@, byte);
            }
            self.push_byte(byte, &mut result);
            assert(input@.subrange(0, i + 1).drop_last() == input@.subrange(0, i as int));
            i += 1;
        }
        assert(input@.subrange(0, input@.len() as int) == input@);
        result
    }

    /// Processes one byte of the stream.
    fn push_byte(&mut self, byte: u8, result: &mut DecodeResult)
        ensures
            final(self)@ == step(old(self)@, byte).0,
            final(result)@ == concat(old(result)@, step(old(self)@, byte).1),
    {
        if self.current_header.is_none() {
            self.header_buf.push(byte);
            if let Some(parsed_header) = self.try_extract_header(result) {
                if parsed_header.length == 0 {
                    self.finish_frame(parsed_header, Vec::new(), result);
                } else {
                    self.payload_buf.clear();
                    self.current_header = Some(parsed_header);
                }
            }
            assert(result@.packets =~= concat(old(result)@, step(old(self)@, byte).1).packets);
            assert(result@.errors =~= concat(old(result)@, step(old(self)@, byte).1).errors);
        } else {
            let parsed_header = self.current_header.unwrap();
            let expected_len = parsed_header.length as usize;
            self.payload_buf.push(byte);
            if self.payload_buf.len() == expected_len {
                self.current_header = None;
                let mut payload = Vec::new();
                std::mem::swap(&mut payload, &mut self.payload_buf);
                self.finish_frame(parsed_header, payload, result);
            } else {
                assert(result@.packets =~= concat(old(result)@, no_output()).packets);
                assert(result@.errors =~= concat(old(result)@, no_output()).errors);
            }
        }
    }

    /// Looks for a header at the front of the header buffer, dropping one
    /// byte after each window without the magic and reporting it.
    fn try_extract_header(&mut self, result: &mut DecodeResult) -> (r: Option<Header>)
        ensures
            final(self).header_buf@ == scan_header(old(self).header_buf@).0,
            r == scan_header(old(self).header_buf@).1,
            final(self).current_header == old(self).current_header,
            final(self).payload_buf@ == old(self).payload_buf@,
            final(result)@ == concat(
                old(result)@,
                DecodeOutput {
                    packets: Seq::empty(),
                    errors: scan_header(old(self).header_buf@).2,
                },
            ),
    {
        loop
            invariant
                self.current_header == old(self).current_header,
                self.payload_buf@ == old(self).payload_buf@,
                result@.packets == old(result)@.packets,
                ({
                    let (rest, found, errors) = scan_header(self.header_buf@);
                    let (rest0, found0, errors0) = scan_header(old(self).header_buf@);
                    &&& rest == rest0
                    &&& found == found0
                    &&& old(result)@.errors + errors0 == result@.errors + errors
                }),
            decreases self.header_buf@.len(),
        {
            if self.header_buf.len() < HEADER_LEN {
                assert(result@.errors + Seq::<FrameErrorView>::empty() =~= result@.errors);
                assert(result@.packets =~= old(result)@.packets + Seq::<PacketView>::empty());
                return None;
            }
            match Header::from_bytes(&self.header_buf.as_slice()[0..HEADER_LEN]) {
                Ok(parsed_header) => {
                    let rest = self.header_buf.split_off(HEADER_LEN);
                    self.header_buf = rest;
                    assert(result@.errors + Seq::<FrameErrorView>::empty() =~= result@.errors);
                    assert(result@.packets =~= old(result)@.packets + Seq::<PacketView>::empty());
                    return Some(parsed_header);
                },
                Err(HeaderError::InvalidMagic(magic)) => {
                    let ghost before = result@.errors;
                    result.errors.push(FrameError::InvalidMagic(magic));
                    assert(result@.errors =~= before.push(FrameErrorView::InvalidMagic(magic)));
                    assert(result@.packets =~= old(result)@.packets);
                    let ghost buf = self.header_buf@;
                    self.header_buf.remove(0);
                    assert(self.header_buf@ =~= buf.subrange(1, buf.len() as int));
                    let ghost tail = scan_header(self.header_buf@).2;
                    assert(before + (seq![FrameErrorView::InvalidMagic(magic)] + tail)
                        =~= result@.errors + tail);
                },
                Err(HeaderError::ShortBuffer(_)) => {
                    assert(result@.errors + Seq::<FrameErrorView>::empty() =~= result@.errors);
                    assert(result@.packets =~= old(result)@.packets + Seq::<PacketView>::empty());
                    return None;
                },
            }
        }
    }

    /// Validates a complete frame and records its packet or its error.
    fn finish_frame(&mut self, parsed_header: Header, payload: Vec<u8>, result: &mut DecodeResult)
        ensures
            *final(self) == *old(self),
            final(result)@ == concat(old(result)@, finish_spec(parsed_header, payload@)),
    {
        let ghost before = result@;
        match decode_frame(&parsed_header, payload.as_slice()) {
            Ok(decoded_packet) => {
                result.packets.push(decoded_packet);
            },
            Err(err) => {
                result.errors.push(FrameError::Codec(err));
            },
        }
        assert(result@.packets =~= concat(before, finish_spec(parsed_header, payload@)).packets);
        assert(result@.errors =~= concat(before, finish_spec(parsed_header, payload@)).errors);
    }
}

impl Default for FrameDecoder {
    fn default() -> (r: Self)
        ensures
            r@ == initial_state(),
            r.wf(),
    {
        Self::new()
    }
}

impl Default for DecodeResult {
    fn default() -> (r: Self)
        ensures
            r@ == no_output(),
    {
        let r = DecodeResult { packets: Vec::new(), errors: Vec::new() };
        assert(r@.packets =~= Seq::<PacketView>::empty());
        assert(r@.errors =~= Seq::<FrameErrorView>::empty());
        r
    }
}

/// Scanning a buffer with at most nine bytes leaves fewer than nine, and
/// any header it finds carries the magic.
proof fn lemma_scan_short(buf: Seq<u8>)
    requires
        buf.len() <= HEADER_LEN,
    ensures
        scan_header(buf).0.len() < HEADER_LEN,
        scan_header(buf).1 matches Some(h) ==> h.magic == HEADER_MAGIC,
{
    if buf.len() == HEADER_LEN {
        let tail = buf.subrange(1, buf.len() as int);
        assert(scan_header(tail).0 == tail);
        assert(scan_header(tail).1 is None);
    }
}

/// One byte keeps a decoder well formed.
pub proof fn lemma_step_wf(d: DecoderView, byte: u8)
    requires
        decoder_wf(d),
    ensures
        decoder_wf(step(d, byte).0),
{
    if d.current is None {
        lemma_scan_short(d.header_buf.push(byte));
    }
}

/// A decoder collecting a header, with `buf` pending.
pub open spec fn seeking(buf: Seq<u8>) -> DecoderView {
    DecoderView { header_buf: buf, current: None, payload_buf: Seq::empty() }
}

/// The output of feeding a chunk list: each chunk fed in turn to the state
/// the previous ones left, outputs concatenated.
pub open spec fn feed_chunks(d: DecoderView, chunks: Seq<Seq<u8>>) -> (DecoderView, DecodeOutput)
    decreases chunks.len(),
{
    if chunks.len() == 0 {
        (d, no_output())
    } else {
        let (mid, first) = feed_chunks(d, chunks.drop_last());
        let (last_state, last) = feed(mid, chunks.last());
        (last_state, concat(first, last))
    }
}

/// The chunks of a list laid end to end.
pub open spec fn join(chunks: Seq<Seq<u8>>) -> Seq<u8>
    decreases chunks.len(),
{
    if chunks.len() == 0 {
        Seq::empty()
    } else {
        join(chunks.drop_last()) + chunks.last()
    }
}

/// The errors reported while the windows at positions `0 .. n` of `s` are
/// dropped for want of the magic.
pub open spec fn magic_errors(s: Seq<u8>, n: int) -> Seq<FrameErrorView> {
    Seq::new(n as nat, |k: int| FrameErrorView::InvalidMagic(be16(s[k], s[k + 1])))
}

proof fn lemma_concat_no_output(o: DecodeOutput)
    ensures
        concat(o, no_output()) == o,
        concat(no_output(), o) == o,
{
    assert(o.packets + Seq::<PacketView>::empty() =~= o.packets);
    assert(o.errors + Seq::<FrameErrorView>::empty() =~= o.errors);
    assert(Seq::<PacketView>::empty() + o.packets =~= o.packets);
    assert(Seq::<FrameErrorView>::empty() + o.errors =~= o.errors);
}

proof fn lemma_concat_assoc(a: DecodeOutput, b: DecodeOutput, c: DecodeOutput)
    ensures
        concat(concat(a, b), c) == concat(a, concat(b, c)),
{
    assert(a.packets + b.packets + c.packets =~= a.packets + (b.packets + c.packets));
    assert(a.errors + b.errors + c.errors =~= a.errors + (b.errors + c.errors));
}

/// Feeding `a` then `b` is feeding `a + b`: the state after `b` and the two
/// outputs in order.
pub proof fn lemma_feed_split(d: DecoderView, a: Seq<u8>, b: Seq<u8>)
    ensures
        ({
            let (mid, first) = feed(d, a);
            let (last_state, last) = feed(mid, b);
            feed(d, a + b) == (last_state, concat(first, last))
        }),
    decreases b.len(),
{
    if b.len() == 0 {
        assert(a + b =~= a);
        lemma_concat_no_output(feed(d, a).1);
    } else {
        assert((a + b).drop_last() =~= a + b.drop_last());
        assert((a + b).last() == b.last());
        lemma_feed_split(d, a, b.drop_last());
        let (mid, first) = feed(d, a);
        let (m2, second) = feed(mid, b.drop_last());
        let (m3, third) = step(m2, b.last());
        lemma_concat_assoc(first, second, third);
    }
}

/// Arbitrary fragmentation: feeding a stream in chunks of any sizes, one
/// call per chunk, leaves the same state and yields the same packets and
/// errors, in the same order, as feeding it in one call.
pub proof fn lemma_fragmentation(d: DecoderView, chunks: Seq<Seq<u8>>)
    ensures
        feed_chunks(d, chunks) == feed(d, join(chunks)),
    decreases chunks.len(),
{
    if chunks.len() > 0 {
        lemma_fragmentation(d, chunks.drop_last());
        lemma_feed_split(d, join(chunks.drop_last()), chunks.last());
    }
}

/// The one-byte chunks of a stream are joined back into the stream.
proof fn lemma_join_bytes(s: Seq<u8>)
    ensures
        join(Seq::new(s.len(), |i: int| seq![s[i]])) == s,
    decreases s.len(),
{
    let chunks = Seq::new(s.len(), |i: int| seq![s[i]]);
    if s.len() > 0 {
        let prefix = s.drop_last();
        assert(chunks.drop_last() =~= Seq::new(prefix.len(), |i: int| seq![prefix[i]]));
        lemma_join_bytes(prefix);
        assert(prefix + seq![s.last()] =~= s);
    }
}

/// Feeding a stream one byte per call gives what feeding it in one call
/// gives.
pub proof fn lemma_bytewise(d: DecoderView, s: Seq<u8>)
    ensures
        feed_chunks(d, Seq::new(s.len(), |i: int| seq![s[i]])) == feed(d, s),
{
    lemma_fragmentation(d, Seq::new(s.len(), |i: int| seq![s[i]]));
    lemma_join_bytes(s);
}

/// While fewer than nine bytes are pending, bytes only pile up.
proof fn lemma_collect_header(buf: Seq<u8>, x: Seq<u8>)
    requires
        buf.len() + x.len() < HEADER_LEN,
    ensures
        feed(seeking(buf), x) == (seeking(buf + x), no_output()),
    decreases x.len(),
{
    if x.len() == 0 {
        assert(buf + x =~= buf);
    } else {
        lemma_collect_header(buf, x.drop_last());
        assert((buf + x.drop_last()).push(x.last()) =~= buf + x);
        lemma_concat_no_output(no_output());
    }
}

/// While the payload is short of its declared length, bytes only pile up.
proof fn lemma_collect_payload(h: Header, buf: Seq<u8>, x: Seq<u8>)
    requires
        buf.len() + x.len() < h.length as int,
    ensures
        feed(
            DecoderView { header_buf: Seq::empty(), current: Some(h), payload_buf: buf },
            x,
        ) == (
            DecoderView { header_buf: Seq::empty(), current: Some(h), payload_buf: buf + x },
            no_output(),
        ),
    decreases x.len(),
{
    if x.len() == 0 {
        assert(buf + x =~= buf);
    } else {
        lemma_collect_payload(h, buf, x.drop_last());
        assert((buf + x.drop_last()).push(x.last()) =~= buf + x);
        lemma_concat_no_output(no_output());
    }
}

/// With the first eight bytes of a header pending, its last byte and a
/// payload of the declared length complete exactly one frame and leave a
/// fresh decoder.
proof fn lemma_finish_header_and_payload(h: Header, payload: Seq<u8>)
    requires
        h.magic == HEADER_MAGIC,
        payload.len() == h.length as int,
    ensures
        feed(seeking(header_bytes(h).subrange(0, 8)), seq![header_bytes(h)[8]] + payload) == (
            initial_state(),
            finish_spec(h, payload),
        ),
{
    let hb = header_bytes(h);
    let d0 = seeking(hb.subrange(0, 8));
    let first = seq![hb[8]];
    assert(first.drop_last() =~= Seq::<u8>::empty());
    assert(hb.subrange(0, 8).push(hb[8]) =~= hb);
    lemma_header_round_trip(h, Seq::empty());
    assert(hb + Seq::<u8>::empty() =~= hb);
    assert(hb.subrange(0, HEADER_LEN as int) =~= hb);
    assert(scan_header(hb) == (Seq::<u8>::empty(), Some(h), Seq::<FrameErrorView>::empty())) by {
        assert(hb.subrange(HEADER_LEN as int, hb.len() as int) =~= Seq::<u8>::empty());
    }
    lemma_concat_no_output(no_output());
    lemma_feed_split(d0, first, payload);
    if h.length == 0 {
        assert(payload =~= Seq::<u8>::empty());
        lemma_concat_no_output(finish_spec(h, payload));
        assert(seeking(Seq::empty()) == initial_state());
        assert(first + payload =~= first);
        assert(first.last() == hb[8]);
        assert(feed(d0, first.drop_last()) == (d0, no_output()));
        assert(step(d0, hb[8]) == (initial_state(), concat(no_output(), finish_spec(h, payload))));
        assert(feed(d0, first) == (initial_state(), finish_spec(h, payload)));
    } else {
        let d1 = DecoderView {
            header_buf: Seq::empty(),
            current: Some(h),
            payload_buf: Seq::empty(),
        };
        assert(first.last() == hb[8]);
        assert(feed(d0, first.drop_last()) == (d0, no_output()));
        assert(step(d0, hb[8]) == (d1, no_output()));
        assert(feed(d0, first) == (d1, no_output()));
        let init = payload.drop_last();
        lemma_collect_payload(h, Seq::empty(), init);
        assert(Seq::<u8>::empty() + init =~= init);
        assert(init.push(payload.last()) =~= payload);
        lemma_concat_no_output(finish_spec(h, payload));
        let d2 = DecoderView { header_buf: Seq::empty(), current: Some(h), payload_buf: init };
        assert(feed(d1, init) == (d2, no_output()));
        assert(step(d2, payload.last()) == (initial_state(), finish_spec(h, payload)));
        assert(feed(d1, payload) == (initial_state(), finish_spec(h, payload)));
    }
}

/// A fresh decoder fed one well-formed frame (a header with the magic and a
/// payload of the declared length) reports exactly that frame's outcome and
/// is fresh again.
pub proof fn lemma_feed_one_frame(h: Header, payload: Seq<u8>)
    requires
        h.magic == HEADER_MAGIC,
        payload.len() == h.length as int,
    ensures
        feed(initial_state(), header_bytes(h) + payload) == (
            initial_state(),
            finish_spec(h, payload),
        ),
{
    let hb = header_bytes(h);
    let head = hb.subrange(0, 8);
    let tail = seq![hb[8]] + payload;
    assert(hb + payload =~= head + tail);
    lemma_feed_split(initial_state(), head, tail);
    assert(Seq::<u8>::empty() + head =~= head);
    assert(initial_state() == seeking(Seq::empty()));
    lemma_collect_header(Seq::empty(), head);
    lemma_finish_header_and_payload(h, payload);
    lemma_concat_no_output(finish_spec(h, payload));
}

/// A fresh decoder fed the frame of an encodable packet yields that packet,
/// no error, and is fresh again.
pub proof fn lemma_feed_packet_frame(p: PacketView)
    requires
        encodable(p),
    ensures
        feed(initial_state(), frame_of(p)) == (
            initial_state(),
            DecodeOutput { packets: seq![p], errors: Seq::empty() },
        ),
{
    lemma_frame_layout(p);
    lemma_payload_decodes(p);
    lemma_feed_one_frame(header_of(p), payload_of(p));
}

/// From a fresh decoder, the first `n` bytes of `s` (at least eight), none
/// of whose windows before the last eight bytes starts with the magic,
/// leave those eight bytes pending and one `InvalidMagic` per dropped byte.
proof fn lemma_skip_garbage(s: Seq<u8>, n: int)
    requires
        HEADER_LEN - 1 <= n <= s.len(),
        forall|k: int| 0 <= k < n - 8 ==> #[trigger] be16(s[k], s[k + 1]) != HEADER_MAGIC,
    ensures
        feed(initial_state(), s.subrange(0, n)) == (
            seeking(s.subrange(n - 8, n)),
            DecodeOutput { packets: Seq::empty(), errors: magic_errors(s, n - 8) },
        ),
    decreases n,
{
    if n == 8 {
        assert(initial_state() == seeking(Seq::empty()));
        lemma_collect_header(Seq::empty(), s.subrange(0, 8));
        assert(Seq::<u8>::empty() + s.subrange(0, 8) =~= s.subrange(0, 8));
        assert(magic_errors(s, 0) =~= Seq::<FrameErrorView>::empty());
    } else {
        lemma_skip_garbage(s, n - 1);
        assert(s.subrange(0, n).drop_last() =~= s.subrange(0, n - 1));
        let buf = s.subrange(n - 9, n - 1).push(s[n - 1]);
        assert(buf =~= s.subrange(n - 9, n));
        assert(buf.subrange(0, HEADER_LEN as int) =~= buf);
        let tail = buf.subrange(1, buf.len() as int);
        assert(tail =~= s.subrange(n - 8, n));
        let k = n - 9;
        assert(be16(s[k], s[k + 1]) != HEADER_MAGIC);
        assert(k + 1 == n - 8);
        assert(scan_header(tail) == (tail, None::<Header>, Seq::<FrameErrorView>::empty()));
        let e = FrameErrorView::InvalidMagic(be16(s[n - 9], s[n - 8]));
        assert(seq![e] + Seq::<FrameErrorView>::empty() =~= seq![e]);
        assert(scan_header(buf) == (tail, None::<Header>, seq![e]));
        assert(magic_errors(s, n - 9) + seq![e] =~= magic_errors(s, n - 8));
        assert(Seq::<PacketView>::empty() + Seq::<PacketView>::empty() =~= Seq::<PacketView>::empty());
    }
}

/// Resync: garbage before a valid frame, with no two adjacent garbage bytes
/// reading as the magic, costs one `InvalidMagic` per garbage byte (at
/// least one) and the frame's packet is still recovered, leaving a fresh
/// decoder.
pub proof fn lemma_resync(garbage: Seq<u8>, p: PacketView)
    requires
        encodable(p),
        garbage.len() > 0,
        forall|k: int|
            0 <= k < garbage.len() - 1 ==> #[trigger] be16(garbage[k], garbage[k + 1])
                != HEADER_MAGIC,
    ensures
        ({
            let s = garbage + frame_of(p);
            let (d, out) = feed(initial_state(), s);
            &&& d == initial_state()
            &&& out.packets == seq![p]
            &&& out.errors.len() == garbage.len()
            &&& out.errors == magic_errors(s, garbage.len() as int)
            &&& forall|k: int| 0 <= k < out.errors.len() ==> out.errors[k] is InvalidMagic
        }),
{
    lemma_frame_layout(p);
    lemma_payload_decodes(p);
    let h = header_of(p);
    let hb = header_bytes(h);
    let s = garbage + frame_of(p);
    let g = garbage.len() as int;
    assert forall|k: int| 0 <= k < g implies #[trigger] be16(s[k], s[k + 1]) != HEADER_MAGIC by {
        if 0 <= k < g - 1 {
            assert(s[k] == garbage[k] && s[k + 1] == garbage[k + 1]);
        } else if k == g - 1 {
            assert(s[k + 1] == hb[0]);
        }
    }
    lemma_skip_garbage(s, g + 8);
    assert(s.subrange(g, g + 8) =~= hb.subrange(0, 8));
    let rest = s.subrange(g + 8, s.len() as int);
    assert(rest =~= seq![hb[8]] + payload_of(p));
    assert(s =~= s.subrange(0, g + 8) + rest);
    lemma_feed_split(initial_state(), s.subrange(0, g + 8), rest);
    lemma_finish_header_and_payload(h, payload_of(p));
    assert(Seq::<PacketView>::empty() + seq![p] =~= seq![p]);
    assert(magic_errors(s, g) + Seq::<FrameErrorView>::empty() =~= magic_errors(s, g));
}

/// Continuation after corruption: when one bit of a payload byte of frame
/// `a` is flipped and a valid frame `b` follows, the decoder reports one
/// checksum mismatch for `a`, still yields `b`, and is fresh again.
pub proof fn lemma_continue_after_corruption(a: PacketView, b: PacketView, i: int, bit: u8)
    requires
        encodable(a),
        encodable(b),
        0 <= i < payload_of(a).len(),
        bit < 8,
    ensures
        ({
            let payload = payload_of(a);
            let damaged = payload.update(i, payload[i] ^ (1u8 << bit));
            let frame = frame_of(a);
            let j = HEADER_LEN + i;
            let s = frame.update(j, frame[j] ^ (1u8 << bit)) + frame_of(b);
            feed(initial_state(), s) == (
                initial_state(),
                DecodeOutput {
                    packets: seq![b],
                    errors: seq![
                        FrameErrorView::Codec(
                            CodecErrorView::ChecksumMismatch {
                                expected: fnv1a_spec(payload),
                                actual: fnv1a_spec(damaged),
                            },
                        ),
                    ],
                },
            )
        }),
{
    lemma_frame_layout(a);
    let payload = payload_of(a);
    let old_byte = payload[i];
    let new_byte = old_byte ^ (1u8 << bit);
    assert(new_byte != old_byte) by (bit_vector)
        requires
            bit < 8,
            new_byte == old_byte ^ (1u8 << bit),
    ;
    let damaged = payload.update(i, new_byte);
    lemma_single_byte_change_detected(payload, i, new_byte);
    let frame = frame_of(a);
    let j = HEADER_LEN + i;
    assert(frame[j] == old_byte);
    let corrupted = frame.update(j, new_byte);
    let h = header_of(a);
    assert(corrupted =~= header_bytes(h) + damaged);
    lemma_feed_one_frame(h, damaged);
    lemma_feed_packet_frame(b);
    lemma_feed_split(initial_state(), corrupted, frame_of(b));
    assert(Seq::<PacketView>::empty() + seq![b] =~= seq![b]);
    let e = FrameErrorView::Codec(
        CodecErrorView::ChecksumMismatch { expected: fnv1a_spec(payload), actual: fnv1a_spec(damaged) },
    );
    assert(seq![e] + Seq::<FrameErrorView>::empty() =~= seq![e]);
}

/// The frames of a list of packets laid end to end.
pub open spec fn frames_of(ps: Seq<PacketView>) -> Seq<u8>
    decreases ps.len(),
{
    if ps.len() == 0 {
        Seq::empty()
    } else {
        frames_of(ps.drop_last()) + frame_of(ps.last())
    }
}

/// A fresh decoder fed the frames of encodable packets yields exactly those
/// packets, in order, with no error, and is fresh again.
pub proof fn lemma_feed_frames(ps: Seq<PacketView>)
    requires
        forall|k: int| 0 <= k < ps.len() ==> encodable(#[trigger] ps[k]),
    ensures
        feed(initial_state(), frames_of(ps)) == (
            initial_state(),
            DecodeOutput { packets: ps, errors: Seq::empty() },
        ),
    decreases ps.len(),
{
    if ps.len() == 0 {
        assert(ps =~= Seq::<PacketView>::empty());
    } else {
        let init = ps.drop_last();
        assert forall|k: int| 0 <= k < init.len() implies encodable(#[trigger] init[k]) by {
            assert(init[k] == ps[k]);
        }
        lemma_feed_frames(init);
        assert(encodable(ps[ps.len() - 1]));
        lemma_feed_packet_frame(ps.last());
        lemma_feed_split(initial_state(), frames_of(init), frame_of(ps.last()));
        assert(init + seq![ps.last()] =~= ps);
        assert(Seq::<FrameErrorView>::empty() + Seq::<FrameErrorView>::empty()
            =~= Seq::<FrameErrorView>::empty());
    }
}

/// A stream made of the frames of encodable packets, cut into chunks of
/// any sizes and fed one chunk per call, yields exactly those packets in
/// order, with no error.
pub proof fn lemma_frames_any_chunking(ps: Seq<PacketView>, chunks: Seq<Seq<u8>>)
    requires
        forall|k: int| 0 <= k < ps.len() ==> encodable(#[trigger] ps[k]),
        join(chunks) == frames_of(ps),
    ensures
        feed_chunks(initial_state(), chunks) == (
            initial_state(),
            DecodeOutput { packets: ps, errors: Seq::empty() },
        ),
{
    lemma_fragmentation(initial_state(), chunks);
    lemma_feed_frames(ps);
}

} // verus!
