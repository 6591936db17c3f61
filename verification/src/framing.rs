//! Length-prefixed framing over a byte stream.
//!
//! The transport is stream-oriented: one read may carry zero, one, or
//! several frames plus a partial tail. Every encoded message travels in a
//! frame of a 4-byte big-endian payload length followed by exactly that
//! many payload bytes. The reader accumulates bytes in a `FrameBuffer` and
//! only decodes once a complete frame is present; a header that declares
//! more than `MAX_ENCODED_LEN` bytes means the stream is desynchronized,
//! which is fatal for the connection.

use vstd::prelude::*;

use crate::encoding::{lemma_u32_be_round_trip, push_u32_be, read_bytes, read_u32_be, u32_from_be,
    u32_to_be};
use crate::protocol::{decode, msg_wf, spec_decode, spec_encode, try_encode, write_bytes,
    DecodeError, Message, MessageV, MAX_ENCODED_LEN};

verus! {

/// One frame: the payload's length as 4 big-endian bytes, then the
/// payload.
pub open spec fn frame_of(payload: Seq<u8>) -> Seq<u8> {
    u32_to_be(payload.len() as u32) + payload
}

/// The payload length the 4-byte header at the front of `buf` declares.
pub open spec fn declared_len(buf: Seq<u8>) -> nat
    recommends
        buf.len() >= 4,
{
    u32_from_be(buf.take(4)) as nat
}

/// The buffer holds too few bytes for a complete, sanely-sized frame.
pub open spec fn stream_incomplete(buf: Seq<u8>) -> bool {
    buf.len() < 4 || (declared_len(buf) <= MAX_ENCODED_LEN && buf.len() < 4 + declared_len(buf))
}

/// The header declares an impossible payload length: the stream no longer
/// starts at a frame boundary.
pub open spec fn stream_desynced(buf: Seq<u8>) -> bool {
    buf.len() >= 4 && declared_len(buf) > MAX_ENCODED_LEN
}

/// The complete frame at the front of `buf`: its payload and the bytes
/// after it.
pub open spec fn peek_frame(buf: Seq<u8>) -> Option<(Seq<u8>, Seq<u8>)> {
    if buf.len() >= 4 && declared_len(buf) <= MAX_ENCODED_LEN && buf.len() >= 4 + declared_len(
        buf,
    ) {
        Some(
            (
                buf.subrange(4, 4 + declared_len(buf) as int),
                buf.skip(4 + declared_len(buf) as int),
            ),
        )
    } else {
        None
    }
}

/// The decode results of all complete frames at the front of `buf`, in
/// order.
pub open spec fn stream_items(buf: Seq<u8>) -> Seq<Result<MessageV, DecodeError>>
    decreases buf.len(),
{
    match peek_frame(buf) {
        None => Seq::empty(),
        Some((payload, rest)) => seq![spec_decode(payload)] + stream_items(rest),
    }
}

/// What stays buffered after all complete frames at the front of `buf`.
pub open spec fn stream_rest(buf: Seq<u8>) -> Seq<u8>
    decreases buf.len(),
{
    match peek_frame(buf) {
        None => buf,
        Some((payload, rest)) => stream_rest(rest),
    }
}

/// The concatenated frames of the encodings of `ms`: what the wire
/// carries when those messages are sent back to back.
pub open spec fn encode_stream(ms: Seq<MessageV>) -> Seq<u8>
    decreases ms.len(),
{
    if ms.len() == 0 {
        Seq::empty()
    } else {
        frame_of(spec_encode(ms[0])) + encode_stream(ms.skip(1))
    }
}

proof fn lemma_peek_frame_concat(payload: Seq<u8>, rest: Seq<u8>)
    requires
        payload.len() <= MAX_ENCODED_LEN,
    ensures
        peek_frame(frame_of(payload) + rest) == Some((payload, rest)),
{
    let s = frame_of(payload) + rest;
    lemma_u32_be_round_trip(payload.len() as u32);
    assert(s.take(4) =~= u32_to_be(payload.len() as u32));
    assert(declared_len(s) == payload.len());
    assert(s.subrange(4, 4 + payload.len() as int) =~= payload);
    assert(s.skip(4 + payload.len() as int) =~= rest);
}

/// Framing reassembly: however the wire bytes of a sequence of
/// well-formed messages are cut into chunks, the buffer holds their
/// concatenation, and draining it yields exactly those messages, in
/// order, with nothing left over.
pub proof fn lemma_stream_round_trip(ms: Seq<MessageV>)
    requires
        forall|i: int| 0 <= i < ms.len() ==> msg_wf(#[trigger] ms[i]),
    ensures
        stream_items(encode_stream(ms)) =~= ms.map_values(
            |m: MessageV| Ok::<MessageV, DecodeError>(m),
        ),
        stream_rest(encode_stream(ms)) =~= Seq::<u8>::empty(),
    decreases ms.len(),
{
    if ms.len() == 0 {
        assert(peek_frame(encode_stream(ms)) is None);
    } else {
        let p = spec_encode(ms[0]);
        crate::protocol::lemma_encoded_len_bound(ms[0]);
        lemma_peek_frame_concat(p, encode_stream(ms.skip(1)));
        crate::protocol::lemma_round_trip(ms[0]);
        lemma_stream_round_trip(ms.skip(1));
        assert(stream_items(encode_stream(ms)) =~= seq![Ok::<MessageV, DecodeError>(ms[0])]
            + stream_items(encode_stream(ms.skip(1))));
    }
}

/// What one inspection of the reassembly buffer yields.
pub enum ReadEvent {
    /// No complete frame is buffered yet; read more bytes first.
    NeedMoreBytes,
    /// A complete frame decoded into a message.
    Message(Message),
    /// A complete frame whose payload failed to decode; the frame is
    /// dropped and the connection stays usable.
    Corrupt(DecodeError),
    /// The frame header declares an impossible length; the connection is
    /// no longer at a frame boundary and must be torn down.
    Desynchronized,
}

/// Reassembles frames from the chunks a stream read yields.
pub struct FrameBuffer {
    buf: Vec<u8>,
}

impl View for FrameBuffer {
    type V = Seq<u8>;

    closed spec fn view(&self) -> Seq<u8> {
        self.buf@
    }
}

impl FrameBuffer {
    pub fn new() -> (r: Self)
        ensures
            r@ == Seq::<u8>::empty(),
    {
        FrameBuffer { buf: Vec::new() }
    }

    /// Appends the bytes one stream read returned; boundaries between
    /// reads carry no meaning.
    pub fn push_chunk(&mut self, chunk: &[u8])
        ensures
            final(self)@ == old(self)@ + chunk@,
    {
        let slen: usize = chunk.len();
        let mut i: usize = 0;
        while i < slen
            invariant
                0 <= i <= slen,
                slen == chunk@.len(),
                self.buf@ == old(self)@ + chunk@.take(i as int),
            decreases slen - i,
        {
            self.buf.push(chunk[i]);
            proof {
                assert(old(self)@ + chunk@.take(i + 1) =~= (old(self)@ + chunk@.take(
                    i as int,
                )).push(chunk@[i as int]));
            }
            i += 1;
        }
        proof {
            assert(old(self)@ + chunk@.take(slen as int) =~= old(self)@ + chunk@);
        }
    }

    /// Takes the frame at the front of the buffer, if one is complete,
    /// and decodes it.
    pub fn next_event(&mut self) -> (e: ReadEvent)
        ensures
            stream_incomplete(old(self)@) ==> e is NeedMoreBytes && final(self)@ == old(self)@,
            stream_desynced(old(self)@) ==> e is Desynchronized && final(self)@ == old(self)@,
            match peek_frame(old(self)@) {
                Some((payload, rest)) => final(self)@ == rest && match spec_decode(payload) {
                    Ok(v) => e matches ReadEvent::Message(m) && m@ == v,
                    Err(err) => e matches ReadEvent::Corrupt(e2) && e2 == err,
                },
                None => final(self)@ == old(self)@,
            },
    {
        if self.buf.len() < 4 {
            return ReadEvent::NeedMoreBytes;
        }
        let n = read_u32_be(self.buf.as_slice(), 0);
        proof {
            assert(self.buf@.subrange(0, 4) =~= self.buf@.take(4));
        }
        if n as usize > MAX_ENCODED_LEN {
            return ReadEvent::Desynchronized;
        }
        if self.buf.len() - 4 < n as usize {
            return ReadEvent::NeedMoreBytes;
        }
        let payload = read_bytes(self.buf.as_slice(), 4, n as usize);
        let rest = self.buf.split_off(4 + n as usize);
        self.buf = rest;
        proof {
            assert(payload@ =~= peek_frame(old(self)@)->Some_0.0);
            assert(self.buf@ =~= peek_frame(old(self)@)->Some_0.1);
        }
        match decode(payload.as_slice()) {
            Ok(m) => ReadEvent::Message(m),
            Err(e) => ReadEvent::Corrupt(e),
        }
    }

    /// Number of buffered bytes not yet consumed as frames.
    pub fn buffered_len(&self) -> (r: usize)
        ensures
            r == self@.len(),
    {
        self.buf.len()
    }
}

/// Encodes a well-formed message and wraps it in its frame: the bytes the
/// writer loop puts on the wire. Reports a message too large to frame.
pub fn encode_framed(m: &Message) -> (r: Option<Vec<u8>>)
    ensures
        match r {
            Some(v) => msg_wf(m@) && v@ == frame_of(spec_encode(m@)),
            None => !msg_wf(m@),
        },
{
    match try_encode(m) {
        None => None,
        Some(payload) => {
            let mut out: Vec<u8> = Vec::new();
            push_u32_be(&mut out, payload.len() as u32);
            write_bytes(&mut out, &payload);
            proof {
                assert(out@ =~= frame_of(spec_encode(m@)));
            }
            Some(out)
        },
    }
}

} // verus!
