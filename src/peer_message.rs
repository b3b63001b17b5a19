//! Peer-wire messages: the handshake, the message kinds, and the framer that
//! cuts a byte stream into length-prefixed messages and back.

use vstd::prelude::*;
use bytes::Buf;
use crate::text::{ascii, ascii_bytes, hex_encode, hex_of};

verus! {

/// The largest frame length accepted, and sent: 64 KiB.
pub const MAX: usize = 65536;

/// The kind of a peer-wire message.
#[derive(Debug, Clone, Copy, PartialEq, Eq, Structural)]
pub enum MessageTag {
    Choke,
    Unchoke,
    Interested,
    NotInterested,
    Have,
    Bitfield,
    Request,
    Piece,
    Cancel,
}

/// Why bytes from a peer break the protocol.
#[derive(Debug, Clone, Copy, PartialEq, Eq, Structural)]
pub enum ProtocolError {
    /// A frame declares a length above the largest accepted, or a message
    /// to send would need one.
    FrameTooLarge,
    /// A frame's tag byte names no message kind.
    UnknownTag(u8),
    /// The peer's handshake is not 68 bytes.
    ShortHandshake,
    /// Another kind of message than the one expected.
    UnexpectedMessage,
    /// A message's payload is too short for its kind.
    MalformedPayload,
}

/// The wire byte of a message kind.
pub open spec fn tag_byte(t: MessageTag) -> u8 {
    match t {
        MessageTag::Choke => 0,
        MessageTag::Unchoke => 1,
        MessageTag::Interested => 2,
        MessageTag::NotInterested => 3,
        MessageTag::Have => 4,
        MessageTag::Bitfield => 5,
        MessageTag::Request => 6,
        MessageTag::Piece => 7,
        MessageTag::Cancel => 8,
    }
}

/// The message kind of a wire byte, if it names one.
pub open spec fn tag_of_byte(b: u8) -> Option<MessageTag> {
    if b == 0 {
        Some(MessageTag::Choke)
    } else if b == 1 {
        Some(MessageTag::Unchoke)
    } else if b == 2 {
        Some(MessageTag::Interested)
    } else if b == 3 {
        Some(MessageTag::NotInterested)
    } else if b == 4 {
        Some(MessageTag::Have)
    } else if b == 5 {
        Some(MessageTag::Bitfield)
    } else if b == 6 {
        Some(MessageTag::Request)
    } else if b == 7 {
        Some(MessageTag::Piece)
    } else if b == 8 {
        Some(MessageTag::Cancel)
    } else {
        None
    }
}

impl MessageTag {
    /// The message kind that a wire byte names; other bytes are refused.
    pub fn try_from(value: u8) -> (r: Result<MessageTag, ProtocolError>)
        ensures
            match r {
                Ok(t) => tag_of_byte(value) == Some(t),
                Err(e) => tag_of_byte(value) is None && e == ProtocolError::UnknownTag(value),
            },
    {
        match value {
            0 => Ok(MessageTag::Choke),
            1 => Ok(MessageTag::Unchoke),
            2 => Ok(MessageTag::Interested),
            3 => Ok(MessageTag::NotInterested),
            4 => Ok(MessageTag::Have),
            5 => Ok(MessageTag::Bitfield),
            6 => Ok(MessageTag::Request),
            7 => Ok(MessageTag::Piece),
            8 => Ok(MessageTag::Cancel),
            _ => Err(ProtocolError::UnknownTag(value)),
        }
    }

    /// The wire byte of this kind.
    pub fn to_byte(&self) -> (r: u8)
        ensures
            r == tag_byte(*self),
    {
        match self {
            MessageTag::Choke => 0,
            MessageTag::Unchoke => 1,
            MessageTag::Interested => 2,
            MessageTag::NotInterested => 3,
            MessageTag::Have => 4,
            MessageTag::Bitfield => 5,
            MessageTag::Request => 6,
            MessageTag::Piece => 7,
            MessageTag::Cancel => 8,
        }
    }
}

/// The wire byte of a message kind names that kind again.
pub proof fn lemma_tag_byte_round_trip(t: MessageTag)
    ensures
        tag_of_byte(tag_byte(t)) == Some(t),
{
}

/// A 32-bit number as four bytes, most significant first.
pub open spec fn be32(n: int) -> Seq<u8> {
    seq![
        ((n / 16777216) % 256) as u8,
        ((n / 65536) % 256) as u8,
        ((n / 256) % 256) as u8,
        (n % 256) as u8,
    ]
}

/// The number that four bytes spell, most significant first.
pub open spec fn be32_value(b: Seq<u8>) -> int {
    b[0] * 16777216 + b[1] * 65536 + b[2] * 256 + b[3]
}

/// Four bytes read back as the number they were written from.
pub proof fn lemma_be32_round_trip(n: int)
    requires
        0 <= n <= u32::MAX,
    ensures
        be32(n).len() == 4,
        be32_value(be32(n)) == n,
{
    let b = be32(n);
    assert(b[0] == (n / 16777216) % 256);
    assert(b[1] == (n / 65536) % 256);
    assert(b[2] == (n / 256) % 256);
    assert(b[3] == n % 256);
    assert(be32_value(b) == n) by (nonlinear_arith)
        requires
            0 <= n <= u32::MAX,
            b[0] == (n / 16777216) % 256,
            b[1] == (n / 65536) % 256,
            b[2] == (n / 256) % 256,
            b[3] == n % 256,
            be32_value(b) == b[0] * 16777216 + b[1] * 65536 + b[2] * 256 + b[3],
    ;
}

/// Appends a 32-bit number as four bytes, most significant first.
fn push_be32(out: &mut Vec<u8>, n: u32)
    ensures
        final(out)@ == old(out)@ + be32(n as int),
{
    out.push((n / 16777216) as u8);
    out.push(((n / 65536) % 256) as u8);
    out.push(((n / 256) % 256) as u8);
    out.push((n % 256) as u8);
    assert(final(out)@ =~= old(out)@ + be32(n as int));
}

/// Reads four bytes at `at` as a number, most significant first.
fn read_be32(b: &[u8], at: usize) -> (r: u32)
    requires
        at + 4 <= b@.len(),
    ensures
        r == be32_value(b@.subrange(at as int, at + 4)),
{
    let r = (b[at] as u32) * 16777216 + (b[at + 1] as u32) * 65536 + (b[at + 2] as u32) * 256
        + (b[at + 3] as u32);
    r
}

/// A peer-wire message: its kind and its payload.
#[derive(Debug, Clone)]
pub struct Message {
    pub tag: MessageTag,
    pub payload: Vec<u8>,
}

/// The frame of a message: length prefix (the payload's length and one for
/// the tag), tag byte, payload.
pub open spec fn frame(tag: MessageTag, payload: Seq<u8>) -> Seq<u8> {
    be32(payload.len() + 1int) + seq![tag_byte(tag)] + payload
}

/// The payload of a request for `length` bytes at `begin` of piece `index`.
pub open spec fn request_payload(index: u32, begin: u32, length: u32) -> Seq<u8> {
    be32(index as int) + be32(begin as int) + be32(length as int)
}

impl Message {
    /// The frame of this message.
    pub fn as_bytes(&self) -> (r: Vec<u8>)
        requires
            self.payload@.len() < u32::MAX,
        ensures
            r@ == frame(self.tag, self.payload@),
    {
        let length = (1 + self.payload.len()) as u32;
        let mut message: Vec<u8> = Vec::new();
        push_be32(&mut message, length);
        message.push(self.tag.to_byte());
        let mut i: usize = 0;
        let ghost head = message@;
        while i < self.payload.len()
            invariant
                i <= self.payload@.len(),
                message@ == head + self.payload@.take(i as int),
            decreases self.payload@.len() - i,
        {
            message.push(self.payload[i]);
            assert(self.payload@.take(i + 1) =~= self.payload@.take(i as int).push(
                self.payload@[i as int],
            ));
            i = i + 1;
        }
        assert(self.payload@.take(i as int) =~= self.payload@);
        assert(message@ =~= frame(self.tag, self.payload@));
        message
    }

    /// Reads a message from a frame: the length that its prefix declares,
    /// the tag byte, and all the bytes after the tag as the payload. Nothing
    /// comes of fewer than five bytes or of an unknown tag.
    pub fn from(value: &[u8]) -> (r: Option<(Message, usize)>)
        ensures
            match r {
                Some((m, length)) => {
                    &&& value@.len() >= 5
                    &&& tag_of_byte(value@[4]) == Some(m.tag)
                    &&& m.payload@ == value@.skip(5)
                    &&& length == be32_value(value@.take(4))
                },
                None => value@.len() < 5 || tag_of_byte(value@[4]) is None,
            },
    {
        if value.len() < 5 {
            return None;
        }
        let length = read_be32(value, 0);
        assert(value@.subrange(0, 4) =~= value@.take(4));
        let tag = match MessageTag::try_from(value[4]) {
            Ok(t) => t,
            Err(_) => {
                return None;
            },
        };
        let payload = vstd::slice::slice_to_vec(
            vstd::slice::slice_subrange(value, 5, value.len()),
        );
        assert(payload@ =~= value@.skip(5));
        Some((Message { tag, payload }, length as usize))
    }

    /// A request for `length` bytes at offset `begin` of piece `index`.
    pub fn new_request(index: u32, begin: u32, length: u32) -> (r: Message)
        ensures
            r.tag == MessageTag::Request,
            r.payload@ == request_payload(index, begin, length),
    {
        let mut payload: Vec<u8> = Vec::new();
        push_be32(&mut payload, index);
        push_be32(&mut payload, begin);
        push_be32(&mut payload, length);
        assert(payload@ =~= request_payload(index, begin, length));
        Message { tag: MessageTag::Request, payload }
    }

    /// The piece index, offset and block of a `Piece` message.
    pub fn read_piece(&self) -> (r: Result<(u32, u32, Vec<u8>), ProtocolError>)
        ensures
            match r {
                Ok((index, begin, block)) => {
                    &&& self.tag == MessageTag::Piece
                    &&& self.payload@.len() >= 8
                    &&& index == be32_value(self.payload@.take(4))
                    &&& begin == be32_value(self.payload@.subrange(4, 8))
                    &&& block@ == self.payload@.skip(8)
                },
                Err(e) => if self.tag != MessageTag::Piece {
                    e == ProtocolError::UnexpectedMessage
                } else {
                    self.payload@.len() < 8 && e == ProtocolError::MalformedPayload
                },
            },
    {
        if self.tag != MessageTag::Piece {
            return Err(ProtocolError::UnexpectedMessage);
        }
        let n = self.payload.len();
        if n < 8 {
            return Err(ProtocolError::MalformedPayload);
        }
        let p = self.payload.as_slice();
        let index = read_be32(p, 0);
        let begin = read_be32(p, 4);
        assert(p@.subrange(0, 4) =~= p@.take(4));
        let block = vstd::slice::slice_to_vec(vstd::slice::slice_subrange(p, 8, n));
        assert(block@ =~= p@.skip(8));
        Ok((index, begin, block))
    }

    /// The block of a `Piece` message: its payload after the piece index
    /// and the offset.
    pub fn read_block(&self) -> (r: Result<Vec<u8>, ProtocolError>)
        ensures
            match r {
                Ok(block) => self.tag == MessageTag::Piece && self.payload@.len() >= 8
                    && block@ == self.payload@.skip(8),
                Err(e) => if self.tag != MessageTag::Piece {
                    e == ProtocolError::UnexpectedMessage
                } else {
                    self.payload@.len() < 8 && e == ProtocolError::MalformedPayload
                },
            },
    {
        match self.read_piece() {
            Ok((_, _, block)) => Ok(block),
            Err(e) => Err(e),
        }
    }
}


/// The growable byte buffer of the `bytes` crate, which the framer reads
/// frames from and writes frames to.
#[verifier::external_type_specification]
#[verifier::external_body]
pub struct ExBytesMut(bytes::BytesMut);

/// The bytes that a `BytesMut` buffer holds, in order.
pub uninterp spec fn buffer_bytes(b: bytes::BytesMut) -> Seq<u8>;

/// Relies on `BytesMut`'s `AsRef<[u8]>`: a slice of the bytes it holds.
#[verifier::external_body]
fn buffer_view(b: &bytes::BytesMut) -> (r: &[u8])
    ensures
        r@ == buffer_bytes(*b),
{
    b.as_ref()
}

/// Relies on `Buf::advance` for `BytesMut`: the first `n` bytes are dropped.
/// It panics when `n` is past the end, which `requires` rules out.
#[verifier::external_body]
fn buffer_advance(b: &mut bytes::BytesMut, n: usize)
    requires
        n <= buffer_bytes(*old(b)).len(),
    ensures
        buffer_bytes(*final(b)) == buffer_bytes(*old(b)).skip(n as int),
{
    b.advance(n)
}

/// Relies on `BytesMut::extend_from_slice`: the bytes are appended. It
/// panics when the new length overflows or the buffer would need more than
/// `isize::MAX` bytes, which `requires` rules out.
#[verifier::external_body]
fn buffer_extend(b: &mut bytes::BytesMut, s: &[u8])
    requires
        buffer_bytes(*old(b)).len() + s@.len() <= isize::MAX,
    ensures
        buffer_bytes(*final(b)) == buffer_bytes(*old(b)) + s@,
{
    b.extend_from_slice(s)
}

/// The number of bytes of keep-alive frames (length zero) at the front.
pub open spec fn keepalive_prefix(b: Seq<u8>) -> int
    decreases b.len(),
{
    if b.len() >= 4 && be32_value(b.take(4)) == 0 {
        4 + keepalive_prefix(b.skip(4))
    } else {
        0
    }
}

/// What the framer makes of buffered bytes, and how many of them it
/// consumes: keep-alives are skipped; then comes a message, or nothing
/// while its frame is incomplete, or an error for a frame that is too long
/// or has an unknown tag.
pub open spec fn frame_decode(b: Seq<u8>) -> (Result<Option<(MessageTag, Seq<u8>)>, ProtocolError>, int) {
    let k = keepalive_prefix(b);
    let c = b.skip(k);
    if c.len() < 4 {
        (Ok(None), k)
    } else {
        let n = be32_value(c.take(4));
        if n > MAX {
            (Err(ProtocolError::FrameTooLarge), k)
        } else if c.len() < 4 + n {
            (Ok(None), k)
        } else {
            match tag_of_byte(c[4]) {
                None => (Err(ProtocolError::UnknownTag(c[4])), k),
                Some(t) => (Ok(Some((t, c.subrange(5, 4 + n)))), k + 4 + n),
            }
        }
    }
}

/// The decoded message, as kind and payload.
pub open spec fn decoded(r: Result<Option<Message>, ProtocolError>) -> Result<
    Option<(MessageTag, Seq<u8>)>,
    ProtocolError,
> {
    match r {
        Ok(Some(m)) => Ok(Some((m.tag, m.payload@))),
        Ok(None) => Ok(None),
        Err(e) => Err(e),
    }
}

/// Cuts a stream of bytes into peer-wire messages, and writes messages as
/// frames.
pub struct MessageFramer;

impl MessageFramer {
    /// Takes the next message from the front of `src`. Keep-alive frames are
    /// dropped on the way; an incomplete frame stays in `src` and gives
    /// nothing; a frame longer than `MAX` or with an unknown tag is an error,
    /// found before its payload is read.
    pub fn decode(&mut self, src: &mut bytes::BytesMut) -> (r: Result<Option<Message>, ProtocolError>)
        ensures
            decoded(r) == frame_decode(buffer_bytes(*old(src))).0,
            buffer_bytes(*final(src)) == buffer_bytes(*old(src)).skip(
                frame_decode(buffer_bytes(*old(src))).1,
            ),
    {
        let ghost start = buffer_bytes(*src);
        let ghost skipped: int = 0;
        assert(start.skip(0) =~= start);
        loop
            invariant
                0 <= skipped <= start.len(),
                buffer_bytes(*src) == start.skip(skipped),
                keepalive_prefix(start) == skipped + keepalive_prefix(start.skip(skipped)),
            ensures
                0 <= skipped <= start.len(),
                buffer_bytes(*src) == start.skip(skipped),
                keepalive_prefix(start) == skipped,
                buffer_bytes(*src).len() < 4 || be32_value(buffer_bytes(*src).take(4)) != 0,
            decreases buffer_bytes(*src).len(),
        {
            let view = buffer_view(src);
            if view.len() < 4 || read_be32(view, 0) != 0 {
                proof {
                    if view@.len() >= 4 {
                        assert(view@.subrange(0, 4) =~= view@.take(4));
                    }
                }
                break;
            }
            proof {
                assert(view@.subrange(0, 4) =~= view@.take(4));
                assert(start.skip(skipped).skip(4) =~= start.skip(skipped + 4));
            }
            buffer_advance(src, 4);
            proof {
                skipped = skipped + 4;
            }
        }
        let view = buffer_view(src);
        let ghost c = view@;
        proof {
            if c.len() >= 4 {
                assert(c.subrange(0, 4) =~= c.take(4));
            }
        }
        if view.len() < 4 {
            return Ok(None);
        }
        let length = read_be32(view, 0) as usize;
        if length > MAX {
            return Err(ProtocolError::FrameTooLarge);
        }
        if view.len() < 4 + length {
            return Ok(None);
        }
        let tag = match MessageTag::try_from(view[4]) {
            Ok(t) => t,
            Err(e) => {
                return Err(e);
            },
        };
        let payload = vstd::slice::slice_to_vec(vstd::slice::slice_subrange(view, 5, 4 + length));
        buffer_advance(src, 4 + length);
        proof {
            assert(start.skip(skipped).skip(4 + length) =~= start.skip(skipped + 4 + length));
        }
        Ok(Some(Message { tag, payload }))
    }

    /// Appends the frame of `item` to `dst`; a payload too long for a frame
    /// of at most `MAX` bytes is refused and nothing is written.
    pub fn encode(&mut self, item: Message, dst: &mut bytes::BytesMut) -> (r: Result<(), ProtocolError>)
        requires
            buffer_bytes(*old(dst)).len() + item.payload@.len() + 5 <= isize::MAX,
        ensures
            match r {
                Ok(()) => item.payload@.len() + 1 <= MAX && buffer_bytes(*final(dst))
                    == buffer_bytes(*old(dst)) + frame(item.tag, item.payload@),
                Err(e) => item.payload@.len() + 1 > MAX && e == ProtocolError::FrameTooLarge
                    && buffer_bytes(*final(dst)) == buffer_bytes(*old(dst)),
            },
    {
        if item.payload.len() + 1 > MAX {
            return Err(ProtocolError::FrameTooLarge);
        }
        let bytes = item.as_bytes();
        buffer_extend(dst, bytes.as_slice());
        Ok(())
    }
}

/// The protocol name that a handshake carries.
pub open spec fn protocol_name() -> Seq<u8> {
    ascii("BitTorrent protocol"@)
}

/// A handshake: the protocol name's length (19), the name, eight zero
/// bytes, the info-hash and the sender's peer id.
pub open spec fn handshake_bytes(info_hash: Seq<u8>, peer_id: Seq<u8>) -> Seq<u8> {
    seq![19u8] + protocol_name() + Seq::new(8, |i: int| 0u8) + info_hash + peer_id
}

/// The handshake that opens a connection.
pub fn handshake_message(info_hash: &[u8; 20], peer_id: &[u8; 20]) -> (r: Vec<u8>)
    ensures
        r@ == handshake_bytes(info_hash@, peer_id@),
        r@.len() == 68,
{
    proof {
        reveal_strlit("BitTorrent protocol");
    }
    let mut message: Vec<u8> = Vec::new();
    message.push(19u8);
    let name = ascii_bytes("BitTorrent protocol");
    message.append(&mut name.clone());
    let mut i: usize = 0;
    while i < 8
        invariant
            i <= 8,
            message@ == seq![19u8] + protocol_name() + Seq::new(i as nat, |j: int| 0u8),
        decreases 8 - i,
    {
        message.push(0u8);
        assert(message@ =~= seq![19u8] + protocol_name() + Seq::new((i + 1) as nat, |j: int| 0u8));
        i = i + 1;
    }
    let mut tail = vstd::slice::slice_to_vec(info_hash.as_slice());
    message.append(&mut tail);
    let mut id = vstd::slice::slice_to_vec(peer_id.as_slice());
    message.append(&mut id);
    assert(message@ =~= handshake_bytes(info_hash@, peer_id@));
    message
}

/// The peer id that a peer's 68-byte handshake carries in its last 20 bytes.
pub fn handshake_peer_id(reply: &[u8]) -> (r: Result<Vec<u8>, ProtocolError>)
    ensures
        match r {
            Ok(id) => reply@.len() == 68 && id@ == reply@.subrange(48, 68),
            Err(e) => reply@.len() != 68 && e == ProtocolError::ShortHandshake,
        },
{
    if reply.len() != 68 {
        return Err(ProtocolError::ShortHandshake);
    }
    Ok(vstd::slice::slice_to_vec(vstd::slice::slice_subrange(reply, 48, 68)))
}

/// The peer id of a peer's handshake in lowercase hexadecimal.
pub fn peer_id_hex(reply: &[u8]) -> (r: Result<String, ProtocolError>)
    ensures
        match r {
            Ok(hex) => reply@.len() == 68 && hex@ == hex_of(reply@.subrange(48, 68)),
            Err(e) => reply@.len() != 68 && e == ProtocolError::ShortHandshake,
        },
{
    let id = handshake_peer_id(reply)?;
    Ok(hex_encode(id.as_slice()))
}


/// A frame that the framer would send, followed by any bytes, decodes to
/// the same kind and payload and consumes exactly the frame.
pub proof fn lemma_frame_round_trip(tag: MessageTag, payload: Seq<u8>, rest: Seq<u8>)
    requires
        payload.len() + 1 <= MAX,
    ensures
        frame_decode(frame(tag, payload) + rest) == (
            Ok::<Option<(MessageTag, Seq<u8>)>, ProtocolError>(Some((tag, payload))),
            frame(tag, payload).len() as int,
        ),
{
    let n = payload.len() + 1int;
    let f = frame(tag, payload);
    let b = f + rest;
    lemma_be32_round_trip(n);
    assert(b.take(4) =~= be32(n));
    assert(b.skip(0) =~= b);
    assert(keepalive_prefix(b) == 0);
    assert(b[4] == tag_byte(tag));
    lemma_tag_byte_round_trip(tag);
    assert(b.subrange(5, 4 + n) =~= payload);
}

/// Keep-alives take up no more than the buffer.
proof fn lemma_keepalive_prefix_bounds(b: Seq<u8>)
    ensures
        0 <= keepalive_prefix(b) <= b.len(),
    decreases b.len(),
{
    if b.len() >= 4 && be32_value(b.take(4)) == 0 {
        lemma_keepalive_prefix_bounds(b.skip(4));
    }
}

/// A keep-alive frame in front changes nothing but the number of bytes
/// consumed: the framer drops it and goes on to what follows.
pub proof fn lemma_keepalive_skipped(b: Seq<u8>)
    ensures
        frame_decode(seq![0u8, 0u8, 0u8, 0u8] + b) == (frame_decode(b).0, 4 + frame_decode(b).1),
{
    let a = seq![0u8, 0u8, 0u8, 0u8] + b;
    assert(a.take(4) =~= seq![0u8, 0u8, 0u8, 0u8]);
    assert(a.skip(4) =~= b);
    let k = keepalive_prefix(b);
    lemma_keepalive_prefix_bounds(b);
    assert(keepalive_prefix(a) == 4 + k);
    assert(a.skip(4 + k) =~= b.skip(k));
}

/// A frame that declares a length above `MAX` is an error as soon as its
/// four length bytes are there, whatever follows, and nothing is consumed.
pub proof fn lemma_oversized_frame_rejected(b: Seq<u8>)
    requires
        b.len() >= 4,
        be32_value(b.take(4)) > MAX,
    ensures
        frame_decode(b) == (
            Err::<Option<(MessageTag, Seq<u8>)>, ProtocolError>(ProtocolError::FrameTooLarge),
            0int,
        ),
{
    assert(keepalive_prefix(b) == 0);
    assert(b.skip(0) =~= b);
}

} // verus!
