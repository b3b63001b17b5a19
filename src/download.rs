//! The download of a piece from one peer, as a state machine: the caller
//! performs the I/O that each action asks for and hands back what came of
//! it. And the assembly of a whole file from its pieces, in index order.

use vstd::prelude::*;
use crate::hashing::{sha1_digest, sha1_of};
use crate::peer_message::{be32_value, request_payload, Message, MessageTag, ProtocolError};
use crate::torrent::{piece_size, Info, Torrent};

verus! {

/// The default size of a block request: 16 KiB.
pub const BLOCK_MAX: u32 = 16384;

/// Where the download of a piece stands.
#[derive(Debug, Clone, Copy, PartialEq, Eq, Structural)]
pub enum Phase {
    /// The handshake was sent; the peer's is awaited.
    Handshaking,
    /// The peer's first message, its bitfield, is awaited.
    AwaitingBitfield,
    /// Interest was declared; the peer's unchoke is awaited.
    AwaitingUnchoke,
    /// A block was requested; it is awaited.
    Requesting,
    /// The piece is complete and matches its digest.
    Complete,
    /// The download failed.
    Failed,
}

/// Why the download of a piece failed.
#[derive(Debug, Clone, Copy, PartialEq, Eq, Structural)]
pub enum DownloadError {
    /// The peer broke the protocol.
    Protocol(ProtocolError),
    /// The peer answered a request with a block of another length.
    WrongBlockLength,
    /// The piece does not have the digest that the metainfo gives.
    HashMismatch,
}

/// What the caller is to do next.
#[derive(Debug)]
pub enum Action {
    /// Read the next message from the peer and hand it back.
    Receive,
    /// Send this message, then read the next one and hand it back.
    Send(Message),
    /// The piece is complete and matches its digest: these are its bytes.
    Done(Vec<u8>),
    /// The download failed; nothing of the piece is kept.
    Fail(DownloadError),
}

/// An action, with the message to send as its kind and payload.
pub enum Step {
    Receive,
    Send(MessageTag, Seq<u8>),
    Done(Seq<u8>),
    Fail(DownloadError),
}

impl Action {
    /// This action as a step.
    pub open spec fn view(&self) -> Step {
        match self {
            Action::Receive => Step::Receive,
            Action::Send(m) => Step::Send(m.tag, m.payload@),
            Action::Done(d) => Step::Done(d@),
            Action::Fail(e) => Step::Fail(*e),
        }
    }
}

/// The state of the download of a piece.
pub struct PieceState {
    /// The index of the piece.
    pub index: u32,
    /// Its length in bytes.
    pub length: int,
    /// The largest block to request at once.
    pub block_size: int,
    /// The digest it must have.
    pub hash: Seq<u8>,
    /// The bytes received so far, in order.
    pub data: Seq<u8>,
    /// Where the download stands.
    pub phase: Phase,
}

/// The length of the next block to request: a full block, or what remains.
pub open spec fn block_len(st: PieceState) -> int {
    if st.block_size <= st.length - st.data.len() {
        st.block_size
    } else {
        st.length - st.data.len()
    }
}

/// The request for the next block: it starts where the received bytes end.
pub open spec fn next_request(st: PieceState) -> Step {
    Step::Send(
        MessageTag::Request,
        request_payload(st.index, st.data.len() as u32, block_len(st) as u32),
    )
}

/// The state and the action after the handshake reply `reply`.
pub open spec fn after_handshake(st: PieceState, reply: Seq<u8>) -> (PieceState, Step) {
    if reply.len() == 68 {
        (PieceState { phase: Phase::AwaitingBitfield, ..st }, Step::Receive)
    } else {
        (
            PieceState { phase: Phase::Failed, ..st },
            Step::Fail(DownloadError::Protocol(ProtocolError::ShortHandshake)),
        )
    }
}

/// Whether a message is the block that the pending request asks for: a
/// `Piece` of this piece at the offset where the received bytes end.
pub open spec fn answers_request(st: PieceState, tag: MessageTag, payload: Seq<u8>) -> bool {
    &&& tag == MessageTag::Piece
    &&& payload.len() >= 8
    &&& be32_value(payload.take(4)) == st.index
    &&& be32_value(payload.subrange(4, 8)) == st.data.len()
}

/// The state and the action after a message with `tag` and `payload`
/// arrived.
pub open spec fn after_message(st: PieceState, tag: MessageTag, payload: Seq<u8>) -> (
    PieceState,
    Step,
) {
    match st.phase {
        Phase::AwaitingBitfield => (
            PieceState { phase: Phase::AwaitingUnchoke, ..st },
            Step::Send(MessageTag::Interested, Seq::empty()),
        ),
        Phase::AwaitingUnchoke => if tag == MessageTag::Unchoke {
            (PieceState { phase: Phase::Requesting, ..st }, next_request(st))
        } else {
            (st, Step::Receive)
        },
        Phase::Requesting => if !answers_request(st, tag, payload) {
            (st, Step::Receive)
        } else if payload.len() - 8 != block_len(st) {
            (PieceState { phase: Phase::Failed, ..st }, Step::Fail(DownloadError::WrongBlockLength))
        } else {
            let data = st.data + payload.skip(8);
            if data.len() < st.length {
                let next = PieceState { data, ..st };
                (next, next_request(next))
            } else if sha1_of(data) == st.hash {
                (PieceState { data, phase: Phase::Complete, ..st }, Step::Done(data))
            } else {
                (
                    PieceState { data, phase: Phase::Failed, ..st },
                    Step::Fail(DownloadError::HashMismatch),
                )
            }
        },
        _ => (st, Step::Receive),
    }
}

/// Hands back a complete piece if its digest is the one it must have.
pub fn check_piece(data: Vec<u8>, digest: &[u8], expected: &[u8]) -> (r: Result<
    Vec<u8>,
    DownloadError,
>)
    ensures
        match r {
            Ok(d) => digest@ == expected@ && d@ == data@,
            Err(e) => digest@ != expected@ && e == DownloadError::HashMismatch,
        },
{
    if digest.len() != expected.len() {
        return Err(DownloadError::HashMismatch);
    }
    let mut i: usize = 0;
    while i < digest.len()
        invariant
            i <= digest@.len(),
            digest@.len() == expected@.len(),
            digest@.take(i as int) == expected@.take(i as int),
        decreases digest@.len() - i,
    {
        if digest[i] != expected[i] {
            assert(digest@[i as int] != expected@[i as int]);
            return Err(DownloadError::HashMismatch);
        }
        assert(digest@.take(i + 1) =~= digest@.take(i as int).push(digest@[i as int]));
        assert(expected@.take(i + 1) =~= expected@.take(i as int).push(expected@[i as int]));
        i = i + 1;
    }
    assert(digest@ =~= digest@.take(i as int));
    assert(expected@ =~= expected@.take(i as int));
    Ok(data)
}

/// The download of one piece from one peer.
#[derive(Debug)]
pub struct PieceDownload {
    index: u32,
    length: u32,
    block_size: u32,
    hash: Vec<u8>,
    data: Vec<u8>,
    phase: Phase,
}

impl PieceDownload {
    /// Its state.
    pub closed spec fn view(&self) -> PieceState {
        PieceState {
            index: self.index,
            length: self.length as int,
            block_size: self.block_size as int,
            hash: self.hash@,
            data: self.data@,
            phase: self.phase,
        }
    }

    /// Blocks are not empty, nothing is received before the first request,
    /// the received bytes never run past the piece, and a piece is complete
    /// only when all of it was received.
    pub open spec fn wf(&self) -> bool {
        let st = self@;
        &&& 0 < st.block_size
        &&& 0 < st.length <= u32::MAX
        &&& st.data.len() <= st.length
        &&& (st.phase == Phase::Handshaking || st.phase == Phase::AwaitingBitfield || st.phase
            == Phase::AwaitingUnchoke) ==> st.data.len() == 0
        &&& st.phase == Phase::Requesting ==> st.data.len() < st.length
        &&& st.phase == Phase::Complete ==> st.data.len() == st.length
    }

    /// A download of piece `piece_index` of `info`, in blocks of at most
    /// `block_size` bytes, that has sent its handshake.
    pub fn new(info: &Info, piece_index: u32, block_size: u32) -> (r: PieceDownload)
        requires
            0 < info.piece_length <= u32::MAX,
            piece_index < info.pieces@.len() / 20,
            block_size > 0,
        ensures
            r.wf(),
            r@ == (PieceState {
                index: piece_index,
                length: piece_size(
                    info.length as int,
                    info.piece_length as int,
                    info.pieces@.len() as int / 20,
                    piece_index as int,
                ),
                block_size: block_size as int,
                hash: info.pieces@.subrange(20 * piece_index, 20 * piece_index + 20),
                data: Seq::empty(),
                phase: Phase::Handshaking,
            }),
    {
        let length = info.expected_piece_length(piece_index as usize);
        let hash = info.piece_hash(piece_index as usize);
        let r = PieceDownload {
            index: piece_index,
            length: length as u32,
            block_size,
            hash,
            data: Vec::new(),
            phase: Phase::Handshaking,
        };
        assert(r@.data =~= Seq::<u8>::empty());
        r
    }

    /// Where the download stands.
    pub fn phase(&self) -> (r: Phase)
        ensures
            r == self@.phase,
    {
        self.phase
    }

    /// The request for the next block.
    fn request(&self) -> (r: Message)
        requires
            self.wf(),
            self@.data.len() < self@.length,
        ensures
            Step::Send(r.tag, r.payload@) == next_request(self@),
            r.tag == MessageTag::Request,
    {
        let remaining = self.length - self.data.len() as u32;
        let size = if self.block_size <= remaining {
            self.block_size
        } else {
            remaining
        };
        Message::new_request(self.index, self.data.len() as u32, size)
    }

    /// Takes the peer's handshake reply.
    pub fn on_handshake(&mut self, reply: &[u8]) -> (r: Action)
        requires
            old(self).wf(),
            old(self)@.phase == Phase::Handshaking,
        ensures
            final(self).wf(),
            (final(self)@, r.view()) == after_handshake(old(self)@, reply@),
    {
        if reply.len() == 68 {
            self.phase = Phase::AwaitingBitfield;
            Action::Receive
        } else {
            self.phase = Phase::Failed;
            Action::Fail(DownloadError::Protocol(ProtocolError::ShortHandshake))
        }
    }

    /// Takes a message while a block is awaited.
    fn on_block(&mut self, msg: &Message) -> (r: Action)
        requires
            old(self).wf(),
            old(self)@.phase == Phase::Requesting,
        ensures
            final(self).wf(),
            (final(self)@, r.view()) == after_message(old(self)@, msg.tag, msg.payload@),
    {
        let (index, begin, mut block) = match msg.read_piece() {
            Ok(parts) => parts,
            Err(_) => {
                return Action::Receive;
            },
        };
        if index != self.index || begin as usize != self.data.len() {
            return Action::Receive;
        }
        let remaining = self.length - self.data.len() as u32;
        let size = if self.block_size <= remaining {
            self.block_size
        } else {
            remaining
        };
        if block.len() != size as usize {
            self.phase = Phase::Failed;
            return Action::Fail(DownloadError::WrongBlockLength);
        }
        self.data.append(&mut block);
        if (self.data.len() as u32) < self.length {
            Action::Send(self.request())
        } else {
            let digest = sha1_digest(self.data.as_slice());
            let copy = vstd::slice::slice_to_vec(self.data.as_slice());
            match check_piece(copy, &digest, self.hash.as_slice()) {
                Ok(piece) => {
                    self.phase = Phase::Complete;
                    Action::Done(piece)
                },
                Err(e) => {
                    self.phase = Phase::Failed;
                    Action::Fail(e)
                },
            }
        }
    }

    /// Takes the next message from the peer.
    pub fn on_message(&mut self, msg: &Message) -> (r: Action)
        requires
            old(self).wf(),
        ensures
            final(self).wf(),
            (final(self)@, r.view()) == after_message(old(self)@, msg.tag, msg.payload@),
    {
        match self.phase {
            Phase::AwaitingBitfield => {
                self.phase = Phase::AwaitingUnchoke;
                let m = Message { tag: MessageTag::Interested, payload: Vec::new() };
                assert(m.payload@ =~= Seq::<u8>::empty());
                Action::Send(m)
            },
            Phase::AwaitingUnchoke => {
                if msg.tag == MessageTag::Unchoke {
                    self.phase = Phase::Requesting;
                    Action::Send(self.request())
                } else {
                    Action::Receive
                }
            },
            Phase::Requesting => self.on_block(msg),
            _ => Action::Receive,
        }
    }
}

/// The assembly of a whole file from its pieces, one after another in
/// index order.
#[derive(Debug)]
pub struct FileDownload {
    count: u32,
    next: u32,
    file: Vec<u8>,
}

impl FileDownload {
    /// The number of pieces, the index of the next piece to download, and
    /// the bytes of the pieces downloaded so far.
    pub closed spec fn view(&self) -> (int, int, Seq<u8>) {
        (self.count as int, self.next as int, self.file@)
    }

    /// An assembly of the pieces of `info`, none downloaded yet.
    pub fn new(info: &Info) -> (r: FileDownload)
        requires
            info.pieces@.len() / 20 <= u32::MAX,
        ensures
            r@ == (info.pieces@.len() as int / 20, 0int, Seq::<u8>::empty()),
    {
        let r = FileDownload { count: info.piece_count() as u32, next: 0, file: Vec::new() };
        assert(r@.2 =~= Seq::<u8>::empty());
        r
    }

    /// The index of the next piece to download, if any is left.
    pub fn next_piece(&self) -> (r: Option<u32>)
        ensures
            match r {
                Some(i) => i == self@.1 && self@.1 < self@.0,
                None => self@.1 >= self@.0,
            },
    {
        if self.next < self.count {
            Some(self.next)
        } else {
            None
        }
    }

    /// Appends the next piece, once it is downloaded.
    pub fn piece_done(&mut self, piece: &[u8])
        requires
            old(self)@.1 < old(self)@.0,
            old(self)@.2.len() + piece@.len() <= usize::MAX,
        ensures
            final(self)@ == (old(self)@.0, old(self)@.1 + 1, old(self)@.2 + piece@),
    {
        let mut bytes = vstd::slice::slice_to_vec(piece);
        self.file.append(&mut bytes);
        self.next = self.next + 1;
    }

    /// The bytes of the pieces downloaded so far, in index order.
    pub fn into_bytes(self) -> (r: Vec<u8>)
        ensures
            r@ == self@.2,
    {
        self.file
    }
}


impl Torrent {
    /// The download of piece `piece_index`, in blocks of `BLOCK_MAX` bytes,
    /// once its handshake is sent.
    pub fn download_piece(&self, piece_index: u32) -> (r: PieceDownload)
        requires
            0 < self.info.piece_length <= u32::MAX,
            piece_index < self.info.pieces@.len() / 20,
        ensures
            r.wf(),
            r@ == (PieceState {
                index: piece_index,
                length: piece_size(
                    self.info.length as int,
                    self.info.piece_length as int,
                    self.info.pieces@.len() as int / 20,
                    piece_index as int,
                ),
                block_size: BLOCK_MAX as int,
                hash: self.info.pieces@.subrange(20 * piece_index, 20 * piece_index + 20),
                data: Seq::empty(),
                phase: Phase::Handshaking,
            }),
    {
        PieceDownload::new(&self.info, piece_index, BLOCK_MAX)
    }

    /// The assembly of the whole file, piece by piece in index order.
    pub fn download_all(&self) -> (r: FileDownload)
        requires
            self.info.pieces@.len() / 20 <= u32::MAX,
        ensures
            r@ == (self.info.pieces@.len() as int / 20, 0int, Seq::<u8>::empty()),
    {
        FileDownload::new(&self.info)
    }
}

} // verus!
