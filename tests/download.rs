use bittorrent::download::{
    check_piece, Action, DownloadError, FileDownload, Phase, PieceDownload, BLOCK_MAX,
};
use bittorrent::peer_message::{Message, MessageTag, ProtocolError};
use bittorrent::torrent::Info;
use sha1::Digest;

fn digest(data: &[u8]) -> Vec<u8> {
    sha1::Sha1::digest(data).to_vec()
}

fn mock_pieces() -> (Vec<u8>, Vec<u8>) {
    let first: Vec<u8> = (0..400u32).map(|i| (i % 251) as u8).collect();
    let second: Vec<u8> = (0..200u32).map(|i| (i * 7 % 256) as u8).collect();
    (first, second)
}

fn two_piece_info() -> Info {
    let (first, second) = mock_pieces();
    let mut pieces = digest(&first);
    pieces.extend(digest(&second));
    Info { name: "mock".to_string(), length: 600, piece_length: 400, pieces }
}

fn msg(tag: MessageTag, payload: Vec<u8>) -> Message {
    Message { tag, payload }
}

fn piece_answer(request: &Message, content: &[u8]) -> Message {
    let p = &request.payload;
    let begin = u32::from_be_bytes([p[4], p[5], p[6], p[7]]) as usize;
    let length = u32::from_be_bytes([p[8], p[9], p[10], p[11]]) as usize;
    let mut payload = p[0..8].to_vec();
    payload.extend_from_slice(&content[begin..begin + length]);
    msg(MessageTag::Piece, payload)
}

/// Plays a peer that handshakes, sends a bitfield, unchokes, and answers each
/// request with the matching block of `content`.
fn download_with_mock_peer(info: &Info, index: u32, content: &[u8], block: u32) -> Vec<u8> {
    let mut d = PieceDownload::new(info, index, block);
    assert_eq!(d.phase(), Phase::Handshaking);
    assert!(matches!(d.on_handshake(&[0u8; 68]), Action::Receive));
    let interested = match d.on_message(&msg(MessageTag::Bitfield, vec![0xc0])) {
        Action::Send(m) => m,
        other => panic!("expected interest, got {:?}", other),
    };
    assert_eq!(interested.tag, MessageTag::Interested);
    assert!(interested.payload.is_empty());
    let mut action = d.on_message(&msg(MessageTag::Unchoke, Vec::new()));
    loop {
        action = match action {
            Action::Send(request) => {
                assert_eq!(request.tag, MessageTag::Request);
                d.on_message(&piece_answer(&request, content))
            },
            Action::Done(data) => return data,
            other => panic!("unexpected action {:?}", other),
        };
    }
}

#[test]
fn downloads_two_pieces_into_one_file() {
    let info = two_piece_info();
    let (first, second) = mock_pieces();
    let mut file = FileDownload::new(&info);
    let mut contents = vec![first.clone(), second.clone()].into_iter();
    while let Some(index) = file.next_piece() {
        let content = contents.next().unwrap();
        let data = download_with_mock_peer(&info, index, &content, BLOCK_MAX);
        file.piece_done(&data);
    }
    let bytes = file.into_bytes();
    assert_eq!(bytes.len(), 600);
    let mut expected = first;
    expected.extend(second);
    assert_eq!(bytes, expected);
}

#[test]
fn small_blocks_are_requested_in_order() {
    let info = two_piece_info();
    let (first, _) = mock_pieces();
    let mut d = PieceDownload::new(&info, 0, 150);
    d.on_handshake(&[1u8; 68]);
    d.on_message(&msg(MessageTag::Bitfield, Vec::new()));
    let mut offsets = Vec::new();
    let mut action = d.on_message(&msg(MessageTag::Unchoke, Vec::new()));
    while let Action::Send(request) = action {
        offsets.push(request.payload[4..12].to_vec());
        action = d.on_message(&piece_answer(&request, &first));
    }
    assert!(matches!(action, Action::Done(ref data) if *data == first));
    assert_eq!(
        offsets,
        vec![
            vec![0, 0, 0, 0, 0, 0, 0, 150],
            vec![0, 0, 0, 150, 0, 0, 0, 150],
            vec![0, 0, 1, 44, 0, 0, 0, 100],
        ]
    );
    assert_eq!(d.phase(), Phase::Complete);
}

#[test]
fn other_messages_wait_for_unchoke_and_for_the_block() {
    let info = two_piece_info();
    let (_, second) = mock_pieces();
    let mut d = PieceDownload::new(&info, 1, BLOCK_MAX);
    d.on_handshake(&[0u8; 68]);
    d.on_message(&msg(MessageTag::Bitfield, Vec::new()));
    assert!(matches!(d.on_message(&msg(MessageTag::Have, vec![0, 0, 0, 1])), Action::Receive));
    assert_eq!(d.phase(), Phase::AwaitingUnchoke);
    let request = match d.on_message(&msg(MessageTag::Unchoke, Vec::new())) {
        Action::Send(m) => m,
        other => panic!("expected a request, got {:?}", other),
    };
    assert_eq!(request.payload, vec![0, 0, 0, 1, 0, 0, 0, 0, 0, 0, 0, 200]);
    assert!(matches!(d.on_message(&msg(MessageTag::Choke, Vec::new())), Action::Receive));
    let stale = msg(MessageTag::Piece, vec![0, 0, 0, 0, 0, 0, 0, 0, 1, 2]);
    assert!(matches!(d.on_message(&stale), Action::Receive));
    assert!(matches!(d.on_message(&piece_answer(&request, &second)), Action::Done(_)));
}

#[test]
fn short_handshake_fails() {
    let info = two_piece_info();
    let mut d = PieceDownload::new(&info, 0, BLOCK_MAX);
    assert!(matches!(
        d.on_handshake(&[0u8; 20]),
        Action::Fail(DownloadError::Protocol(ProtocolError::ShortHandshake))
    ));
    assert_eq!(d.phase(), Phase::Failed);
}

#[test]
fn wrong_block_length_fails() {
    let info = two_piece_info();
    let mut d = PieceDownload::new(&info, 0, BLOCK_MAX);
    d.on_handshake(&[0u8; 68]);
    d.on_message(&msg(MessageTag::Bitfield, Vec::new()));
    d.on_message(&msg(MessageTag::Unchoke, Vec::new()));
    let short = msg(MessageTag::Piece, vec![0, 0, 0, 0, 0, 0, 0, 0, 1, 2, 3]);
    assert!(matches!(d.on_message(&short), Action::Fail(DownloadError::WrongBlockLength)));
}

#[test]
fn corrupt_piece_fails_its_digest() {
    let info = two_piece_info();
    let (first, _) = mock_pieces();
    let mut corrupt = first.clone();
    corrupt[17] ^= 1;
    let mut d = PieceDownload::new(&info, 0, BLOCK_MAX);
    d.on_handshake(&[0u8; 68]);
    d.on_message(&msg(MessageTag::Bitfield, Vec::new()));
    let request = match d.on_message(&msg(MessageTag::Unchoke, Vec::new())) {
        Action::Send(m) => m,
        other => panic!("expected a request, got {:?}", other),
    };
    let answer = piece_answer(&request, &corrupt);
    assert!(matches!(d.on_message(&answer), Action::Fail(DownloadError::HashMismatch)));
    assert_eq!(d.phase(), Phase::Failed);
}

#[test]
fn check_piece_compares_digests() {
    let data = vec![1u8, 2, 3];
    assert_eq!(check_piece(data.clone(), &[5; 20], &[5; 20]).unwrap(), data);
    assert_eq!(
        check_piece(data.clone(), &[5; 20], &[6; 20]).unwrap_err(),
        DownloadError::HashMismatch
    );
    assert_eq!(check_piece(data, &[5; 20], &[5; 19]).unwrap_err(), DownloadError::HashMismatch);
}

#[test]
fn file_download_counts_pieces() {
    let info = two_piece_info();
    let mut file = FileDownload::new(&info);
    assert_eq!(file.next_piece(), Some(0));
    file.piece_done(&[1, 2]);
    assert_eq!(file.next_piece(), Some(1));
    file.piece_done(&[3]);
    assert_eq!(file.next_piece(), None);
    assert_eq!(file.into_bytes(), vec![1, 2, 3]);
}

#[test]
fn torrent_starts_piece_and_file_downloads() {
    let t = bittorrent::torrent::Torrent { announce: "http://t/a".to_string(), info: two_piece_info() };
    let (_, second) = mock_pieces();
    let data = {
        let mut d = t.download_piece(1);
        assert_eq!(d.phase(), Phase::Handshaking);
        d.on_handshake(&[0u8; 68]);
        d.on_message(&msg(MessageTag::Bitfield, Vec::new()));
        let request = match d.on_message(&msg(MessageTag::Unchoke, Vec::new())) {
            Action::Send(m) => m,
            other => panic!("expected a request, got {:?}", other),
        };
        assert_eq!(request.payload, vec![0, 0, 0, 1, 0, 0, 0, 0, 0, 0, 0, 200]);
        match d.on_message(&piece_answer(&request, &second)) {
            Action::Done(data) => data,
            other => panic!("expected the piece, got {:?}", other),
        }
    };
    assert_eq!(data, second);
    let file = t.download_all();
    assert_eq!(file.next_piece(), Some(0));
}
