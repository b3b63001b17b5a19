use bittorrent::peer_message::{
    handshake_message, handshake_peer_id, peer_id_hex, Message, MessageFramer, MessageTag,
    ProtocolError, MAX,
};
use bytes::BytesMut;

fn request_bytes() -> Vec<u8> {
    vec![0, 0, 0, 13, 6, 0, 0, 0, 1, 0, 0, 0, 0, 0, 0, 64, 0]
}

#[test]
fn request_frame_round_trip() {
    let request = Message::new_request(1, 0, 16384);
    let mut framer = MessageFramer;
    let mut buf = BytesMut::new();
    framer.encode(request.clone(), &mut buf).unwrap();
    assert_eq!(&buf[..], &request_bytes()[..]);
    let decoded = framer.decode(&mut buf).unwrap().unwrap();
    assert_eq!(decoded.tag, MessageTag::Request);
    assert_eq!(decoded.payload, request.payload);
    assert!(buf.is_empty());
}

#[test]
fn keepalive_is_skipped() {
    let mut framer = MessageFramer;
    let mut buf = BytesMut::new();
    buf.extend_from_slice(&[0, 0, 0, 0, 0, 0, 0, 0]);
    buf.extend_from_slice(&request_bytes());
    let decoded = framer.decode(&mut buf).unwrap().unwrap();
    assert_eq!(decoded.tag, MessageTag::Request);
    assert_eq!(decoded.payload, vec![0, 0, 0, 1, 0, 0, 0, 0, 0, 0, 64, 0]);
    assert!(buf.is_empty());
}

#[test]
fn lone_keepalive_gives_nothing() {
    let mut framer = MessageFramer;
    let mut buf = BytesMut::new();
    buf.extend_from_slice(&[0, 0, 0, 0, 0, 0]);
    assert!(framer.decode(&mut buf).unwrap().is_none());
    assert_eq!(&buf[..], &[0, 0]);
}

#[test]
fn partial_frame_stays_buffered() {
    let mut framer = MessageFramer;
    let mut buf = BytesMut::new();
    buf.extend_from_slice(&request_bytes()[..10]);
    assert!(framer.decode(&mut buf).unwrap().is_none());
    assert_eq!(&buf[..], &request_bytes()[..10]);
    buf.extend_from_slice(&request_bytes()[10..]);
    assert_eq!(framer.decode(&mut buf).unwrap().unwrap().tag, MessageTag::Request);
}

#[test]
fn oversized_frame_is_rejected() {
    let mut framer = MessageFramer;
    let mut buf = BytesMut::new();
    buf.extend_from_slice(&[0, 1, 0, 1]);
    assert_eq!(framer.decode(&mut buf).unwrap_err(), ProtocolError::FrameTooLarge);
    assert_eq!(buf.len(), 4);
    let mut huge = BytesMut::new();
    huge.extend_from_slice(&[255, 255, 255, 255, 7]);
    assert_eq!(framer.decode(&mut huge).unwrap_err(), ProtocolError::FrameTooLarge);
}

#[test]
fn largest_frame_is_accepted() {
    let mut framer = MessageFramer;
    let payload = vec![9u8; MAX - 1];
    let mut buf = BytesMut::new();
    framer.encode(Message { tag: MessageTag::Bitfield, payload: payload.clone() }, &mut buf).unwrap();
    assert_eq!(&buf[..4], &[0, 1, 0, 0]);
    let decoded = framer.decode(&mut buf).unwrap().unwrap();
    assert_eq!(decoded.tag, MessageTag::Bitfield);
    assert_eq!(decoded.payload, payload);
}

#[test]
fn oversized_message_is_not_sent() {
    let mut framer = MessageFramer;
    let mut buf = BytesMut::new();
    let item = Message { tag: MessageTag::Bitfield, payload: vec![0u8; MAX] };
    assert_eq!(framer.encode(item, &mut buf).unwrap_err(), ProtocolError::FrameTooLarge);
    assert!(buf.is_empty());
}

#[test]
fn unknown_tag_is_rejected() {
    let mut framer = MessageFramer;
    let mut buf = BytesMut::new();
    buf.extend_from_slice(&[0, 0, 0, 1, 9]);
    assert_eq!(framer.decode(&mut buf).unwrap_err(), ProtocolError::UnknownTag(9));
}

#[test]
fn tags_from_wire_bytes() {
    assert_eq!(MessageTag::try_from(0).unwrap(), MessageTag::Choke);
    assert_eq!(MessageTag::try_from(5).unwrap(), MessageTag::Bitfield);
    assert_eq!(MessageTag::try_from(8).unwrap(), MessageTag::Cancel);
    assert_eq!(MessageTag::try_from(9).unwrap_err(), ProtocolError::UnknownTag(9));
    assert_eq!(MessageTag::Piece.to_byte(), 7);
}

#[test]
fn message_as_bytes() {
    let m = Message { tag: MessageTag::Have, payload: vec![0, 0, 0, 5] };
    assert_eq!(m.as_bytes(), vec![0, 0, 0, 5, 4, 0, 0, 0, 5]);
    let empty = Message { tag: MessageTag::Interested, payload: Vec::new() };
    assert_eq!(empty.as_bytes(), vec![0, 0, 0, 1, 2]);
}

#[test]
fn message_from_frame_bytes() {
    let (m, length) = Message::from(&[0, 0, 0, 5, 4, 0, 0, 0, 5]).unwrap();
    assert_eq!(m.tag, MessageTag::Have);
    assert_eq!(m.payload, vec![0, 0, 0, 5]);
    assert_eq!(length, 5);
    assert!(Message::from(&[0, 0, 0, 1]).is_none());
    assert!(Message::from(&[0, 0, 0, 1, 42]).is_none());
}

#[test]
fn request_payload_layout() {
    let m = Message::new_request(0x01020304, 0x4000, 0x10);
    assert_eq!(m.tag, MessageTag::Request);
    assert_eq!(m.payload, vec![1, 2, 3, 4, 0, 0, 64, 0, 0, 0, 0, 16]);
}

#[test]
fn block_of_a_piece_message() {
    let m = Message { tag: MessageTag::Piece, payload: vec![0, 0, 0, 2, 0, 0, 64, 0, 7, 8, 9] };
    assert_eq!(m.read_block().unwrap(), vec![7, 8, 9]);
    assert_eq!(m.read_piece().unwrap(), (2, 16384, vec![7, 8, 9]));
    let short = Message { tag: MessageTag::Piece, payload: vec![0, 0, 0] };
    assert_eq!(short.read_block().unwrap_err(), ProtocolError::MalformedPayload);
    let other = Message { tag: MessageTag::Choke, payload: Vec::new() };
    assert_eq!(other.read_block().unwrap_err(), ProtocolError::UnexpectedMessage);
}

#[test]
fn handshake_layout() {
    let hash = [0xaau8; 20];
    let id = *b"00112233445566778899";
    let h = handshake_message(&hash, &id);
    assert_eq!(h.len(), 68);
    assert_eq!(h[0], 19);
    assert_eq!(&h[1..20], b"BitTorrent protocol");
    assert_eq!(&h[20..28], &[0u8; 8]);
    assert_eq!(&h[28..48], &hash);
    assert_eq!(&h[48..], &id);
}

#[test]
fn peer_id_of_a_handshake() {
    let mut reply = vec![0u8; 48];
    reply.extend_from_slice(&[0xab; 20]);
    assert_eq!(handshake_peer_id(&reply).unwrap(), vec![0xab; 20]);
    assert_eq!(peer_id_hex(&reply).unwrap(), "ab".repeat(20));
    assert_eq!(handshake_peer_id(&reply[..67]).unwrap_err(), ProtocolError::ShortHandshake);
}
