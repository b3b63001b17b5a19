use bittorrent::bendecoder::DecodeError;
use bittorrent::torrent::{Field, MetainfoError};
use bittorrent::tracker::{Peer, TrackerResponse};

#[test]
fn reads_compact_peers() {
    let mut body = b"d8:intervali900e5:peers12:".to_vec();
    body.extend_from_slice(&[192, 168, 1, 2, 0x1a, 0xe1, 10, 0, 0, 1, 0, 80]);
    body.push(b'e');
    let r = TrackerResponse::from_bytes(&body).unwrap();
    assert_eq!(r.interval(), 900);
    assert_eq!(
        r.all_peers(),
        vec![Peer { ip: [192, 168, 1, 2], port: 6881 }, Peer { ip: [10, 0, 0, 1], port: 80 }]
    );
}

#[test]
fn tracker_errors() {
    assert_eq!(
        TrackerResponse::from_bytes(b"d8:intervali900e5:peers7:abcdefge").unwrap_err(),
        MetainfoError::PeerList
    );
    assert_eq!(
        TrackerResponse::from_bytes(b"d5:peers0:e").unwrap_err(),
        MetainfoError::Missing(Field::Interval)
    );
    assert_eq!(
        TrackerResponse::from_bytes(b"d8:intervali1e5:peersi0ee").unwrap_err(),
        MetainfoError::WrongKind(Field::Peers)
    );
    assert_eq!(
        TrackerResponse::from_bytes(b"d8:interval").unwrap_err(),
        MetainfoError::Decode(DecodeError::UnexpectedEnd)
    );
    assert_eq!(TrackerResponse::from_bytes(b"le").unwrap_err(), MetainfoError::NotADictionary);
}

#[test]
fn empty_peer_list() {
    let r = TrackerResponse::from_bytes(b"d8:intervali60e5:peers0:e").unwrap();
    assert!(r.all_peers().is_empty());
}
