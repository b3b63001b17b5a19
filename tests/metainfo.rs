use bittorrent::bendecoder::{Bencode, DecodeError, Dict};
use bittorrent::text::urlencode;
use bittorrent::torrent::{hash_value, Field, Info, MetainfoError, Torrent};
use sha1::Digest;

fn metainfo_bytes(length: i64, piece_length: i64, pieces: &[u8]) -> Vec<u8> {
    let mut out = b"d8:announce21:http://tracker.test/a4:infod6:lengthi".to_vec();
    out.extend_from_slice(length.to_string().as_bytes());
    out.extend_from_slice(b"e4:name8:file.txt12:piece lengthi");
    out.extend_from_slice(piece_length.to_string().as_bytes());
    out.extend_from_slice(b"e6:pieces");
    out.extend_from_slice(pieces.len().to_string().as_bytes());
    out.push(b':');
    out.extend_from_slice(pieces);
    out.extend_from_slice(b"ee");
    out
}

fn sample_pieces() -> Vec<u8> {
    (0u8..60).collect()
}

fn info(length: usize, piece_length: usize, count: usize) -> Info {
    Info {
        name: "file.txt".to_string(),
        length,
        piece_length,
        pieces: vec![7u8; 20 * count],
    }
}

#[test]
fn parses_a_metainfo_file() {
    let t = Torrent::new(&metainfo_bytes(1000, 400, &sample_pieces())).unwrap();
    assert_eq!(t.announce, "http://tracker.test/a");
    assert_eq!(t.info.name, "file.txt");
    assert_eq!(t.info.length, 1000);
    assert_eq!(t.info.piece_length, 400);
    assert_eq!(t.info.pieces, sample_pieces());
}

#[test]
fn metainfo_errors() {
    assert_eq!(Torrent::new(b"i1e").unwrap_err(), MetainfoError::NotADictionary);
    assert_eq!(
        Torrent::new(b"d4:infodee").unwrap_err(),
        MetainfoError::Missing(Field::Announce)
    );
    assert_eq!(
        Torrent::new(b"d8:announcei1ee").unwrap_err(),
        MetainfoError::WrongKind(Field::Announce)
    );
    assert_eq!(
        Torrent::new(b"d8:announce2:\xff\xfee").unwrap_err(),
        MetainfoError::NotUtf8(Field::Announce)
    );
    assert_eq!(
        Torrent::new(b"d8:announce1:ae").unwrap_err(),
        MetainfoError::Missing(Field::Info)
    );
    assert_eq!(
        Torrent::new(b"d8:announce1:a4:infoi0ee").unwrap_err(),
        MetainfoError::WrongKind(Field::Info)
    );
    assert_eq!(
        Torrent::new(b"l").unwrap_err(),
        MetainfoError::Decode(DecodeError::UnexpectedEnd)
    );
    assert_eq!(
        Torrent::new(&metainfo_bytes(1000, 0, &sample_pieces())).unwrap_err(),
        MetainfoError::OutOfRange(Field::PieceLength)
    );
    assert_eq!(
        Torrent::new(&metainfo_bytes(-1, 400, &sample_pieces())).unwrap_err(),
        MetainfoError::OutOfRange(Field::Length)
    );
    assert_eq!(
        Torrent::new(&metainfo_bytes(1000, 400, &sample_pieces()[..40])).unwrap_err(),
        MetainfoError::PieceHashes
    );
    assert_eq!(
        Torrent::new(&metainfo_bytes(1000, 400, &sample_pieces()[..59])).unwrap_err(),
        MetainfoError::PieceHashes
    );
}

#[test]
fn piece_sizes_with_a_short_last_piece() {
    let i = info(1000, 400, 3);
    assert_eq!(i.piece_count(), 3);
    assert_eq!(i.expected_piece_length(0), 400);
    assert_eq!(i.expected_piece_length(1), 400);
    assert_eq!(i.expected_piece_length(2), 200);
}

#[test]
fn piece_sizes_with_an_exact_multiple() {
    let i = info(900, 300, 3);
    assert_eq!(i.piece_count(), 3);
    assert_eq!(i.expected_piece_length(2), 300);
}

#[test]
fn piece_hash_is_the_matching_slice() {
    let t = Torrent::new(&metainfo_bytes(1000, 400, &sample_pieces())).unwrap();
    assert_eq!(t.info.piece_hash(1), (20u8..40).collect::<Vec<u8>>());
}

#[test]
fn canonical_info_hash_of_a_minimal_info_dict() {
    let mut d = Dict::new();
    d.insert(b"pieces".to_vec(), Bencode::String(b"abcdef".to_vec()));
    d.insert(b"piece length".to_vec(), Bencode::Integer(3));
    d.insert(b"length".to_vec(), Bencode::Integer(5));
    let v = Bencode::Dictionary(d);
    assert_eq!(v.encode(), b"d6:lengthi5e12:piece lengthi3e6:pieces6:abcdefe".to_vec());
    assert_eq!(hex::encode(hash_value(&v)), "75d6782274032225490858601fdcd1ef17d5dffa");
}

#[test]
fn info_hash_of_a_torrent() {
    let t = Torrent::new(&metainfo_bytes(1000, 400, &sample_pieces())).unwrap();
    let mut canonical = b"d6:lengthi1000e4:name8:file.txt12:piece lengthi400e6:pieces60:".to_vec();
    canonical.extend_from_slice(&sample_pieces());
    canonical.push(b'e');
    assert_eq!(t.info.to_bencode().encode(), canonical);
    let expected: [u8; 20] = sha1::Sha1::digest(&canonical).into();
    assert_eq!(t.info_hash_bytes(), expected);
    assert_eq!(t.info_hash_hex(), "897d70b0ff22e76bd0396a1984ea468ac7ddd23f");
    let url = t.info_hash_urlencoded();
    assert_eq!(url, "%89%7d%70%b0%ff%22%e7%6b%d0%39%6a%19%84%ea%46%8a%c7%dd%d2%3f");
}

#[test]
fn urlencode_of_zero_bytes() {
    let encoded = urlencode(&[0u8; 20]);
    assert_eq!(encoded, "%00".repeat(20));
    assert_eq!(encoded.chars().filter(|c| *c != '%').count(), 40);
}

#[test]
fn urlencode_uses_lowercase_hex() {
    assert_eq!(urlencode(&[0xab, 0x01, 0xff]), "%ab%01%ff");
    assert_eq!(urlencode(&[]), "");
}

#[test]
fn announce_url_carries_the_query() {
    let t = Torrent::new(&metainfo_bytes(1000, 400, &sample_pieces())).unwrap();
    let url = t.announce_url(b"00112233445566778899", 6881);
    let mut expected = String::from("http://tracker.test/a?info_hash=");
    expected.push_str("%89%7d%70%b0%ff%22%e7%6b%d0%39%6a%19%84%ea%46%8a%c7%dd%d2%3f");
    expected.push_str("&peer_id=%30%30%31%31%32%32%33%33%34%34%35%35%36%36%37%37%38%38%39%39");
    expected.push_str("&port=6881&uploaded=0&downloaded=0&left=1000&compact=1");
    assert_eq!(url, expected);
}
