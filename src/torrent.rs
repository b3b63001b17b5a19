//! The metainfo of a single-file torrent: what it holds, how it is read from
//! its bencoded dictionary, the size of each piece, and its info-hash.

use vstd::prelude::*;
use vstd::utf8::{encode_utf8, valid_utf8};
use vstd::string::StringExecFns;
use crate::bendecoder::{
    bytes_lt, decimal, decode_bencoded_value, dict_get, encode_value, parse_value, Bencode,
    DecodeError, Dict, Value,
};
use crate::hashing::{sha1_digest, sha1_of};
use crate::peer_message::{handshake_bytes, handshake_message};
use crate::text::{
    ascii, ascii_bytes, chars_of, hex_encode, hex_of, percent_of, push_decimal_chars, urlencode,
    utf8_string,
};

verus! {

/// A field of a metainfo file or of a tracker's answer.
#[derive(Debug, Clone, Copy, PartialEq, Eq)]
pub enum Field {
    Announce,
    Info,
    Name,
    Length,
    PieceLength,
    Pieces,
    Interval,
    Peers,
}

/// Why bytes are not a metainfo file (or not a tracker's answer).
#[derive(Debug, Clone, Copy, PartialEq, Eq)]
pub enum MetainfoError {
    /// The bytes are not bencoded.
    Decode(DecodeError),
    /// The bencoded value is not a dictionary.
    NotADictionary,
    /// A required field is absent.
    Missing(Field),
    /// A field holds another kind of value than it should.
    WrongKind(Field),
    /// A text field is not valid UTF-8.
    NotUtf8(Field),
    /// A number is negative, too large, or (for the piece length) zero.
    OutOfRange(Field),
    /// The piece hashes are not 20 bytes for each piece of the file.
    PieceHashes,
    /// The compact peer list is not 6 bytes for each peer.
    PeerList,
}

/// The file that a torrent describes.
#[derive(Debug)]
pub struct Info {
    /// The suggested name to save the file as.
    pub name: String,
    /// The length of the file, in bytes.
    pub length: usize,
    /// The number of bytes in each piece; the last piece may be shorter.
    pub piece_length: usize,
    /// The SHA-1 digests of the pieces, 20 bytes each, in order.
    pub pieces: Vec<u8>,
}

/// The metainfo of a torrent.
#[derive(Debug)]
pub struct Torrent {
    /// The URL of the tracker.
    pub announce: String,
    /// The file.
    pub info: Info,
}

/// The number of pieces that a file of `length` bytes is cut into.
pub open spec fn pieces_for(length: int, piece_length: int) -> int {
    length / piece_length + if length % piece_length == 0 {
        0int
    } else {
        1int
    }
}

/// The length of piece `index` of `count` pieces: the piece length, but for
/// the last piece, which holds what remains of the file.
pub open spec fn piece_size(length: int, piece_length: int, count: int, index: int) -> int {
    if index < count - 1 || length % piece_length == 0 {
        piece_length
    } else {
        length % piece_length
    }
}

/// The pieces cover the file exactly: all but the last are full, and the
/// last holds what remains, so their lengths add up to the file's length.
pub proof fn lemma_pieces_cover_file(length: int, piece_length: int)
    requires
        0 <= length,
        0 < piece_length,
    ensures
        pieces_for(length, piece_length) > 0 ==> (pieces_for(length, piece_length) - 1)
            * piece_length + piece_size(
            length,
            piece_length,
            pieces_for(length, piece_length),
            pieces_for(length, piece_length) - 1,
        ) == length,
        pieces_for(length, piece_length) == 0 <==> length == 0,
{
    let q = length / piece_length;
    let r = length % piece_length;
    assert(length == q * piece_length + r && 0 <= r < piece_length && 0 <= q) by (nonlinear_arith)
        requires
            0 <= length,
            0 < piece_length,
            q == length / piece_length,
            r == length % piece_length,
    ;
    if r == 0 && q > 0 {
        assert((q - 1) * piece_length + piece_length == q * piece_length) by (nonlinear_arith);
    }
    if q == 0 && r == 0 {
        assert(length == 0) by (nonlinear_arith)
            requires
                length == q * piece_length + r,
                q == 0,
                r == 0,
        ;
    }
}

/// What a metainfo file says, as bytes and numbers.
pub struct Metainfo {
    pub announce: Seq<u8>,
    pub name: Seq<u8>,
    pub length: int,
    pub piece_length: int,
    pub pieces: Seq<u8>,
}

impl Info {
    /// Pieces are not empty, the numbers fit a bencoded integer, and there
    /// is a digest for each piece of the file.
    pub open spec fn wf(&self) -> bool {
        &&& 0 < self.piece_length <= i64::MAX
        &&& self.length <= i64::MAX
        &&& self.pieces@.len() == 20 * pieces_for(self.length as int, self.piece_length as int)
    }

    /// The number of pieces: one for every 20 bytes of digests.
    pub fn piece_count(&self) -> (r: usize)
        ensures
            r == self.pieces@.len() / 20,
    {
        self.pieces.len() / 20
    }

    /// The length of piece `index`.
    pub fn expected_piece_length(&self, index: usize) -> (r: usize)
        requires
            self.piece_length > 0,
            index < self.pieces@.len() / 20,
        ensures
            r == piece_size(
                self.length as int,
                self.piece_length as int,
                self.pieces@.len() as int / 20,
                index as int,
            ),
    {
        let count = self.piece_count();
        let rest = self.length % self.piece_length;
        if index < count - 1 || rest == 0 {
            self.piece_length
        } else {
            rest
        }
    }

    /// The SHA-1 digest that piece `index` must have.
    pub fn piece_hash(&self, index: usize) -> (r: Vec<u8>)
        requires
            index < self.pieces@.len() / 20,
        ensures
            r@ == self.pieces@.subrange(20 * index, 20 * index + 20),
    {
        let n = self.pieces.len();
        assert(20 * index + 20 <= n) by (nonlinear_arith)
            requires
                index < n / 20,
        ;
        let start = 20 * index;
        vstd::slice::slice_to_vec(vstd::slice::slice_subrange(self.pieces.as_slice(), start, start + 20))
    }
}

/// The bytes of the `announce` key.
pub open spec fn announce_key() -> Seq<u8> {
    ascii("announce"@)
}

/// The bytes of the `info` key.
pub open spec fn info_key() -> Seq<u8> {
    ascii("info"@)
}

/// The bytes of the `name` key.
pub open spec fn name_key() -> Seq<u8> {
    ascii("name"@)
}

/// The bytes of the `length` key.
pub open spec fn length_key() -> Seq<u8> {
    ascii("length"@)
}

/// The bytes of the `piece length` key.
pub open spec fn piece_length_key() -> Seq<u8> {
    ascii("piece length"@)
}

/// The bytes of the `pieces` key.
pub open spec fn pieces_key() -> Seq<u8> {
    ascii("pieces"@)
}

/// The byte string under `key`.
pub open spec fn bytes_field(es: Seq<(Seq<u8>, Value)>, key: Seq<u8>, f: Field) -> Result<
    Seq<u8>,
    MetainfoError,
> {
    match dict_get(es, key) {
        None => Err(MetainfoError::Missing(f)),
        Some(Value::Bytes(b)) => Ok(b),
        Some(_) => Err(MetainfoError::WrongKind(f)),
    }
}

/// The UTF-8 text under `key`, as its bytes.
pub open spec fn text_field(es: Seq<(Seq<u8>, Value)>, key: Seq<u8>, f: Field) -> Result<
    Seq<u8>,
    MetainfoError,
> {
    match bytes_field(es, key, f) {
        Ok(b) => if valid_utf8(b) {
            Ok(b)
        } else {
            Err(MetainfoError::NotUtf8(f))
        },
        Err(e) => Err(e),
    }
}

/// The count under `key`: an integer that fits a `usize`.
pub open spec fn count_field(es: Seq<(Seq<u8>, Value)>, key: Seq<u8>, f: Field) -> Result<
    int,
    MetainfoError,
> {
    match dict_get(es, key) {
        None => Err(MetainfoError::Missing(f)),
        Some(Value::Int(n)) => if 0 <= n <= usize::MAX {
            Ok(n)
        } else {
            Err(MetainfoError::OutOfRange(f))
        },
        Some(_) => Err(MetainfoError::WrongKind(f)),
    }
}

/// The file that an `info` dictionary describes.
pub open spec fn info_of(info: Seq<(Seq<u8>, Value)>, announce: Seq<u8>) -> Result<
    Metainfo,
    MetainfoError,
> {
    match text_field(info, name_key(), Field::Name) {
        Err(e) => Err(e),
        Ok(name) => match count_field(info, length_key(), Field::Length) {
            Err(e) => Err(e),
            Ok(length) => match count_field(info, piece_length_key(), Field::PieceLength) {
                Err(e) => Err(e),
                Ok(piece_length) => if piece_length == 0 {
                    Err(MetainfoError::OutOfRange(Field::PieceLength))
                } else {
                    match bytes_field(info, pieces_key(), Field::Pieces) {
                        Err(e) => Err(e),
                        Ok(pieces) => if pieces.len() != 20 * pieces_for(length, piece_length) {
                            Err(MetainfoError::PieceHashes)
                        } else {
                            Ok(Metainfo { announce, name, length, piece_length, pieces })
                        },
                    }
                },
            },
        },
    }
}

/// What a decoded metainfo file says, or why it is not one.
pub open spec fn metainfo_of(v: Value) -> Result<Metainfo, MetainfoError> {
    match v {
        Value::Dict(top) => match text_field(top, announce_key(), Field::Announce) {
            Err(e) => Err(e),
            Ok(announce) => match dict_get(top, info_key()) {
                None => Err(MetainfoError::Missing(Field::Info)),
                Some(Value::Dict(info)) => info_of(info, announce),
                Some(_) => Err(MetainfoError::WrongKind(Field::Info)),
            },
        },
        _ => Err(MetainfoError::NotADictionary),
    }
}

/// What metainfo bytes say, or why they are not a metainfo file.
pub open spec fn metainfo_of_bytes(bytes: Seq<u8>) -> Result<Metainfo, MetainfoError> {
    match parse_value(bytes, 0) {
        Ok((v, _)) => metainfo_of(v),
        Err(e) => Err(MetainfoError::Decode(e)),
    }
}

/// The byte string under `key` of a dictionary.
pub(crate) fn get_bytes<'a>(d: &'a Dict, key: &[u8], f: Field) -> (r: Result<&'a Vec<u8>, MetainfoError>)
    ensures
        match r {
            Ok(b) => bytes_field(d@, key@, f) == Ok::<Seq<u8>, MetainfoError>(b@),
            Err(e) => bytes_field(d@, key@, f) == Err::<Seq<u8>, MetainfoError>(e),
        },
{
    match d.get(key) {
        None => Err(MetainfoError::Missing(f)),
        Some(Bencode::String(b)) => Ok(b),
        Some(_) => Err(MetainfoError::WrongKind(f)),
    }
}

/// The UTF-8 text under `key` of a dictionary.
fn get_text(d: &Dict, key: &[u8], f: Field) -> (r: Result<String, MetainfoError>)
    ensures
        match r {
            Ok(t) => text_field(d@, key@, f) == Ok::<Seq<u8>, MetainfoError>(encode_utf8(t@)),
            Err(e) => text_field(d@, key@, f) == Err::<Seq<u8>, MetainfoError>(e),
        },
{
    let b = get_bytes(d, key, f)?;
    match utf8_string(b.as_slice()) {
        Some(t) => Ok(t),
        None => Err(MetainfoError::NotUtf8(f)),
    }
}

/// The count under `key` of a dictionary.
pub(crate) fn get_count(d: &Dict, key: &[u8], f: Field) -> (r: Result<usize, MetainfoError>)
    ensures
        match r {
            Ok(n) => count_field(d@, key@, f) == Ok::<int, MetainfoError>(n as int) && n <= i64::MAX,
            Err(e) => count_field(d@, key@, f) == Err::<int, MetainfoError>(e),
        },
{
    match d.get(key) {
        None => Err(MetainfoError::Missing(f)),
        Some(Bencode::Integer(n)) => {
            if *n < 0 || (*n as u64) > (usize::MAX as u64) {
                Err(MetainfoError::OutOfRange(f))
            } else {
                Ok(*n as usize)
            }
        },
        Some(_) => Err(MetainfoError::WrongKind(f)),
    }
}

impl Torrent {
    /// What this torrent says, as bytes and numbers.
    pub open spec fn model(&self) -> Metainfo {
        Metainfo {
            announce: encode_utf8(self.announce@),
            name: encode_utf8(self.info.name@),
            length: self.info.length as int,
            piece_length: self.info.piece_length as int,
            pieces: self.info.pieces@,
        }
    }

    /// Reads a torrent from its decoded metainfo dictionary.
    pub fn from_bencode(v: &Bencode) -> (r: Result<Torrent, MetainfoError>)
        ensures
            match r {
                Ok(t) => metainfo_of(v@) == Ok::<Metainfo, MetainfoError>(t.model()) && t.info.wf(),
                Err(e) => metainfo_of(v@) == Err::<Metainfo, MetainfoError>(e),
            },
    {
        let top = match v {
            Bencode::Dictionary(d) => d,
            _ => {
                return Err(MetainfoError::NotADictionary);
            },
        };
        proof {
            reveal_strlit("announce");
            reveal_strlit("info");
            reveal_strlit("name");
            reveal_strlit("length");
            reveal_strlit("piece length");
            reveal_strlit("pieces");
        }
        let announce = get_text(top, ascii_bytes("announce").as_slice(), Field::Announce)?;
        let info = match top.get(ascii_bytes("info").as_slice()) {
            None => {
                return Err(MetainfoError::Missing(Field::Info));
            },
            Some(Bencode::Dictionary(info)) => info,
            Some(_) => {
                return Err(MetainfoError::WrongKind(Field::Info));
            },
        };
        let name = get_text(info, ascii_bytes("name").as_slice(), Field::Name)?;
        let length = get_count(info, ascii_bytes("length").as_slice(), Field::Length)?;
        let piece_length = get_count(
            info,
            ascii_bytes("piece length").as_slice(),
            Field::PieceLength,
        )?;
        if piece_length == 0 {
            return Err(MetainfoError::OutOfRange(Field::PieceLength));
        }
        let pieces = get_bytes(info, ascii_bytes("pieces").as_slice(), Field::Pieces)?;
        let whole = length / piece_length;
        let hashes = pieces.len() / 20;
        let matches_file = if length % piece_length == 0 {
            hashes == whole
        } else {
            hashes > whole && hashes - 1 == whole
        };
        if pieces.len() % 20 != 0 || !matches_file {
            return Err(MetainfoError::PieceHashes);
        }
        let info = Info {
            name,
            length,
            piece_length,
            pieces: vstd::slice::slice_to_vec(pieces.as_slice()),
        };
        Ok(Torrent { announce, info })
    }

    /// Reads a torrent from the bytes of its metainfo file.
    pub fn new(bytes: &[u8]) -> (r: Result<Torrent, MetainfoError>)
        ensures
            match r {
                Ok(t) => metainfo_of_bytes(bytes@) == Ok::<Metainfo, MetainfoError>(t.model())
                    && t.info.wf(),
                Err(e) => metainfo_of_bytes(bytes@) == Err::<Metainfo, MetainfoError>(e),
            },
    {
        match decode_bencoded_value(bytes) {
            Ok((v, _)) => Torrent::from_bencode(&v),
            Err(e) => Err(MetainfoError::Decode(e)),
        }
    }
}


/// The `info` dictionary of a file: its four fields in ascending key order.
pub open spec fn info_value(info: &Info) -> Value {
    Value::Dict(
        seq![
            (length_key(), Value::Int(info.length as int)),
            (name_key(), Value::Bytes(encode_utf8(info.name@))),
            (piece_length_key(), Value::Int(info.piece_length as int)),
            (pieces_key(), Value::Bytes(info.pieces@)),
        ],
    )
}

/// The digest that names a torrent whose `info` dictionary is `info`.
pub open spec fn info_hash_of(info: Value) -> Seq<u8> {
    sha1_of(encode_value(info))
}

/// The SHA-1 digest of the canonical encoding of a value: for an `info`
/// dictionary, the torrent's info-hash.
pub fn hash_value(v: &Bencode) -> (r: [u8; 20])
    ensures
        r@ == info_hash_of(v@),
{
    let bytes = v.encode();
    sha1_digest(bytes.as_slice())
}

impl Info {
    /// The `info` dictionary of this file, as it is encoded for the
    /// info-hash.
    pub fn to_bencode(&self) -> (r: Bencode)
        requires
            self.length <= i64::MAX,
            self.piece_length <= i64::MAX,
        ensures
            r@ == info_value(self),
    {
        proof {
            reveal_strlit("length");
            reveal_strlit("name");
            reveal_strlit("piece length");
            reveal_strlit("pieces");
        }
        let mut d = Dict::new();
        d.insert(ascii_bytes("length"), Bencode::Integer(self.length as i64));
        d.insert(
            ascii_bytes("name"),
            Bencode::String(vstd::slice::slice_to_vec(self.name.as_str().as_bytes())),
        );
        d.insert(ascii_bytes("piece length"), Bencode::Integer(self.piece_length as i64));
        d.insert(
            ascii_bytes("pieces"),
            Bencode::String(vstd::slice::slice_to_vec(self.pieces.as_slice())),
        );
        proof {
            let l = length_key();
            let n = name_key();
            let pl = piece_length_key();
            let ps = pieces_key();
            assert(l =~= seq![108u8, 101, 110, 103, 116, 104]);
            assert(n =~= seq![110u8, 97, 109, 101]);
            assert(pl =~= seq![112u8, 105, 101, 99, 101, 32, 108, 101, 110, 103, 116, 104]);
            assert(ps =~= seq![112u8, 105, 101, 99, 101, 115]);
            assert(bytes_lt(l, n));
            assert(bytes_lt(l, pl));
            assert(bytes_lt(l, ps));
            assert(bytes_lt(n, pl));
            assert(bytes_lt(n, ps));
            assert(bytes_lt(pl, ps)) by {
                reveal_with_fuel(bytes_lt, 7);
            }
            let e = Seq::<(Seq<u8>, Value)>::empty();
            let a = (l, Value::Int(self.length as int));
            let b = (n, Value::Bytes(encode_utf8(self.name@)));
            let c = (pl, Value::Int(self.piece_length as int));
            let f = (ps, Value::Bytes(self.pieces@));
            assert(crate::bendecoder::dict_insert(e, a.0, a.1) == seq![a]);
            assert(seq![a].drop_first() =~= e);
            assert(seq![a][0] == a);
            assert(crate::bendecoder::dict_insert(e, b.0, b.1) == seq![b]);
            assert(crate::bendecoder::dict_insert(seq![a], b.0, b.1) =~= seq![a, b]);
            assert(seq![a, b].drop_first() =~= seq![b]);
            assert(seq![b].drop_first() =~= e);
            assert(seq![b][0] == b);
            assert(crate::bendecoder::dict_insert(e, c.0, c.1) == seq![c]);
            assert(crate::bendecoder::dict_insert(seq![b], c.0, c.1) =~= seq![b, c]);
            assert(crate::bendecoder::dict_insert(seq![a, b], c.0, c.1) =~= seq![a, b, c]);
            assert(seq![a, b, c].drop_first() =~= seq![b, c]);
            assert(seq![b, c].drop_first() =~= seq![c]);
            assert(seq![c].drop_first() =~= e);
            assert(seq![c][0] == c);
            assert(crate::bendecoder::dict_insert(e, f.0, f.1) == seq![f]);
            assert(crate::bendecoder::dict_insert(seq![c], f.0, f.1) =~= seq![c, f]);
            assert(crate::bendecoder::dict_insert(seq![b, c], f.0, f.1) =~= seq![b, c, f]);
            assert(crate::bendecoder::dict_insert(seq![a, b, c], f.0, f.1) =~= seq![a, b, c, f]);
        }
        Bencode::Dictionary(d)
    }
}

impl Torrent {
    /// The info-hash: the SHA-1 digest of the canonical encoding of the
    /// `info` dictionary.
    pub fn info_hash_bytes(&self) -> (r: [u8; 20])
        requires
            self.info.length <= i64::MAX,
            self.info.piece_length <= i64::MAX,
        ensures
            r@ == info_hash_of(info_value(&self.info)),
    {
        hash_value(&self.info.to_bencode())
    }

    /// The info-hash in lowercase hexadecimal.
    pub fn info_hash_hex(&self) -> (r: String)
        requires
            self.info.length <= i64::MAX,
            self.info.piece_length <= i64::MAX,
        ensures
            r@ == hex_of(info_hash_of(info_value(&self.info))),
    {
        let hash = self.info_hash_bytes();
        hex_encode(&hash)
    }

    /// The info-hash with every byte percent-encoded, for a tracker's query
    /// string.
    pub fn info_hash_urlencoded(&self) -> (r: String)
        requires
            self.info.length <= i64::MAX,
            self.info.piece_length <= i64::MAX,
        ensures
            r@ == percent_of(info_hash_of(info_value(&self.info))),
    {
        let hash = self.info_hash_bytes();
        urlencode(&hash)
    }

    /// The handshake that a client with `peer_id` sends to a peer of this
    /// torrent.
    pub fn make_handshake(&self, peer_id: &[u8; 20]) -> (r: Vec<u8>)
        requires
            self.info.length <= i64::MAX,
            self.info.piece_length <= i64::MAX,
        ensures
            r@ == handshake_bytes(info_hash_of(info_value(&self.info)), peer_id@),
    {
        let hash = self.info_hash_bytes();
        handshake_message(&hash, peer_id)
    }

    /// The tracker announce URL for a client with `peer_id` that listens on
    /// `port` and has downloaded nothing yet.
    pub fn announce_url(&self, peer_id: &[u8; 20], port: u16) -> (r: String)
        requires
            self.info.length <= i64::MAX,
            self.info.piece_length <= i64::MAX,
        ensures
            r@ == self.announce@ + "?info_hash="@ + percent_of(info_hash_of(info_value(&self.info)))
                + "&peer_id="@ + percent_of(peer_id@) + "&port="@ + chars_of(decimal(port as nat))
                + "&uploaded=0&downloaded=0&left="@ + chars_of(decimal(self.info.length as nat))
                + "&compact=1"@,
    {
        let mut url = self.announce.clone();
        url.append("?info_hash=");
        let hash = self.info_hash_urlencoded();
        url.append(hash.as_str());
        url.append("&peer_id=");
        let id = urlencode(peer_id);
        url.append(id.as_str());
        url.append("&port=");
        push_decimal_chars(&mut url, port as u64);
        url.append("&uploaded=0&downloaded=0&left=");
        push_decimal_chars(&mut url, self.info.length as u64);
        url.append("&compact=1");
        url
    }
}

} // verus!
