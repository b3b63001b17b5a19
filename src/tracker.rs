//! A tracker's answer to an announce: how long to wait, and the peers in
//! compact form, 6 bytes each.

use vstd::prelude::*;
use crate::bendecoder::{decode_bencoded_value, parse_value, Bencode, Value};
use crate::text::{ascii, ascii_bytes};
use crate::torrent::{bytes_field, count_field, get_bytes, get_count, Field, MetainfoError};

verus! {

/// A peer: its IPv4 address and its port.
#[derive(Debug, Clone, Copy, PartialEq, Eq)]
pub struct Peer {
    pub ip: [u8; 4],
    pub port: u16,
}

/// A tracker's answer to an announce.
#[derive(Debug)]
pub struct TrackerResponse {
    /// How often, in seconds, the client should announce again.
    interval: usize,
    /// The peers, 6 bytes each: the IPv4 address, then the port, most
    /// significant byte first.
    peers: Vec<u8>,
}

/// The bytes of the `interval` key.
pub open spec fn interval_key() -> Seq<u8> {
    ascii("interval"@)
}

/// The bytes of the `peers` key.
pub open spec fn peers_key() -> Seq<u8> {
    ascii("peers"@)
}

/// What a decoded tracker answer says, as its interval and its compact peer
/// list, or why it is not one.
pub open spec fn tracker_response_of(v: Value) -> Result<(int, Seq<u8>), MetainfoError> {
    match v {
        Value::Dict(top) => match count_field(top, interval_key(), Field::Interval) {
            Err(e) => Err(e),
            Ok(interval) => match bytes_field(top, peers_key(), Field::Peers) {
                Err(e) => Err(e),
                Ok(peers) => if peers.len() % 6 != 0 {
                    Err(MetainfoError::PeerList)
                } else {
                    Ok((interval, peers))
                },
            },
        },
        _ => Err(MetainfoError::NotADictionary),
    }
}

/// The peer that 6 compact bytes describe.
pub open spec fn peer_at(peers: Seq<u8>, i: int) -> (Seq<u8>, int) {
    (peers.subrange(6 * i, 6 * i + 4), peers[6 * i + 4] * 256 + peers[6 * i + 5])
}

impl TrackerResponse {
    /// The interval and the compact peer list.
    pub closed spec fn view(&self) -> (int, Seq<u8>) {
        (self.interval as int, self.peers@)
    }

    /// Reads a tracker's answer from its decoded dictionary.
    pub fn from_bencode(v: &Bencode) -> (r: Result<TrackerResponse, MetainfoError>)
        ensures
            match r {
                Ok(t) => tracker_response_of(v@) == Ok::<(int, Seq<u8>), MetainfoError>(t@),
                Err(e) => tracker_response_of(v@) == Err::<(int, Seq<u8>), MetainfoError>(e),
            },
    {
        let top = match v {
            Bencode::Dictionary(d) => d,
            _ => {
                return Err(MetainfoError::NotADictionary);
            },
        };
        proof {
            reveal_strlit("interval");
            reveal_strlit("peers");
        }
        let interval = get_count(top, ascii_bytes("interval").as_slice(), Field::Interval)?;
        let peers = get_bytes(top, ascii_bytes("peers").as_slice(), Field::Peers)?;
        if peers.len() % 6 != 0 {
            return Err(MetainfoError::PeerList);
        }
        Ok(TrackerResponse { interval, peers: vstd::slice::slice_to_vec(peers.as_slice()) })
    }

    /// Reads a tracker's answer from the bytes of its body.
    pub fn from_bytes(bytes: &[u8]) -> (r: Result<TrackerResponse, MetainfoError>)
        ensures
            match r {
                Ok(t) => parse_value(bytes@, 0) matches Ok((v, _)) && tracker_response_of(v)
                    == Ok::<(int, Seq<u8>), MetainfoError>(t@),
                Err(MetainfoError::Decode(e)) => parse_value(bytes@, 0) == Err::<
                    (Value, int),
                    crate::bendecoder::DecodeError,
                >(e),
                Err(e) => parse_value(bytes@, 0) matches Ok((v, _)) && tracker_response_of(v)
                    == Err::<(int, Seq<u8>), MetainfoError>(e),
            },
    {
        match decode_bencoded_value(bytes) {
            Ok((v, _)) => TrackerResponse::from_bencode(&v),
            Err(e) => Err(MetainfoError::Decode(e)),
        }
    }

    /// How often, in seconds, the client should announce again.
    pub fn interval(&self) -> (r: usize)
        ensures
            r == self@.0,
    {
        self.interval
    }

    /// The peers of the compact list, in order.
    pub fn all_peers(&self) -> (r: Vec<Peer>)
        ensures
            r@.len() == self@.1.len() / 6,
            forall|i: int|
                0 <= i < r@.len() ==> (#[trigger] r@[i]).ip@ == peer_at(self@.1, i).0 && r@[i].port
                    == peer_at(self@.1, i).1,
    {
        let mut peers: Vec<Peer> = Vec::new();
        let total = self.peers.len();
        let count = total / 6;
        let mut i: usize = 0;
        while i < count
            invariant
                total == self.peers@.len(),
                count == self.peers@.len() / 6,
                i <= count,
                peers@.len() == i,
                forall|j: int|
                    0 <= j < i ==> (#[trigger] peers@[j]).ip@ == peer_at(self.peers@, j).0
                        && peers@[j].port == peer_at(self.peers@, j).1,
            decreases count - i,
        {
            assert(6 * i + 6 <= self.peers@.len()) by (nonlinear_arith)
                requires
                    i < count,
                    count == self.peers@.len() / 6,
            ;
            assert(6 * i + 6 <= total);
            let at = 6 * i;
            let p = &self.peers;
            let ip = [p[at], p[at + 1], p[at + 2], p[at + 3]];
            let port = (p[at + 4] as u16) * 256 + p[at + 5] as u16;
            assert(ip@ =~= peer_at(self.peers@, i as int).0);
            peers.push(Peer { ip, port });
            i = i + 1;
        }
        peers
    }
}

} // verus!
