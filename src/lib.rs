//! Core of a BitTorrent client: the bencoding codec, the metainfo model,
//! the peer-wire framer and the piece download state machine.

pub mod bendecoder;
pub mod canonical;
pub mod text;
pub mod hashing;
pub mod torrent;
pub mod tracker;
pub mod peer_message;
pub mod download;
