//! A minimal BitTorrent client library: a strict bencode codec, the torrent
//! metainfo model, the peer wire formats and the piece download logic.

pub mod bencode;
pub mod decode;
pub mod digest;
pub mod text;
pub mod torrent;
pub mod handshake;
pub mod protocol;
pub mod download;
pub mod peers;
pub mod decoder;
