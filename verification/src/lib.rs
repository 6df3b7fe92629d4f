//! The data-interchange and wire-protocol core of a BitTorrent client: the
//! bencode codec, the info-hash derivation, the peer wire message codec and
//! handshake, and the piece acquisition engine. Every function is specified
//! against the value model in `bencode_model` and the message model in
//! `peers`; transport, disk and HTTP stay with the caller.
pub mod bencode_format;
pub mod bencode_model;
pub mod digits;
pub mod download;
pub mod error;
pub mod peers;
pub mod torrent_file;
pub mod trackers;
pub mod url_encode;
pub mod utils;
