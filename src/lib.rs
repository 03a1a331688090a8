//! A BitTorrent client library: bencode codec, bit vectors, metafile
//! parsing, wire messages, handshakes, piece scheduling, tracker announce
//! packets and the peer pool's decisions, with their behaviour stated as
//! Verus contracts.
pub mod error;

pub mod decimal;
pub mod digest;
pub mod utf8;
pub mod wire;

pub mod bencode;
pub mod bitvector;
pub mod message;
pub mod meta;
pub mod peer;
pub mod peer_id;
pub mod piece;
pub mod pool;
pub mod tracker;
