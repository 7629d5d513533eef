//! Metadata and handshake layer of a BitTorrent client: a verified bencode
//! codec, the torrent manifest model, the compact peer list and the
//! fixed-layout peer handshake.
pub mod bencode;
pub mod display;
pub mod handshake;
pub mod metainfo;
pub mod tracker;

pub use bencode::{decode, decode_bencoded_value, insert_entry, DecodeError, Value};
pub use handshake::{Handshake, HandshakeError};
pub use metainfo::{File, Hashes, Info, Keys, Metainfo, MetainfoError};
pub use tracker::{PeerAddr, Peers, PeersVisitor, TrackerError, TrackerResponse};
