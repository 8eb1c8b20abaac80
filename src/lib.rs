//! A bencode codec: decoding to a tagged value with exact consumed lengths
//! and located errors, canonical re-encoding, typed lookups, and the
//! metainfo and tracker logic built on them.
pub mod value;
pub mod encode;
pub mod decode;
pub mod laws;
pub mod access;
pub mod text;
pub mod metainfo;
pub mod tracker;
pub mod json;
pub mod commands;

pub use value::{BencodeTypes, Dict, bytes_less};
pub use decode::{DecodeError, ErrorKind};
pub use access::LookupError;
pub use metainfo::{info_hash, piece_hashes};
pub use tracker::{Peer, TrackerError, escape_byte, escape_info_hash, tracker_url, parse_peers, peers_from_response};
pub use commands::Commands;
pub use json::ToJSON;
pub use text::to_hex;
