//! A single-file BitTorrent client core: the bencode codec, torrent metadata
//! with its SHA1 info-hash, magnet-link parsing, compact peer lists, and the
//! peer wire protocol engine (piece download and extension-protocol metadata
//! retrieval), with machine-checked contracts.

pub mod bencode;
pub mod digest;
pub mod metadata;
pub mod peers;
pub mod wire;
pub mod torrent;
pub mod text;
pub mod value;

pub use value::Dict;
pub use value::Value;

use vstd::prelude::*;

verus! {

/// The failure taxonomy: malformed bencode input, a missing or mistyped
/// required field, an unexpected message id at some protocol state (the id
/// is carried), a piece whose SHA1 digest differs from the expected one, and
/// retrieved metadata whose info-hash differs from the one a magnet asserts.
#[derive(Clone, Copy, Debug, PartialEq, Eq, Structural)]
pub enum TorrentError {
    MalformedEncoding,
    ParseError,
    ProtocolViolation(u8),
    HashMismatch,
    MetadataHashMismatch,
}

} // verus!
