//! Trusted bridge to the SHA1 digest and the hex codec, with the spec-level
//! names and functions their contracts are stated over.

use vstd::prelude::*;

use sha1::{Digest, Sha1};

verus! {

/// The SHA1 digest of a byte sequence. The digest is a function of the
/// input bytes alone; its 20-byte value is not axiomatised here, so nothing
/// about a concrete digest can be concluded without running the hash.
pub uninterp spec fn sha1_of(data: Seq<u8>) -> Seq<u8>;

/// Relies on `sha1::Sha1` through `Digest::digest`: the digest is 20 bytes
/// and depends on the input bytes alone.
#[verifier::external_body]
pub fn sha1_digest(data: &[u8]) -> (r: Vec<u8>)
    ensures
        r@ == sha1_of(data@),
        r@.len() == 20,
{
    Sha1::digest(data).to_vec()
}

/// The lowercase hex digit for a nibble.
pub open spec fn hex_char(n: u8) -> char
    recommends
        n < 16,
{
    if n < 10 {
        ((48 + n) as u8) as char
    } else {
        ((87 + n) as u8) as char
    }
}

/// Two lowercase hex digits for every byte, in order.
pub open spec fn hex_chars(b: Seq<u8>) -> Seq<char>
    decreases b.len(),
{
    if b.len() == 0 {
        Seq::empty()
    } else {
        seq![hex_char(b[0] / 16), hex_char(b[0] % 16)] + hex_chars(b.drop_first())
    }
}

/// Relies on `hex::encode`: each byte becomes two lowercase hex digits, in
/// order.
#[verifier::external_body]
pub fn hex_encode(data: &[u8]) -> (r: String)
    ensures
        r@ == hex_chars(data@),
{
    hex::encode(data)
}

} // verus!
