//! Peer discovery support: the tracker request URL (with its
//! percent-encoded info-hash) and the compact peer list a tracker answers
//! with, six bytes per peer.

use vstd::prelude::*;

use crate::bencode::{bdec, dec_digits, lemma_dec_digits_bounds, push_u64_dec};
use crate::text::ascii_string;
use crate::torrent::lookup_bytes;
use crate::TorrentError;

verus! {

use vstd::string::StringSliceAdditionalSpecFns;
use vstd::string::StringExecFns;
use vstd::string::StrSliceExecFns;

/// The decimal digits of `n` as characters.
pub open spec fn dec_chars(n: nat) -> Seq<char> {
    Seq::new(dec_digits(n).len(), |i: int| dec_digits(n)[i] as char)
}

/// The decimal form of `n` as a string.
pub fn u64_string(n: u64) -> (r: String)
    ensures
        r@ == dec_chars(n as nat),
{
    let mut v: Vec<u8> = Vec::new();
    push_u64_dec(n, &mut v);
    proof {
        lemma_dec_digits_bounds(n as nat);
        assert(v@ =~= dec_digits(n as nat));
    }
    let r = ascii_string(v);
    proof {
        assert(r@ =~= dec_chars(n as nat));
    }
    r
}

/// Dotted-decimal form of four IPv4 octets.
pub open spec fn ip_chars(a: u8, b: u8, c: u8, d: u8) -> Seq<char> {
    dec_chars(a as nat) + seq!['.'] + dec_chars(b as nat) + seq!['.'] + dec_chars(c as nat)
        + seq!['.'] + dec_chars(d as nat)
}

/// Reads a tracker's compact peer list, six bytes per peer: four IPv4
/// octets and a big-endian port. Trailing bytes short of a whole entry are
/// dropped.
pub fn bytes_to_peer_list(bytes: &[u8]) -> (r: Vec<(String, u16)>)
    ensures
        r@.len() == bytes@.len() / 6,
        forall|j: int|
            0 <= j < r@.len() ==> (#[trigger] r@[j]).0@ == ip_chars(
                bytes@[6 * j],
                bytes@[6 * j + 1],
                bytes@[6 * j + 2],
                bytes@[6 * j + 3],
            ) && r@[j].1 == bytes@[6 * j + 4] as u16 * 256 + bytes@[6 * j + 5] as u16,
{
    let mut peers: Vec<(String, u16)> = Vec::new();
    let mut i: usize = 0;
    while bytes.len() - i >= 6
        invariant
            i == 6 * peers@.len(),
            i <= bytes.len(),
            forall|j: int|
                0 <= j < peers@.len() ==> (#[trigger] peers@[j]).0@ == ip_chars(
                    bytes@[6 * j],
                    bytes@[6 * j + 1],
                    bytes@[6 * j + 2],
                    bytes@[6 * j + 3],
                ) && peers@[j].1 == bytes@[6 * j + 4] as u16 * 256 + bytes@[6 * j + 5] as u16,
        decreases bytes.len() - i,
    {
        let mut ip = u64_string(bytes[i] as u64);
        ip.append(".");
        ip.append(u64_string(bytes[i + 1] as u64).as_str());
        ip.append(".");
        ip.append(u64_string(bytes[i + 2] as u64).as_str());
        ip.append(".");
        ip.append(u64_string(bytes[i + 3] as u64).as_str());
        let port = bytes[i + 4] as u16 * 256 + bytes[i + 5] as u16;
        proof {
            reveal_strlit(".");
            assert(ip@ =~= ip_chars(
                bytes@[i as int],
                bytes@[i as int + 1],
                bytes@[i as int + 2],
                bytes@[i as int + 3],
            ));
        }
        peers.push((ip, port));
        i = i + 6;
    }
    proof {
        assert(peers@.len() == bytes@.len() / 6) by (nonlinear_arith)
            requires
                i == 6 * peers@.len(),
                i <= bytes@.len(),
                bytes@.len() < i + 6,
        ;
    }
    peers
}

/// An ASCII letter or digit: what percent-encoding leaves unchanged.
pub open spec fn is_ascii_alnum(b: u8) -> bool {
    (48 <= b <= 57) || (65 <= b <= 90) || (97 <= b <= 122)
}

/// The uppercase hex digit for a nibble.
pub open spec fn hex_upper_char(n: u8) -> char
    recommends
        n < 16,
{
    if n < 10 {
        ((48 + n) as u8) as char
    } else {
        ((55 + n) as u8) as char
    }
}

/// Percent-encoding with every non-alphanumeric byte escaped: an ASCII
/// letter or digit passes through, any other byte becomes `%XX` with
/// uppercase hex.
pub open spec fn pct_encoded_chars(b: Seq<u8>) -> Seq<char>
    decreases b.len(),
{
    if b.len() == 0 {
        Seq::empty()
    } else {
        (if is_ascii_alnum(b[0]) {
            seq![b[0] as char]
        } else {
            seq!['%', hex_upper_char(b[0] / 16), hex_upper_char(b[0] % 16)]
        }) + pct_encoded_chars(b.drop_first())
    }
}

/// Relies on `percent_encoding::percent_encode` with `NON_ALPHANUMERIC`:
/// every byte that is not an ASCII letter or digit becomes `%XX` with
/// uppercase hex digits; letters and digits pass through.
#[verifier::external_body]
fn percent_encode_all(data: &[u8]) -> (r: String)
    ensures
        r@ == pct_encoded_chars(data@),
{
    percent_encoding::percent_encode(data, percent_encoding::NON_ALPHANUMERIC).to_string()
}

/// The query a tracker is asked: the announce URL with the percent-encoded
/// info-hash, the peer id, the fixed listening port, zeroed counters, the
/// bytes still wanted, and the compact-list flag.
pub open spec fn tracker_query_chars(
    announce: Seq<char>,
    info_hash: Seq<u8>,
    peer_id: Seq<char>,
    left: nat,
) -> Seq<char> {
    announce + ("?info_hash=")@ + pct_encoded_chars(info_hash) + ("&peer_id=")@ + peer_id + (
    "&port=6881&uploaded=0&downloaded=0&left=")@ + dec_chars(left) + ("&compact=1")@
}

/// Builds the tracker request URL for a 20-byte info-hash.
pub fn tracker_request_url(announce: &str, info_hash: &[u8], peer_id: &str, file_size: usize) -> (r:
    String)
    requires
        info_hash@.len() == 20,
    ensures
        r@ == tracker_query_chars(announce@, info_hash@, peer_id@, file_size as nat),
{
    let mut url = announce.to_owned();
    url.append("?info_hash=");
    url.append(percent_encode_all(info_hash).as_str());
    url.append("&peer_id=");
    url.append(peer_id);
    url.append("&port=6881&uploaded=0&downloaded=0&left=");
    url.append(u64_string(file_size as u64).as_str());
    url.append("&compact=1");
    url
}

/// Reads a tracker's bencoded answer: the `peers` byte string of its
/// dictionary, decoded as a compact peer list. A reply that is not bencode
/// is `MalformedEncoding`; one whose dictionary lacks a `peers` byte
/// string is `ParseError`.
pub fn parse_peers_response(bytes: &[u8]) -> (r: Result<Vec<(String, u16)>, TorrentError>)
    ensures
        match r {
            Ok(peers) => {
                &&& bdec(bytes@) is Some
                &&& lookup_bytes(bdec(bytes@)->Some_0.0, ("peers").spec_bytes()) matches Some(pb)
                    && peers@.len() == pb.len() / 6 && forall|j: int|
                    0 <= j < peers@.len() ==> (#[trigger] peers@[j]).0@ == ip_chars(
                        pb[6 * j],
                        pb[6 * j + 1],
                        pb[6 * j + 2],
                        pb[6 * j + 3],
                    ) && peers@[j].1 == pb[6 * j + 4] as u16 * 256 + pb[6 * j + 5] as u16
            },
            Err(e) => match bdec(bytes@) {
                Some(p) => e == TorrentError::ParseError && lookup_bytes(
                    p.0,
                    ("peers").spec_bytes(),
                ) is None,
                None => e == TorrentError::MalformedEncoding,
            },
        },
{
    let (value, _rest) = match crate::bencode::decode_bencoded_value(bytes) {
        Ok(p) => p,
        Err(e) => {
            return Err(e);
        },
    };
    let d = match value.get_map() {
        Some(d) => d,
        None => {
            return Err(TorrentError::ParseError);
        },
    };
    let peers_bytes = match d.get("peers") {
        Some(v) => match v.get_string() {
            Some(b) => b,
            None => {
                return Err(TorrentError::ParseError);
            },
        },
        None => {
            return Err(TorrentError::ParseError);
        },
    };
    Ok(bytes_to_peer_list(peers_bytes.as_slice()))
}

} // verus!
