//! Torrent metadata: the `Info` dictionary with its SHA1 info-hash, the
//! `Torrent` built from a decoded file, and the `Magnet` built from a
//! magnet URI.
//!
//! The info-hash is computed over the bencoded form of the info dictionary
//! value exactly as it was decoded, so two decodes of the same file bytes
//! always agree on it (`lemma_info_hash_deterministic`).

use vstd::prelude::*;

use crate::bencode::{encoded, find_byte, lemma_find_byte_char};
use crate::digest::{hex_chars, hex_encode, sha1_digest, sha1_of};
use crate::text::{
    hex_bytes_decode, hex_bytes_decoded, hex_bytes_ok, pct_decoded, percent_decode, trim_ascii,
    trimmed, utf8_string,
};
use crate::value::{bytes_eq, entries_get, Value, ValueModel};

verus! {

use vstd::string::StringSliceAdditionalSpecFns;
use vstd::utf8::{decode_utf8, valid_utf8};

/// Looks a key up in a value that should be a dictionary.
pub open spec fn dict_lookup(v: ValueModel, key: Seq<u8>) -> Option<ValueModel> {
    match v {
        ValueModel::Dict(entries) => entries_get(entries, key),
        _ => None,
    }
}

/// Looks an integer field up.
pub open spec fn lookup_int(v: ValueModel, key: Seq<u8>) -> Option<int> {
    match dict_lookup(v, key) {
        Some(ValueModel::Int(n)) => Some(n),
        _ => None,
    }
}

/// Looks a byte-string field up.
pub open spec fn lookup_bytes(v: ValueModel, key: Seq<u8>) -> Option<Seq<u8>> {
    match dict_lookup(v, key) {
        Some(ValueModel::Bytes(b)) => Some(b),
        _ => None,
    }
}

/// Ceiling division for positive divisors.
pub open spec fn ceil_div(a: int, b: int) -> int {
    (a + b - 1) / b
}

/// What a well-formed info dictionary must hold: a non-negative `length`,
/// a `name` byte string, a positive `piece length`, and a `pieces` byte
/// string of whole 20-byte hashes, one per piece of the file.
pub open spec fn info_ok(v: ValueModel) -> bool {
    &&& lookup_int(v, ("length").spec_bytes()) is Some
    &&& lookup_bytes(v, ("name").spec_bytes()) is Some
    &&& lookup_int(v, ("piece length").spec_bytes()) is Some
    &&& lookup_bytes(v, ("pieces").spec_bytes()) is Some
    &&& 0 <= lookup_int(v, ("length").spec_bytes())->Some_0 <= usize::MAX
    &&& 0 < lookup_int(v, ("piece length").spec_bytes())->Some_0 <= usize::MAX
    &&& lookup_bytes(v, ("pieces").spec_bytes())->Some_0.len() % 20 == 0
    &&& lookup_bytes(v, ("pieces").spec_bytes())->Some_0.len() / 20 == ceil_div(
        lookup_int(v, ("length").spec_bytes())->Some_0,
        lookup_int(v, ("piece length").spec_bytes())->Some_0,
    )
}

/// Single-file torrent metadata: sizes, the per-piece SHA1 hashes, and the
/// 20-byte info-hash of the bencoded info dictionary.
pub struct Info {
    pub length: usize,
    pub name: Vec<u8>,
    pub piece_length: usize,
    pub pieces: Vec<Vec<u8>>,
    pub hash: Vec<u8>,
}

impl Info {
    /// The structural invariant: a positive piece length, 20-byte hashes,
    /// and exactly one hash per piece of the file.
    pub open spec fn wf(self) -> bool {
        &&& 0 < self.piece_length
        &&& self.hash@.len() == 20
        &&& forall|i: int| 0 <= i < self.pieces@.len() ==> (#[trigger] self.pieces@[i])@.len() == 20
        &&& self.pieces@.len() == ceil_div(self.length as int, self.piece_length as int)
    }

    /// Whether this metadata was read from the given info dictionary
    /// value, its hash taken over that value's bencoded form.
    pub open spec fn parsed_from(self, v: ValueModel) -> bool {
        &&& info_ok(v)
        &&& self.length as int == lookup_int(v, ("length").spec_bytes())->Some_0
        &&& self.name@ == lookup_bytes(v, ("name").spec_bytes())->Some_0
        &&& self.piece_length as int == lookup_int(v, ("piece length").spec_bytes())->Some_0
        &&& self.pieces@.len() == lookup_bytes(v, ("pieces").spec_bytes())->Some_0.len() / 20
        &&& forall|j: int|
            0 <= j < self.pieces@.len() ==> (#[trigger] self.pieces@[j])@ == lookup_bytes(
                v,
                ("pieces").spec_bytes(),
            )->Some_0.subrange(20 * j, 20 * j + 20)
        &&& self.hash@ == sha1_of(encoded(v))
    }

    /// Reads the metadata out of a decoded info dictionary and hashes the
    /// dictionary's bencoded form; any missing or mistyped field, a
    /// `pieces` string that is not whole 20-byte hashes, or a piece count
    /// that does not match the file size fails the construction.
    pub fn new(val: Value) -> (r: Option<Info>)
        ensures
            match r {
                Some(info) => info.wf() && info.parsed_from(val@),
                None => !info_ok(val@),
            },
    {
        let bencoded = crate::bencode::encode_value(val.deep_clone());
        let hash = sha1_digest(bencoded.as_slice());
        let d = match val.get_map() {
            Some(d) => d,
            None => {
                return None;
            },
        };
        let length_i = match d.get("length") {
            Some(v) => match v.get_int() {
                Some(i) => i,
                None => {
                    return None;
                },
            },
            None => {
                return None;
            },
        };
        if length_i < 0 || length_i as u64 > usize::MAX as u64 {
            return None;
        }
        let length = length_i as usize;
        let name = match d.get("name") {
            Some(v) => match v.get_string() {
                Some(b) => b,
                None => {
                    return None;
                },
            },
            None => {
                return None;
            },
        };
        let piece_length_i = match d.get("piece length") {
            Some(v) => match v.get_int() {
                Some(i) => i,
                None => {
                    return None;
                },
            },
            None => {
                return None;
            },
        };
        if piece_length_i <= 0 || piece_length_i as u64 > usize::MAX as u64 {
            return None;
        }
        let piece_length = piece_length_i as usize;
        let pieces_raw = match d.get("pieces") {
            Some(v) => match v.get_string() {
                Some(b) => b,
                None => {
                    return None;
                },
            },
            None => {
                return None;
            },
        };
        if pieces_raw.len() % 20 != 0 {
            return None;
        }
        let pieces = get_pieces_hashes(pieces_raw.as_slice());
        let expected = (length as u128 + piece_length as u128 - 1) / piece_length as u128;
        if pieces.len() as u128 != expected {
            return None;
        }
        Some(Info { length, name, piece_length, pieces, hash })
    }

    /// The info-hash as a lowercase hex string.
    pub fn get_info_hash(&self) -> (r: String)
        ensures
            r@ == hex_chars(self.hash@),
    {
        hex_encode(self.hash.as_slice())
    }

    /// The raw 20 info-hash bytes.
    pub fn get_info_hash_bytes(&self) -> (r: Vec<u8>)
        ensures
            r@ == self.hash@,
    {
        crate::value::copy_bytes(self.hash.as_slice())
    }

    /// The expected SHA1 hash of one piece.
    pub fn get_piece(&self, piece_index: usize) -> (r: Vec<u8>)
        requires
            piece_index < self.pieces@.len(),
        ensures
            r@ == self.pieces@[piece_index as int]@,
    {
        crate::value::copy_bytes(self.pieces[piece_index].as_slice())
    }

    /// The nominal piece size; the final piece of a file may be shorter.
    pub fn get_piece_size(&self) -> (r: usize)
        ensures
            r == self.piece_length,
    {
        self.piece_length
    }

    /// The file size in bytes.
    pub fn get_file_size(&self) -> (r: usize)
        ensures
            r == self.length,
    {
        self.length
    }

    /// How many pieces the file has.
    pub fn total_pieces(&self) -> (r: usize)
        ensures
            r == self.pieces@.len(),
    {
        self.pieces.len()
    }
}

/// Slices a concatenation of 20-byte SHA1 hashes into its hashes; trailing
/// bytes short of a whole hash are dropped.
pub fn get_pieces_hashes(input: &[u8]) -> (r: Vec<Vec<u8>>)
    ensures
        r@.len() == input@.len() / 20,
        forall|j: int|
            0 <= j < r@.len() ==> (#[trigger] r@[j])@ == input@.subrange(20 * j, 20 * j + 20),
{
    let mut output: Vec<Vec<u8>> = Vec::new();
    let mut i: usize = 0;
    while input.len() - i >= 20
        invariant
            i == 20 * output@.len(),
            i <= input.len(),
            forall|j: int|
                0 <= j < output@.len() ==> (#[trigger] output@[j])@ == input@.subrange(
                    20 * j,
                    20 * j + 20,
                ),
        decreases input.len() - i,
    {
        let hash = crate::value::copy_bytes(&input[i..i + 20]);
        output.push(hash);
        i = i + 20;
    }
    proof {
        assert(output@.len() == input@.len() / 20) by (nonlinear_arith)
            requires
                i == 20 * output@.len(),
                i <= input@.len(),
                input@.len() < i + 20,
        ;
    }
    output
}

/// What a well-formed torrent file must hold: an `announce` URL in UTF-8
/// and a well-formed `info` dictionary.
pub open spec fn torrent_ok(v: ValueModel) -> bool {
    &&& lookup_bytes(v, ("announce").spec_bytes()) is Some
    &&& valid_utf8(lookup_bytes(v, ("announce").spec_bytes())->Some_0)
    &&& dict_lookup(v, ("info").spec_bytes()) is Some
    &&& info_ok(dict_lookup(v, ("info").spec_bytes())->Some_0)
}

/// A parsed torrent file: the tracker URL and the file's metadata.
pub struct Torrent {
    pub announce: String,
    pub info: Info,
}

impl Torrent {
    /// The structural invariant.
    pub open spec fn wf(self) -> bool {
        self.info.wf()
    }

    /// Whether this torrent was read from the given decoded file value.
    pub open spec fn parsed_from(self, v: ValueModel) -> bool {
        &&& torrent_ok(v)
        &&& self.announce@ == decode_utf8(lookup_bytes(v, ("announce").spec_bytes())->Some_0)
        &&& self.info.parsed_from(dict_lookup(v, ("info").spec_bytes())->Some_0)
    }

    /// Builds a torrent from a decoded file: `announce` must be a byte
    /// string holding UTF-8 and `info` a well-formed info dictionary.
    pub fn new(val: Value) -> (r: Option<Torrent>)
        ensures
            match r {
                Some(t) => t.wf() && t.parsed_from(val@),
                None => !torrent_ok(val@),
            },
    {
        let d = match val.get_map() {
            Some(d) => d,
            None => {
                return None;
            },
        };
        let announce_bytes = match d.get("announce") {
            Some(v) => match v.get_string() {
                Some(b) => b,
                None => {
                    return None;
                },
            },
            None => {
                return None;
            },
        };
        let announce = match utf8_string(announce_bytes) {
            Some(s) => s,
            None => {
                return None;
            },
        };
        let info_val = match d.get("info") {
            Some(v) => v,
            None => {
                return None;
            },
        };
        let info = match Info::new(info_val) {
            Some(i) => i,
            None => {
                return None;
            },
        };
        Some(Torrent { announce, info })
    }

    /// The tracker URL.
    pub fn get_url(&self) -> (r: String)
        ensures
            r@ == self.announce@,
    {
        self.announce.clone()
    }
}

/// Info-hash determinism: two torrents read from the same file bytes carry
/// the same info-hash, because the hash is taken over the bencoded form of
/// the info dictionary exactly as those bytes encode it.
pub proof fn lemma_info_hash_deterministic(bytes: Seq<u8>, t1: Torrent, t2: Torrent)
    requires
        crate::bencode::bdec(bytes) matches Some(p1) && t1.parsed_from(p1.0),
        crate::bencode::bdec(bytes) matches Some(p2) && t2.parsed_from(p2.0),
    ensures
        t1.info.hash@ == t2.info.hash@,
{
}

/// The scheme prefix of a magnet URI, `magnet:?`.
pub open spec fn magnet_prefix() -> Seq<u8> {
    seq![109u8, 97u8, 103u8, 110u8, 101u8, 116u8, 58u8, 63u8]
}

/// The prefix of the `xt` parameter's value, `urn:btih:`.
pub open spec fn urn_btih_prefix() -> Seq<u8> {
    seq![117u8, 114u8, 110u8, 58u8, 98u8, 116u8, 105u8, 104u8, 58u8]
}

/// Walks the `&`-separated parameters of a magnet URI, keeping the last
/// `tr`, `xt` (with its `urn:btih:` prefix stripped) and `dn` values. A
/// parameter without `=`, or an `xt` without the prefix, fails the scan.
pub open spec fn scan_params(
    s: Seq<u8>,
    tracker: Option<Seq<u8>>,
    xt: Option<Seq<u8>>,
    name: Option<Seq<u8>>,
) -> Option<(Option<Seq<u8>>, Option<Seq<u8>>, Option<Seq<u8>>)>
    decreases s.len(),
{
    let seg_end = match find_byte(s, 38) {
        Some(i) => i as int,
        None => s.len() as int,
    };
    let seg = s.take(seg_end);
    match find_byte(seg, 61) {
        None => None,
        Some(e) => {
            let pname = seg.take(e as int);
            let pvalue = seg.skip(e as int + 1);
            if pname == seq![120u8, 116u8] && !(pvalue.len() >= 9 && pvalue.take(9)
                == urn_btih_prefix()) {
                None
            } else {
                let tracker2 = if pname == seq![116u8, 114u8] {
                    Some(pvalue)
                } else {
                    tracker
                };
                let xt2 = if pname == seq![120u8, 116u8] {
                    Some(pvalue.skip(9))
                } else {
                    xt
                };
                let name2 = if pname == seq![100u8, 110u8] {
                    Some(pvalue)
                } else {
                    name
                };
                if 0 <= seg_end < s.len() {
                    scan_params(s.skip(seg_end + 1), tracker2, xt2, name2)
                } else {
                    Some((tracker2, xt2, name2))
                }
            }
        },
    }
}

/// The parameters a magnet URI carries, when it has the `magnet:?` scheme
/// and every parameter scans.
pub open spec fn magnet_scan(s: Seq<u8>) -> Option<
    (Option<Seq<u8>>, Option<Seq<u8>>, Option<Seq<u8>>),
> {
    if s.len() >= 8 && s.take(8) == magnet_prefix() {
        scan_params(s.skip(8), None, None, None)
    } else {
        None
    }
}

/// A magnet URI a `Magnet` can be built from: the scheme and parameters
/// scan, the `xt` value is 40 hex digits, the percent-decoded and trimmed
/// `tr` value is UTF-8, and the `dn` value is UTF-8.
pub open spec fn magnet_ok(s: Seq<u8>) -> bool {
    &&& magnet_scan(s) is Some
    &&& magnet_scan(s)->Some_0.1 is Some
    &&& magnet_scan(s)->Some_0.1->Some_0.len() == 40
    &&& hex_bytes_ok(magnet_scan(s)->Some_0.1->Some_0)
    &&& match magnet_scan(s)->Some_0.0 {
        Some(tr) => valid_utf8(trimmed(pct_decoded(tr))),
        None => true,
    }
    &&& match magnet_scan(s)->Some_0.2 {
        Some(dn) => valid_utf8(dn),
        None => true,
    }
}

/// A parsed magnet link: an optional tracker URL, the asserted 20-byte
/// info-hash, and an optional display name.
pub struct Magnet {
    pub tracker: Option<String>,
    pub info_hash: Vec<u8>,
    pub filename: Option<String>,
}

impl Magnet {
    /// The structural invariant: the asserted info-hash is 20 bytes.
    pub open spec fn wf(self) -> bool {
        self.info_hash@.len() == 20
    }

    /// Whether this magnet was read from the given URI bytes: the
    /// info-hash is the decoded `xt` hex, the tracker the percent-decoded
    /// and trimmed `tr` value, the name the `dn` value.
    pub open spec fn parsed_from(self, s: Seq<u8>) -> bool {
        &&& magnet_ok(s)
        &&& self.info_hash@ == hex_bytes_decoded(magnet_scan(s)->Some_0.1->Some_0)
        &&& match magnet_scan(s)->Some_0.0 {
            Some(tr) => self.tracker matches Some(t) && t@ == decode_utf8(
                trimmed(pct_decoded(tr)),
            ),
            None => self.tracker is None,
        }
        &&& match magnet_scan(s)->Some_0.2 {
            Some(dn) => self.filename matches Some(f) && f@ == decode_utf8(dn),
            None => self.filename is None,
        }
    }

    /// Parses a magnet URI. The `xt` parameter with a 40-hex-digit
    /// info-hash is mandatory; `tr` (percent-decoded and trimmed of ASCII
    /// whitespace) and `dn` are optional, and of a repeated parameter the
    /// last occurrence counts.
    #[verifier::rlimit(50)]
    pub fn new(magnet_link: &str) -> (r: Option<Magnet>)
        ensures
            match r {
                Some(m) => m.wf() && m.parsed_from(magnet_link.spec_bytes()),
                None => !magnet_ok(magnet_link.spec_bytes()),
            },
    {
        let input = magnet_link.as_bytes();
        if input.len() < 8 {
            return None;
        }
        let prefix: Vec<u8> = vec![109u8, 97, 103, 110, 101, 116, 58, 63];
        proof {
            assert(prefix@ =~= magnet_prefix());
            assert(input@.subrange(0, 8) =~= input@.take(8));
        }
        if !bytes_eq(&input[0..8], prefix.as_slice()) {
            return None;
        }
        let xt_key: Vec<u8> = vec![120u8, 116];
        let tr_key: Vec<u8> = vec![116u8, 114];
        let dn_key: Vec<u8> = vec![100u8, 110];
        let urn: Vec<u8> = vec![117u8, 114, 110, 58, 98, 116, 105, 104, 58];
        let mut tracker_raw: Option<Vec<u8>> = None;
        let mut xt_raw: Option<Vec<u8>> = None;
        let mut dn_raw: Option<Vec<u8>> = None;
        let mut pos: usize = 8;
        loop
            invariant
                8 <= pos <= input.len(),
                input@.take(8) == magnet_prefix(),
                input@ == magnet_link.spec_bytes(),
                xt_key@ =~= seq![120u8, 116u8],
                tr_key@ =~= seq![116u8, 114u8],
                dn_key@ =~= seq![100u8, 110u8],
                urn@ =~= urn_btih_prefix(),
                scan_params(input@.skip(8), None, None, None) == scan_params(
                    input@.skip(pos as int),
                    tracker_raw.deep_view(),
                    xt_raw.deep_view(),
                    dn_raw.deep_view(),
                ),
            ensures
                scan_params(input@.skip(8), None, None, None) == Some(
                    (tracker_raw.deep_view(), xt_raw.deep_view(), dn_raw.deep_view()),
                ),
            decreases input.len() - pos,
        {
            let ghost tail = input@.skip(pos as int);
            let ghost otr = tracker_raw.deep_view();
            let ghost oxt = xt_raw.deep_view();
            let ghost odn = dn_raw.deep_view();
            let aend = scan_for(input, pos, input.len(), 38);
            let eqpos = scan_for(input, pos, aend, 61);
            let ghost seg = tail.take(aend - pos);
            proof {
                assert forall|i: int| 0 <= i < aend - pos implies tail[i] != 38 by {
                    assert(tail[i] == input@[pos + i]);
                }
                if aend < input.len() {
                    assert(tail[aend - pos] == input@[aend as int]);
                }
                lemma_find_byte_char(tail, 38, aend - pos);
                assert(seg =~= input@.subrange(pos as int, aend as int));
                assert forall|i: int| 0 <= i < eqpos - pos implies seg[i] != 61 by {
                    assert(seg[i] == input@[pos + i]);
                }
                if eqpos < aend {
                    assert(seg[eqpos - pos] == input@[eqpos as int]);
                }
                lemma_find_byte_char(seg, 61, eqpos - pos);
            }
            if eqpos == aend {
                proof {
                    assert(scan_params(tail, otr, oxt, odn) is None);
                }
                return None;
            }
            let ghost pname = seg.take(eqpos - pos);
            let ghost pvalue = seg.skip(eqpos - pos + 1);
            proof {
                assert(pname =~= input@.subrange(pos as int, eqpos as int));
                assert(pvalue =~= input@.subrange(eqpos as int + 1, aend as int));
            }
            let is_xt = bytes_eq(&input[pos..eqpos], xt_key.as_slice());
            let is_tr = bytes_eq(&input[pos..eqpos], tr_key.as_slice());
            let is_dn = bytes_eq(&input[pos..eqpos], dn_key.as_slice());
            if is_xt {
                if aend - (eqpos + 1) < 9 {
                    proof {
                        assert(pvalue.len() < 9);
                        assert(scan_params(tail, otr, oxt, odn) is None);
                    }
                    return None;
                }
                proof {
                    assert(pvalue.take(9) =~= input@.subrange(eqpos as int + 1, eqpos as int + 10));
                }
                if !bytes_eq(&input[eqpos + 1..eqpos + 10], urn.as_slice()) {
                    proof {
                        assert(pvalue.take(9) != urn_btih_prefix());
                        assert(scan_params(tail, otr, oxt, odn) is None);
                    }
                    return None;
                }
                proof {
                    assert(pvalue.skip(9) =~= input@.subrange(eqpos as int + 10, aend as int));
                }
                xt_raw = Some(crate::value::copy_bytes(&input[eqpos + 10..aend]));
            } else if is_tr {
                tracker_raw = Some(crate::value::copy_bytes(&input[eqpos + 1..aend]));
            } else if is_dn {
                dn_raw = Some(crate::value::copy_bytes(&input[eqpos + 1..aend]));
            }
            proof {
                if is_xt {
                    assert(pname == seq![120u8, 116u8]);
                    assert(xt_raw.deep_view() == Some(pvalue.skip(9)));
                    assert(tracker_raw.deep_view() == otr);
                    assert(dn_raw.deep_view() == odn);
                } else {
                    assert(pname != seq![120u8, 116u8]);
                    assert(xt_raw.deep_view() == oxt);
                    if is_tr {
                        assert(pname == seq![116u8, 114u8]);
                        assert(tracker_raw.deep_view() == Some(pvalue));
                        assert(dn_raw.deep_view() == odn);
                    } else if is_dn {
                        assert(pname == seq![100u8, 110u8]);
                        assert(tracker_raw.deep_view() == otr);
                        assert(dn_raw.deep_view() == Some(pvalue));
                    } else {
                        assert(pname != seq![116u8, 114u8]);
                        assert(pname != seq![100u8, 110u8]);
                    }
                }
                assert(scan_params(tail, otr, oxt, odn) == (if aend < input.len() {
                    scan_params(
                        tail.skip(aend - pos + 1),
                        tracker_raw.deep_view(),
                        xt_raw.deep_view(),
                        dn_raw.deep_view(),
                    )
                } else {
                    Some((tracker_raw.deep_view(), xt_raw.deep_view(), dn_raw.deep_view()))
                }));
            }
            if aend == input.len() {
                break ;
            }
            proof {
                assert(tail.skip(aend - pos + 1) =~= input@.skip(aend as int + 1));
            }
            pos = aend + 1;
        }
        let xt = match xt_raw {
            Some(v) => v,
            None => {
                return None;
            },
        };
        proof {
            assert(xt.deep_view() =~= xt@);
        }
        if xt.len() != 40 {
            return None;
        }
        let info_hash = match hex_bytes_decode(xt.as_slice()) {
            Some(b) => b,
            None => {
                return None;
            },
        };
        let tracker = match tracker_raw {
            Some(v) => {
                proof {
                    assert(v.deep_view() =~= v@);
                }
                let decoded = percent_decode(v.as_slice());
                let cleaned = trim_ascii(decoded.as_slice());
                match utf8_string(cleaned) {
                    Some(t) => Some(t),
                    None => {
                        return None;
                    },
                }
            },
            None => None,
        };
        let filename = match dn_raw {
            Some(v) => {
                proof {
                    assert(v.deep_view() =~= v@);
                }
                match utf8_string(v) {
                    Some(f) => Some(f),
                    None => {
                        return None;
                    },
                }
            },
            None => None,
        };
        Some(Magnet { tracker, info_hash, filename })
    }

    /// The raw 20 bytes of the asserted info-hash.
    pub fn get_info_hash_bytes(&self) -> (r: Vec<u8>)
        ensures
            r@ == self.info_hash@,
    {
        crate::value::copy_bytes(self.info_hash.as_slice())
    }

    /// The tracker URL, when the URI named one.
    pub fn get_url(&self) -> (r: Option<String>)
        ensures
            match self.tracker {
                Some(t) => r matches Some(u) && u@ == t@,
                None => r is None,
            },
    {
        match &self.tracker {
            Some(t) => Some(t.clone()),
            None => None,
        }
    }
}

/// Finds the first occurrence of `b` in `input[from..until]`, handing back
/// `until` when there is none.
fn scan_for(input: &[u8], from: usize, until: usize, b: u8) -> (r: usize)
    requires
        from <= until <= input.len(),
    ensures
        from <= r <= until,
        forall|i: int| from <= i < r ==> input@[i] != b,
        r < until ==> input@[r as int] == b,
{
    let mut i = from;
    while i < until && input[i] != b
        invariant
            from <= i <= until <= input.len(),
            forall|j: int| from <= j < i ==> input@[j] != b,
        decreases until - i,
    {
        i = i + 1;
    }
    i
}

} // verus!
