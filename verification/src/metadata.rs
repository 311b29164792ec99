//! The extension-protocol metadata retriever: builds a full `Torrent` from
//! a magnet link by pulling the info dictionary from one peer over the
//! `ut_metadata` extension.
//!
//! Like the piece engine, this is a state machine: the caller connects,
//! writes the extension-advertising handshake, hands the 68-byte reply to
//! `on_handshake`, and from then on hands every length-prefixed message to
//! `on_message`. Metadata whose info-hash differs from the magnet's
//! asserted hash is discarded.

use vstd::prelude::*;

use crate::bencode::{bdec, encode_value, encoded};
use crate::digest::sha1_of;
use crate::torrent::{dict_lookup, info_ok, lookup_int, Info, Magnet, Torrent};
use crate::value::{entries_insert, Dict, Value, ValueModel};
use crate::wire::{build_frame, frame_bytes, parse_handshake_reply};
use crate::TorrentError;

verus! {

use vstd::string::StringSliceAdditionalSpecFns;
use vstd::utf8::is_ascii_chars_encode_utf8;

/// The dictionary sent in the extended handshake: `{"m": {"ut_metadata":
/// local_id}}`.
pub open spec fn ext_handshake_dict(local_id: u8) -> ValueModel {
    ValueModel::Dict(
        seq![
            (
                ("m").spec_bytes(),
                ValueModel::Dict(
                    seq![(("ut_metadata").spec_bytes(), ValueModel::Int(local_id as int))],
                ),
            ),
        ],
    )
}

/// The extended-handshake frame: id 20, sub-id 0, then the bencoded
/// dictionary.
pub open spec fn ext_handshake_frame_bytes(local_id: u8) -> Seq<u8> {
    frame_bytes(20, seq![0u8] + encoded(ext_handshake_dict(local_id)))
}

/// The dictionary sent to request metadata piece 0: `{"msg_type": 0,
/// "piece": 0}`.
pub open spec fn metadata_request_dict() -> ValueModel {
    ValueModel::Dict(
        seq![
            (("msg_type").spec_bytes(), ValueModel::Int(0)),
            (("piece").spec_bytes(), ValueModel::Int(0)),
        ],
    )
}

/// The metadata-request frame: id 20, the peer's `ut_metadata` sub-id,
/// then the bencoded request.
pub open spec fn metadata_request_frame_bytes(peer_ext_id: u8) -> Seq<u8> {
    frame_bytes(20, seq![peer_ext_id] + encoded(metadata_request_dict()))
}

/// The `ut_metadata` entry of the `m` dictionary in a peer's extended
/// handshake.
pub open spec fn peer_ut_metadata(v: ValueModel) -> Option<int> {
    match dict_lookup(v, ("m").spec_bytes()) {
        Some(m) => lookup_int(m, ("ut_metadata").spec_bytes()),
        None => None,
    }
}

/// The byte forms of the dictionary keys this module builds.
proof fn lemma_meta_keys()
    ensures
        ("m").spec_bytes() =~= seq![109u8],
        ("ut_metadata").spec_bytes() =~= seq![
            117u8,
            116u8,
            95u8,
            109u8,
            101u8,
            116u8,
            97u8,
            100u8,
            97u8,
            116u8,
            97u8,
        ],
        ("msg_type").spec_bytes() =~= seq![109u8, 115u8, 103u8, 95u8, 116u8, 121u8, 112u8, 101u8],
        ("piece").spec_bytes() =~= seq![112u8, 105u8, 101u8, 99u8, 101u8],
{
    reveal_strlit("m");
    reveal_strlit("ut_metadata");
    reveal_strlit("msg_type");
    reveal_strlit("piece");
    assert(vstd::utf8::is_ascii_chars(("m")@));
    assert(vstd::utf8::is_ascii_chars(("ut_metadata")@));
    assert(vstd::utf8::is_ascii_chars(("msg_type")@));
    assert(vstd::utf8::is_ascii_chars(("piece")@));
    is_ascii_chars_encode_utf8(("m")@);
    is_ascii_chars_encode_utf8(("ut_metadata")@);
    is_ascii_chars_encode_utf8(("msg_type")@);
    is_ascii_chars_encode_utf8(("piece")@);
}

/// Where a metadata-retrieval session stands.
#[derive(Clone, Copy, Debug, PartialEq, Eq, Structural)]
pub enum MetadataPhase {
    AwaitHandshake,
    AwaitBitfield,
    AwaitExtHandshake,
    AwaitMetadata,
    Complete,
    Failed,
}

/// What the caller must do after handing a message to the session: write
/// the frame and read on, just read on, keep the finished torrent, or
/// abandon the session.
pub enum MetadataStep {
    Send(Vec<u8>),
    Continue,
    Finished(Torrent),
    Abort(TorrentError),
}

/// One metadata-retrieval session over one peer connection.
pub struct MetadataSession {
    pub phase: MetadataPhase,
    pub local_ext_id: u8,
    pub peer_ext_id: u8,
    pub magnet: Magnet,
}

impl MetadataSession {
    /// The session invariant: a well-formed magnet that names a tracker,
    /// so that a finished session can hand out a complete torrent.
    pub open spec fn wf(self) -> bool {
        self.magnet.wf() && self.magnet.tracker is Some
    }

    /// A session still expecting input.
    pub open spec fn active(self) -> bool {
        self.phase is AwaitBitfield || self.phase is AwaitExtHandshake || self.phase
            is AwaitMetadata
    }

    /// Starts a session for a magnet; the caller chooses the extension id
    /// it advertises. A magnet without a tracker cannot lead to a complete
    /// torrent and is refused.
    pub fn new(magnet: Magnet, local_ext_id: u8) -> (r: Result<MetadataSession, TorrentError>)
        requires
            magnet.wf(),
        ensures
            match r {
                Ok(s) => {
                    &&& magnet.tracker is Some
                    &&& s.wf()
                    &&& s.phase is AwaitHandshake
                    &&& s.local_ext_id == local_ext_id
                    &&& s.magnet == magnet
                },
                Err(e) => e == TorrentError::ParseError && magnet.tracker is None,
            },
    {
        if magnet.tracker.is_none() {
            return Err(TorrentError::ParseError);
        }
        Ok(
            MetadataSession {
                phase: MetadataPhase::AwaitHandshake,
                local_ext_id,
                peer_ext_id: 0,
                magnet,
            },
        )
    }

    /// Consumes the peer's 68-byte handshake reply. The peer must
    /// advertise extension-protocol support in its reserved bytes, or the
    /// session fails with a protocol violation.
    pub fn on_handshake(&mut self, reply: &[u8]) -> (r: MetadataStep)
        requires
            old(self).wf(),
            old(self).phase is AwaitHandshake,
        ensures
            final(self).wf(),
            final(self).local_ext_id == old(self).local_ext_id,
            final(self).magnet == old(self).magnet,
            ({
                let long_enough = reply@.len() > 0 && reply@.len() >= 49 + reply@[0];
                if long_enough && (reply@[1 + reply@[0] + 5] & 16 != 0) {
                    &&& final(self).phase is AwaitBitfield
                    &&& r is Continue
                } else {
                    &&& final(self).phase is Failed
                    &&& r matches MetadataStep::Abort(e) && e == TorrentError::ProtocolViolation(0)
                }
            }),
    {
        match parse_handshake_reply(reply) {
            Ok((extensions, _peer_id)) => {
                if extensions {
                    self.phase = MetadataPhase::AwaitBitfield;
                    MetadataStep::Continue
                } else {
                    self.phase = MetadataPhase::Failed;
                    MetadataStep::Abort(TorrentError::ProtocolViolation(0))
                }
            },
            Err(e) => {
                self.phase = MetadataPhase::Failed;
                MetadataStep::Abort(e)
            },
        }
    }

    /// Drives the session by one received message, given its id and
    /// payload.
    ///
    /// Awaiting the bitfield, only id 5 is accepted, answered with the
    /// extended handshake advertising `ut_metadata` under the local id.
    /// Awaiting the extended handshake, only id 20 with sub-id 0 is
    /// accepted; its bencoded payload must carry `m.ut_metadata` in byte
    /// range, the sub-id for the metadata request that is sent back.
    /// Awaiting the metadata, only id 20 with the local sub-id is
    /// accepted; after its bencoded control dictionary come the raw info
    /// dictionary bytes, decoded and checked: only an info dictionary
    /// whose hash equals the magnet's asserted info-hash leaves the
    /// session, as a complete torrent under the magnet's tracker URL.
    pub fn on_message(&mut self, id: u8, payload: &[u8]) -> (r: MetadataStep)
        requires
            old(self).wf(),
            old(self).active(),
        ensures
            final(self).wf(),
            final(self).local_ext_id == old(self).local_ext_id,
            final(self).magnet == old(self).magnet,
            match old(self).phase {
                MetadataPhase::AwaitBitfield => if id == 5 {
                    &&& final(self).phase is AwaitExtHandshake
                    &&& r matches MetadataStep::Send(f) && f@ == ext_handshake_frame_bytes(
                        old(self).local_ext_id,
                    )
                } else {
                    &&& final(self).phase is Failed
                    &&& r matches MetadataStep::Abort(e) && e == TorrentError::ProtocolViolation(id)
                },
                MetadataPhase::AwaitExtHandshake => if id == 20 && payload@.len() >= 1
                    && payload@[0] == 0 {
                    match bdec(payload@.skip(1)) {
                        Some(p) => match peer_ut_metadata(p.0) {
                            Some(k) => if 0 <= k <= 255 {
                                &&& final(self).phase is AwaitMetadata
                                &&& final(self).peer_ext_id == k
                                &&& r matches MetadataStep::Send(f) && f@
                                    == metadata_request_frame_bytes(k as u8)
                            } else {
                                &&& final(self).phase is Failed
                                &&& r matches MetadataStep::Abort(e) && e
                                    == TorrentError::ParseError
                            },
                            None => {
                                &&& final(self).phase is Failed
                                &&& r matches MetadataStep::Abort(e) && e
                                    == TorrentError::ParseError
                            },
                        },
                        None => {
                            &&& final(self).phase is Failed
                            &&& r matches MetadataStep::Abort(e) && e
                                == TorrentError::MalformedEncoding
                        },
                    }
                } else {
                    &&& final(self).phase is Failed
                    &&& r matches MetadataStep::Abort(e) && e == TorrentError::ProtocolViolation(id)
                },
                MetadataPhase::AwaitMetadata => if id == 20 && payload@.len() >= 1 && payload@[0]
                    == old(self).local_ext_id {
                    match bdec(payload@.skip(1)) {
                        Some(p) => match bdec(p.1) {
                            Some(q) => if info_ok(q.0) {
                                if sha1_of(encoded(q.0)) == old(self).magnet.info_hash@ {
                                    &&& final(self).phase is Complete
                                    &&& r matches MetadataStep::Finished(t) && t.wf()
                                        && t.info.parsed_from(q.0) && (old(
                                        self,
                                    ).magnet.tracker matches Some(u) && t.announce@ == u@)
                                } else {
                                    &&& final(self).phase is Failed
                                    &&& r matches MetadataStep::Abort(e) && e
                                        == TorrentError::MetadataHashMismatch
                                }
                            } else {
                                &&& final(self).phase is Failed
                                &&& r matches MetadataStep::Abort(e) && e
                                    == TorrentError::ParseError
                            },
                            None => {
                                &&& final(self).phase is Failed
                                &&& r matches MetadataStep::Abort(e) && e
                                    == TorrentError::MalformedEncoding
                            },
                        },
                        None => {
                            &&& final(self).phase is Failed
                            &&& r matches MetadataStep::Abort(e) && e
                                == TorrentError::MalformedEncoding
                        },
                    }
                } else {
                    &&& final(self).phase is Failed
                    &&& r matches MetadataStep::Abort(e) && e == TorrentError::ProtocolViolation(id)
                },
                _ => true,
            },
    {
        match self.phase {
            MetadataPhase::AwaitBitfield => {
                if id == 5 {
                    self.phase = MetadataPhase::AwaitExtHandshake;
                    MetadataStep::Send(build_ext_handshake(self.local_ext_id))
                } else {
                    self.phase = MetadataPhase::Failed;
                    MetadataStep::Abort(TorrentError::ProtocolViolation(id))
                }
            },
            MetadataPhase::AwaitExtHandshake => {
                if !(id == 20 && payload.len() >= 1 && payload[0] == 0) {
                    self.phase = MetadataPhase::Failed;
                    return MetadataStep::Abort(TorrentError::ProtocolViolation(id));
                }
                proof {
                    assert(payload@.subrange(1, payload@.len() as int) =~= payload@.skip(1));
                }
                let body = &payload[1..payload.len()];
                let decoded = match crate::bencode::decode_bencoded_value(body) {
                    Ok(p) => p.0,
                    Err(e) => {
                        self.phase = MetadataPhase::Failed;
                        return MetadataStep::Abort(e);
                    },
                };
                let m_val = match decoded.get_map() {
                    Some(d) => match d.get("m") {
                        Some(v) => v,
                        None => {
                            self.phase = MetadataPhase::Failed;
                            return MetadataStep::Abort(TorrentError::ParseError);
                        },
                    },
                    None => {
                        self.phase = MetadataPhase::Failed;
                        return MetadataStep::Abort(TorrentError::ParseError);
                    },
                };
                let ut = match m_val.get_map() {
                    Some(md) => match md.get("ut_metadata") {
                        Some(v) => match v.get_int() {
                            Some(k) => k,
                            None => {
                                self.phase = MetadataPhase::Failed;
                                return MetadataStep::Abort(TorrentError::ParseError);
                            },
                        },
                        None => {
                            self.phase = MetadataPhase::Failed;
                            return MetadataStep::Abort(TorrentError::ParseError);
                        },
                    },
                    None => {
                        self.phase = MetadataPhase::Failed;
                        return MetadataStep::Abort(TorrentError::ParseError);
                    },
                };
                if ut < 0 || ut > 255 {
                    self.phase = MetadataPhase::Failed;
                    return MetadataStep::Abort(TorrentError::ParseError);
                }
                let peer_id = ut as u8;
                self.peer_ext_id = peer_id;
                self.phase = MetadataPhase::AwaitMetadata;
                MetadataStep::Send(build_metadata_request(peer_id))
            },
            MetadataPhase::AwaitMetadata => {
                if !(id == 20 && payload.len() >= 1 && payload[0] == self.local_ext_id) {
                    self.phase = MetadataPhase::Failed;
                    return MetadataStep::Abort(TorrentError::ProtocolViolation(id));
                }
                proof {
                    assert(payload@.subrange(1, payload@.len() as int) =~= payload@.skip(1));
                }
                let body = &payload[1..payload.len()];
                let rest = match crate::bencode::decode_bencoded_value(body) {
                    Ok(p) => p.1,
                    Err(e) => {
                        self.phase = MetadataPhase::Failed;
                        return MetadataStep::Abort(e);
                    },
                };
                let info_value = match crate::bencode::decode_bencoded_value(rest.as_slice()) {
                    Ok(p) => p.0,
                    Err(e) => {
                        self.phase = MetadataPhase::Failed;
                        return MetadataStep::Abort(e);
                    },
                };
                let info = match Info::new(info_value) {
                    Some(i) => i,
                    None => {
                        self.phase = MetadataPhase::Failed;
                        return MetadataStep::Abort(TorrentError::ParseError);
                    },
                };
                if !crate::value::bytes_eq(
                    info.hash.as_slice(),
                    self.magnet.info_hash.as_slice(),
                ) {
                    self.phase = MetadataPhase::Failed;
                    return MetadataStep::Abort(TorrentError::MetadataHashMismatch);
                }
                let announce = match &self.magnet.tracker {
                    Some(t) => t.clone(),
                    None => vstd::pervasive::unreached(),
                };
                self.phase = MetadataPhase::Complete;
                MetadataStep::Finished(Torrent { announce, info })
            },
            _ => {
                proof {
                    assert(false);
                }
                MetadataStep::Continue
            },
        }
    }
}

/// Builds the extended-handshake frame for the local extension id.
fn build_ext_handshake(local_ext_id: u8) -> (r: Vec<u8>)
    ensures
        r@ == ext_handshake_frame_bytes(local_ext_id),
{
    let mut inner = Dict::new();
    inner.insert(
        crate::value::copy_bytes(("ut_metadata").as_bytes()),
        Value::Int(local_ext_id as i64),
    );
    let mut outer = Dict::new();
    outer.insert(crate::value::copy_bytes(("m").as_bytes()), Value::Dict(inner));
    let value = Value::Dict(outer);
    proof {
        assert(value@ =~~= ext_handshake_dict(local_ext_id));
    }
    let enc = encode_value(value);
    proof {
        lemma_meta_keys();
        lemma_small_dict_encodings(local_ext_id);
    }
    let mut body: Vec<u8> = Vec::new();
    body.push(0);
    let mut e = enc;
    body.append(&mut e);
    proof {
        assert(body@ =~= seq![0u8] + encoded(ext_handshake_dict(local_ext_id)));
    }
    build_frame(20, body.as_slice())
}

/// Builds the metadata-request frame for the peer's extension id.
fn build_metadata_request(peer_ext_id: u8) -> (r: Vec<u8>)
    ensures
        r@ == metadata_request_frame_bytes(peer_ext_id),
{
    proof {
        lemma_meta_keys();
    }
    let mut d = Dict::new();
    d.insert(crate::value::copy_bytes(("msg_type").as_bytes()), Value::Int(0));
    d.insert(crate::value::copy_bytes(("piece").as_bytes()), Value::Int(0));
    let value = Value::Dict(d);
    proof {
        let mt = ("msg_type").spec_bytes();
        let pc = ("piece").spec_bytes();
        let zero = ValueModel::Int(0);
        assert(entries_insert(Seq::empty(), mt, zero) =~= seq![(mt, zero)]);
        assert(!crate::value::bytes_lt(pc, mt));
        assert(pc != mt);
        assert(seq![(mt, zero)].drop_first() =~= Seq::<(Seq<u8>, ValueModel)>::empty());
        assert(entries_insert(seq![(mt, zero)], pc, zero) =~= seq![(mt, zero)] + entries_insert(
            Seq::empty(),
            pc,
            zero,
        ));
        assert(entries_insert(seq![(mt, zero)], pc, zero) =~= seq![(mt, zero), (pc, zero)]);
        assert(value@ =~~= metadata_request_dict());
    }
    let enc = encode_value(value);
    proof {
        lemma_small_dict_encodings(0);
    }
    let mut body: Vec<u8> = Vec::new();
    body.push(peer_ext_id);
    let mut e = enc;
    body.append(&mut e);
    proof {
        assert(body@ =~= seq![peer_ext_id] + encoded(metadata_request_dict()));
    }
    build_frame(20, body.as_slice())
}

/// The two control dictionaries this module sends encode to well under a
/// hundred bytes, so their frames' length prefixes fit.
proof fn lemma_small_dict_encodings(local_ext_id: u8)
    ensures
        encoded(ext_handshake_dict(local_ext_id)).len() <= 100,
        encoded(metadata_request_dict()).len() <= 100,
{
    lemma_meta_keys();
    crate::bencode::lemma_dec_digits_bounds(1);
    crate::bencode::lemma_dec_digits_bounds(11);
    crate::bencode::lemma_dec_digits_bounds(8);
    crate::bencode::lemma_dec_digits_bounds(5);
    lemma_dec_digits_len_small(local_ext_id as nat);
    assert(crate::bencode::dec_digits(1).len() == 1);
    assert(crate::bencode::dec_digits(11).len() == 2);
    assert(crate::bencode::dec_digits(8).len() == 1);
    assert(crate::bencode::dec_digits(5).len() == 1);
    assert(crate::bencode::encoded_entries(Seq::empty()) =~= Seq::<u8>::empty());
    let ie = seq![(("ut_metadata").spec_bytes(), ValueModel::Int(local_ext_id as int))];
    let inner = ValueModel::Dict(ie);
    assert(ie.drop_first() =~= Seq::<(Seq<u8>, ValueModel)>::empty());
    assert(encoded(ValueModel::Int(local_ext_id as int)).len() <= 5);
    assert(crate::bencode::encoded_entries(ie).len() <= 20);
    assert(encoded(inner).len() <= 22);
    let outer_entries = seq![(("m").spec_bytes(), inner)];
    assert(outer_entries.drop_first() =~= Seq::<(Seq<u8>, ValueModel)>::empty());
    assert(crate::bencode::encoded_entries(outer_entries).len() <= 25);
    assert(encoded(ext_handshake_dict(local_ext_id)).len() <= 100);
    let req = metadata_request_dict();
    let req_entries = seq![
        (("msg_type").spec_bytes(), ValueModel::Int(0)),
        (("piece").spec_bytes(), ValueModel::Int(0)),
    ];
    assert(req_entries.drop_first() =~= seq![(("piece").spec_bytes(), ValueModel::Int(0))]);
    assert(req_entries.drop_first().drop_first() =~= Seq::<(Seq<u8>, ValueModel)>::empty());
    assert(encoded(ValueModel::Int(0)).len() <= 5);
    assert(crate::bencode::encoded_entries(req_entries.drop_first()).len() <= 12);
    assert(crate::bencode::encoded_entries(req_entries).len() <= 28);
    assert(encoded(req).len() <= 100);
}

/// At most three decimal digits for a byte-sized number.
proof fn lemma_dec_digits_len_small(n: nat)
    requires
        n <= 255,
    ensures
        crate::bencode::dec_digits(n).len() <= 3,
{
    if n < 10 {
        assert(crate::bencode::dec_digits(n).len() == 1);
    } else if n / 10 < 10 {
        assert(crate::bencode::dec_digits(n / 10).len() == 1);
        assert(crate::bencode::dec_digits(n).len() == 2);
    } else {
        assert(n / 10 / 10 < 10);
        assert(crate::bencode::dec_digits(n / 10 / 10).len() == 1);
        assert(crate::bencode::dec_digits(n / 10).len() == 2);
        assert(crate::bencode::dec_digits(n).len() == 3);
    }
}

} // verus!
