//! The peer wire protocol engine and the extension-protocol metadata
//! retriever, driven against simulated peers.

use bittorrent::bencode::{decode_bencoded_value, encode_value};
use bittorrent::metadata::{MetadataSession, MetadataStep};
use bittorrent::torrent::Magnet;
use bittorrent::wire::{
    effective_piece_size, get_handshake, parse_handshake_reply, u32_from_be, u32_to_be,
    PieceSession, SessionStep,
};
use bittorrent::{Dict, TorrentError, Value};
use sha1::{Digest, Sha1};

#[test]
fn handshake_layout_is_fixed() {
    let info_hash = [0x55u8; 20];
    let peer_id = "01234567890123456789";
    let hs = get_handshake(&info_hash, peer_id, false);
    assert_eq!(hs.len(), 68);
    assert_eq!(hs[0], 19);
    assert_eq!(&hs[1..20], b"BitTorrent protocol");
    assert_eq!(&hs[20..28], &[0u8; 8]);
    assert_eq!(&hs[28..48], &info_hash);
    assert_eq!(&hs[48..68], peer_id.as_bytes());

    let ext = get_handshake(&info_hash, peer_id, true);
    assert_eq!(&ext[20..28], &[0, 0, 0, 0, 0, 16, 0, 0]);
}

#[test]
fn handshake_reply_reports_extension_support() {
    let hs = get_handshake(&[1u8; 20], "01234567890123456789", true);
    let (ext, peer_id) = parse_handshake_reply(&hs).unwrap();
    assert!(ext);
    assert_eq!(peer_id, b"01234567890123456789".to_vec());
    let plain = get_handshake(&[1u8; 20], "01234567890123456789", false);
    let (ext, _) = parse_handshake_reply(&plain).unwrap();
    assert!(!ext);
    match parse_handshake_reply(&hs[..40]) {
        Err(TorrentError::ProtocolViolation(0)) => {}
        _ => panic!("expected a protocol violation"),
    }
}

#[test]
fn be32_round_trips() {
    let bytes = u32_to_be(0x01020364);
    assert_eq!(bytes, vec![1, 2, 3, 0x64]);
    assert_eq!(u32_from_be(&bytes), 0x01020364);
}

#[test]
fn effective_piece_size_truncates_the_last_piece() {
    assert_eq!(effective_piece_size(100, 32, 0), 32);
    assert_eq!(effective_piece_size(100, 32, 2), 32);
    assert_eq!(effective_piece_size(100, 32, 3), 4);
    assert_eq!(effective_piece_size(64, 32, 1), 32);
}

/// The frame a peer sends for one block: id 7, piece index, offset, data.
fn piece_message(index: u32, offset: u32, data: &[u8]) -> (u8, Vec<u8>) {
    let mut payload = u32_to_be(index);
    payload.extend(u32_to_be(offset));
    payload.extend(data.to_vec());
    (7, payload)
}

/// Runs one full piece download against a simulated peer holding `piece`,
/// delivering blocks in the given offset order.
fn run_piece_session(piece: &[u8], expected_hash: &[u8], order: &[u32]) -> SessionStep {
    let mut session = PieceSession::new(3, piece.len() as u32, expected_hash.to_vec());
    let step = session.on_message(5, &[]);
    let requested = match step {
        SessionStep::Send(msgs) => {
            assert_eq!(msgs.len(), 1);
            assert_eq!(msgs[0], {
                let mut m = u32_to_be(1);
                m.push(2);
                m
            });
            session.on_message(1, &[])
        }
        _ => panic!("expected the interested message"),
    };
    let count = match requested {
        SessionStep::Send(reqs) => {
            assert_eq!(reqs.len(), (piece.len() + 16383) / 16384);
            for (i, req) in reqs.iter().enumerate() {
                let offset = (i * 16384) as u32;
                let size = if (i + 1) * 16384 <= piece.len() {
                    16384
                } else {
                    piece.len() % 16384
                } as u32;
                let mut expected = u32_to_be(13);
                expected.push(6);
                expected.extend(u32_to_be(3));
                expected.extend(u32_to_be(offset));
                expected.extend(u32_to_be(size));
                assert_eq!(req, &expected);
            }
            reqs.len()
        }
        _ => panic!("expected the block requests"),
    };
    assert_eq!(order.len(), count);
    let mut last = SessionStep::Continue;
    for (n, &offset) in order.iter().enumerate() {
        let end = (offset as usize + 16384).min(piece.len());
        let (id, payload) = piece_message(3, offset, &piece[offset as usize..end]);
        last = session.on_message(id, &payload);
        if n + 1 < order.len() {
            assert!(matches!(last, SessionStep::Continue));
        }
    }
    last
}

#[test]
fn piece_reassembly_is_order_independent() {
    let mut piece = Vec::new();
    for i in 0..40000usize {
        piece.push((i % 251) as u8);
    }
    let hash = Sha1::digest(&piece).to_vec();
    let in_order = run_piece_session(&piece, &hash, &[0, 16384, 32768]);
    let shuffled = run_piece_session(&piece, &hash, &[16384, 0, 32768]);
    match (in_order, shuffled) {
        (SessionStep::Finished(a), SessionStep::Finished(b)) => {
            assert_eq!(a, piece);
            assert_eq!(b, piece);
        }
        _ => panic!("both orders should finish with the piece"),
    }
}

#[test]
fn corrupt_piece_never_leaves_the_session() {
    let piece = vec![5u8; 100];
    let wrong_hash = Sha1::digest(b"something else").to_vec();
    match run_piece_session(&piece, &wrong_hash, &[0]) {
        SessionStep::Abort(TorrentError::HashMismatch) => {}
        SessionStep::Finished(_) => panic!("a mismatched piece must not be handed out"),
        _ => panic!("expected HashMismatch"),
    }
}

#[test]
fn unexpected_message_ids_fail_the_session() {
    let mut session = PieceSession::new(0, 16, vec![0u8; 20]);
    match session.on_message(1, &[]) {
        SessionStep::Abort(TorrentError::ProtocolViolation(1)) => {}
        _ => panic!("expected ProtocolViolation(1)"),
    }
    let mut session = PieceSession::new(0, 16, vec![0u8; 20]);
    session.on_message(5, &[]);
    match session.on_message(7, &[]) {
        SessionStep::Abort(TorrentError::ProtocolViolation(7)) => {}
        _ => panic!("expected ProtocolViolation(7)"),
    }
}

/// The info dictionary a simulated peer serves, and its bencoded bytes.
fn served_info_bytes() -> Vec<u8> {
    let mut info = Dict::new();
    info.insert(b"length".to_vec(), Value::Int(40));
    info.insert(b"name".to_vec(), Value::String(b"sample.txt".to_vec()));
    info.insert(b"piece length".to_vec(), Value::Int(32));
    let mut pieces = Sha1::digest(&vec![7u8; 32]).to_vec();
    pieces.extend(Sha1::digest(&vec![9u8; 8]).to_vec());
    info.insert(b"pieces".to_vec(), Value::String(pieces));
    encode_value(Value::Dict(info))
}

/// Runs the extension-protocol exchange against a simulated peer serving
/// the given info dictionary; the magnet asserts `asserted_hash`.
fn run_metadata_session(info_bytes: &[u8], asserted_hash: &[u8]) -> MetadataStep {
    let uri = format!(
        "magnet:?xt=urn:btih:{}&tr=http%3A%2F%2Ftracker.example%2Fannounce",
        hex::encode(asserted_hash)
    );
    let magnet = Magnet::new(&uri).unwrap();
    let mut session = MetadataSession::new(magnet, 2).unwrap();

    let reply = get_handshake(asserted_hash, "01234567890123456789", true);
    match session.on_handshake(&reply) {
        MetadataStep::Continue => {}
        _ => panic!("the extension-capable handshake should pass"),
    }

    // bitfield: the session answers with its extended handshake
    let ext_handshake = match session.on_message(5, &[1u8]) {
        MetadataStep::Send(frame) => frame,
        _ => panic!("expected the extended handshake"),
    };
    assert_eq!(&ext_handshake[4..6], &[20, 0]);
    let (sent_dict, _) = decode_bencoded_value(&ext_handshake[6..]).unwrap();
    let m = sent_dict.get_map().unwrap().get("m").unwrap().get_map().unwrap();
    assert_eq!(m.get("ut_metadata").unwrap().get_int().unwrap(), 2);

    // the peer advertises ut_metadata under its own id 3
    let mut inner = Dict::new();
    inner.insert(b"ut_metadata".to_vec(), Value::Int(3));
    let mut outer = Dict::new();
    outer.insert(b"m".to_vec(), Value::Dict(inner));
    let mut payload = vec![0u8];
    payload.extend(encode_value(Value::Dict(outer)));
    let request = match session.on_message(20, &payload) {
        MetadataStep::Send(frame) => frame,
        other => {
            if let MetadataStep::Abort(e) = other {
                panic!("handshake reply refused: {:?}", e);
            }
            panic!("expected the metadata request");
        }
    };
    assert_eq!(&request[4..6], &[20, 3]);
    let (req_dict, _) = decode_bencoded_value(&request[6..]).unwrap();
    let rd = req_dict.get_map().unwrap();
    assert_eq!(rd.get("msg_type").unwrap().get_int().unwrap(), 0);
    assert_eq!(rd.get("piece").unwrap().get_int().unwrap(), 0);

    // the peer answers under the session's local id: a control dictionary
    // immediately followed by the raw info dictionary
    let mut ctrl = Dict::new();
    ctrl.insert(b"msg_type".to_vec(), Value::Int(1));
    ctrl.insert(b"piece".to_vec(), Value::Int(0));
    ctrl.insert(b"total_size".to_vec(), Value::Int(info_bytes.len() as i64));
    let mut payload = vec![2u8];
    payload.extend(encode_value(Value::Dict(ctrl)));
    payload.extend(info_bytes.to_vec());
    session.on_message(20, &payload)
}

#[test]
fn metadata_round_trip_recovers_the_info_hash() {
    let info_bytes = served_info_bytes();
    let asserted = Sha1::digest(&info_bytes).to_vec();
    match run_metadata_session(&info_bytes, &asserted) {
        MetadataStep::Finished(torrent) => {
            assert_eq!(torrent.info.get_info_hash_bytes(), asserted);
            assert_eq!(torrent.get_url(), "http://tracker.example/announce");
            assert_eq!(torrent.info.get_file_size(), 40);
            assert_eq!(torrent.info.total_pieces(), 2);
        }
        MetadataStep::Abort(e) => panic!("session failed: {:?}", e),
        _ => panic!("expected a finished torrent"),
    }
}

#[test]
fn mismatched_metadata_is_discarded() {
    let info_bytes = served_info_bytes();
    let wrong = Sha1::digest(b"not the info dictionary").to_vec();
    match run_metadata_session(&info_bytes, &wrong) {
        MetadataStep::Abort(TorrentError::MetadataHashMismatch) => {}
        MetadataStep::Finished(_) => panic!("mismatched metadata must be discarded"),
        _ => panic!("expected MetadataHashMismatch"),
    }
}

#[test]
fn metadata_session_requires_a_tracker() {
    let uri = format!("magnet:?xt=urn:btih:{}", "00".repeat(20));
    let magnet = Magnet::new(&uri).unwrap();
    match MetadataSession::new(magnet, 2) {
        Err(TorrentError::ParseError) => {}
        _ => panic!("a magnet without a tracker cannot start a session"),
    }
}

#[test]
fn peer_without_extension_support_is_refused() {
    let uri = format!(
        "magnet:?xt=urn:btih:{}&tr=http%3A%2F%2Ft",
        "11".repeat(20)
    );
    let magnet = Magnet::new(&uri).unwrap();
    let mut session = MetadataSession::new(magnet, 2).unwrap();
    let reply = get_handshake(&[0x11u8; 20], "01234567890123456789", false);
    match session.on_handshake(&reply) {
        MetadataStep::Abort(TorrentError::ProtocolViolation(0)) => {}
        _ => panic!("a peer without extension support must be refused"),
    }
}
