//! Torrent metadata, magnet parsing, compact peer lists and the tracker
//! request URL.

use bittorrent::bencode::{decode_bencoded_value, encode_value};
use bittorrent::peers::{bytes_to_peer_list, parse_peers_response, tracker_request_url};
use bittorrent::torrent::{get_pieces_hashes, Info, Magnet, Torrent};
use bittorrent::{Dict, TorrentError, Value};
use sha1::{Digest, Sha1};

/// A minimal single-file torrent: 40-byte file, 32-byte pieces, so two
/// pieces whose hashes are over `piece0` and `piece1`.
fn sample_torrent_bytes() -> (Vec<u8>, Vec<u8>) {
    let piece0 = vec![7u8; 32];
    let piece1 = vec![9u8; 8];
    let mut pieces = Sha1::digest(&piece0).to_vec();
    pieces.extend(Sha1::digest(&piece1).to_vec());

    let mut info = Dict::new();
    info.insert(b"length".to_vec(), Value::Int(40));
    info.insert(b"name".to_vec(), Value::String(b"sample.txt".to_vec()));
    info.insert(b"piece length".to_vec(), Value::Int(32));
    info.insert(b"pieces".to_vec(), Value::String(pieces));
    let info_bytes = encode_value(Value::Dict(info));

    let mut top = Dict::new();
    top.insert(b"announce".to_vec(), Value::String(b"http://tracker.example/announce".to_vec()));
    let (info_value, _) = decode_bencoded_value(&info_bytes).unwrap();
    top.insert(b"info".to_vec(), info_value);
    (encode_value(Value::Dict(top)), info_bytes)
}

#[test]
fn torrent_is_parsed_from_its_file() {
    let (file, info_bytes) = sample_torrent_bytes();
    let (value, rest) = decode_bencoded_value(&file).unwrap();
    assert!(rest.is_empty());
    let torrent = Torrent::new(value).unwrap();
    assert_eq!(torrent.get_url(), "http://tracker.example/announce");
    assert_eq!(torrent.info.get_file_size(), 40);
    assert_eq!(torrent.info.get_piece_size(), 32);
    assert_eq!(torrent.info.total_pieces(), 2);
    let expected_hash = Sha1::digest(&info_bytes).to_vec();
    assert_eq!(torrent.info.get_info_hash_bytes(), expected_hash);
    assert_eq!(torrent.info.get_info_hash(), hex::encode(&expected_hash));
    assert_eq!(torrent.info.get_piece(0), Sha1::digest(&vec![7u8; 32]).to_vec());
    assert_eq!(torrent.info.get_piece(1), Sha1::digest(&vec![9u8; 8]).to_vec());
}

#[test]
fn info_hash_is_deterministic_across_decodes() {
    let (file, _) = sample_torrent_bytes();
    let (v1, _) = decode_bencoded_value(&file).unwrap();
    let (v2, _) = decode_bencoded_value(&file).unwrap();
    let t1 = Torrent::new(v1).unwrap();
    let t2 = Torrent::new(v2).unwrap();
    assert_eq!(t1.info.get_info_hash(), t2.info.get_info_hash());
    assert_eq!(t1.info.get_info_hash_bytes(), t2.info.get_info_hash_bytes());
}

#[test]
fn torrent_construction_rejects_missing_fields() {
    let mut top = Dict::new();
    top.insert(b"announce".to_vec(), Value::String(b"http://t".to_vec()));
    assert!(Torrent::new(Value::Dict(top)).is_none());
    assert!(Torrent::new(Value::Int(3)).is_none());

    let mut info = Dict::new();
    info.insert(b"length".to_vec(), Value::Int(-1));
    info.insert(b"name".to_vec(), Value::String(b"n".to_vec()));
    info.insert(b"piece length".to_vec(), Value::Int(32));
    info.insert(b"pieces".to_vec(), Value::String(vec![0u8; 20]));
    assert!(Info::new(Value::Dict(info)).is_none());

    // pieces not a multiple of 20 bytes
    let mut info = Dict::new();
    info.insert(b"length".to_vec(), Value::Int(10));
    info.insert(b"name".to_vec(), Value::String(b"n".to_vec()));
    info.insert(b"piece length".to_vec(), Value::Int(32));
    info.insert(b"pieces".to_vec(), Value::String(vec![0u8; 21]));
    assert!(Info::new(Value::Dict(info)).is_none());

    // piece count disagrees with the file size
    let mut info = Dict::new();
    info.insert(b"length".to_vec(), Value::Int(100));
    info.insert(b"name".to_vec(), Value::String(b"n".to_vec()));
    info.insert(b"piece length".to_vec(), Value::Int(32));
    info.insert(b"pieces".to_vec(), Value::String(vec![0u8; 20]));
    assert!(Info::new(Value::Dict(info)).is_none());
}

#[test]
fn pieces_hashes_are_sliced_in_twenties() {
    let mut raw = Vec::new();
    for i in 0..40u8 {
        raw.push(i);
    }
    let hashes = get_pieces_hashes(&raw);
    assert_eq!(hashes.len(), 2);
    assert_eq!(hashes[0], (0..20u8).collect::<Vec<u8>>());
    assert_eq!(hashes[1], (20..40u8).collect::<Vec<u8>>());
    assert_eq!(get_pieces_hashes(&[0u8; 19]).len(), 0);
}

#[test]
fn magnet_uri_is_parsed() {
    let hash = [0xabu8; 20];
    let uri = format!(
        "magnet:?xt=urn:btih:{}&dn=sample.txt&tr=http%3A%2F%2Ftracker.example%2Fannounce",
        hex::encode(hash)
    );
    let magnet = Magnet::new(&uri).unwrap();
    assert_eq!(magnet.get_info_hash_bytes(), hash.to_vec());
    assert_eq!(magnet.get_url().unwrap(), "http://tracker.example/announce");
    assert_eq!(magnet.filename.unwrap(), "sample.txt");
}

#[test]
fn magnet_tracker_is_percent_decoded_and_trimmed() {
    let hash = [0x01u8; 20];
    let uri = format!(
        "magnet:?tr=%20http%3A%2F%2Ft%2Fa%20&xt=urn:btih:{}",
        hex::encode(hash)
    );
    let magnet = Magnet::new(&uri).unwrap();
    assert_eq!(magnet.get_url().unwrap(), "http://t/a");
}

#[test]
fn magnet_requires_a_valid_info_hash() {
    assert!(Magnet::new("magnet:?dn=x").is_none());
    assert!(Magnet::new("magnet:?xt=urn:btih:1234").is_none());
    assert!(Magnet::new(&format!("magnet:?xt=urn:btih:{}", "zz".repeat(20))).is_none());
    assert!(Magnet::new(&format!("magnet:?xt={}", "ab".repeat(20))).is_none());
    assert!(Magnet::new("notmagnet:?xt=urn:btih:00").is_none());
    assert!(Magnet::new("magnet:?plain").is_none());
    let ok = Magnet::new(&format!("magnet:?xt=urn:btih:{}", "AB".repeat(20))).unwrap();
    assert_eq!(ok.get_info_hash_bytes(), vec![0xabu8; 20]);
    assert!(ok.get_url().is_none());
    assert!(ok.filename.is_none());
}

#[test]
fn compact_peer_list_decodes_two_peers() {
    let bytes = [127u8, 0, 0, 1, 0x1a, 0xe1, 10, 0, 0, 42, 0x00, 0x50];
    let peers = bytes_to_peer_list(&bytes);
    assert_eq!(peers.len(), 2);
    assert_eq!(peers[0].0, "127.0.0.1");
    assert_eq!(peers[0].1, 6881);
    assert_eq!(peers[1].0, "10.0.0.42");
    assert_eq!(peers[1].1, 80);
    assert_eq!(bytes_to_peer_list(&bytes[..7]).len(), 1);
}

#[test]
fn tracker_response_yields_peers() {
    let mut d = Dict::new();
    d.insert(b"peers".to_vec(), Value::String(vec![127, 0, 0, 1, 0x1a, 0xe1]));
    let response = encode_value(Value::Dict(d));
    let peers = parse_peers_response(&response).unwrap();
    assert_eq!(peers.len(), 1);
    assert_eq!(peers[0], ("127.0.0.1".to_string(), 6881));

    match parse_peers_response(b"garbage") {
        Err(TorrentError::MalformedEncoding) => {}
        _ => panic!("expected MalformedEncoding"),
    }
    match parse_peers_response(b"d5:otheri1ee") {
        Err(TorrentError::ParseError) => {}
        _ => panic!("expected ParseError"),
    }
}

#[test]
fn tracker_url_percent_encodes_the_info_hash() {
    let mut hash = vec![0x12u8; 19];
    hash.push(0xfe);
    let url = tracker_request_url("http://t/announce", &hash, "-PEERID0123456789012", 12345);
    assert_eq!(
        url,
        format!(
            "http://t/announce?info_hash={}%FE&peer_id=-PEERID0123456789012&port=6881&uploaded=0&downloaded=0&left=12345&compact=1",
            "%12".repeat(19)
        )
    );
}
