//! The bencode codec end to end: the literal decode cases, round trips,
//! canonical dictionary order, malformed inputs, and the display forms.

use bittorrent::bencode::{decode_bencoded_value, encode_value};
use bittorrent::{Dict, TorrentError, Value};

fn decode_ok(bytes: &[u8]) -> (Value, Vec<u8>) {
    decode_bencoded_value(bytes).expect("decode should succeed")
}

#[test]
fn decodes_byte_string_literal() {
    let (v, rest) = decode_ok(b"4:spam");
    match v {
        Value::String(s) => assert_eq!(s, b"spam".to_vec()),
        _ => panic!("expected a byte string"),
    }
    assert_eq!(rest, Vec::<u8>::new());
}

#[test]
fn decodes_negative_integer_literal() {
    let (v, rest) = decode_ok(b"i-52e");
    match v {
        Value::Int(n) => assert_eq!(n, -52),
        _ => panic!("expected an integer"),
    }
    assert!(rest.is_empty());
}

#[test]
fn decodes_list_literal() {
    let (v, rest) = decode_ok(b"l4:spam4:eggse");
    match v {
        Value::List(items) => {
            assert_eq!(items.len(), 2);
            match (&items[0], &items[1]) {
                (Value::String(a), Value::String(b)) => {
                    assert_eq!(a, &b"spam".to_vec());
                    assert_eq!(b, &b"eggs".to_vec());
                }
                _ => panic!("expected two byte strings"),
            }
        }
        _ => panic!("expected a list"),
    }
    assert!(rest.is_empty());
}

#[test]
fn decodes_dictionary_literal() {
    let (v, rest) = decode_ok(b"d3:cow3:moo4:spam4:eggse");
    let d = v.get_map().expect("expected a dictionary");
    let cow = d.get("cow").unwrap().get_string().unwrap();
    let spam = d.get("spam").unwrap().get_string().unwrap();
    assert_eq!(cow, b"moo".to_vec());
    assert_eq!(spam, b"eggs".to_vec());
    assert!(rest.is_empty());
}

#[test]
fn decode_returns_trailing_bytes() {
    let (v, rest) = decode_ok(b"i7etrailing");
    match v {
        Value::Int(n) => assert_eq!(n, 7),
        _ => panic!("expected an integer"),
    }
    assert_eq!(rest, b"trailing".to_vec());
}

#[test]
fn decode_accepts_lenient_digits() {
    let (v, _) = decode_ok(b"i007e");
    match v {
        Value::Int(n) => assert_eq!(n, 7),
        _ => panic!("expected an integer"),
    }
}

#[test]
fn malformed_inputs_are_rejected() {
    for bad in [
        &b""[..],
        b"x",
        b"i12",
        b"i--2e",
        b"ie",
        b"4spam",
        b"5:spam",
        b"l4:spam",
        b"d3:cow3:moo",
        b"di1e4:spame",
        b"i9223372036854775808e",
        b"99999999999999999999:x",
    ] {
        match decode_bencoded_value(bad) {
            Err(TorrentError::MalformedEncoding) => {}
            other => panic!("expected MalformedEncoding for {:?}, got {:?}", bad, other.is_ok()),
        }
    }
}

#[test]
fn integer_bounds_round_trip() {
    for n in [0i64, 1, -1, 42, i64::MAX, i64::MIN] {
        let enc = encode_value(Value::Int(n));
        let (v, rest) = decode_ok(&enc);
        match v {
            Value::Int(m) => assert_eq!(m, n),
            _ => panic!("expected an integer"),
        }
        assert!(rest.is_empty());
    }
    assert_eq!(encode_value(Value::Int(-52)), b"i-52e".to_vec());
}

#[test]
fn encode_decode_round_trip_nested() {
    let mut inner = Dict::new();
    inner.insert(b"k".to_vec(), Value::Int(1));
    let list = Value::List(vec![
        Value::String(b"spam".to_vec()),
        Value::Int(-3),
        Value::Dict(inner),
    ]);
    let mut outer = Dict::new();
    outer.insert(b"list".to_vec(), list);
    outer.insert(b"raw".to_vec(), Value::String(vec![0, 255, 10]));
    let original = Value::Dict(outer);
    let encoded = encode_value(original.deep_clone());
    let (decoded, rest) = decode_ok(&encoded);
    assert!(rest.is_empty());
    assert_eq!(encode_value(decoded), encoded);
}

#[test]
fn dictionary_keys_are_emitted_in_ascending_order() {
    let mut d1 = Dict::new();
    d1.insert(b"spam".to_vec(), Value::String(b"eggs".to_vec()));
    d1.insert(b"cow".to_vec(), Value::String(b"moo".to_vec()));
    let mut d2 = Dict::new();
    d2.insert(b"cow".to_vec(), Value::String(b"moo".to_vec()));
    d2.insert(b"spam".to_vec(), Value::String(b"eggs".to_vec()));
    let e1 = encode_value(Value::Dict(d1));
    let e2 = encode_value(Value::Dict(d2));
    assert_eq!(e1, b"d3:cow3:moo4:spam4:eggse".to_vec());
    assert_eq!(e2, b"d3:cow3:moo4:spam4:eggse".to_vec());
}

#[test]
fn later_binding_of_equal_key_wins() {
    let mut d = Dict::new();
    d.insert(b"k".to_vec(), Value::Int(1));
    d.insert(b"k".to_vec(), Value::Int(2));
    assert_eq!(encode_value(Value::Dict(d)), b"d1:ki2ee".to_vec());
    let (v, _) = decode_ok(b"d1:ki1e1:ki2ee");
    let d = v.get_map().unwrap();
    assert_eq!(d.get("k").unwrap().get_int().unwrap(), 2);
}

#[test]
fn decode_sorts_unsorted_dictionaries() {
    let (v, _) = decode_ok(b"d1:bi2e1:ai1ee");
    let d = v.get_map().unwrap();
    assert_eq!(d.keys(), vec!["a".to_string(), "b".to_string()]);
    assert_eq!(encode_value(Value::Dict(d)), b"d1:ai1e1:bi2ee".to_vec());
}

#[test]
fn value_to_string_shows_each_variant() {
    let (v, _) = decode_ok(b"d3:cow3:moo4:spam4:eggse");
    assert_eq!(v.to_string(), "{\"cow\":\"moo\",\"spam\":\"eggs\"}");
    let (v, _) = decode_ok(b"l4:spami-52ee");
    assert_eq!(v.to_string(), "[\"spam\",-52]");
    assert_eq!(Value::Int(-7).to_string(), "-7");
    assert_eq!(Value::String(b"hi".to_vec()).to_string(), "hi");
    assert_eq!(Value::String(vec![0xff, 0xfe]).to_string(), "String not in utf8");
    assert_eq!(Value::List(vec![]).to_string(), "[]");
    assert_eq!(Value::Dict(Dict::new()).to_string(), "{}");
}

#[test]
fn dict_accessors_work() {
    let mut d = Dict::new();
    d.insert(b"b".to_vec(), Value::Int(2));
    d.insert(b"a".to_vec(), Value::Int(1));
    assert_eq!(d.len(), 2);
    assert_eq!(d.keys(), vec!["a".to_string(), "b".to_string()]);
    assert_eq!(d.get("a").unwrap().get_int().unwrap(), 1);
    assert_eq!(d.get("b").unwrap().get_int().unwrap(), 2);
    assert!(d.get("c").is_none());
    assert_eq!(d.to_string(), "{\"a\":1,\"b\":2}");

    // non-destructive iteration in ascending key order
    let (k0, v0) = d.entry_at(0);
    assert_eq!(k0, &b"a".to_vec());
    assert_eq!(v0.to_string(), "1");
    let (k1, _) = d.entry_at(1);
    assert_eq!(k1, &b"b".to_vec());

    let copy = d.deep_clone();
    assert_eq!(copy.to_string(), d.to_string());
}

#[test]
fn accessors_reject_other_variants() {
    assert!(Value::Int(1).get_string().is_none());
    assert!(Value::Int(1).get_map().is_none());
    assert!(Value::String(b"x".to_vec()).get_int().is_none());
    assert!(Value::String(b"x".to_vec())._get_list().is_none());
    let items = Value::List(vec![Value::Int(5)])._get_list().unwrap();
    assert_eq!(items.len(), 1);
}
