//! Text utilities around byte strings: UTF-8 conversion (the one trusted
//! bridge here), percent-decoding, and ASCII-whitespace trimming, as magnet
//! URIs and tracker URLs need them.

use vstd::prelude::*;

verus! {

use vstd::utf8::{decode_utf8, valid_utf8};

/// Relies on `String::from_utf8`: it succeeds exactly on valid UTF-8 and
/// decodes the bytes to the characters they encode.
#[verifier::external_body]
pub fn utf8_string(bytes: Vec<u8>) -> (r: Option<String>)
    ensures
        match r {
            Some(s) => valid_utf8(bytes@) && s@ == decode_utf8(bytes@),
            None => !valid_utf8(bytes@),
        },
{
    match String::from_utf8(bytes) {
        Ok(s) => Some(s),
        Err(_) => None,
    }
}

/// ASCII bytes are valid UTF-8 and decode to themselves.
pub proof fn lemma_ascii_utf8(bytes: Seq<u8>)
    requires
        forall|i: int| 0 <= i < bytes.len() ==> bytes[i] < 128,
    ensures
        valid_utf8(bytes),
        decode_utf8(bytes).len() == bytes.len(),
        forall|i: int| 0 <= i < bytes.len() ==> decode_utf8(bytes)[i] == bytes[i] as char,
    decreases bytes.len(),
{
    if bytes.len() > 0 {
        let b = bytes[0];
        assert(vstd::utf8::is_leading_byte_width_1(b));
        assert(b & 0x7F == b) by (bit_vector)
            requires
                b < 128,
        ;
        assert(vstd::utf8::decode_first_scalar(bytes) == b as u32);
        let rest = vstd::utf8::pop_first_scalar(bytes);
        assert(rest =~= bytes.drop_first());
        lemma_ascii_utf8(rest);
        assert forall|i: int| 0 <= i < bytes.len() implies decode_utf8(bytes)[i] == bytes[i] as char
        by {
            if i > 0 {
                assert(decode_utf8(rest)[i - 1] == rest[i - 1] as char);
            }
        }
    }
}

/// Builds a `String` from ASCII bytes; each byte becomes its character.
pub fn ascii_string(bytes: Vec<u8>) -> (r: String)
    requires
        forall|i: int| 0 <= i < bytes@.len() ==> bytes@[i] < 128,
    ensures
        r@.len() == bytes@.len(),
        forall|i: int| 0 <= i < bytes@.len() ==> r@[i] == bytes@[i] as char,
{
    proof {
        lemma_ascii_utf8(bytes@);
    }
    match utf8_string(bytes) {
        Some(s) => s,
        None => vstd::pervasive::unreached(),
    }
}

/// A hex digit as a byte, either case.
pub open spec fn is_hex_byte(b: u8) -> bool {
    (48 <= b <= 57) || (97 <= b <= 102) || (65 <= b <= 70)
}

/// The value of a hex digit byte.
pub open spec fn hex_byte_val(b: u8) -> u8
    recommends
        is_hex_byte(b),
{
    if 48 <= b <= 57 {
        (b - 48) as u8
    } else if 97 <= b <= 102 {
        (b - 87) as u8
    } else {
        (b - 55) as u8
    }
}

/// Percent-decoding: each `%` followed by two hex digits becomes the byte
/// they denote; every other byte, `%` included, passes through unchanged.
pub open spec fn pct_decoded(s: Seq<u8>) -> Seq<u8>
    decreases s.len(),
{
    if s.len() == 0 {
        Seq::empty()
    } else if s[0] == 37 && s.len() >= 3 && is_hex_byte(s[1]) && is_hex_byte(s[2]) {
        seq![(hex_byte_val(s[1]) * 16 + hex_byte_val(s[2])) as u8] + pct_decoded(s.skip(3))
    } else {
        seq![s[0]] + pct_decoded(s.skip(1))
    }
}

fn hex_byte_value(b: u8) -> (r: Option<u8>)
    ensures
        match r {
            Some(v) => is_hex_byte(b) && v == hex_byte_val(b),
            None => !is_hex_byte(b),
        },
{
    if 48 <= b && b <= 57 {
        Some(b - 48)
    } else if 97 <= b && b <= 102 {
        Some(b - 87)
    } else if 65 <= b && b <= 70 {
        Some(b - 55)
    } else {
        None
    }
}

/// Percent-decodes a byte string.
pub fn percent_decode(input: &[u8]) -> (r: Vec<u8>)
    ensures
        r@ == pct_decoded(input@),
{
    let mut out: Vec<u8> = Vec::new();
    let mut pos: usize = 0;
    proof {
        assert(input@.skip(0) =~= input@);
    }
    loop
        invariant
            pos <= input.len(),
            pct_decoded(input@) == out@ + pct_decoded(input@.skip(pos as int)),
        decreases input.len() - pos,
    {
        let ghost tail = input@.skip(pos as int);
        if pos == input.len() {
            proof {
                assert(tail =~= Seq::<u8>::empty());
                assert(out@ + pct_decoded(tail) =~= out@);
            }
            return out;
        }
        proof {
            assert(tail[0] == input@[pos as int]);
        }
        let ghost pre = out@;
        if input[pos] == 37 && input.len() - pos >= 3 {
            proof {
                assert(tail[1] == input@[pos as int + 1]);
                assert(tail[2] == input@[pos as int + 2]);
            }
            let h1 = hex_byte_value(input[pos + 1]);
            let h2 = hex_byte_value(input[pos + 2]);
            match (h1, h2) {
                (Some(v1), Some(v2)) => {
                    assert(v1 < 16 && v2 < 16);
                    out.push(v1 * 16 + v2);
                    pos = pos + 3;
                    proof {
                        assert(tail.skip(3) =~= input@.skip(pos as int));
                        assert(pre + (seq![(hex_byte_val(tail[1]) * 16 + hex_byte_val(tail[2])) as u8]
                            + pct_decoded(tail.skip(3))) =~= out@ + pct_decoded(tail.skip(3)));
                    }
                },
                _ => {
                    out.push(input[pos]);
                    pos = pos + 1;
                    proof {
                        assert(tail.skip(1) =~= input@.skip(pos as int));
                        assert(pre + (seq![tail[0]] + pct_decoded(tail.skip(1))) =~= out@
                            + pct_decoded(tail.skip(1)));
                    }
                },
            }
        } else {
            out.push(input[pos]);
            pos = pos + 1;
            proof {
                assert(tail.skip(1) =~= input@.skip(pos as int));
                assert(pre + (seq![tail[0]] + pct_decoded(tail.skip(1))) =~= out@ + pct_decoded(
                    tail.skip(1),
                ));
            }
        }
    }
}

/// The bytes an even-length run of hex digit bytes denotes, high nibble
/// first.
pub open spec fn hex_bytes_decoded(s: Seq<u8>) -> Seq<u8>
    decreases s.len(),
{
    if s.len() < 2 {
        Seq::empty()
    } else {
        seq![(hex_byte_val(s[0]) * 16 + hex_byte_val(s[1])) as u8] + hex_bytes_decoded(s.skip(2))
    }
}

/// A run of hex digit bytes of even length.
pub open spec fn hex_bytes_ok(s: Seq<u8>) -> bool {
    s.len() % 2 == 0 && forall|i: int| 0 <= i < s.len() ==> is_hex_byte(s[i])
}

/// Decodes an even-length run of hex digit bytes, two digits per byte.
pub fn hex_bytes_decode(input: &[u8]) -> (r: Option<Vec<u8>>)
    ensures
        match r {
            Some(b) => hex_bytes_ok(input@) && b@ == hex_bytes_decoded(input@) && b@.len()
                == input@.len() / 2,
            None => !hex_bytes_ok(input@),
        },
{
    if input.len() % 2 != 0 {
        return None;
    }
    let mut out: Vec<u8> = Vec::new();
    let mut pos: usize = 0;
    proof {
        assert(input@.skip(0) =~= input@);
    }
    loop
        invariant
            pos <= input.len(),
            pos % 2 == 0,
            input.len() % 2 == 0,
            out@.len() == pos / 2,
            forall|i: int| 0 <= i < pos ==> is_hex_byte(input@[i]),
            hex_bytes_decoded(input@) == out@ + hex_bytes_decoded(input@.skip(pos as int)),
        decreases input.len() - pos,
    {
        let ghost tail = input@.skip(pos as int);
        if pos == input.len() {
            proof {
                assert(tail =~= Seq::<u8>::empty());
                assert(out@ + hex_bytes_decoded(tail) =~= out@);
            }
            return Some(out);
        }
        proof {
            assert(tail[0] == input@[pos as int]);
            assert(tail[1] == input@[pos as int + 1]);
        }
        let ghost pre = out@;
        let h1 = match hex_byte_value(input[pos]) {
            Some(v) => v,
            None => {
                return None;
            },
        };
        let h2 = match hex_byte_value(input[pos + 1]) {
            Some(v) => v,
            None => {
                return None;
            },
        };
        assert(h1 < 16 && h2 < 16);
        out.push(h1 * 16 + h2);
        pos = pos + 2;
        proof {
            assert(tail.skip(2) =~= input@.skip(pos as int));
            assert(pre + (seq![(hex_byte_val(tail[0]) * 16 + hex_byte_val(tail[1])) as u8]
                + hex_bytes_decoded(tail.skip(2))) =~= out@ + hex_bytes_decoded(tail.skip(2)));
        }
    }
}

/// ASCII whitespace, the bytes `char::is_whitespace` covers below 128.
pub open spec fn is_ascii_ws(b: u8) -> bool {
    b == 9 || b == 10 || b == 11 || b == 12 || b == 13 || b == 32
}

/// Drops leading ASCII whitespace.
pub open spec fn trim_front(s: Seq<u8>) -> Seq<u8>
    decreases s.len(),
{
    if s.len() > 0 && is_ascii_ws(s[0]) {
        trim_front(s.drop_first())
    } else {
        s
    }
}

/// Drops trailing ASCII whitespace.
pub open spec fn trim_back(s: Seq<u8>) -> Seq<u8>
    decreases s.len(),
{
    if s.len() > 0 && is_ascii_ws(s.last()) {
        trim_back(s.drop_last())
    } else {
        s
    }
}

/// Drops leading and trailing ASCII whitespace.
pub open spec fn trimmed(s: Seq<u8>) -> Seq<u8> {
    trim_back(trim_front(s))
}

proof fn lemma_trim_front_char(s: Seq<u8>, j: int)
    requires
        0 <= j <= s.len(),
        forall|i: int| 0 <= i < j ==> is_ascii_ws(s[i]),
        j == s.len() || !is_ascii_ws(s[j]),
    ensures
        trim_front(s) == s.skip(j),
    decreases j,
{
    if j == 0 {
        assert(s.skip(0) =~= s);
    } else {
        lemma_trim_front_char(s.drop_first(), j - 1);
        assert(s.drop_first().skip(j - 1) =~= s.skip(j));
    }
}

proof fn lemma_trim_back_char(s: Seq<u8>, j: int)
    requires
        0 <= j <= s.len(),
        forall|i: int| j <= i < s.len() ==> is_ascii_ws(s[i]),
        j == 0 || !is_ascii_ws(s[j - 1]),
    ensures
        trim_back(s) == s.take(j),
    decreases s.len(),
{
    if s.len() > j {
        lemma_trim_back_char(s.drop_last(), j);
        assert(s.drop_last().take(j) =~= s.take(j));
    } else {
        assert(s.take(j) =~= s);
    }
}

/// Whether a byte is ASCII whitespace.
fn is_ws_byte(b: u8) -> (r: bool)
    ensures
        r == is_ascii_ws(b),
{
    b == 9 || b == 10 || b == 11 || b == 12 || b == 13 || b == 32
}

/// Trims ASCII whitespace from both ends.
pub fn trim_ascii(input: &[u8]) -> (r: Vec<u8>)
    ensures
        r@ == trimmed(input@),
{
    let mut start: usize = 0;
    while start < input.len() && is_ws_byte(input[start])
        invariant
            start <= input.len(),
            forall|i: int| 0 <= i < start ==> is_ascii_ws(input@[i]),
        decreases input.len() - start,
    {
        start = start + 1;
    }
    proof {
        lemma_trim_front_char(input@, start as int);
    }
    let mut end: usize = input.len();
    while end > start && is_ws_byte(input[end - 1])
        invariant
            start <= end <= input.len(),
            forall|i: int| end <= i < input.len() ==> is_ascii_ws(input@[i]),
        decreases end,
    {
        end = end - 1;
    }
    let r = crate::value::copy_bytes(&input[start..end]);
    proof {
        let front = input@.skip(start as int);
        assert forall|i: int| end - start <= i < front.len() implies is_ascii_ws(front[i]) by {
            assert(front[i] == input@[start + i]);
        }
        lemma_trim_back_char(front, end - start);
        assert(front.take(end - start) =~= input@.subrange(start as int, end as int));
    }
    r
}

} // verus!
