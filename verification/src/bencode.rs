//! The bencode codec: `encode_value` and `decode_bencoded_value`, with an
//! exact mathematical model of both directions.
//!
//! Encoding is canonical: integers carry no sign prefix but `-` and no
//! leading zeros, and dictionary entries are emitted in the order stored,
//! which the `Dict` invariant keeps strictly ascending. Decoding accepts
//! the encoded forms back (and, for numbers, also non-canonical digit
//! strings such as `007`, as a lenient reader would) and reports
//! `MalformedEncoding` on everything else.

use vstd::prelude::*;

use crate::value::{
    bytes_lt, entries_insert, entries_sorted, entry_models, group_value_model_axioms,
    lemma_value_models_push, value_model, value_models, Dict, Value, ValueModel,
};
use crate::TorrentError;

verus! {

/// ASCII digit.
pub open spec fn is_digit_byte(b: u8) -> bool {
    48 <= b <= 57
}

/// The decimal digits of `n`, most significant first, as ASCII bytes.
pub open spec fn dec_digits(n: nat) -> Seq<u8>
    decreases n,
{
    if n < 10 {
        seq![(48 + n) as u8]
    } else {
        dec_digits(n / 10) + seq![(48 + n % 10) as u8]
    }
}

/// The decimal form of an integer: a `-` prefix for negative values.
pub open spec fn int_bytes(n: int) -> Seq<u8> {
    if n < 0 {
        seq![45u8] + dec_digits((-n) as nat)
    } else {
        dec_digits(n as nat)
    }
}

/// The bencoded bytes of a value: `<len>:<bytes>` for byte strings,
/// `i<dec>e` for integers, `l...e` for lists, `d...e` for dictionaries.
pub open spec fn encoded(v: ValueModel) -> Seq<u8>
    decreases v,
{
    match v {
        ValueModel::Bytes(b) => dec_digits(b.len()) + seq![58u8] + b,
        ValueModel::Int(n) => seq![105u8] + int_bytes(n) + seq![101u8],
        ValueModel::List(items) => seq![108u8] + encoded_items(items) + seq![101u8],
        ValueModel::Dict(entries) => seq![100u8] + encoded_entries(entries) + seq![101u8],
    }
}

/// The concatenated encodings of a sequence of values.
pub open spec fn encoded_items(items: Seq<ValueModel>) -> Seq<u8>
    decreases items,
{
    if items.len() == 0 {
        Seq::empty()
    } else {
        encoded(items[0]) + encoded_items(items.drop_first())
    }
}

/// The concatenated encodings of a dictionary's entries: each key as a
/// byte string, immediately followed by its value.
pub open spec fn encoded_entries(entries: Seq<(Seq<u8>, ValueModel)>) -> Seq<u8>
    decreases entries,
{
    if entries.len() == 0 {
        Seq::empty()
    } else {
        dec_digits(entries[0].0.len()) + seq![58u8] + entries[0].0 + encoded(entries[0].1)
            + encoded_entries(entries.drop_first())
    }
}

proof fn lemma_encoded_items_take_succ(items: Seq<ValueModel>, i: int)
    requires
        0 <= i < items.len(),
    ensures
        encoded_items(items.take(i + 1)) == encoded_items(items.take(i)) + encoded(items[i]),
    decreases i,
{
    if i == 0 {
        assert(items.take(1).drop_first() =~= Seq::<ValueModel>::empty());
        assert(items.take(0) =~= Seq::<ValueModel>::empty());
        assert(items.take(1)[0] == items[0]);
        assert(encoded_items(Seq::<ValueModel>::empty()) =~= Seq::<u8>::empty());
        assert(encoded_items(items.take(1)) =~= encoded(items[0]));
        assert(encoded_items(items.take(0)) + encoded(items[0]) =~= encoded(items[0]));
    } else {
        lemma_encoded_items_take_succ(items.drop_first(), i - 1);
        assert(items.take(i + 1).drop_first() =~= items.drop_first().take(i));
        assert(items.take(i).drop_first() =~= items.drop_first().take(i - 1));
        assert(items.take(i + 1)[0] == items[0]);
        assert(items.take(i)[0] == items[0]);
        assert(items.drop_first()[i - 1] == items[i]);
        assert(encoded(items[0]) + (encoded_items(items.drop_first().take(i - 1)) + encoded(
            items[i],
        )) =~= (encoded(items[0]) + encoded_items(items.drop_first().take(i - 1))) + encoded(
            items[i],
        ));
    }
}

proof fn lemma_encoded_entries_take_succ(entries: Seq<(Seq<u8>, ValueModel)>, i: int)
    requires
        0 <= i < entries.len(),
    ensures
        encoded_entries(entries.take(i + 1)) == encoded_entries(entries.take(i)) + (dec_digits(
            entries[i].0.len(),
        ) + seq![58u8] + entries[i].0 + encoded(entries[i].1)),
    decreases i,
{
    let piece = dec_digits(entries[i].0.len()) + seq![58u8] + entries[i].0 + encoded(entries[i].1);
    if i == 0 {
        assert(entries.take(1).drop_first() =~= Seq::<(Seq<u8>, ValueModel)>::empty());
        assert(entries.take(0) =~= Seq::<(Seq<u8>, ValueModel)>::empty());
        assert(entries.take(1)[0] == entries[0]);
        assert(encoded_entries(Seq::<(Seq<u8>, ValueModel)>::empty()) =~= Seq::<u8>::empty());
        assert(encoded_entries(entries.take(1)) =~= piece);
        assert(encoded_entries(entries.take(0)) + piece =~= piece);
    } else {
        lemma_encoded_entries_take_succ(entries.drop_first(), i - 1);
        let head = dec_digits(entries[0].0.len()) + seq![58u8] + entries[0].0 + encoded(
            entries[0].1,
        );
        assert(entries.take(i + 1).drop_first() =~= entries.drop_first().take(i));
        assert(entries.take(i).drop_first() =~= entries.drop_first().take(i - 1));
        assert(entries.take(i + 1)[0] == entries[0]);
        assert(entries.take(i)[0] == entries[0]);
        assert(entries.drop_first()[i - 1] == entries[i]);
        assert(head + (encoded_entries(entries.drop_first().take(i - 1)) + piece) =~= (head
            + encoded_entries(entries.drop_first().take(i - 1))) + piece);
    }
}

/// Appends the decimal digits of `n`.
pub(crate) fn push_u64_dec(n: u64, out: &mut Vec<u8>)
    ensures
        final(out)@ == old(out)@ + dec_digits(n as nat),
    decreases n,
{
    if n < 10 {
        out.push(48 + n as u8);
        proof {
            assert(final(out)@ =~= old(out)@ + dec_digits(n as nat));
        }
    } else {
        push_u64_dec(n / 10, out);
        out.push(48 + (n % 10) as u8);
        proof {
            assert(final(out)@ =~= old(out)@ + dec_digits(n as nat));
        }
    }
}

/// The decimal form of an integer is ASCII.
pub(crate) proof fn lemma_int_bytes_ascii(n: int)
    ensures
        forall|i: int| 0 <= i < int_bytes(n).len() ==> int_bytes(n)[i] < 128,
{
    if n < 0 {
        lemma_dec_digits_bounds((-n) as nat);
        assert forall|i: int| 0 <= i < int_bytes(n).len() implies int_bytes(n)[i] < 128 by {
            if i > 0 {
                assert(int_bytes(n)[i] == dec_digits((-n) as nat)[i - 1]);
            }
        }
    } else {
        lemma_dec_digits_bounds(n as nat);
    }
}

/// Appends the decimal form of `n`, `-` prefixed when negative.
pub(crate) fn push_i64_dec(n: i64, out: &mut Vec<u8>)
    ensures
        final(out)@ == old(out)@ + int_bytes(n as int),
{
    if n < 0 {
        out.push(45);
        let m: u64 = if n == i64::MIN {
            9223372036854775808u64
        } else {
            (-n) as u64
        };
        assert(m as nat == (-(n as int)) as nat);
        push_u64_dec(m, out);
        proof {
            assert(final(out)@ =~= old(out)@ + int_bytes(n as int));
        }
    } else {
        push_u64_dec(n as u64, out);
    }
}

/// Appends a byte slice.
fn push_bytes(out: &mut Vec<u8>, b: &[u8])
    ensures
        final(out)@ == old(out)@ + b@,
{
    let mut i: usize = 0;
    while i < b.len()
        invariant
            i <= b.len(),
            out@ =~= old(out)@ + b@.subrange(0, i as int),
        decreases b.len() - i,
    {
        out.push(b[i]);
        i = i + 1;
    }
    proof {
        assert(out@ =~= old(out)@ + b@);
    }
}

/// Appends the encoding of `v`.
fn encode_to(v: &Value, out: &mut Vec<u8>)
    ensures
        final(out)@ == old(out)@ + encoded(v@),
    decreases v,
{
    broadcast use group_value_model_axioms;

    match v {
        Value::Int(n) => {
            out.push(105);
            push_i64_dec(*n, out);
            out.push(101);
            proof {
                assert(out@ =~= old(out)@ + encoded(v@));
            }
        },
        Value::String(b) => {
            push_u64_dec(b.len() as u64, out);
            out.push(58);
            push_bytes(out, b.as_slice());
            proof {
                assert(out@ =~= old(out)@ + encoded(v@));
            }
        },
        Value::List(items) => {
            out.push(108);
            let ghost models = value_models(items@);
            let mut i: usize = 0;
            proof {
                assert(models.take(0) =~= Seq::<ValueModel>::empty());
            }
            while i < items.len()
                invariant
                    *v is List,
                    items == v->List_0,
                    models == value_models(items@),
                    models.len() == items@.len(),
                    i <= items.len(),
                    out@ == old(out)@ + seq![108u8] + encoded_items(models.take(i as int)),
                decreases items.len() - i,
            {
                proof {
                    broadcast use group_value_model_axioms;
                    broadcast use vstd::std_specs::vec::axiom_vec_index_decreases;

                    assert(decreases_to!(*v => v->List_0));
                    assert(decreases_to!(v->List_0 => v->List_0[i as int]));
                }
                let e = &items[i];
                encode_to(e, out);
                proof {
                    lemma_encoded_items_take_succ(models, i as int);
                    assert(models[i as int] == value_model(items@[i as int]));
                    assert(out@ =~= old(out)@ + seq![108u8] + encoded_items(
                        models.take(i as int + 1),
                    ));
                }
                i = i + 1;
            }
            out.push(101);
            proof {
                assert(models.take(items@.len() as int) =~= models);
                assert(out@ =~= old(out)@ + encoded(v@));
            }
        },
        Value::Dict(d) => {
            out.push(100);
            let ghost models = entry_models(d.entries@);
            let mut i: usize = 0;
            proof {
                assert(models.take(0) =~= Seq::<(Seq<u8>, ValueModel)>::empty());
            }
            while i < d.entries.len()
                invariant
                    *v is Dict,
                    d == v->Dict_0,
                    models == entry_models(d.entries@),
                    models.len() == d.entries@.len(),
                    i <= d.entries.len(),
                    out@ == old(out)@ + seq![100u8] + encoded_entries(models.take(i as int)),
                decreases d.entries.len() - i,
            {
                proof {
                    broadcast use group_value_model_axioms;
                    broadcast use vstd::std_specs::vec::axiom_vec_index_decreases;

                    assert(decreases_to!(*v => v->Dict_0));
                    assert(decreases_to!(v->Dict_0 => v->Dict_0.entries));
                    assert(decreases_to!(v->Dict_0.entries => v->Dict_0.entries[i as int]));
                    assert(decreases_to!(v->Dict_0.entries[i as int] => v->Dict_0.entries[
                        i as int
                    ].1));
                }
                let e = &d.entries[i];
                push_u64_dec(e.0.len() as u64, out);
                out.push(58);
                push_bytes(out, e.0.as_slice());
                encode_to(&e.1, out);
                proof {
                    lemma_encoded_entries_take_succ(models, i as int);
                    assert(models[i as int] == (d.entries@[i as int].0@, value_model(
                        d.entries@[i as int].1,
                    )));
                    assert(out@ =~= old(out)@ + seq![100u8] + encoded_entries(
                        models.take(i as int + 1),
                    ));
                }
                i = i + 1;
            }
            out.push(101);
            proof {
                assert(models.take(d.entries@.len() as int) =~= models);
                assert(out@ =~= old(out)@ + encoded(v@));
            }
        },
    }
}

/// Encodes a value to its bencoded bytes; on well formed values the result
/// is canonical, so equal models give byte-identical encodings.
pub fn encode_value(value: Value) -> (r: Vec<u8>)
    ensures
        r@ == encoded(value@),
{
    let mut out: Vec<u8> = Vec::new();
    encode_to(&value, &mut out);
    proof {
        assert(out@ =~= encoded(value@));
    }
    out
}

/// How many leading bytes of `s` are ASCII digits.
pub open spec fn digit_prefix_len(s: Seq<u8>) -> nat
    decreases s.len(),
{
    if s.len() == 0 || !is_digit_byte(s[0]) {
        0
    } else {
        1 + digit_prefix_len(s.drop_first())
    }
}

/// The value of a digit string read in base ten; leading zeros are allowed.
pub open spec fn digits_val(s: Seq<u8>) -> nat
    decreases s.len(),
{
    if s.len() == 0 {
        0
    } else {
        digits_val(s.drop_last()) * 10 + (s.last() - 48) as nat
    }
}

/// The position of the first occurrence of `b` in `s`.
pub open spec fn find_byte(s: Seq<u8>, b: u8) -> Option<nat>
    decreases s.len(),
{
    if s.len() == 0 {
        None
    } else if s[0] == b {
        Some(0)
    } else {
        match find_byte(s.drop_first(), b) {
            Some(i) => Some(i + 1),
            None => None,
        }
    }
}

/// Every byte is an ASCII digit.
pub open spec fn all_digits(s: Seq<u8>) -> bool {
    forall|i: int| 0 <= i < s.len() ==> is_digit_byte(s[i])
}

/// The value of an integer literal: an optional sign (`-` or `+`, as a
/// lenient base-ten reader accepts) followed by at least one digit.
pub open spec fn int_literal_val(s: Seq<u8>) -> Option<int> {
    if s.len() > 0 && (s[0] == 45 || s[0] == 43) {
        if s.len() > 1 && all_digits(s.drop_first()) {
            if s[0] == 45 {
                Some(-(digits_val(s.drop_first()) as int))
            } else {
                Some(digits_val(s.drop_first()) as int)
            }
        } else {
            None
        }
    } else if s.len() > 0 && all_digits(s) {
        Some(digits_val(s) as int)
    } else {
        None
    }
}

/// What decoding a prefix of `s` yields: the decoded value and the bytes
/// after it, or `None` when no value can be read. This is the mathematical
/// mirror of `decode_bencoded_value`, and `decode(encode(v))` gives `v`
/// back for every well formed `v`.
pub open spec fn bdec(s: Seq<u8>) -> Option<(ValueModel, Seq<u8>)>
    decreases s.len(), 0int,
{
    if s.len() == 0 {
        None
    } else if is_digit_byte(s[0]) {
        let k = digit_prefix_len(s) as int;
        if k < s.len() && s[k] == 58 {
            let n = digits_val(s.take(k)) as int;
            if k + 1 + n <= s.len() {
                Some((ValueModel::Bytes(s.subrange(k + 1, k + 1 + n)), s.skip(k + 1 + n)))
            } else {
                None
            }
        } else {
            None
        }
    } else if s[0] == 105 {
        match find_byte(s.skip(1), 101) {
            Some(e) => match int_literal_val(s.subrange(1, 1 + e as int)) {
                Some(v) => if i64::MIN <= v <= i64::MAX {
                    Some((ValueModel::Int(v), s.skip(2 + e as int)))
                } else {
                    None
                },
                None => None,
            },
            None => None,
        }
    } else if s[0] == 108 {
        match bdec_items(s.skip(1)) {
            Some((items, r)) => Some((ValueModel::List(items), r)),
            None => None,
        }
    } else if s[0] == 100 {
        match bdec_entries(s.skip(1), Seq::empty()) {
            Some((entries, r)) => Some((ValueModel::Dict(entries), r)),
            None => None,
        }
    } else {
        None
    }
}

/// Decodes list items until a terminating `e`. The length guards document
/// that every decoded value consumes at least one byte; `lemma_bdec_progress`
/// shows they never fail.
pub open spec fn bdec_items(s: Seq<u8>) -> Option<(Seq<ValueModel>, Seq<u8>)>
    decreases s.len(), 1int,
{
    if s.len() == 0 {
        None
    } else if s[0] == 101 {
        Some((Seq::empty(), s.drop_first()))
    } else {
        match bdec(s) {
            Some((v, r)) => if r.len() < s.len() {
                match bdec_items(r) {
                    Some((items, r2)) => Some((seq![v] + items, r2)),
                    None => None,
                }
            } else {
                None
            },
            None => None,
        }
    }
}

/// Decodes dictionary entries until a terminating `e`, inserting each into
/// the accumulator in key order; a later binding of an equal key replaces
/// the earlier one. A key that is not a byte string fails the whole decode.
pub open spec fn bdec_entries(s: Seq<u8>, acc: Seq<(Seq<u8>, ValueModel)>) -> Option<
    (Seq<(Seq<u8>, ValueModel)>, Seq<u8>),
>
    decreases s.len(), 1int,
{
    if s.len() == 0 {
        None
    } else if s[0] == 101 {
        Some((acc, s.drop_first()))
    } else {
        match bdec(s) {
            Some((k, r)) => match k {
                ValueModel::Bytes(kb) => if r.len() < s.len() {
                    match bdec(r) {
                        Some((v, r2)) => if r2.len() < s.len() {
                            bdec_entries(r2, entries_insert(acc, kb, v))
                        } else {
                            None
                        },
                        None => None,
                    }
                } else {
                    None
                },
                _ => None,
            },
            None => None,
        }
    }
}

proof fn lemma_digit_prefix_char(s: Seq<u8>, j: int)
    requires
        0 <= j <= s.len(),
        forall|i: int| 0 <= i < j ==> is_digit_byte(s[i]),
        j == s.len() || !is_digit_byte(s[j]),
    ensures
        digit_prefix_len(s) == j,
    decreases j,
{
    if j > 0 {
        lemma_digit_prefix_char(s.drop_first(), j - 1);
    }
}

pub(crate) proof fn lemma_find_byte_char(s: Seq<u8>, b: u8, j: int)
    requires
        0 <= j <= s.len(),
        forall|i: int| 0 <= i < j ==> s[i] != b,
        j == s.len() || s[j] == b,
    ensures
        j == s.len() ==> find_byte(s, b) is None,
        j < s.len() ==> find_byte(s, b) == Some(j as nat),
    decreases j,
{
    if j > 0 {
        lemma_find_byte_char(s.drop_first(), b, j - 1);
    }
}

/// Reading one more digit multiplies the value by ten and adds the digit.
proof fn lemma_digits_val_snoc(s: Seq<u8>, i: int)
    requires
        0 <= i < s.len(),
    ensures
        digits_val(s.take(i + 1)) == digits_val(s.take(i)) * 10 + (s[i] - 48) as nat,
{
    assert(s.take(i + 1).drop_last() =~= s.take(i));
    assert(s.take(i + 1).last() == s[i]);
}

/// `a <= (m - d) / 10` says exactly that appending the digit `d` keeps the
/// accumulated value within `m`.
proof fn lemma_div10_bound(a: int, m: int, d: int)
    requires
        0 <= a,
        0 <= d <= m,
    ensures
        (a <= (m - d) / 10) <==> (10 * a + d <= m),
{
    vstd::arithmetic::div_mod::lemma_fundamental_div_mod(m - d, 10);
    vstd::arithmetic::div_mod::lemma_mod_bound(m - d, 10);
    let q = (m - d) / 10;
    if a <= q {
        assert(10 * a <= 10 * q);
    }
    if 10 * a + d <= m {
        assert(10 * a <= 10 * q + ((m - d) % 10));
        assert(10 * a < 10 * (q + 1));
    }
}

/// Scans the run of ASCII digits starting at `pos`.
fn scan_digits(input: &[u8], pos: usize) -> (end: usize)
    requires
        pos <= input.len(),
    ensures
        pos <= end <= input.len(),
        forall|i: int| pos <= i < end ==> is_digit_byte(input@[i]),
        end == input.len() || !is_digit_byte(input@[end as int]),
        digit_prefix_len(input@.skip(pos as int)) == end - pos,
{
    let mut end = pos;
    while end < input.len() && 48 <= input[end] && input[end] <= 57
        invariant
            pos <= end <= input.len(),
            forall|i: int| pos <= i < end ==> is_digit_byte(input@[i]),
        decreases input.len() - end,
    {
        end = end + 1;
    }
    proof {
        lemma_digit_prefix_char(input@.skip(pos as int), end - pos);
    }
    end
}

/// Parses the digit run `input[start..end]` as a length; `None` reports a
/// value beyond `usize`.
fn parse_len_digits(input: &[u8], start: usize, end: usize) -> (r: Option<usize>)
    requires
        start <= end <= input.len(),
        forall|i: int| start <= i < end ==> is_digit_byte(input@[i]),
    ensures
        match r {
            Some(v) => v as nat == digits_val(input@.subrange(start as int, end as int)),
            None => digits_val(input@.subrange(start as int, end as int)) > usize::MAX,
        },
{
    let ghost whole = input@.subrange(start as int, end as int);
    let mut val: usize = 0;
    let mut i = start;
    let mut overflow = false;
    proof {
        assert(whole.take(0) =~= Seq::<u8>::empty());
    }
    while i < end
        invariant
            start <= i <= end <= input.len(),
            forall|j: int| start <= j < end ==> is_digit_byte(input@[j]),
            whole == input@.subrange(start as int, end as int),
            !overflow ==> val as nat == digits_val(whole.take(i - start)),
            overflow ==> digits_val(whole.take(i - start)) > usize::MAX,
        decreases end - i,
    {
        let d = input[i] - 48;
        proof {
            lemma_digits_val_snoc(whole, i - start);
            assert(whole[i - start] == input@[i as int]);
        }
        if !overflow {
            if val <= (usize::MAX - d as usize) / 10 {
                proof {
                    lemma_div10_bound(val as int, usize::MAX as int, d as int);
                }
                val = val * 10 + d as usize;
            } else {
                proof {
                    lemma_div10_bound(val as int, usize::MAX as int, d as int);
                }
                overflow = true;
            }
        } else {
            proof {
                assert(digits_val(whole.take(i - start)) * 10 + (whole[i - start] - 48) as nat
                    > usize::MAX);
            }
        }
        i = i + 1;
    }
    proof {
        assert(whole.take(end - start) =~= whole);
    }
    if overflow {
        None
    } else {
        Some(val)
    }
}

/// Parses the digit run `input[start..end]` as a magnitude; `None` reports
/// a value beyond `u64`.
fn parse_u64_digits(input: &[u8], start: usize, end: usize) -> (r: Option<u64>)
    requires
        start <= end <= input.len(),
        forall|i: int| start <= i < end ==> is_digit_byte(input@[i]),
    ensures
        match r {
            Some(v) => v as nat == digits_val(input@.subrange(start as int, end as int)),
            None => digits_val(input@.subrange(start as int, end as int)) > u64::MAX,
        },
{
    let ghost whole = input@.subrange(start as int, end as int);
    let mut val: u64 = 0;
    let mut i = start;
    let mut overflow = false;
    proof {
        assert(whole.take(0) =~= Seq::<u8>::empty());
    }
    while i < end
        invariant
            start <= i <= end <= input.len(),
            forall|j: int| start <= j < end ==> is_digit_byte(input@[j]),
            whole == input@.subrange(start as int, end as int),
            !overflow ==> val as nat == digits_val(whole.take(i - start)),
            overflow ==> digits_val(whole.take(i - start)) > u64::MAX,
        decreases end - i,
    {
        let d = input[i] - 48;
        proof {
            lemma_digits_val_snoc(whole, i - start);
            assert(whole[i - start] == input@[i as int]);
        }
        if !overflow {
            if val <= (u64::MAX - d as u64) / 10 {
                proof {
                    lemma_div10_bound(val as int, u64::MAX as int, d as int);
                }
                val = val * 10 + d as u64;
            } else {
                proof {
                    lemma_div10_bound(val as int, u64::MAX as int, d as int);
                }
                overflow = true;
            }
        } else {
            proof {
                assert(digits_val(whole.take(i - start)) * 10 + (whole[i - start] - 48) as nat
                    > u64::MAX);
            }
        }
        i = i + 1;
    }
    proof {
        assert(whole.take(end - start) =~= whole);
    }
    if overflow {
        None
    } else {
        Some(val)
    }
}

/// Parses the bytes `input[start..end]` as a signed integer literal.
fn parse_int_content(input: &[u8], start: usize, end: usize) -> (r: Result<i64, TorrentError>)
    requires
        start <= end <= input.len(),
    ensures
        match r {
            Ok(v) => int_literal_val(input@.subrange(start as int, end as int)) == Some(v as int),
            Err(e) => {
                &&& e == TorrentError::MalformedEncoding
                &&& match int_literal_val(input@.subrange(start as int, end as int)) {
                    Some(v) => !(i64::MIN <= v <= i64::MAX),
                    None => true,
                }
            },
        },
{
    let ghost content = input@.subrange(start as int, end as int);
    if start == end {
        return Err(TorrentError::MalformedEncoding);
    }
    let first = input[start];
    let negative = first == 45;
    let signed = negative || first == 43;
    let dstart = if signed {
        start + 1
    } else {
        start
    };
    let ghost digits = input@.subrange(dstart as int, end as int);
    proof {
        if signed {
            assert(digits =~= content.drop_first());
        } else {
            assert(digits =~= content);
        }
    }
    if dstart == end {
        return Err(TorrentError::MalformedEncoding);
    }
    let dend = scan_digits(input, dstart);
    if dend < end {
        proof {
            assert(!is_digit_byte(digits[dend - dstart]));
            assert(!all_digits(digits));
        }
        return Err(TorrentError::MalformedEncoding);
    }
    proof {
        assert forall|j: int| 0 <= j < digits.len() implies is_digit_byte(digits[j]) by {
            assert(digits[j] == input@[dstart + j]);
        }
        assert(all_digits(digits));
    }
    let m = match parse_u64_digits(input, dstart, end) {
        Some(m) => m,
        None => {
            return Err(TorrentError::MalformedEncoding);
        },
    };
    if negative {
        if m > 9223372036854775808u64 {
            return Err(TorrentError::MalformedEncoding);
        }
        let v: i64 = if m == 9223372036854775808u64 {
            i64::MIN
        } else {
            -(m as i64)
        };
        Ok(v)
    } else {
        if m > 9223372036854775807u64 {
            return Err(TorrentError::MalformedEncoding);
        }
        Ok(m as i64)
    }
}

/// Decodes one value starting at `pos`, handing back where it ended; the
/// result and the error cases mirror `bdec` on the remaining bytes exactly.
fn decode_at(input: &[u8], pos: usize) -> (r: Result<(Value, usize), TorrentError>)
    requires
        pos <= input.len(),
    ensures
        match r {
            Ok(p) => {
                &&& pos < p.1 <= input.len()
                &&& bdec(input@.skip(pos as int)) == Some((p.0@, input@.skip(p.1 as int)))
            },
            Err(e) => {
                &&& e == TorrentError::MalformedEncoding
                &&& bdec(input@.skip(pos as int)) is None
            },
        },
    decreases input.len() - pos,
{
    broadcast use group_value_model_axioms;

    let ghost s = input@.skip(pos as int);
    if pos == input.len() {
        proof {
            assert(s =~= Seq::<u8>::empty());
        }
        return Err(TorrentError::MalformedEncoding);
    }
    let b0 = input[pos];
    proof {
        assert(s[0] == b0);
    }
    if 48 <= b0 && b0 <= 57 {
        // <len>:<bytes>
        let dend = scan_digits(input, pos);
        proof {
            assert(s.take(dend - pos) =~= input@.subrange(pos as int, dend as int));
        }
        if dend == input.len() {
            return Err(TorrentError::MalformedEncoding);
        }
        if input[dend] != 58 {
            proof {
                assert(s[dend - pos] == input@[dend as int]);
            }
            return Err(TorrentError::MalformedEncoding);
        }
        proof {
            assert(s[dend - pos] == input@[dend as int]);
        }
        let n = match parse_len_digits(input, pos, dend) {
            Some(n) => n,
            None => {
                proof {
                    assert(digits_val(s.take(dend - pos)) > usize::MAX >= s.len());
                }
                return Err(TorrentError::MalformedEncoding);
            },
        };
        if n > input.len() - (dend + 1) {
            return Err(TorrentError::MalformedEncoding);
        }
        let bytes = copy_slice_range(input, dend + 1, dend + 1 + n);
        let end = dend + 1 + n;
        proof {
            assert(s.subrange(dend + 1 - pos, dend + 1 + n - pos) =~= input@.subrange(
                dend as int + 1,
                dend as int + 1 + n,
            ));
            assert(s.skip(end - pos) =~= input@.skip(end as int));
        }
        Ok((Value::String(bytes), end))
    } else if b0 == 105 {
        // i<dec>e
        let mut epos = pos + 1;
        loop
            invariant
                pos + 1 <= epos <= input.len(),
                forall|i: int| pos + 1 <= i < epos ==> input@[i] != 101,
            ensures
                pos + 1 <= epos <= input.len(),
                forall|i: int| pos + 1 <= i < epos ==> input@[i] != 101,
                epos == input.len() || input@[epos as int] == 101,
            decreases input.len() - epos,
        {
            if epos == input.len() {
                break ;
            }
            if input[epos] == 101 {
                break ;
            }
            epos = epos + 1;
        }
        proof {
            lemma_find_byte_char(s.skip(1), 101, epos - (pos + 1));
            assert(s.skip(1) =~= input@.skip(pos as int + 1));
        }
        if epos == input.len() {
            return Err(TorrentError::MalformedEncoding);
        }
        proof {
            assert(s.subrange(1, 1 + (epos - (pos + 1))) =~= input@.subrange(
                pos as int + 1,
                epos as int,
            ));
        }
        let v = match parse_int_content(input, pos + 1, epos) {
            Ok(v) => v,
            Err(e) => {
                return Err(e);
            },
        };
        proof {
            assert(s.skip(2 + (epos - (pos + 1))) =~= input@.skip(epos as int + 1));
        }
        Ok((Value::Int(v), epos + 1))
    } else if b0 == 108 {
        // l<item>*e
        let mut items: Vec<Value> = Vec::new();
        let mut cur = pos + 1;
        proof {
            assert(value_models(items@) =~= Seq::<ValueModel>::empty());
        }
        loop
            invariant
                pos < input.len(),
                input@[pos as int] == 108,
                pos + 1 <= cur <= input.len(),
                ({
                    let tail = input@.skip(cur as int);
                    let start = input@.skip(pos as int + 1);
                    match bdec_items(tail) {
                        Some((tl, rest)) => bdec_items(start) == Some(
                            (value_models(items@) + tl, rest),
                        ),
                        None => bdec_items(start) is None,
                    }
                }),
            decreases input.len() - cur,
        {
            proof {
                broadcast use group_value_model_axioms;

                let sp = input@.skip(pos as int);
                assert(sp[0] == input@[pos as int]);
                assert(sp.skip(1) =~= input@.skip(pos as int + 1));
            }
            let ghost tail = input@.skip(cur as int);
            if cur == input.len() {
                proof {
                    assert(tail =~= Seq::<u8>::empty());
                }
                return Err(TorrentError::MalformedEncoding);
            }
            proof {
                assert(tail[0] == input@[cur as int]);
            }
            if input[cur] == 101 {
                proof {
                    assert(tail.drop_first() =~= input@.skip(cur as int + 1));
                    assert(value_models(items@) + Seq::<ValueModel>::empty() =~= value_models(
                        items@,
                    ));
                    assert(bdec_items(input@.skip(pos as int + 1)) == Some(
                        (value_models(items@), input@.skip(cur as int + 1)),
                    ));
                }
                return Ok((Value::List(items), cur + 1));
            }
            let (v, end) = match decode_at(input, cur) {
                Ok(p) => p,
                Err(e) => {
                    return Err(e);
                },
            };
            proof {
                lemma_value_models_push(items@, v);
                assert(input@.skip(end as int).len() < tail.len());
                match bdec_items(input@.skip(end as int)) {
                    Some(p2) => {
                        assert(value_models(items@) + (seq![value_model(v)] + p2.0)
                            =~= value_models(items@.push(v)) + p2.0);
                    },
                    None => {},
                }
            }
            items.push(v);
            cur = end;
        }
    } else if b0 == 100 {
        // d<key><value>*e
        let mut dict = Dict::new();
        let mut cur = pos + 1;
        loop
            invariant
                pos < input.len(),
                input@[pos as int] == 100,
                pos + 1 <= cur <= input.len(),
                bdec_entries(input@.skip(pos as int + 1), Seq::empty()) == bdec_entries(
                    input@.skip(cur as int),
                    dict@,
                ),
            decreases input.len() - cur,
        {
            proof {
                let sp = input@.skip(pos as int);
                assert(sp[0] == input@[pos as int]);
                assert(sp.skip(1) =~= input@.skip(pos as int + 1));
            }
            let ghost tail = input@.skip(cur as int);
            if cur == input.len() {
                proof {
                    assert(tail =~= Seq::<u8>::empty());
                }
                return Err(TorrentError::MalformedEncoding);
            }
            proof {
                assert(tail[0] == input@[cur as int]);
            }
            if input[cur] == 101 {
                proof {
                    assert(tail.drop_first() =~= input@.skip(cur as int + 1));
                }
                return Ok((Value::Dict(dict), cur + 1));
            }
            let (kv, kend) = match decode_at(input, cur) {
                Ok(p) => p,
                Err(e) => {
                    return Err(e);
                },
            };
            let kb = match kv.get_string() {
                Some(kb) => kb,
                None => {
                    return Err(TorrentError::MalformedEncoding);
                },
            };
            let (vv, vend) = match decode_at(input, kend) {
                Ok(p) => p,
                Err(e) => {
                    proof {
                        assert(input@.skip(kend as int).len() < tail.len());
                    }
                    return Err(e);
                },
            };
            proof {
                assert(input@.skip(kend as int).len() < tail.len());
                assert(input@.skip(vend as int).len() < tail.len());
            }
            dict.insert(kb, vv);
            cur = vend;
        }
    } else {
        Err(TorrentError::MalformedEncoding)
    }
}

/// Copies `input[from..to]` into a fresh vector.
fn copy_slice_range(input: &[u8], from: usize, to: usize) -> (r: Vec<u8>)
    requires
        from <= to <= input.len(),
    ensures
        r@ == input@.subrange(from as int, to as int),
{
    let mut out: Vec<u8> = Vec::new();
    let mut i = from;
    while i < to
        invariant
            from <= i <= to <= input.len(),
            out@ =~= input@.subrange(from as int, i as int),
        decreases to - i,
    {
        out.push(input[i]);
        i = i + 1;
    }
    proof {
        assert(out@ =~= input@.subrange(from as int, to as int));
    }
    out
}

/// Every decimal representation is nonempty and made of digits.
pub(crate) proof fn lemma_dec_digits_bounds(n: nat)
    ensures
        dec_digits(n).len() >= 1,
        forall|i: int| 0 <= i < dec_digits(n).len() ==> 48 <= #[trigger] dec_digits(n)[i] <= 57,
    decreases n,
{
    if n >= 10 {
        lemma_dec_digits_bounds(n / 10);
        assert forall|i: int| 0 <= i < dec_digits(n).len() implies 48 <= #[trigger] dec_digits(
            n,
        )[i] <= 57 by {
            if i < dec_digits(n / 10).len() {
                assert(dec_digits(n)[i] == dec_digits(n / 10)[i]);
            }
        }
    }
}

/// Reading the decimal representation back gives the number.
proof fn lemma_digits_val_dec(n: nat)
    ensures
        digits_val(dec_digits(n)) == n,
    decreases n,
{
    if n < 10 {
        assert(dec_digits(n).drop_last() =~= Seq::<u8>::empty());
        assert(digits_val(Seq::<u8>::empty()) == 0);
        assert(dec_digits(n).last() == (48 + n) as u8);
    } else {
        lemma_digits_val_dec(n / 10);
        lemma_dec_digits_bounds(n / 10);
        assert((dec_digits(n / 10) + seq![(48 + n % 10) as u8]).drop_last() =~= dec_digits(n / 10));
        vstd::arithmetic::div_mod::lemma_fundamental_div_mod(n as int, 10);
    }
}

/// An integer's decimal form evaluates back to the integer.
proof fn lemma_int_literal_int_bytes(n: int)
    ensures
        int_literal_val(int_bytes(n)) == Some(n),
{
    if n < 0 {
        lemma_dec_digits_bounds((-n) as nat);
        lemma_digits_val_dec((-n) as nat);
        let s = int_bytes(n);
        assert(s.drop_first() =~= dec_digits((-n) as nat));
        assert(all_digits(s.drop_first()));
    } else {
        lemma_dec_digits_bounds(n as nat);
        lemma_digits_val_dec(n as nat);
        let s = int_bytes(n);
        assert(s == dec_digits(n as nat));
        assert(s[0] != 45 && s[0] != 43);
        assert(all_digits(s));
    }
}

/// An encoding is never empty and never starts with the terminator `e`.
proof fn lemma_encoded_first(v: ValueModel)
    ensures
        encoded(v).len() > 0,
        encoded(v)[0] != 101,
{
    match v {
        ValueModel::Bytes(b) => {
            lemma_dec_digits_bounds(b.len());
            assert(encoded(v)[0] == dec_digits(b.len())[0]);
        },
        ValueModel::Int(_) => {
            assert(encoded(v)[0] == 105);
        },
        ValueModel::List(_) => {
            assert(encoded(v)[0] == 108);
        },
        ValueModel::Dict(_) => {
            assert(encoded(v)[0] == 100);
        },
    }
}

/// Decoding a byte-string encoding followed by anything gives the byte
/// string back and leaves exactly the trailing bytes.
proof fn lemma_bdec_bytes(b: Seq<u8>, rest: Seq<u8>)
    ensures
        bdec(dec_digits(b.len()) + seq![58u8] + b + rest) == Some((ValueModel::Bytes(b), rest)),
{
    let d = dec_digits(b.len());
    let s = d + seq![58u8] + b + rest;
    lemma_dec_digits_bounds(b.len());
    lemma_digits_val_dec(b.len());
    assert(s[0] == d[0]);
    assert(is_digit_byte(s[0]));
    assert forall|i: int| 0 <= i < d.len() implies is_digit_byte(s[i]) by {
        assert(s[i] == d[i]);
    }
    assert(s[d.len() as int] == 58);
    lemma_digit_prefix_char(s, d.len() as int);
    let k = d.len() as int;
    assert(s.take(k) =~= d);
    let n = digits_val(s.take(k)) as int;
    assert(n == b.len());
    assert(k + 1 + n <= s.len());
    assert(s.subrange(k + 1, k + 1 + n) =~= b);
    assert(s.skip(k + 1 + n) =~= rest);
}

/// Decoding an encoding followed by anything gives the value back and
/// leaves exactly the trailing bytes: the codec round trip.
pub proof fn lemma_bdec_encoded(v: ValueModel, rest: Seq<u8>)
    requires
        v.wf(),
    ensures
        bdec(encoded(v) + rest) == Some((v, rest)),
    decreases v,
{
    let s = encoded(v) + rest;
    match v {
        ValueModel::Bytes(b) => {
            assert(s =~= dec_digits(b.len()) + seq![58u8] + b + rest);
            lemma_bdec_bytes(b, rest);
        },
        ValueModel::Int(n) => {
            let d = int_bytes(n);
            assert(s[0] == 105);
            assert(!is_digit_byte(s[0]));
            lemma_dec_digits_bounds(if n < 0 {
                (-n) as nat
            } else {
                n as nat
            });
            assert forall|i: int| 0 <= i < d.len() implies s.skip(1)[i] != 101 by {
                assert(s.skip(1)[i] == d[i]);
                if n < 0 {
                    if i == 0 {
                        assert(d[0] == 45);
                    } else {
                        assert(d[i] == dec_digits((-n) as nat)[i - 1]);
                    }
                } else {
                    assert(d[i] == dec_digits(n as nat)[i]);
                }
            }
            assert(s.skip(1)[d.len() as int] == 101);
            lemma_find_byte_char(s.skip(1), 101, d.len() as int);
            let e = d.len() as int;
            assert(s.subrange(1, 1 + e) =~= d);
            lemma_int_literal_int_bytes(n);
            assert(s.skip(2 + e) =~= rest);
        },
        ValueModel::List(items) => {
            assert(s[0] == 108);
            assert(!is_digit_byte(s[0]));
            assert(s.skip(1) =~= encoded_items(items) + seq![101u8] + rest);
            assert forall|i: int| 0 <= i < items.len() implies (#[trigger] items[i]).wf() by {
                assert(v.wf());
                assert(v->List_0 == items);
            }
            lemma_bdec_items_encoded(items, rest);
        },
        ValueModel::Dict(entries) => {
            assert(s[0] == 100);
            assert(!is_digit_byte(s[0]));
            assert(s.skip(1) =~= encoded_entries(entries) + seq![101u8] + rest);
            assert(Seq::<(Seq<u8>, ValueModel)>::empty() + entries =~= entries);
            lemma_bdec_entries_encoded(entries, Seq::empty(), rest);
            assert(Seq::<(Seq<u8>, ValueModel)>::empty() + entries =~= entries);
        },
    }
}

/// Companion of `lemma_bdec_encoded` for list bodies.
proof fn lemma_bdec_items_encoded(items: Seq<ValueModel>, rest: Seq<u8>)
    requires
        forall|i: int| 0 <= i < items.len() ==> (#[trigger] items[i]).wf(),
    ensures
        bdec_items(encoded_items(items) + seq![101u8] + rest) == Some((items, rest)),
    decreases items,
{
    let s = encoded_items(items) + seq![101u8] + rest;
    if items.len() == 0 {
        assert(s[0] == 101);
        assert(s.drop_first() =~= rest);
        assert(bdec_items(s) == Some((Seq::<ValueModel>::empty(), rest)));
        assert(Seq::<ValueModel>::empty() =~= items);
    } else {
        let head = items[0];
        let tail_bytes = encoded_items(items.drop_first()) + seq![101u8] + rest;
        assert(s =~= encoded(head) + tail_bytes);
        lemma_encoded_first(head);
        assert(s[0] == encoded(head)[0]);
        assert(s[0] != 101);
        lemma_bdec_encoded(head, tail_bytes);
        assert(bdec(s) == Some((head, tail_bytes)));
        assert(tail_bytes.len() < s.len());
        lemma_bdec_items_encoded(items.drop_first(), rest);
        assert(seq![head] + items.drop_first() =~= items);
    }
}

/// Companion of `lemma_bdec_encoded` for dictionary bodies: decoding the
/// encoded entries of a sorted dictionary appends them, in order, to the
/// accumulator.
proof fn lemma_bdec_entries_encoded(
    entries: Seq<(Seq<u8>, ValueModel)>,
    acc: Seq<(Seq<u8>, ValueModel)>,
    rest: Seq<u8>,
)
    requires
        entries_sorted(acc + entries),
        forall|i: int| 0 <= i < entries.len() ==> (#[trigger] entries[i]).1.wf(),
    ensures
        bdec_entries(encoded_entries(entries) + seq![101u8] + rest, acc) == Some(
            (acc + entries, rest),
        ),
    decreases entries,
{
    let s = encoded_entries(entries) + seq![101u8] + rest;
    if entries.len() == 0 {
        assert(s[0] == 101);
        assert(s.drop_first() =~= rest);
        assert(acc + entries =~= acc);
    } else {
        let k = entries[0].0;
        let v = entries[0].1;
        let after_key = encoded(v) + (encoded_entries(entries.drop_first()) + seq![101u8] + rest);
        let after_val = encoded_entries(entries.drop_first()) + seq![101u8] + rest;
        assert(s =~= (dec_digits(k.len()) + seq![58u8] + k + after_key));
        lemma_dec_digits_bounds(k.len());
        assert(s[0] == dec_digits(k.len())[0]);
        assert(s[0] != 101);
        lemma_bdec_bytes(k, after_key);
        assert(bdec(s) == Some((ValueModel::Bytes(k), after_key)));
        assert(after_key.len() < s.len());
        lemma_encoded_first(v);
        lemma_bdec_encoded(v, after_val);
        assert(after_key =~= encoded(v) + after_val);
        assert(bdec(after_key) == Some((v, after_val)));
        assert(after_val.len() < s.len());
        // the new key lies above everything accumulated so far
        assert forall|i: int| 0 <= i < acc.len() implies bytes_lt((#[trigger] acc[i]).0, k) by {
            assert((acc + entries)[i] == acc[i]);
            assert((acc + entries)[acc.len() as int] == entries[0]);
        }
        crate::value::lemma_entries_insert_prefix(acc, k, v, acc.len() as int);
        assert(acc.skip(acc.len() as int) =~= Seq::<(Seq<u8>, ValueModel)>::empty());
        assert(entries_insert(acc, k, v) =~= acc + seq![entries[0]]);
        assert((acc + seq![entries[0]]) + entries.drop_first() =~= acc + entries);
        assert(entries_sorted((acc + seq![entries[0]]) + entries.drop_first()));
        lemma_bdec_entries_encoded(entries.drop_first(), acc + seq![entries[0]], rest);
        assert(bdec_entries(s, acc) == Some(((acc + seq![entries[0]]) + entries.drop_first(), rest)));
    }
}

/// Every value the decoder reads is well formed: its integers came from
/// `i64` and its dictionaries, built by sorted insertion, hold strictly
/// ascending keys at every depth.
pub proof fn lemma_bdec_wf(s: Seq<u8>)
    ensures
        bdec(s) matches Some(p) ==> p.0.wf(),
    decreases s.len(), 0int,
{
    if s.len() == 0 {
    } else if is_digit_byte(s[0]) {
    } else if s[0] == 105 {
    } else if s[0] == 108 {
        lemma_bdec_items_wf(s.skip(1));
    } else if s[0] == 100 {
        lemma_bdec_entries_wf(s.skip(1), Seq::empty());
    }
}

proof fn lemma_bdec_items_wf(s: Seq<u8>)
    ensures
        bdec_items(s) matches Some(p) ==> forall|i: int|
            0 <= i < p.0.len() ==> (#[trigger] p.0[i]).wf(),
    decreases s.len(), 1int,
{
    if s.len() == 0 {
    } else if s[0] == 101 {
    } else {
        match bdec(s) {
            Some((v, r)) => {
                if r.len() < s.len() {
                    lemma_bdec_wf(s);
                    lemma_bdec_items_wf(r);
                    match bdec_items(r) {
                        Some((items, _)) => {
                            assert forall|i: int|
                                0 <= i < (seq![v] + items).len() implies (#[trigger] (seq![v]
                                + items)[i]).wf() by {
                                if i > 0 {
                                    assert(items[i - 1].wf());
                                }
                            }
                        },
                        None => {},
                    }
                }
            },
            None => {},
        }
    }
}

proof fn lemma_bdec_entries_wf(s: Seq<u8>, acc: Seq<(Seq<u8>, ValueModel)>)
    requires
        entries_sorted(acc),
        forall|i: int| 0 <= i < acc.len() ==> (#[trigger] acc[i]).1.wf(),
    ensures
        bdec_entries(s, acc) matches Some(p) ==> entries_sorted(p.0) && forall|i: int|
            0 <= i < p.0.len() ==> (#[trigger] p.0[i]).1.wf(),
    decreases s.len(), 1int,
{
    if s.len() == 0 {
    } else if s[0] == 101 {
    } else {
        match bdec(s) {
            Some((k, r)) => match k {
                ValueModel::Bytes(kb) => {
                    if r.len() < s.len() {
                        match bdec(r) {
                            Some((v, r2)) => {
                                if r2.len() < s.len() {
                                    lemma_bdec_wf(r);
                                    let acc2 = entries_insert(acc, kb, v);
                                    crate::value::lemma_entries_insert_sorted(acc, kb, v);
                                    crate::value::lemma_entries_insert_members(acc, kb, v);
                                    assert forall|i: int|
                                        0 <= i < acc2.len() implies (#[trigger] acc2[i]).1.wf() by {
                                        if acc2[i] == (kb, v) {
                                        } else {
                                            let j = choose|j: int|
                                                0 <= j < acc.len() && #[trigger] acc[j] == acc2[i];
                                            assert(acc[j].1.wf());
                                        }
                                    }
                                    lemma_bdec_entries_wf(r2, acc2);
                                }
                            },
                            None => {},
                        }
                    }
                },
                _ => {},
            },
            None => {},
        }
    }
}

/// The codec round trip: decoding the encoding of any well formed value
/// gives the value back, with nothing left over.
pub proof fn lemma_round_trip(v: ValueModel)
    requires
        v.wf(),
    ensures
        bdec(encoded(v)) == Some((v, Seq::<u8>::empty())),
{
    lemma_bdec_encoded(v, Seq::empty());
    assert(encoded(v) + Seq::<u8>::empty() =~= encoded(v));
}

/// Decodes the first bencoded value of `encoded_value` and hands back the
/// trailing bytes; exactly the inputs on which `bdec` reads a value
/// succeed, everything else is `MalformedEncoding`.
pub fn decode_bencoded_value(encoded_value: &[u8]) -> (r: Result<(Value, Vec<u8>), TorrentError>)
    ensures
        match r {
            Ok(p) => bdec(encoded_value@) == Some((p.0@, p.1@)) && p.0@.wf(),
            Err(e) => {
                &&& e == TorrentError::MalformedEncoding
                &&& bdec(encoded_value@) is None
            },
        },
{
    proof {
        assert(encoded_value@.skip(0) =~= encoded_value@);
        lemma_bdec_wf(encoded_value@);
    }
    match decode_at(encoded_value, 0) {
        Ok((v, end)) => {
            let rest = copy_slice_range(encoded_value, end, encoded_value.len());
            proof {
                assert(encoded_value@.subrange(end as int, encoded_value@.len() as int)
                    =~= encoded_value@.skip(end as int));
            }
            Ok((v, rest))
        },
        Err(e) => Err(e),
    }
}

} // verus!

