//! How a bencoded value is written, and that reading what was written
//! gives the value back.

use crate::bencode::{
    all_digits, decimal, decode_bytes, decode_entries, decode_int, decode_items, decode_value,
    digits_end, is_digit, lemma_digits_run, Bencode, COLON, DICT, END, INT, LIST, MINUS, ZERO,
};
use vstd::prelude::*;

verus! {

/// The decimal digits of `n`, without leading zeros.
pub open spec fn decimal_text(n: nat) -> Seq<u8>
    decreases n,
{
    if n < 10 {
        seq![(ZERO + n) as u8]
    } else {
        decimal_text(n / 10).push((ZERO + n % 10) as u8)
    }
}

/// How a byte string is written: the decimal digits of its length, a
/// colon, and its bytes.
pub open spec fn encode_bytes(bytes: Seq<u8>) -> Seq<u8> {
    decimal_text(bytes.len()) + seq![COLON] + bytes
}

/// How a value is written.
pub open spec fn encode(value: Bencode) -> Seq<u8>
    decreases value,
{
    match value {
        Bencode::Bytes(bytes) => encode_bytes(bytes),
        Bencode::Int(n) => if n < 0 {
            seq![INT, MINUS] + decimal_text((-n) as nat) + seq![END]
        } else {
            seq![INT] + decimal_text(n as nat) + seq![END]
        },
        Bencode::List(items) => seq![LIST] + encode_items(items) + seq![END],
        Bencode::Dict(entries) => seq![DICT] + encode_entries(entries) + seq![END],
    }
}

/// How the values of a list are written, one after the other.
pub open spec fn encode_items(items: Seq<Bencode>) -> Seq<u8>
    decreases items,
{
    if items.len() == 0 {
        Seq::empty()
    } else {
        encode(items[0]) + encode_items(items.drop_first())
    }
}

/// How the entries of a dictionary are written: each key as a byte string,
/// then its value.
pub open spec fn encode_entries(entries: Seq<(Seq<u8>, Bencode)>) -> Seq<u8>
    decreases entries,
{
    if entries.len() == 0 {
        Seq::empty()
    } else {
        encode_bytes(entries[0].0) + encode(entries[0].1) + encode_entries(entries.drop_first())
    }
}

/// Whether every integer in `value` fits in 64 bits.
pub open spec fn fits(value: Bencode) -> bool
    decreases value,
{
    match value {
        Bencode::Bytes(_) => true,
        Bencode::Int(n) => i64::MIN <= n <= i64::MAX,
        Bencode::List(items) => forall|k: int| 0 <= k < items.len() ==> fits(#[trigger] items[k]),
        Bencode::Dict(entries) => forall|k: int|
            0 <= k < entries.len() ==> fits((#[trigger] entries[k]).1),
    }
}

/// Whether `part` stands in `s` from `i` on.
pub open spec fn stands_at(s: Seq<u8>, i: int, part: Seq<u8>) -> bool {
    0 <= i && i + part.len() <= s.len() && s.subrange(i, i + part.len()) == part
}

/// Where two parts stand one after the other, each of them stands.
proof fn lemma_stands_split(s: Seq<u8>, i: int, a: Seq<u8>, b: Seq<u8>)
    requires
        stands_at(s, i, a + b),
    ensures
        stands_at(s, i, a),
        stands_at(s, i + a.len(), b),
{
    let whole = s.subrange(i, i + (a + b).len());
    assert forall|k: int| 0 <= k < a.len() implies s.subrange(i, i + a.len())[k] == a[k] by {
        assert(whole[k] == (a + b)[k]);
    }
    assert(s.subrange(i, i + a.len()) =~= a);
    assert forall|k: int| 0 <= k < b.len() implies s.subrange(i + a.len(), i + a.len() + b.len())[k]
        == b[k] by {
        assert(whole[a.len() + k] == (a + b)[a.len() + k]);
    }
    assert(s.subrange(i + a.len(), i + a.len() + b.len()) =~= b);
}

/// The digits of a number are digits, at least one, and denote the number.
proof fn lemma_decimal_text(n: nat)
    ensures
        decimal_text(n).len() >= 1,
        all_digits(decimal_text(n)),
        decimal(decimal_text(n)) == n,
    decreases n,
{
    let text = decimal_text(n);
    if n < 10 {
        assert(text.drop_last() =~= Seq::<u8>::empty());
        assert(decimal(text.drop_last()) == 0);
    } else {
        lemma_decimal_text(n / 10);
        assert(text.drop_last() =~= decimal_text(n / 10));
    }
}

/// Where the digits of `n` stand and `after` follows them, which is no
/// digit, the run of digits denotes `n` and ends before `after`.
proof fn lemma_number(s: Seq<u8>, i: int, n: nat, after: u8)
    requires
        stands_at(s, i, decimal_text(n) + seq![after]),
        !is_digit(after),
    ensures
        digits_end(s, i) == i + decimal_text(n).len(),
        i < digits_end(s, i) < s.len(),
        s[digits_end(s, i)] == after,
        is_digit(s[i]),
        decimal(s.subrange(i, digits_end(s, i))) == n,
{
    let text = decimal_text(n);
    lemma_decimal_text(n);
    lemma_stands_split(s, i, text, seq![after]);
    let end = i + text.len();
    assert(s.subrange(end, end + 1)[0] == after);
    assert(s.subrange(i, end)[0] == s[i]);
    lemma_digits_run(s, i, end);
}

/// Reading a byte string where it was written gives its bytes back.
proof fn lemma_decode_bytes(s: Seq<u8>, i: int, bytes: Seq<u8>)
    requires
        stands_at(s, i, encode_bytes(bytes)),
    ensures
        decode_bytes(s, i) == Some((bytes, i + encode_bytes(bytes).len())),
        is_digit(s[i]),
{
    let text = decimal_text(bytes.len());
    lemma_stands_split(s, i, text + seq![COLON], bytes);
    lemma_number(s, i, bytes.len(), COLON);
}

/// Reading an integer where it was written gives the integer back.
proof fn lemma_decode_int(s: Seq<u8>, i: int, n: int)
    requires
        i64::MIN <= n <= i64::MAX,
        stands_at(s, i, encode(Bencode::Int(n))),
    ensures
        decode_int(s, i) == Some((n, i + encode(Bencode::Int(n)).len())),
        s[i] == INT,
{
    if n < 0 {
        let text = decimal_text((-n) as nat);
        assert(seq![INT, MINUS] + text + seq![END] =~= seq![INT, MINUS] + (text + seq![END]));
        lemma_stands_split(s, i, seq![INT, MINUS], text + seq![END]);
        assert(s.subrange(i, i + 2)[0] == INT);
        assert(s.subrange(i, i + 2)[1] == MINUS);
        lemma_number(s, i + 2, (-n) as nat, END);
    } else {
        let text = decimal_text(n as nat);
        assert(seq![INT] + text + seq![END] =~= seq![INT] + (text + seq![END]));
        lemma_stands_split(s, i, seq![INT], text + seq![END]);
        assert(s.subrange(i, i + 1)[0] == INT);
        lemma_number(s, i + 1, n as nat, END);
    }
}

/// Reading a value where it was written gives the value back, and ends
/// where the writing ends.
pub proof fn lemma_decode_encode(s: Seq<u8>, i: int, value: Bencode)
    requires
        fits(value),
        stands_at(s, i, encode(value)),
    ensures
        decode_value(s, i) == Some((value, i + encode(value).len())),
        encode(value).len() > 0,
        s[i] != END,
    decreases value,
{
    match value {
        Bencode::Bytes(bytes) => {
            lemma_decode_bytes(s, i, bytes);
        },
        Bencode::Int(n) => {
            lemma_decode_int(s, i, n);
        },
        Bencode::List(items) => {
            let inner = encode_items(items);
            assert(seq![LIST] + inner + seq![END] =~= seq![LIST] + (inner + seq![END]));
            lemma_stands_split(s, i, seq![LIST], inner + seq![END]);
            assert(s.subrange(i, i + 1)[0] == LIST);
            lemma_decode_items(s, i + 1, items);
        },
        Bencode::Dict(entries) => {
            let inner = encode_entries(entries);
            assert(seq![DICT] + inner + seq![END] =~= seq![DICT] + (inner + seq![END]));
            lemma_stands_split(s, i, seq![DICT], inner + seq![END]);
            assert(s.subrange(i, i + 1)[0] == DICT);
            lemma_decode_entries(s, i + 1, entries);
        },
    }
}

/// Reading the values of a list where they were written, before the
/// closing `e`, gives them back.
proof fn lemma_decode_items(s: Seq<u8>, i: int, items: Seq<Bencode>)
    requires
        forall|k: int| 0 <= k < items.len() ==> fits(#[trigger] items[k]),
        stands_at(s, i, encode_items(items) + seq![END]),
    ensures
        decode_items(s, i) == Some((items, i + encode_items(items).len() + 1)),
    decreases items,
{
    if items.len() == 0 {
        assert(s.subrange(i, i + 1)[0] == END);
        assert(items =~= Seq::<Bencode>::empty());
    } else {
        let first = encode(items[0]);
        let rest = items.drop_first();
        let tail = encode_items(rest) + seq![END];
        assert(encode_items(items) + seq![END] =~= first + tail);
        lemma_stands_split(s, i, first, tail);
        lemma_decode_encode(s, i, items[0]);
        assert forall|k: int| 0 <= k < rest.len() implies fits(#[trigger] rest[k]) by {
            assert(rest[k] == items[k + 1]);
        }
        lemma_decode_items(s, i + first.len(), rest);
        assert(seq![items[0]] + rest =~= items);
    }
}

/// Reading the entries of a dictionary where they were written, before
/// the closing `e`, gives them back.
proof fn lemma_decode_entries(s: Seq<u8>, i: int, entries: Seq<(Seq<u8>, Bencode)>)
    requires
        forall|k: int| 0 <= k < entries.len() ==> fits((#[trigger] entries[k]).1),
        stands_at(s, i, encode_entries(entries) + seq![END]),
    ensures
        decode_entries(s, i) == Some((entries, i + encode_entries(entries).len() + 1)),
    decreases entries,
{
    if entries.len() == 0 {
        assert(s.subrange(i, i + 1)[0] == END);
        assert(entries =~= Seq::<(Seq<u8>, Bencode)>::empty());
    } else {
        let key = encode_bytes(entries[0].0);
        let value = encode(entries[0].1);
        let rest = entries.drop_first();
        let tail = encode_entries(rest) + seq![END];
        assert(encode_entries(entries) + seq![END] =~= key + (value + tail));
        lemma_stands_split(s, i, key, value + tail);
        lemma_stands_split(s, i + key.len(), value, tail);
        lemma_decode_bytes(s, i, entries[0].0);
        lemma_decode_encode(s, i + key.len(), entries[0].1);
        assert forall|k: int| 0 <= k < rest.len() implies fits((#[trigger] rest[k]).1) by {
            assert(rest[k] == entries[k + 1]);
        }
        lemma_decode_entries(s, i + key.len() + value.len(), rest);
        assert(seq![entries[0]] + rest =~= entries);
    }
}

} // verus!
