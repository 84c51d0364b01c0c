//! The encoding of descriptor files: what a bencoded value is and how one
//! is read out of bytes.
//!
//! A value is an integer (`i42e`), a byte string (`4:spam`), a list
//! (`l...e`) or a dictionary (`d...e`) whose keys are byte strings. Reading
//! is lenient where writers differ: an integer may carry a `+` and leading
//! zeros, a length may carry leading zeros, and the keys of a dictionary
//! may come in any order.

use vstd::prelude::*;

verus! {

/// A bencoded value.
pub enum Bencode {
    /// A byte string.
    Bytes(Seq<u8>),
    /// An integer.
    Int(int),
    /// A list of values.
    List(Seq<Bencode>),
    /// A dictionary: its entries in the order in which they are written.
    Dict(Seq<(Seq<u8>, Bencode)>),
}

/// The digit `0`.
pub const ZERO: u8 = 48;

/// The digit `9`.
pub const NINE: u8 = 57;

/// The colon between a byte string's length and its bytes.
pub const COLON: u8 = 58;

/// The sign `-`.
pub const MINUS: u8 = 45;

/// The sign `+`.
pub const PLUS: u8 = 43;

/// The letter `i`, which opens an integer.
pub const INT: u8 = 105;

/// The letter `l`, which opens a list.
pub const LIST: u8 = 108;

/// The letter `d`, which opens a dictionary.
pub const DICT: u8 = 100;

/// The letter `e`, which closes an integer, a list or a dictionary.
pub const END: u8 = 101;

/// Whether `b` is a decimal digit.
pub open spec fn is_digit(b: u8) -> bool {
    ZERO <= b <= NINE
}

/// The number that a run of decimal digits denotes.
pub open spec fn decimal(digits: Seq<u8>) -> nat
    decreases digits.len(),
{
    if digits.len() == 0 {
        0
    } else {
        decimal(digits.drop_last()) * 10 + (digits.last() - ZERO) as nat
    }
}

/// Where the run of decimal digits that starts at `i` ends.
pub open spec fn digits_end(s: Seq<u8>, i: int) -> int
    decreases s.len() - i,
{
    if 0 <= i < s.len() && is_digit(s[i]) {
        digits_end(s, i + 1)
    } else {
        i
    }
}

/// Reads the byte string that starts at `i`: a run of digits, a colon, and
/// as many bytes as the digits say.
pub open spec fn decode_bytes(s: Seq<u8>, i: int) -> Option<(Seq<u8>, int)> {
    let colon = digits_end(s, i);
    let first = colon + 1;
    let end = first + decimal(s.subrange(i, colon));
    if 0 <= i < colon < s.len() && s[colon] == COLON && end <= s.len() {
        Some((s.subrange(first, end), end))
    } else {
        None
    }
}

/// Reads the integer that starts at `i`: the letter `i`, an optional sign,
/// a run of digits and the letter `e`. The number has to fit in 64 bits.
pub open spec fn decode_int(s: Seq<u8>, i: int) -> Option<(int, int)> {
    let signed = i + 1 < s.len() && (s[i + 1] == MINUS || s[i + 1] == PLUS);
    let first = if signed { i + 2 } else { i + 1 };
    let last = digits_end(s, first);
    let size = decimal(s.subrange(first, last)) as int;
    let number = if signed && s[i + 1] == MINUS { -size } else { size };
    if 0 <= i < s.len() && s[i] == INT && first < last < s.len() && s[last] == END
        && i64::MIN <= number <= i64::MAX {
        Some((number, last + 1))
    } else {
        None
    }
}

/// Reads the value that starts at `i`, and says where it ends.
pub open spec fn decode_value(s: Seq<u8>, i: int) -> Option<(Bencode, int)>
    decreases s.len() - i, 0nat,
{
    if i < 0 || i >= s.len() {
        None
    } else if s[i] == INT {
        match decode_int(s, i) {
            Some((n, end)) => Some((Bencode::Int(n), end)),
            None => None,
        }
    } else if s[i] == LIST {
        match decode_items(s, i + 1) {
            Some((items, end)) => Some((Bencode::List(items), end)),
            None => None,
        }
    } else if s[i] == DICT {
        match decode_entries(s, i + 1) {
            Some((entries, end)) => Some((Bencode::Dict(entries), end)),
            None => None,
        }
    } else {
        match decode_bytes(s, i) {
            Some((bytes, end)) => Some((Bencode::Bytes(bytes), end)),
            None => None,
        }
    }
}

/// Reads values from `i` up to the closing `e` of a list.
pub open spec fn decode_items(s: Seq<u8>, i: int) -> Option<(Seq<Bencode>, int)>
    decreases s.len() - i, 1nat,
{
    if i < 0 || i >= s.len() {
        None
    } else if s[i] == END {
        Some((Seq::empty(), i + 1))
    } else {
        match decode_value(s, i) {
            Some((item, next)) => if i < next <= s.len() {
                match decode_items(s, next) {
                    Some((rest, end)) => Some((seq![item] + rest, end)),
                    None => None,
                }
            } else {
                None
            },
            None => None,
        }
    }
}

/// Reads entries, each a byte string and a value, from `i` up to the
/// closing `e` of a dictionary.
pub open spec fn decode_entries(s: Seq<u8>, i: int) -> Option<(Seq<(Seq<u8>, Bencode)>, int)>
    decreases s.len() - i, 1nat,
{
    if i < 0 || i >= s.len() {
        None
    } else if s[i] == END {
        Some((Seq::empty(), i + 1))
    } else {
        match decode_bytes(s, i) {
            Some((key, at)) => match decode_value(s, at) {
                Some((value, next)) => if i < next <= s.len() {
                    match decode_entries(s, next) {
                        Some((rest, end)) => Some((seq![(key, value)] + rest, end)),
                        None => None,
                    }
                } else {
                    None
                },
                None => None,
            },
            None => None,
        }
    }
}

/// Whether all of `s` is decimal digits.
pub open spec fn all_digits(s: Seq<u8>) -> bool {
    forall|k: int| 0 <= k < s.len() ==> is_digit(#[trigger] s[k])
}

/// From `i` up to where its run of digits ends, there are digits only.
pub proof fn lemma_digits_end(s: Seq<u8>, i: int)
    requires
        0 <= i <= s.len(),
    ensures
        i <= digits_end(s, i) <= s.len(),
        all_digits(s.subrange(i, digits_end(s, i))),
        digits_end(s, i) < s.len() ==> !is_digit(s[digits_end(s, i)]),
    decreases s.len() - i,
{
    if i < s.len() && is_digit(s[i]) {
        lemma_digits_end(s, i + 1);
        let end = digits_end(s, i);
        assert forall|k: int| 0 <= k < end - i implies is_digit(#[trigger] s.subrange(i, end)[k]) by {
            if k > 0 {
                assert(s.subrange(i, end)[k] == s.subrange(i + 1, end)[k - 1]);
            }
        }
    }
}

/// A run of digits that something else follows ends there.
pub proof fn lemma_digits_run(s: Seq<u8>, i: int, j: int)
    requires
        0 <= i <= j <= s.len(),
        all_digits(s.subrange(i, j)),
        j < s.len() ==> !is_digit(s[j]),
    ensures
        digits_end(s, i) == j,
    decreases j - i,
{
    if i < j {
        assert(s.subrange(i, j)[0] == s[i]);
        assert forall|k: int| 0 <= k < j - i - 1 implies is_digit(
            #[trigger] s.subrange(i + 1, j)[k],
        ) by {
            assert(s.subrange(i + 1, j)[k] == s.subrange(i, j)[k + 1]);
        }
        lemma_digits_run(s, i + 1, j);
    }
}

/// A run of digits denotes at least what any of its beginnings denotes.
pub proof fn lemma_decimal_grows(digits: Seq<u8>, k: int)
    requires
        0 <= k <= digits.len(),
    ensures
        decimal(digits.take(k)) <= decimal(digits),
    decreases digits.len(),
{
    if k < digits.len() {
        lemma_decimal_grows(digits.drop_last(), k);
        assert(digits.drop_last().take(k) == digits.take(k));
    } else {
        assert(digits.take(k) == digits);
    }
}

/// The values that `entries` hold under `key`, in the order in which they
/// are written.
pub open spec fn values_of(entries: Seq<(Seq<u8>, Bencode)>, key: Seq<u8>) -> Seq<Bencode> {
    entries.filter(|e: (Seq<u8>, Bencode)| e.0 == key).map_values(|e: (Seq<u8>, Bencode)| e.1)
}

/// Where the value that starts at `i` ends.
pub open spec fn value_end(s: Seq<u8>, i: int) -> Option<int> {
    match decode_value(s, i) {
        Some((_, end)) => Some(end),
        None => None,
    }
}

/// Where the list ends whose values are read from `i` on.
pub open spec fn items_end(s: Seq<u8>, i: int) -> Option<int> {
    match decode_items(s, i) {
        Some((_, end)) => Some(end),
        None => None,
    }
}

/// Where the dictionary ends whose entries are read from `i` on.
pub open spec fn entries_end(s: Seq<u8>, i: int) -> Option<int> {
    match decode_entries(s, i) {
        Some((_, end)) => Some(end),
        None => None,
    }
}

/// A value ends after it starts, and within the bytes.
pub proof fn lemma_value_bounds(s: Seq<u8>, i: int)
    ensures
        decode_value(s, i) matches Some((_, end)) ==> i < end <= s.len(),
    decreases s.len() - i, 0nat,
{
    if 0 <= i < s.len() {
        if s[i] == INT {
            let first = if i + 1 < s.len() && (s[i + 1] == MINUS || s[i + 1] == PLUS) {
                i + 2
            } else {
                i + 1
            };
            if first <= s.len() {
                lemma_digits_end(s, first);
            }
        } else if s[i] == LIST {
            lemma_items_bounds(s, i + 1);
        } else if s[i] == DICT {
            lemma_entries_bounds(s, i + 1);
        } else {
            lemma_digits_end(s, i);
        }
    }
}

/// A list ends after the place from which its values are read, and within
/// the bytes.
pub proof fn lemma_items_bounds(s: Seq<u8>, i: int)
    ensures
        decode_items(s, i) matches Some((_, end)) ==> i < end <= s.len(),
    decreases s.len() - i, 1nat,
{
    if 0 <= i < s.len() && s[i] != END {
        if let Some((_, next)) = decode_value(s, i) {
            if i < next <= s.len() {
                lemma_items_bounds(s, next);
            }
        }
    }
}

/// A dictionary ends after the place from which its entries are read, and
/// within the bytes.
pub proof fn lemma_entries_bounds(s: Seq<u8>, i: int)
    ensures
        decode_entries(s, i) matches Some((_, end)) ==> i < end <= s.len(),
    decreases s.len() - i, 1nat,
{
    if 0 <= i < s.len() && s[i] != END {
        if let Some((_, at)) = decode_bytes(s, i) {
            if let Some((_, next)) = decode_value(s, at) {
                if i < next <= s.len() {
                    lemma_entries_bounds(s, next);
                }
            }
        }
    }
}

} // verus!
