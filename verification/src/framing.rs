//! Where a value ends: a value is read from its own bytes alone, and no
//! beginning of a value is a value.

use crate::bencode::{
    decode_bytes, decode_entries, decode_int, decode_items, decode_value, digits_end,
    lemma_digits_end, lemma_digits_run, lemma_entries_bounds, lemma_items_bounds,
    lemma_value_bounds, DICT, END, INT, LIST, MINUS, PLUS,
};
use vstd::prelude::*;

verus! {

/// Whether `s` and `t` hold the same bytes from `from` up to `to`.
pub open spec fn agree(s: Seq<u8>, t: Seq<u8>, from: int, to: int) -> bool {
    to <= s.len() && to <= t.len() && forall|k: int| from <= k < to ==> s[k] == t[k]
}

/// A run of digits and the byte that ends it are found again wherever the
/// same bytes stand.
proof fn lemma_digits_agree(s: Seq<u8>, t: Seq<u8>, i: int)
    requires
        0 <= i,
        digits_end(s, i) < s.len(),
        agree(s, t, i, digits_end(s, i) + 1),
    ensures
        digits_end(t, i) == digits_end(s, i),
{
    let end = digits_end(s, i);
    lemma_digits_end(s, i);
    assert(t.subrange(i, end) =~= s.subrange(i, end));
    lemma_digits_run(t, i, end);
}

/// A run of digits that is cut short goes on to the cut.
proof fn lemma_digits_cut(s: Seq<u8>, i: int, n: int)
    requires
        0 <= i <= n <= digits_end(s, i),
        i <= s.len(),
    ensures
        digits_end(s.take(n), i) == n,
{
    let end = digits_end(s, i);
    lemma_digits_end(s, i);
    assert forall|k: int| 0 <= k < n - i implies crate::bencode::is_digit(
        #[trigger] s.take(n).subrange(i, n)[k],
    ) by {
        assert(s.take(n).subrange(i, n)[k] == s.subrange(i, end)[k]);
    }
    lemma_digits_run(s.take(n), i, n);
}

/// A byte string is read from its own bytes alone.
proof fn lemma_bytes_agree(s: Seq<u8>, t: Seq<u8>, i: int)
    requires
        decode_bytes(s, i) matches Some((_, end)) && agree(s, t, i, end),
    ensures
        decode_bytes(t, i) == decode_bytes(s, i),
{
    let colon = digits_end(s, i);
    let (_, end) = decode_bytes(s, i).unwrap();
    lemma_digits_agree(s, t, i);
    assert(t.subrange(i, colon) =~= s.subrange(i, colon));
    assert(t.subrange(colon + 1, end) =~= s.subrange(colon + 1, end));
}

/// An integer is read from its own bytes alone.
proof fn lemma_int_agree(s: Seq<u8>, t: Seq<u8>, i: int)
    requires
        decode_int(s, i) matches Some((_, end)) && agree(s, t, i, end),
    ensures
        decode_int(t, i) == decode_int(s, i),
{
    let first = if i + 1 < s.len() && (s[i + 1] == MINUS || s[i + 1] == PLUS) {
        i + 2
    } else {
        i + 1
    };
    let last = digits_end(s, first);
    lemma_digits_agree(s, t, first);
    assert(t.subrange(first, last) =~= s.subrange(first, last));
}

/// A value is read from its own bytes alone: wherever the same bytes stand
/// at the same place, whatever comes before and after them, the same value
/// is read.
pub proof fn lemma_value_agree(s: Seq<u8>, t: Seq<u8>, i: int)
    requires
        decode_value(s, i) matches Some((_, end)) && agree(s, t, i, end),
    ensures
        decode_value(t, i) == decode_value(s, i),
    decreases s.len() - i, 0nat,
{
    lemma_value_bounds(s, i);
    if s[i] == INT {
        lemma_int_agree(s, t, i);
    } else if s[i] == LIST {
        lemma_items_agree(s, t, i + 1);
    } else if s[i] == DICT {
        lemma_entries_agree(s, t, i + 1);
    } else {
        lemma_bytes_agree(s, t, i);
    }
}

/// The values of a list are read from the list's own bytes alone.
proof fn lemma_items_agree(s: Seq<u8>, t: Seq<u8>, i: int)
    requires
        decode_items(s, i) matches Some((_, end)) && agree(s, t, i, end),
    ensures
        decode_items(t, i) == decode_items(s, i),
    decreases s.len() - i, 1nat,
{
    lemma_items_bounds(s, i);
    if s[i] != END {
        let (_, next) = decode_value(s, i).unwrap();
        lemma_items_bounds(s, next);
        lemma_value_agree(s, t, i);
        lemma_items_agree(s, t, next);
    }
}

/// The entries of a dictionary are read from the dictionary's own bytes
/// alone.
proof fn lemma_entries_agree(s: Seq<u8>, t: Seq<u8>, i: int)
    requires
        decode_entries(s, i) matches Some((_, end)) && agree(s, t, i, end),
    ensures
        decode_entries(t, i) == decode_entries(s, i),
    decreases s.len() - i, 1nat,
{
    lemma_entries_bounds(s, i);
    if s[i] != END {
        let (_, at) = decode_bytes(s, i).unwrap();
        let (_, next) = decode_value(s, at).unwrap();
        lemma_value_bounds(s, at);
        lemma_entries_bounds(s, next);
        lemma_bytes_agree(s, t, i);
        lemma_value_agree(s, t, at);
        lemma_entries_agree(s, t, next);
    }
}

/// A byte string that is cut short is none.
proof fn lemma_bytes_cut(s: Seq<u8>, i: int, n: int)
    requires
        decode_bytes(s, i) matches Some((_, end)) && 0 <= n < end,
    ensures
        decode_bytes(s.take(n), i) is None,
{
    let colon = digits_end(s, i);
    let t = s.take(n);
    if n <= i {
        assert(digits_end(t, i) == i);
    } else if n <= colon {
        lemma_digits_cut(s, i, n);
    } else {
        lemma_digits_agree(s, t, i);
        assert(t.subrange(i, colon) =~= s.subrange(i, colon));
    }
}

/// An integer that is cut short is none.
proof fn lemma_int_cut(s: Seq<u8>, i: int, n: int)
    requires
        decode_int(s, i) matches Some((_, end)) && 0 <= n < end,
    ensures
        decode_int(s.take(n), i) is None,
{
    let first = if i + 1 < s.len() && (s[i + 1] == MINUS || s[i + 1] == PLUS) {
        i + 2
    } else {
        i + 1
    };
    let t = s.take(n);
    if n <= i {
    } else if n < first {
        assert(digits_end(t, i + 1) == i + 1);
    } else {
        lemma_digits_cut(s, first, n);
    }
}

/// No beginning of a value is a value: bytes that are cut short before the
/// end of the value at `i` hold no value there.
pub proof fn lemma_value_cut(s: Seq<u8>, i: int, n: int)
    requires
        decode_value(s, i) matches Some((_, end)) && 0 <= n < end,
    ensures
        decode_value(s.take(n), i) is None,
    decreases s.len() - i, 0nat,
{
    lemma_value_bounds(s, i);
    if n > i {
        if s[i] == INT {
            lemma_int_cut(s, i, n);
        } else if s[i] == LIST {
            lemma_items_cut(s, i + 1, n);
        } else if s[i] == DICT {
            lemma_entries_cut(s, i + 1, n);
        } else {
            lemma_bytes_cut(s, i, n);
        }
    }
}

/// A list that is cut short before its end is none.
proof fn lemma_items_cut(s: Seq<u8>, i: int, n: int)
    requires
        decode_items(s, i) matches Some((_, end)) && 0 <= n < end,
    ensures
        decode_items(s.take(n), i) is None,
    decreases s.len() - i, 1nat,
{
    lemma_items_bounds(s, i);
    if n > i && s[i] != END {
        let (_, next) = decode_value(s, i).unwrap();
        lemma_items_bounds(s, next);
        if n < next {
            lemma_value_cut(s, i, n);
        } else {
            lemma_value_agree(s, s.take(n), i);
            lemma_items_cut(s, next, n);
        }
    }
}

/// A dictionary that is cut short before its end is none.
proof fn lemma_entries_cut(s: Seq<u8>, i: int, n: int)
    requires
        decode_entries(s, i) matches Some((_, end)) && 0 <= n < end,
    ensures
        decode_entries(s.take(n), i) is None,
    decreases s.len() - i, 1nat,
{
    lemma_entries_bounds(s, i);
    if n > i && s[i] != END {
        let (_, at) = decode_bytes(s, i).unwrap();
        let (_, next) = decode_value(s, at).unwrap();
        lemma_value_bounds(s, at);
        lemma_entries_bounds(s, next);
        if n < at {
            lemma_bytes_cut(s, i, n);
        } else {
            lemma_bytes_agree(s, s.take(n), i);
            if n < next {
                lemma_value_cut(s, at, n);
            } else {
                lemma_value_agree(s, s.take(n), at);
                lemma_entries_cut(s, next, n);
            }
        }
    }
}

} // verus!
