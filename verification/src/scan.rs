//! Stepping through bencoded bytes without building the values: where a
//! value ends, and where in a dictionary the value of a key starts.

use crate::bencode::{
    all_digits, decimal, decode_bytes, decode_entries, decode_int, decode_value, digits_end,
    entries_end, is_digit, items_end, lemma_decimal_grows, lemma_digits_end, lemma_value_bounds,
    value_end, values_of, Bencode, COLON, DICT, END, INT, LIST, MINUS, NINE, PLUS, ZERO,
};
use crate::text::bytes_eq;
use vstd::prelude::*;

verus! {

fn is_digit_byte(b: u8) -> (r: bool)
    ensures
        r == is_digit(b),
{
    ZERO <= b && b <= NINE
}

/// Steps over the run of digits that starts at `i`.
fn skip_digits(s: &[u8], i: usize) -> (end: usize)
    requires
        i <= s.len(),
    ensures
        end == digits_end(s@, i as int),
        i <= end <= s.len(),
{
    let mut end = i;
    while end < s.len() && is_digit_byte(s[end])
        invariant
            i <= end <= s.len(),
            digits_end(s@, i as int) == digits_end(s@, end as int),
        decreases s.len() - end,
    {
        end += 1;
    }
    end
}

/// The number that the digits from `from` up to `to` denote, unless it is
/// more than `limit`.
fn read_decimal(s: &[u8], from: usize, to: usize, limit: u64) -> (r: Option<u64>)
    requires
        from <= to <= s.len(),
        all_digits(s@.subrange(from as int, to as int)),
    ensures
        match r {
            Some(n) => n == decimal(s@.subrange(from as int, to as int)) && n <= limit,
            None => decimal(s@.subrange(from as int, to as int)) > limit,
        },
{
    let ghost digits = s@.subrange(from as int, to as int);
    let mut n: u64 = 0;
    let mut k = from;
    assert(digits.take(0) =~= Seq::<u8>::empty());
    while k < to
        invariant
            from <= k <= to <= s.len(),
            digits == s@.subrange(from as int, to as int),
            all_digits(digits),
            n == decimal(digits.take(k - from)),
            n <= limit,
        decreases to - k,
    {
        assert(is_digit(digits[k - from]));
        let digit = (s[k] - ZERO) as u64;
        proof {
            let next = digits.take(k - from + 1);
            assert(next.drop_last() =~= digits.take(k - from));
            assert(next.last() == s@[k as int]);
            lemma_decimal_grows(digits, k - from + 1);
        }
        if digit > limit || n > (limit - digit) / 10 {
            return None;
        }
        n = n * 10 + digit;
        k += 1;
    }
    assert(digits.take(to - from) =~= digits);
    Some(n)
}

/// Steps over the byte string that starts at `i`, and says where its bytes
/// begin and end.
pub fn skip_bytes(s: &[u8], i: usize) -> (r: Option<(usize, usize)>)
    ensures
        match decode_bytes(s@, i as int) {
            Some((bytes, end)) => r matches Some((first, last)) && last == end && first <= last
                <= s.len() && i < first && bytes == s@.subrange(first as int, last as int),
            None => r is None,
        },
{
    if i >= s.len() {
        return None;
    }
    let colon = skip_digits(s, i);
    if colon == i || colon >= s.len() || s[colon] != COLON {
        return None;
    }
    proof {
        lemma_digits_end(s@, i as int);
    }
    let first = colon + 1;
    match read_decimal(s, i, colon, (s.len() - first) as u64) {
        Some(n) => Some((first, first + n as usize)),
        None => None,
    }
}

/// Steps over the integer that starts at `i`.
fn skip_int(s: &[u8], i: usize) -> (r: Option<usize>)
    requires
        i < s.len(),
        s[i as int] == INT,
    ensures
        match decode_int(s@, i as int) {
            Some((_, end)) => r == Some(end as usize) && i < end <= s.len(),
            None => r is None,
        },
{
    let negative = i + 1 < s.len() && s[i + 1] == MINUS;
    let signed = negative || (i + 1 < s.len() && s[i + 1] == PLUS);
    let first = if signed { i + 2 } else { i + 1 };
    let last = skip_digits(s, first);
    if last == first || last >= s.len() || s[last] != END {
        return None;
    }
    proof {
        lemma_digits_end(s@, first as int);
    }
    let limit: u64 = if negative { 0x8000_0000_0000_0000 } else { 0x7fff_ffff_ffff_ffff };
    match read_decimal(s, first, last, limit) {
        Some(_) => Some(last + 1),
        None => None,
    }
}

/// Where the outermost of the lists and dictionaries in `open` ends, if
/// reading goes on at `i` inside the innermost of them, which is the last.
/// A dictionary is marked `true`, a list `false`.
spec fn open_end(s: Seq<u8>, i: int, open: Seq<bool>) -> Option<int>
    decreases open.len(),
{
    if open.len() == 0 {
        Some(i)
    } else {
        let innermost = if open.last() {
            entries_end(s, i)
        } else {
            items_end(s, i)
        };
        match innermost {
            Some(end) => open_end(s, end, open.drop_last()),
            None => None,
        }
    }
}

/// The innermost open list or dictionary ends first, then those around it.
proof fn lemma_open_end(s: Seq<u8>, i: int, open: Seq<bool>)
    requires
        open.len() > 0,
    ensures
        open_end(s, i, open) == match (if open.last() {
            entries_end(s, i)
        } else {
            items_end(s, i)
        }) {
            Some(end) => open_end(s, end, open.drop_last()),
            None => None,
        },
{
}

/// A list that does not end at `i` has a value there, and goes on after it.
proof fn lemma_items_end(s: Seq<u8>, i: int)
    requires
        0 <= i < s.len(),
        s[i] != END,
    ensures
        items_end(s, i) == match value_end(s, i) {
            Some(next) => items_end(s, next),
            None => None,
        },
{
    lemma_value_bounds(s, i);
}

/// A dictionary that does not end at `i` has a key there and a value after
/// it, and goes on after the value.
proof fn lemma_entries_end(s: Seq<u8>, i: int)
    requires
        0 <= i < s.len(),
        s[i] != END,
    ensures
        entries_end(s, i) == match decode_bytes(s, i) {
            Some((_, at)) => match value_end(s, at) {
                Some(next) => entries_end(s, next),
                None => None,
            },
            None => None,
        },
{
    if let Some((_, at)) = decode_bytes(s, i) {
        lemma_digits_end(s, i);
        lemma_value_bounds(s, at);
    }
}

/// Steps over the value that starts at `i`, however deep its lists and
/// dictionaries go.
pub fn skip_value(s: &[u8], i: usize) -> (r: Option<usize>)
    ensures
        match decode_value(s@, i as int) {
            Some((_, end)) => r == Some(end as usize) && i < end <= s.len(),
            None => r is None,
        },
{
    if i >= s.len() {
        return None;
    }
    proof {
        lemma_value_bounds(s@, i as int);
    }
    let mut open: Vec<bool> = Vec::new();
    if s[i] == INT {
        return skip_int(s, i);
    } else if s[i] == LIST {
        open.push(false);
    } else if s[i] == DICT {
        open.push(true);
    } else {
        return match skip_bytes(s, i) {
            Some((_, end)) => Some(end),
            None => None,
        };
    }
    let mut at = i + 1;
    proof {
        lemma_open_end(s@, at as int, open@);
        assert(open@.drop_last() =~= Seq::<bool>::empty());
    }
    loop
        invariant
            i < at <= s.len(),
            open.len() > 0,
            value_end(s@, i as int) == open_end(s@, at as int, open@),
            value_end(s@, i as int) matches Some(end) ==> i < end <= s.len(),
        decreases s.len() - at,
    {
        let ghost outer = open@.drop_last();
        proof {
            lemma_open_end(s@, at as int, open@);
        }
        if at >= s.len() {
            return None;
        }
        let in_dictionary = open[open.len() - 1];
        if s[at] == END {
            open.pop();
            at += 1;
            assert(open@ =~= outer);
            if open.len() == 0 {
                return Some(at);
            }
            continue;
        }
        proof {
            lemma_items_end(s@, at as int);
            lemma_entries_end(s@, at as int);
        }
        let value_at = if in_dictionary {
            match skip_bytes(s, at) {
                Some((_, end)) => end,
                None => {
                    return None;
                },
            }
        } else {
            at
        };
        if value_at >= s.len() {
            return None;
        }
        proof {
            lemma_value_bounds(s@, value_at as int);
        }
        if s[value_at] == LIST || s[value_at] == DICT {
            let ghost before = open@;
            open.push(s[value_at] == DICT);
            proof {
                assert(open@.drop_last() =~= before);
                lemma_open_end(s@, value_at + 1, open@);
                if let Some(end) = value_end(s@, value_at as int) {
                    lemma_open_end(s@, end, before);
                }
            }
            at = value_at + 1;
        } else {
            let next = if s[value_at] == INT {
                skip_int(s, value_at)
            } else {
                match skip_bytes(s, value_at) {
                    Some((_, end)) => Some(end),
                    None => None,
                }
            };
            match next {
                Some(next) => {
                    proof {
                        lemma_open_end(s@, next as int, open@);
                    }
                    at = next;
                },
                None => {
                    return None;
                },
            }
        }
    }
}

/// What looking for a key among the entries of a dictionary comes to.
#[derive(Debug, Clone, Copy, PartialEq, Eq, Structural)]
pub enum Lookup {
    /// No entry has the key.
    Missing,
    /// More than one entry has the key.
    Repeated,
    /// One entry has the key, and its value starts at this place.
    At(usize),
}

impl Lookup {
    /// Whether this is what looking among entries that hold `values` under
    /// the key comes to, in the bytes `s`.
    pub open spec fn agrees(self, values: Seq<Bencode>, s: Seq<u8>) -> bool {
        match self {
            Lookup::Missing => values.len() == 0,
            Lookup::Repeated => values.len() > 1,
            Lookup::At(at) => values.len() == 1 && (decode_value(s, at as int) matches Some(
                (value, _),
            ) && value == values[0]),
        }
    }
}

/// Looks for `key` among the entries of a dictionary from `i` on, and says
/// where the dictionary ends.
pub fn find_entry(s: &[u8], i: usize, key: &[u8]) -> (r: Option<(Lookup, usize)>)
    ensures
        match decode_entries(s@, i as int) {
            Some((entries, end)) => r matches Some((found, last)) && last == end && i < end
                <= s.len() && found.agrees(values_of(entries, key@), s@),
            None => r is None,
        },
{
    if i >= s.len() {
        return None;
    }
    let mut at = i;
    let mut found = Lookup::Missing;
    let ghost mut done: Seq<(Seq<u8>, Bencode)> = Seq::empty();
    proof {
        assert(decode_entries(s@, i as int) matches Some((rest, _)) ==> done + rest =~= rest);
        reveal(Seq::filter);
    }
    loop
        invariant
            i <= at <= s.len(),
            decode_entries(s@, i as int) == match decode_entries(s@, at as int) {
                Some((rest, end)) => Some((done + rest, end)),
                None => None,
            },
            found.agrees(values_of(done, key@), s@),
        decreases s.len() - at,
    {
        if at >= s.len() {
            return None;
        }
        if s[at] == END {
            assert(done + Seq::<(Seq<u8>, Bencode)>::empty() =~= done);
            return Some((found, at + 1));
        }
        let (first, value_at) = match skip_bytes(s, at) {
            None => {
                return None;
            },
            Some(range) => range,
        };
        match skip_value(s, value_at) {
            None => {
                return None;
            },
            Some(next) => {
                let same = bytes_eq(&s[first..value_at], key);
                proof {
                    let (name, _) = decode_bytes(s@, at as int).unwrap();
                    let (value, _) = decode_value(s@, value_at as int).unwrap();
                    let entry = (name, value);
                    if let Some((rest, _)) = decode_entries(s@, next as int) {
                        assert(done + (seq![entry] + rest) =~= done.push(entry) + rest);
                    }
                    let has_key = |e: (Seq<u8>, Bencode)| e.0 == key@;
                    done.lemma_filter_push(entry, has_key);
                    done.filter(has_key).lemma_push_map_commute(
                        |e: (Seq<u8>, Bencode)| e.1,
                        entry,
                    );
                    done = done.push(entry);
                }
                if same {
                    found = match found {
                        Lookup::Missing => Lookup::At(value_at),
                        _ => Lookup::Repeated,
                    };
                }
                at = next;
            },
        }
    }
}

} // verus!
