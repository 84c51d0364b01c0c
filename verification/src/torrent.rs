//! Descriptor files: a bencoded dictionary whose entry `info` is a
//! dictionary that holds the content's name under `name`.

use crate::bencode::{decode_value, lemma_value_bounds, values_of, Bencode, DICT};
use crate::encoding::{encode, fits, lemma_decode_encode};
use crate::framing::{lemma_value_agree, lemma_value_cut};
use crate::scan::{find_entry, skip_bytes, skip_value, Lookup};
use crate::text::{as_text, spec_text};
use vstd::prelude::*;
use vstd::string::StringExecFns;
use vstd::utf8::{encode_utf8, encode_utf8_decode_utf8, encode_utf8_valid_utf8};

verus! {

/// The key `info`, under which a descriptor holds what it says of its
/// content.
pub const INFO: [u8; 4] = [105, 110, 102, 111];

/// The key `name`, under which `info` holds the content's name.
pub const NAME: [u8; 4] = [110, 97, 109, 101];

/// An entry that a descriptor has to hold.
#[derive(Debug, Clone, Copy, PartialEq, Eq, Structural)]
pub enum Field {
    /// The entry `info` of the descriptor.
    Info,
    /// The entry `name` of `info`.
    Name,
}

/// Why a descriptor gives no content name.
#[derive(Debug, Clone, Copy, PartialEq, Eq, Structural)]
pub enum DecodeError {
    /// The bytes do not begin with a whole bencoded value.
    Malformed,
    /// The value is not a dictionary.
    NotADictionary,
    /// The entry is not there.
    Missing(Field),
    /// The entry is there more than once.
    Repeated(Field),
    /// `info` is not a dictionary, or `name` is not a byte string.
    WrongType(Field),
    /// The name is not UTF-8 text.
    NameNotText,
}

impl Field {
    /// The key of the entry.
    pub open spec fn spec_key(self) -> Seq<char> {
        match self {
            Field::Info => "info"@,
            Field::Name => "name"@,
        }
    }

    /// The key of the entry.
    pub fn key(&self) -> (key: &'static str)
        ensures
            key@ == self.spec_key(),
    {
        match self {
            Field::Info => "info",
            Field::Name => "name",
        }
    }
}

impl DecodeError {
    /// What the user is told of the error.
    pub open spec fn spec_message(self) -> Seq<char> {
        match self {
            DecodeError::Malformed => "not a bencoded value"@,
            DecodeError::NotADictionary => "not a dictionary"@,
            DecodeError::Missing(field) => "no entry "@ + field.spec_key(),
            DecodeError::Repeated(field) => "more than one entry "@ + field.spec_key(),
            DecodeError::WrongType(field) => "wrong type of entry "@ + field.spec_key(),
            DecodeError::NameNotText => "name is not UTF-8 text"@,
        }
    }

    /// What the user is told of the error.
    pub fn message(&self) -> (text: String)
        ensures
            text@ == self.spec_message(),
    {
        match self {
            DecodeError::Malformed => String::from_str("not a bencoded value"),
            DecodeError::NotADictionary => String::from_str("not a dictionary"),
            DecodeError::Missing(field) => String::from_str("no entry ").concat(field.key()),
            DecodeError::Repeated(field) => String::from_str("more than one entry ").concat(
                field.key(),
            ),
            DecodeError::WrongType(field) => String::from_str("wrong type of entry ").concat(
                field.key(),
            ),
            DecodeError::NameNotText => String::from_str("name is not UTF-8 text"),
        }
    }
}

/// The one value that `entries` hold under `key`.
pub open spec fn field(entries: Seq<(Seq<u8>, Bencode)>, key: Seq<u8>, which: Field) -> Result<
    Bencode,
    DecodeError,
> {
    let values = values_of(entries, key);
    if values.len() == 0 {
        Err(DecodeError::Missing(which))
    } else if values.len() > 1 {
        Err(DecodeError::Repeated(which))
    } else {
        Ok(values[0])
    }
}

/// The bytes of the content name that a descriptor holds: the byte string
/// `name` of its dictionary `info`.
pub open spec fn name_bytes(descriptor: Bencode) -> Result<Seq<u8>, DecodeError> {
    match descriptor {
        Bencode::Dict(top) => match field(top, INFO@, Field::Info) {
            Ok(Bencode::Dict(info)) => match field(info, NAME@, Field::Name) {
                Ok(Bencode::Bytes(name)) => Ok(name),
                Ok(_) => Err(DecodeError::WrongType(Field::Name)),
                Err(e) => Err(e),
            },
            Ok(_) => Err(DecodeError::WrongType(Field::Info)),
            Err(e) => Err(e),
        },
        _ => Err(DecodeError::NotADictionary),
    }
}

/// The content name that the bytes of a descriptor file give. The bytes
/// have to begin with a bencoded dictionary; what follows it is not looked
/// at.
pub open spec fn torrent_name(contents: Seq<u8>) -> Result<Seq<char>, DecodeError> {
    match decode_value(contents, 0) {
        None => Err(DecodeError::Malformed),
        Some((descriptor, _)) => match name_bytes(descriptor) {
            Ok(name) => match spec_text(name) {
                Some(text) => Ok(text),
                None => Err(DecodeError::NameNotText),
            },
            Err(e) => Err(e),
        },
    }
}

/// Decodes the bytes of a descriptor file and gives its content name,
/// byte for byte as the descriptor holds it.
pub fn parse_torrent_name(contents: &[u8]) -> (r: Result<String, DecodeError>)
    ensures
        match torrent_name(contents@) {
            Ok(text) => r matches Ok(name) && name@ == text,
            Err(e) => r == Err::<String, DecodeError>(e),
        },
{
    if contents.len() == 0 {
        return Err(DecodeError::Malformed);
    }
    if contents[0] != DICT {
        return match skip_value(contents, 0) {
            Some(_) => Err(DecodeError::NotADictionary),
            None => Err(DecodeError::Malformed),
        };
    }
    let info_at = match find_entry(contents, 1, &INFO) {
        None => {
            return Err(DecodeError::Malformed);
        },
        Some((Lookup::Missing, _)) => {
            return Err(DecodeError::Missing(Field::Info));
        },
        Some((Lookup::Repeated, _)) => {
            return Err(DecodeError::Repeated(Field::Info));
        },
        Some((Lookup::At(at), _)) => at,
    };
    if contents[info_at] != DICT {
        return Err(DecodeError::WrongType(Field::Info));
    }
    let name_at = match find_entry(contents, info_at + 1, &NAME) {
        None => {
            return Err(DecodeError::Malformed);
        },
        Some((Lookup::Missing, _)) => {
            return Err(DecodeError::Missing(Field::Name));
        },
        Some((Lookup::Repeated, _)) => {
            return Err(DecodeError::Repeated(Field::Name));
        },
        Some((Lookup::At(at), _)) => at,
    };
    match skip_bytes(contents, name_at) {
        None => Err(DecodeError::WrongType(Field::Name)),
        Some((first, last)) => match as_text(&contents[first..last]) {
            Some(text) => Ok(text.to_owned()),
            None => Err(DecodeError::NameNotText),
        },
    }
}

/// A descriptor file that was written from a dictionary whose `info`
/// holds `name` gives that very name back, character for character,
/// whatever else the dictionary holds and whatever follows it in the file.
pub proof fn lemma_name_round_trip(descriptor: Bencode, name: Seq<char>, rest: Seq<u8>)
    requires
        fits(descriptor),
        name_bytes(descriptor) == Ok::<Seq<u8>, DecodeError>(encode_utf8(name)),
    ensures
        torrent_name(encode(descriptor) + rest) == Ok::<Seq<char>, DecodeError>(name),
{
    let contents = encode(descriptor) + rest;
    assert(contents.subrange(0, encode(descriptor).len() as int) =~= encode(descriptor));
    lemma_decode_encode(contents, 0, descriptor);
    encode_utf8_valid_utf8(name);
    encode_utf8_decode_utf8(name);
}

/// A file without a byte holds no descriptor.
pub proof fn lemma_empty_is_malformed()
    ensures
        torrent_name(Seq::<u8>::empty()) == Err::<Seq<char>, DecodeError>(DecodeError::Malformed),
{
}

/// A descriptor file that is cut short anywhere before the end of its
/// dictionary is malformed, whatever the whole file would give.
pub proof fn lemma_cut_short_is_malformed(contents: Seq<u8>, n: int)
    requires
        decode_value(contents, 0) matches Some((_, end)) && 0 <= n < end,
    ensures
        torrent_name(contents.take(n)) == Err::<Seq<char>, DecodeError>(DecodeError::Malformed),
{
    lemma_value_cut(contents, 0, n);
}

/// What follows the dictionary in a descriptor file changes nothing.
pub proof fn lemma_what_follows_is_not_read(contents: Seq<u8>, more: Seq<u8>)
    requires
        decode_value(contents, 0) is Some,
    ensures
        torrent_name(contents + more) == torrent_name(contents),
{
    lemma_value_bounds(contents, 0);
    lemma_value_agree(contents, contents + more, 0);
}

} // verus!
