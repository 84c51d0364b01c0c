//! The errors that end a run.

use crate::torrent::DecodeError;
use vstd::prelude::*;
use vstd::string::StringExecFns;

verus! {

/// Why a run was given up. Each error names the path at which it arose.
#[derive(Debug, PartialEq, Eq)]
pub enum Error {
    /// A descriptor file could not be read.
    Io { path: String, message: String },
    /// A descriptor file could not be decoded.
    Decode { path: String, reason: DecodeError },
    /// A directory could not be listed.
    Traverse { path: String, message: String },
    /// The name of an entry is not text.
    Encoding { path: String },
    /// The layout asked for is none that is known.
    UnknownLayout,
}

impl Error {
    /// What the user is told of the error: what could not be done, at which
    /// path, and why.
    pub open spec fn spec_message(self) -> Seq<char> {
        match self {
            Error::Io { path, message } => "Can't read torrent from "@ + path@ + ": "@
                + message@,
            Error::Decode { path, reason } => "Can't parse torrent from "@ + path@ + ": "@
                + reason.spec_message(),
            Error::Traverse { path, message } => "Can't list "@ + path@ + ": "@ + message@,
            Error::Encoding { path } => "Entry "@ + path@
                + " contains symbols beyond UTF-8 range"@,
            Error::UnknownLayout => "Unknown layout"@,
        }
    }

    /// What the user is told of the error.
    pub fn message(&self) -> (text: String)
        ensures
            text@ == self.spec_message(),
    {
        match self {
            Error::Io { path, message } => String::from_str("Can't read torrent from ").concat(
                path.as_str(),
            ).concat(": ").concat(message.as_str()),
            Error::Decode { path, reason } => String::from_str(
                "Can't parse torrent from ",
            ).concat(path.as_str()).concat(": ").concat(reason.message().as_str()),
            Error::Traverse { path, message } => String::from_str("Can't list ").concat(
                path.as_str(),
            ).concat(": ").concat(message.as_str()),
            Error::Encoding { path } => String::from_str("Entry ").concat(path.as_str()).concat(
                " contains symbols beyond UTF-8 range",
            ),
            Error::UnknownLayout => String::from_str("Unknown layout"),
        }
    }
}

} // verus!
