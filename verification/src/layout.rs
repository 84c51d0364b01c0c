//! The layouts of the source directory.

use crate::errors::Error;
use crate::text::str_eq;
use vstd::prelude::*;

verus! {

/// How downloaded content is laid out under the source directory.
#[derive(Debug, Clone, Copy, PartialEq, Eq, Structural)]
pub enum Layout {
    /// Content lies right below the source directory.
    Simple,
    /// Content lies one directory further down.
    Nested,
}

impl Layout {
    /// How far below the source directory the content lies.
    pub open spec fn spec_depth(self) -> nat {
        match self {
            Layout::Simple => 1,
            Layout::Nested => 2,
        }
    }

    /// How far below the source directory the content lies.
    pub fn depth(&self) -> (depth: usize)
        ensures
            depth == self.spec_depth(),
    {
        match self {
            Layout::Simple => 1,
            Layout::Nested => 2,
        }
    }

    /// The layout that `s` names: `simple` or `nested`, in these very
    /// letters.
    pub open spec fn named(s: Seq<char>) -> Option<Layout> {
        if s == "simple"@ {
            Some(Layout::Simple)
        } else if s == "nested"@ {
            Some(Layout::Nested)
        } else {
            None
        }
    }

    /// Reads the name of a layout. Any other text is an error.
    pub fn from_str(s: &str) -> (r: Result<Layout, Error>)
        ensures
            match Layout::named(s@) {
                Some(layout) => r == Ok::<Layout, Error>(layout),
                None => r == Err::<Layout, Error>(Error::UnknownLayout),
            },
    {
        if str_eq(s, "simple") {
            Ok(Layout::Simple)
        } else if str_eq(s, "nested") {
            Ok(Layout::Nested)
        } else {
            Err(Error::UnknownLayout)
        }
    }
}

} // verus!
