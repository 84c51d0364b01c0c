//! What a walk through a directory found, as plain values.

use crate::errors::Error;
use vstd::prelude::*;

verus! {

/// An entry that a walk through a directory came upon.
#[derive(Debug, PartialEq, Eq)]
pub struct DirEntry {
    /// The path of the entry, as it is shown to the user.
    pub path: String,
    /// The bytes of the entry's base name.
    pub name: Vec<u8>,
    /// How far below the directory walked the entry lies; its children are at 1.
    pub depth: usize,
}

/// A place that a walk could not list or look at.
#[derive(Debug, PartialEq, Eq)]
pub struct WalkError {
    /// The path at which the walk failed.
    pub path: String,
    /// What went wrong there.
    pub message: String,
}

/// An entry of the descriptors directory together with what reading it
/// gave: its bytes, or why it could not be read.
#[derive(Debug, PartialEq, Eq)]
pub struct TorrentFile {
    pub entry: DirEntry,
    pub contents: Result<Vec<u8>, String>,
}

/// The first failure of a walk, if it has one.
pub open spec fn first_failure<T>(walk: Seq<Result<T, WalkError>>) -> Option<WalkError>
    decreases walk.len(),
{
    if walk.len() == 0 {
        None
    } else {
        match walk[0] {
            Err(failure) => Some(failure),
            Ok(_) => first_failure(walk.drop_first()),
        }
    }
}

/// An entry among the steps of a walk neither is a failure nor hides one.
pub proof fn lemma_entry_is_no_failure<T>(
    before: Seq<Result<T, WalkError>>,
    entry: T,
    after: Seq<Result<T, WalkError>>,
)
    ensures
        first_failure(before + seq![Ok(entry)] + after) == first_failure(before + after),
    decreases before.len(),
{
    let with = before + seq![Ok(entry)] + after;
    let without = before + after;
    if before.len() == 0 {
        assert(with.drop_first() =~= without);
    } else {
        assert(with.drop_first() =~= before.drop_first() + seq![Ok(entry)] + after);
        assert(without.drop_first() =~= before.drop_first() + after);
        lemma_entry_is_no_failure(before.drop_first(), entry, after);
    }
}

/// A walk with a failure is given up: the error for its first failure.
pub fn check_walk<T>(walk: &Vec<Result<T, WalkError>>) -> (r: Result<(), Error>)
    ensures
        match first_failure(walk@) {
            Some(failure) => r == Err::<(), Error>(
                Error::Traverse { path: failure.path, message: failure.message },
            ),
            None => r is Ok && forall|k: int| 0 <= k < walk.len() ==> walk[k] is Ok,
        },
{
    let mut i: usize = 0;
    assert(walk@.skip(0) =~= walk@);
    while i < walk.len()
        invariant
            i <= walk.len(),
            first_failure(walk@) == first_failure(walk@.skip(i as int)),
            forall|k: int| 0 <= k < i ==> walk[k] is Ok,
        decreases walk.len() - i,
    {
        assert(walk@.skip(i as int).drop_first() =~= walk@.skip(i + 1));
        match &walk[i] {
            Err(failure) => {
                return Err(
                    Error::Traverse {
                        path: failure.path.clone(),
                        message: failure.message.clone(),
                    },
                );
            },
            Ok(_) => {},
        }
        i += 1;
    }
    Ok(())
}

} // verus!
