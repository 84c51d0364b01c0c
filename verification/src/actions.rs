//! The actions: collecting the two sets of names, telling them apart, and
//! reporting on them.

use crate::errors::Error;
use crate::layout::Layout;
use crate::names::{apart, distinct, lemma_distinct, shared, NameSet};
use crate::report::{lines, summarize, Line, Message};
use crate::text::{as_text, has_suffix, spec_has_suffix, spec_text};
use crate::torrent::{parse_torrent_name, torrent_name};
use crate::walk::{
    check_walk, first_failure, lemma_entry_is_no_failure, DirEntry, TorrentFile, WalkError,
};
use vstd::prelude::*;
use vstd::seq_lib::seq_to_set_is_finite;
use vstd::set_lib::lemma_set_disjoint_lens;
use vstd::utf8::valid_utf8;

verus! {

/// The suffix `.torrent`, which the name of a descriptor file carries.
pub const TORRENT_EXTENSION: [u8; 8] = [46, 116, 111, 114, 114, 101, 110, 116];

/// How the downloaded entries stand to the descriptors.
#[derive(Debug)]
pub struct InspectResult {
    /// Torrents with corresponding files.
    pub known: NameSet,
    /// Files without torrents.
    pub orphaned: NameSet,
    /// Torrents without files.
    pub missed: NameSet,
}

/// Sorts the names into three sets: those that are both downloaded and
/// known, those that are downloaded only, and those that are known only.
pub fn inspect_downloaded(fs_paths: &NameSet, tor_paths: &NameSet) -> (r: InspectResult)
    ensures
        r.known@ == fs_paths@.intersect(tor_paths@),
        r.orphaned@ == fs_paths@.difference(tor_paths@),
        r.missed@ == tor_paths@.difference(fs_paths@),
        r.known@.union(r.orphaned@) == fs_paths@,
        r.known@.union(r.missed@) == tor_paths@,
        r.orphaned@.disjoint(r.missed@),
        r.known@.disjoint(r.orphaned@),
        r.known@.disjoint(r.missed@),
        r.known@.len() + r.orphaned@.len() == fs_paths@.len(),
        r.known@.len() + r.missed@.len() == tor_paths@.len(),
        r.known.order() == shared(fs_paths.order(), tor_paths@),
        r.orphaned.order() == apart(fs_paths.order(), tor_paths@),
        r.missed.order() == apart(tor_paths.order(), fs_paths@),
{
    let known = fs_paths.intersection(tor_paths);
    let orphaned = fs_paths.difference(tor_paths);
    let missed = tor_paths.difference(fs_paths);
    proof {
        seq_to_set_is_finite(fs_paths.order());
        seq_to_set_is_finite(tor_paths.order());
        lemma_classification(fs_paths@, tor_paths@);
    }
    InspectResult { known, orphaned, missed }
}

/// The three classes part the two sets. Of finite sets of downloaded and of
/// known names, what is downloaded is known or orphaned, what is known is
/// downloaded or missed, nothing is in two classes, and the classes are
/// together as many as the sets.
pub proof fn lemma_classification(downloaded: Set<Seq<char>>, known: Set<Seq<char>>)
    requires
        downloaded.finite(),
        known.finite(),
    ensures
        downloaded.intersect(known).union(downloaded.difference(known)) == downloaded,
        downloaded.intersect(known).union(known.difference(downloaded)) == known,
        downloaded.difference(known).disjoint(known.difference(downloaded)),
        downloaded.intersect(known).disjoint(downloaded.difference(known)),
        downloaded.intersect(known).disjoint(known.difference(downloaded)),
        downloaded.intersect(known).len() + downloaded.difference(known).len()
            == downloaded.len(),
        downloaded.intersect(known).len() + known.difference(downloaded).len() == known.len(),
{
    let both = downloaded.intersect(known);
    let orphaned = downloaded.difference(known);
    let missed = known.difference(downloaded);
    assert(both.union(orphaned) =~= downloaded);
    assert(both.union(missed) =~= known);
    lemma_set_disjoint_lens(both, orphaned);
    lemma_set_disjoint_lens(both, missed);
}

/// Whether `name` is the name of a descriptor file: text that ends in
/// `.torrent`, in these very letters.
pub open spec fn is_torrent_name(name: Seq<u8>) -> bool {
    valid_utf8(name) && spec_has_suffix(name, TORRENT_EXTENSION@)
}

/// Whether the entry is a descriptor file by its name.
pub fn only_torrents(entry: &DirEntry) -> (r: bool)
    ensures
        r == is_torrent_name(entry.name@),
{
    let name = entry.name.as_slice();
    has_suffix(name, &TORRENT_EXTENSION) && as_text(name).is_some()
}

/// `name` put before the names that `rest` gives, where it gives any.
pub open spec fn prepend(name: Seq<char>, rest: Result<Seq<Seq<char>>, Error>) -> Result<
    Seq<Seq<char>>,
    Error,
> {
    match rest {
        Ok(names) => Ok(seq![name] + names),
        Err(e) => Err(e),
    }
}

/// The names of the entries of a walk that lie at `depth`, in the order of
/// the walk. An entry there whose name is not text ends the reading with an
/// error that names its path; entries at other depths are passed over.
pub open spec fn entry_names(walk: Seq<Result<DirEntry, WalkError>>, depth: nat) -> Result<
    Seq<Seq<char>>,
    Error,
>
    decreases walk.len(),
{
    if walk.len() == 0 {
        Ok(Seq::empty())
    } else {
        let rest = entry_names(walk.drop_first(), depth);
        match walk[0] {
            Ok(entry) => if entry.depth == depth {
                match spec_text(entry.name@) {
                    Some(name) => prepend(name, rest),
                    None => Err(Error::Encoding { path: entry.path }),
                }
            } else {
                rest
            },
            Err(_) => rest,
        }
    }
}

/// The names that a walk through the source directory gives at `depth`. A
/// walk with a failure gives the error for its first failure and no name.
pub open spec fn downloaded_names(walk: Seq<Result<DirEntry, WalkError>>, depth: nat) -> Result<
    Seq<Seq<char>>,
    Error,
> {
    match first_failure(walk) {
        Some(failure) => Err(Error::Traverse { path: failure.path, message: failure.message }),
        None => entry_names(walk, depth),
    }
}

/// An entry that does not lie at the depth asked for is as good as absent:
/// the walk gives the same names, or the same error, with it and without it.
pub proof fn lemma_other_depths_are_passed_over(
    before: Seq<Result<DirEntry, WalkError>>,
    entry: DirEntry,
    after: Seq<Result<DirEntry, WalkError>>,
    depth: nat,
)
    requires
        entry.depth != depth,
    ensures
        downloaded_names(before + seq![Ok(entry)] + after, depth) == downloaded_names(
            before + after,
            depth,
        ),
{
    lemma_entry_is_no_failure(before, entry, after);
    lemma_entry_names_pass_over(before, entry, after, depth);
}

proof fn lemma_entry_names_pass_over(
    before: Seq<Result<DirEntry, WalkError>>,
    entry: DirEntry,
    after: Seq<Result<DirEntry, WalkError>>,
    depth: nat,
)
    requires
        entry.depth != depth,
    ensures
        entry_names(before + seq![Ok(entry)] + after, depth) == entry_names(before + after, depth),
    decreases before.len(),
{
    let with = before + seq![Ok(entry)] + after;
    let without = before + after;
    if before.len() == 0 {
        assert(with.drop_first() =~= without);
    } else {
        assert(with.drop_first() =~= before.drop_first() + seq![Ok(entry)] + after);
        assert(without.drop_first() =~= before.drop_first() + after);
        lemma_entry_names_pass_over(before.drop_first(), entry, after, depth);
    }
}

/// Whether `outcome` is the set of the names that `names` gives, each once
/// in order of first arrival, or the error that `names` gives.
pub open spec fn collected(names: Result<Seq<Seq<char>>, Error>, outcome: Result<NameSet, Error>) -> bool {
    match names {
        Ok(names) => outcome matches Ok(set) && set.order() == distinct(names) && set@
            == names.to_set(),
        Err(e) => outcome == Err::<NameSet, Error>(e),
    }
}

/// Collecting twice from walks that have not changed gives the same both
/// times: the same error, or sets with the same members, as many, in the
/// same order.
pub proof fn lemma_collecting_repeats(
    names: Result<Seq<Seq<char>>, Error>,
    first: Result<NameSet, Error>,
    second: Result<NameSet, Error>,
)
    requires
        collected(names, first),
        collected(names, second),
    ensures
        match first {
            Ok(set) => second matches Ok(again) && again@ == set@ && again@.len() == set@.len()
                && again.order() == set.order(),
            Err(e) => second == Err::<NameSet, Error>(e),
        },
{
}

/// Collects the names of what has been downloaded: the base names of the
/// entries that the walk found at the depth of the layout, each once.
pub fn collect_downloaded_torrents(walk: &Vec<Result<DirEntry, WalkError>>, layout: &Layout) -> (r:
    Result<NameSet, Error>)
    ensures
        collected(downloaded_names(walk@, layout.spec_depth()), r),
{
    match check_walk(walk) {
        Err(e) => {
            return Err(e);
        },
        Ok(()) => {},
    }
    let depth = layout.depth();
    let mut set = NameSet::new();
    let ghost mut done: Seq<Seq<char>> = Seq::empty();
    let mut i: usize = 0;
    proof {
        assert(walk@.skip(0) =~= walk@);
        assert(entry_names(walk@, depth as nat) matches Ok(names) ==> done + names =~= names);
    }
    while i < walk.len()
        invariant
            i <= walk.len(),
            first_failure(walk@) is None,
            depth == layout.spec_depth(),
            set.order() == distinct(done),
            entry_names(walk@, depth as nat) == match entry_names(
                walk@.skip(i as int),
                depth as nat,
            ) {
                Ok(names) => Ok(done + names),
                Err(e) => Err(e),
            },
        decreases walk.len() - i,
    {
        proof {
            assert(walk@.skip(i as int).drop_first() =~= walk@.skip(i + 1));
        }
        match &walk[i] {
            Ok(entry) => {
                if entry.depth == depth {
                    match as_text(entry.name.as_slice()) {
                        Some(name) => {
                            proof {
                                if let Ok(names) = entry_names(walk@.skip(i + 1), depth as nat) {
                                    assert(done + (seq![name@] + names) =~= done.push(name@)
                                        + names);
                                }
                                assert(done.push(name@).drop_last() =~= done);
                                done = done.push(name@);
                            }
                            set.insert(name.to_owned());
                        },
                        None => {
                            return Err(Error::Encoding { path: entry.path.clone() });
                        },
                    }
                }
            },
            Err(_) => {},
        }
        i += 1;
    }
    proof {
        assert(done + Seq::<Seq<char>>::empty() =~= done);
        lemma_distinct(done);
    }
    Ok(set)
}

/// The content names that the descriptor files of a walk give, in the order
/// of the walk. Only entries right below the directory whose name ends in
/// `.torrent` count; the others are passed over. A descriptor that could
/// not be read or decoded ends the reading with an error that names its
/// path.
pub open spec fn file_names(files: Seq<Result<TorrentFile, WalkError>>) -> Result<
    Seq<Seq<char>>,
    Error,
>
    decreases files.len(),
{
    if files.len() == 0 {
        Ok(Seq::empty())
    } else {
        let rest = file_names(files.drop_first());
        match files[0] {
            Ok(file) => if file.entry.depth == 1 && is_torrent_name(file.entry.name@) {
                match file.contents {
                    Ok(bytes) => match torrent_name(bytes@) {
                        Ok(name) => prepend(name, rest),
                        Err(reason) => Err(Error::Decode { path: file.entry.path, reason }),
                    },
                    Err(message) => Err(Error::Io { path: file.entry.path, message }),
                }
            } else {
                rest
            },
            Err(_) => rest,
        }
    }
}

/// The content names that a walk through the descriptors directory gives.
/// A walk with a failure gives the error for its first failure and no name.
pub open spec fn known_names(files: Seq<Result<TorrentFile, WalkError>>) -> Result<
    Seq<Seq<char>>,
    Error,
> {
    match first_failure(files) {
        Some(failure) => Err(Error::Traverse { path: failure.path, message: failure.message }),
        None => file_names(files),
    }
}

/// A file whose name does not end in `.torrent`, or that does not lie right
/// below the directory, is as good as absent, whatever it holds: the walk
/// gives the same names, or the same error, with it and without it.
pub proof fn lemma_other_files_are_passed_over(
    before: Seq<Result<TorrentFile, WalkError>>,
    file: TorrentFile,
    after: Seq<Result<TorrentFile, WalkError>>,
)
    requires
        file.entry.depth != 1 || !is_torrent_name(file.entry.name@),
    ensures
        known_names(before + seq![Ok(file)] + after) == known_names(before + after),
{
    lemma_entry_is_no_failure(before, file, after);
    lemma_file_names_pass_over(before, file, after);
}

proof fn lemma_file_names_pass_over(
    before: Seq<Result<TorrentFile, WalkError>>,
    file: TorrentFile,
    after: Seq<Result<TorrentFile, WalkError>>,
)
    requires
        file.entry.depth != 1 || !is_torrent_name(file.entry.name@),
    ensures
        file_names(before + seq![Ok(file)] + after) == file_names(before + after),
    decreases before.len(),
{
    let with = before + seq![Ok(file)] + after;
    let without = before + after;
    if before.len() == 0 {
        assert(with.drop_first() =~= without);
    } else {
        assert(with.drop_first() =~= before.drop_first() + seq![Ok(file)] + after);
        assert(without.drop_first() =~= before.drop_first() + after);
        lemma_file_names_pass_over(before.drop_first(), file, after);
    }
}

/// Collects the names that the descriptors speak of: the content name of
/// every descriptor file that the walk found, each once.
pub fn collect_known_torrents(files: &Vec<Result<TorrentFile, WalkError>>) -> (r: Result<
    NameSet,
    Error,
>)
    ensures
        collected(known_names(files@), r),
{
    match check_walk(files) {
        Err(e) => {
            return Err(e);
        },
        Ok(()) => {},
    }
    let mut set = NameSet::new();
    let ghost mut done: Seq<Seq<char>> = Seq::empty();
    let mut i: usize = 0;
    proof {
        assert(files@.skip(0) =~= files@);
        assert(file_names(files@) matches Ok(names) ==> done + names =~= names);
    }
    while i < files.len()
        invariant
            i <= files.len(),
            first_failure(files@) is None,
            set.order() == distinct(done),
            file_names(files@) == match file_names(files@.skip(i as int)) {
                Ok(names) => Ok(done + names),
                Err(e) => Err(e),
            },
        decreases files.len() - i,
    {
        proof {
            assert(files@.skip(i as int).drop_first() =~= files@.skip(i + 1));
        }
        match &files[i] {
            Ok(file) => {
                if file.entry.depth == 1 && only_torrents(&file.entry) {
                    let bytes = match &file.contents {
                        Ok(bytes) => bytes,
                        Err(message) => {
                            return Err(
                                Error::Io {
                                    path: file.entry.path.clone(),
                                    message: message.clone(),
                                },
                            );
                        },
                    };
                    match parse_torrent_name(bytes.as_slice()) {
                        Ok(name) => {
                            proof {
                                if let Ok(names) = file_names(files@.skip(i + 1)) {
                                    assert(done + (seq![name@] + names) =~= done.push(name@)
                                        + names);
                                }
                                assert(done.push(name@).drop_last() =~= done);
                                done = done.push(name@);
                            }
                            set.insert(name);
                        },
                        Err(reason) => {
                            return Err(Error::Decode { path: file.entry.path.clone(), reason });
                        },
                    }
                }
            },
            Err(_) => {},
        }
        i += 1;
    }
    proof {
        assert(done + Seq::<Seq<char>>::empty() =~= done);
        lemma_distinct(done);
    }
    Ok(set)
}

/// The report on downloaded names and known names, each list without
/// repeats.
pub open spec fn report_of(downloaded: Seq<Seq<char>>, known: Seq<Seq<char>>, verbose: bool) -> Seq<
    Line,
> {
    crate::report::report(
        known.len(),
        downloaded.len(),
        shared(downloaded, known.to_set()).len(),
        apart(downloaded, known.to_set()),
        apart(known, downloaded.to_set()),
        verbose,
    )
}

/// What an inspection comes to: the report on what the two walks gave, or
/// the error that ended it. The descriptors are read first.
pub open spec fn inspection(
    torrents: Seq<Result<TorrentFile, WalkError>>,
    source: Seq<Result<DirEntry, WalkError>>,
    layout: Layout,
    verbose: bool,
) -> Result<Seq<Line>, Error> {
    match known_names(torrents) {
        Ok(known) => match downloaded_names(source, layout.spec_depth()) {
            Ok(downloaded) => Ok(report_of(distinct(downloaded), distinct(known), verbose)),
            Err(e) => Err(e),
        },
        Err(e) => Err(e),
    }
}

/// Whether `outcome` is what the inspection comes to: messages that say
/// the report line by line, or the error.
pub open spec fn inspected(report: Result<Seq<Line>, Error>, outcome: Result<Vec<Message>, Error>) -> bool {
    match report {
        Ok(report) => outcome matches Ok(messages) && lines(messages@) == report,
        Err(e) => outcome == Err::<Vec<Message>, Error>(e),
    }
}

/// Inspecting twice what has not changed gives the same both times: the
/// same error, or reports that say the same, count for count and name for
/// name.
pub proof fn lemma_inspecting_repeats(
    report: Result<Seq<Line>, Error>,
    first: Result<Vec<Message>, Error>,
    second: Result<Vec<Message>, Error>,
)
    requires
        inspected(report, first),
        inspected(report, second),
    ensures
        match first {
            Ok(messages) => second matches Ok(again) && lines(again@) == lines(messages@),
            Err(e) => second == Err::<Vec<Message>, Error>(e),
        },
{
}

/// Looks for orphaned files without torrents and for torrents without
/// files, and reports how many there are of each; a verbose report names
/// them too. An error in either walk ends the inspection without a report.
pub fn inspect(
    torrents: &Vec<Result<TorrentFile, WalkError>>,
    source: &Vec<Result<DirEntry, WalkError>>,
    layout: &Layout,
    verbose: bool,
) -> (r: Result<Vec<Message>, Error>)
    ensures
        inspected(inspection(torrents@, source@, *layout, verbose), r),
{
    let known_torrents = match collect_known_torrents(torrents) {
        Ok(set) => set,
        Err(e) => {
            return Err(e);
        },
    };
    let downloaded_torrents = match collect_downloaded_torrents(source, layout) {
        Ok(set) => set,
        Err(e) => {
            return Err(e);
        },
    };
    let classes = inspect_downloaded(&downloaded_torrents, &known_torrents);
    Ok(summarize(&classes, known_torrents.len(), downloaded_torrents.len(), verbose))
}

/// Relocates orphaned files to a separate directory. Nothing is moved yet:
/// the action only says so.
#[allow(unused_variables)]
pub fn relocate(orphaned: &NameSet, destination: &str, force: bool) -> (messages: Vec<Message>)
    ensures
        lines(messages@) == seq![Line::NotImplemented],
{
    let mut messages: Vec<Message> = Vec::new();
    messages.push(Message::NotImplemented);
    assert(lines(messages@) =~= seq![Line::NotImplemented]);
    messages
}

/// Deletes orphaned files. Nothing is deleted yet: the action only says
/// so.
#[allow(unused_variables)]
pub fn cleanup(orphaned: &NameSet, force: bool) -> (messages: Vec<Message>)
    ensures
        lines(messages@) == seq![Line::NotImplemented],
{
    let mut messages: Vec<Message> = Vec::new();
    messages.push(Message::NotImplemented);
    assert(lines(messages@) =~= seq![Line::NotImplemented]);
    messages
}

} // verus!
