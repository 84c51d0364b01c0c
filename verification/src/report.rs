//! The report of an inspection, as a list of messages.

use crate::actions::InspectResult;
use crate::names::NameSet;
use vstd::prelude::*;

verus! {

/// How much weight a message carries.
#[derive(Debug, Clone, Copy, PartialEq, Eq, Structural)]
pub enum Level {
    Info,
    Warn,
}

/// One message of a report.
#[derive(Debug, PartialEq, Eq)]
pub enum Message {
    /// How many names the descriptors gave and how many entries the source
    /// directory holds.
    Collected { torrents: usize, entries: usize },
    /// How many descriptors have their content in the source directory.
    Matched { count: usize },
    /// How many entries no descriptor speaks of.
    Orphaned { count: usize },
    /// An entry that no descriptor speaks of.
    OrphanedEntry { name: String },
    /// How many descriptors have no content in the source directory.
    Missed { count: usize },
    /// The name of a descriptor without content.
    MissedTorrent { name: String },
    /// That more can be seen by asking for every name.
    VerboseHint,
    /// That the action asked for does nothing yet.
    NotImplemented,
}

/// What a message says.
pub enum Line {
    Collected { torrents: nat, entries: nat },
    Matched { count: nat },
    Orphaned { count: nat },
    OrphanedEntry { name: Seq<char> },
    Missed { count: nat },
    MissedTorrent { name: Seq<char> },
    VerboseHint,
    NotImplemented,
}

impl View for Message {
    type V = Line;

    open spec fn view(&self) -> Line {
        match *self {
            Message::Collected { torrents, entries } => Line::Collected {
                torrents: torrents as nat,
                entries: entries as nat,
            },
            Message::Matched { count } => Line::Matched { count: count as nat },
            Message::Orphaned { count } => Line::Orphaned { count: count as nat },
            Message::OrphanedEntry { name } => Line::OrphanedEntry { name: name@ },
            Message::Missed { count } => Line::Missed { count: count as nat },
            Message::MissedTorrent { name } => Line::MissedTorrent { name: name@ },
            Message::VerboseHint => Line::VerboseHint,
            Message::NotImplemented => Line::NotImplemented,
        }
    }
}

impl Line {
    /// Counts are told as information, as is the hint; what is orphaned or
    /// missed, and that nothing was done, is a warning.
    pub open spec fn level(self) -> Level {
        match self {
            Line::Collected { .. } | Line::Matched { .. } | Line::VerboseHint => Level::Info,
            _ => Level::Warn,
        }
    }
}

impl Message {
    /// The weight of this message.
    pub fn level(&self) -> (level: Level)
        ensures
            level == self@.level(),
    {
        match self {
            Message::Collected { .. } | Message::Matched { .. } | Message::VerboseHint => Level::Info,
            _ => Level::Warn,
        }
    }
}

/// What a list of messages says, line by line.
pub open spec fn lines(messages: Seq<Message>) -> Seq<Line> {
    messages.map_values(|m: Message| m@)
}

/// The lines about the orphaned entries: none where there is no such entry,
/// else their number, followed in a verbose report by each name.
pub open spec fn orphaned_lines(orphaned: Seq<Seq<char>>, verbose: bool) -> Seq<Line> {
    if orphaned.len() == 0 {
        Seq::empty()
    } else if verbose {
        seq![Line::Orphaned { count: orphaned.len() }] + orphaned.map_values(
            |name: Seq<char>| Line::OrphanedEntry { name },
        )
    } else {
        seq![Line::Orphaned { count: orphaned.len() }]
    }
}

/// The lines about the descriptors without content, made as those about
/// the orphaned entries.
pub open spec fn missed_lines(missed: Seq<Seq<char>>, verbose: bool) -> Seq<Line> {
    if missed.len() == 0 {
        Seq::empty()
    } else if verbose {
        seq![Line::Missed { count: missed.len() }] + missed.map_values(
            |name: Seq<char>| Line::MissedTorrent { name },
        )
    } else {
        seq![Line::Missed { count: missed.len() }]
    }
}

/// The report of an inspection: the two totals, the number of matches,
/// what is orphaned, what is missed, and, where something is amiss and the
/// names were not asked for, a hint that they can be.
pub open spec fn report(
    torrents: nat,
    entries: nat,
    known: nat,
    orphaned: Seq<Seq<char>>,
    missed: Seq<Seq<char>>,
    verbose: bool,
) -> Seq<Line> {
    seq![Line::Collected { torrents, entries }, Line::Matched { count: known }] + orphaned_lines(
        orphaned,
        verbose,
    ) + missed_lines(missed, verbose) + if (orphaned.len() > 0 || missed.len() > 0) && !verbose {
        seq![Line::VerboseHint]
    } else {
        Seq::empty()
    }
}

/// Adds the names of `names` to `messages`, one message each.
fn list_names(messages: &mut Vec<Message>, names: &NameSet, orphaned: bool)
    ensures
        lines(final(messages)@) == lines(old(messages)@) + names.order().map_values(
            |name: Seq<char>|
                if orphaned {
                    Line::OrphanedEntry { name }
                } else {
                    Line::MissedTorrent { name }
                },
        ),
{
    let ghost as_line = |name: Seq<char>|
        if orphaned {
            Line::OrphanedEntry { name }
        } else {
            Line::MissedTorrent { name }
        };
    let n = names.len();
    let mut i: usize = 0;
    assert(lines(messages@) =~= lines(old(messages)@) + names.order().take(0).map_values(as_line));
    while i < n
        invariant
            i <= n == names.order().len(),
            as_line == |name: Seq<char>|
                if orphaned {
                    Line::OrphanedEntry { name }
                } else {
                    Line::MissedTorrent { name }
                },
            lines(messages@) == lines(old(messages)@) + names.order().take(i as int).map_values(
                as_line,
            ),
        decreases n - i,
    {
        let ghost before = messages@;
        if let Some(name) = names.get(i) {
            if orphaned {
                messages.push(Message::OrphanedEntry { name: name.clone() });
            } else {
                messages.push(Message::MissedTorrent { name: name.clone() });
            }
        }
        assert(lines(messages@) =~= lines(before).push(as_line(names.order()[i as int])));
        assert(names.order().take(i + 1).map_values(as_line) =~= names.order().take(
            i as int,
        ).map_values(as_line).push(as_line(names.order()[i as int])));
        i += 1;
    }
    assert(names.order().take(n as int) =~= names.order());
}

/// Writes the report of an inspection that found `torrents` names in the
/// descriptors and `entries` entries in the source directory.
pub fn summarize(inspection: &InspectResult, torrents: usize, entries: usize, verbose: bool) -> (messages:
    Vec<Message>)
    ensures
        lines(messages@) == report(
            torrents as nat,
            entries as nat,
            inspection.known.order().len(),
            inspection.orphaned.order(),
            inspection.missed.order(),
            verbose,
        ),
{
    let mut messages: Vec<Message> = Vec::new();
    messages.push(Message::Collected { torrents, entries });
    messages.push(Message::Matched { count: inspection.known.len() });
    assert(lines(messages@) =~= seq![
        Line::Collected { torrents: torrents as nat, entries: entries as nat },
        Line::Matched { count: inspection.known.order().len() },
    ]);
    let orphaned = inspection.orphaned.len();
    let ghost head = lines(messages@);
    if orphaned > 0 {
        messages.push(Message::Orphaned { count: orphaned });
        assert(lines(messages@) =~= head + seq![Line::Orphaned { count: orphaned as nat }]);
        if verbose {
            list_names(&mut messages, &inspection.orphaned, true);
        }
    }
    assert(lines(messages@) =~= head + orphaned_lines(inspection.orphaned.order(), verbose));
    let missed = inspection.missed.len();
    let ghost head = lines(messages@);
    if missed > 0 {
        messages.push(Message::Missed { count: missed });
        assert(lines(messages@) =~= head + seq![Line::Missed { count: missed as nat }]);
        if verbose {
            list_names(&mut messages, &inspection.missed, false);
        }
    }
    assert(lines(messages@) =~= head + missed_lines(inspection.missed.order(), verbose));
    let ghost head = lines(messages@);
    if (missed > 0 || orphaned > 0) && !verbose {
        messages.push(Message::VerboseHint);
        assert(lines(messages@) =~= head + seq![Line::VerboseHint]);
    } else {
        assert(lines(messages@) =~= head + Seq::<Line>::empty());
    }
    messages
}

} // verus!
