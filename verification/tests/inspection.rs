use alda::actions::{cleanup, inspect, inspect_downloaded, relocate};
use alda::errors::Error;
use alda::layout::Layout;
use alda::names::NameSet;
use alda::report::{summarize, Level, Message};
use alda::torrent::DecodeError;
use alda::walk::{DirEntry, TorrentFile, WalkError};

fn members(names: &[&str]) -> NameSet {
    let mut set = NameSet::new();
    for name in names {
        set.insert(name.to_string());
    }
    set
}

fn strings(names: &[&str]) -> Vec<String> {
    names.iter().map(|name| name.to_string()).collect()
}

fn source_entry(name: &str) -> Result<DirEntry, WalkError> {
    Ok(DirEntry { path: format!("src/{}", name), name: name.as_bytes().to_vec(), depth: 1 })
}

fn torrent_file(file: &str, name: &str) -> Result<TorrentFile, WalkError> {
    Ok(TorrentFile {
        entry: DirEntry {
            path: format!("torrents/{}", file),
            name: file.as_bytes().to_vec(),
            depth: 1,
        },
        contents: Ok(format!("d4:infod4:name{}:{}ee", name.len(), name).into_bytes()),
    })
}

fn check_classes(downloaded: &[&str], known: &[&str], both: &[&str], orphaned: &[&str], missed: &[&str]) {
    let a = members(downloaded);
    let b = members(known);
    let result = inspect_downloaded(&a, &b);
    assert_eq!(result.known.to_vec(), strings(both));
    assert_eq!(result.orphaned.to_vec(), strings(orphaned));
    assert_eq!(result.missed.to_vec(), strings(missed));
    assert_eq!(result.known.len() + result.orphaned.len(), a.len());
    assert_eq!(result.known.len() + result.missed.len(), b.len());
    for name in a.to_vec() {
        assert!(result.known.contains(&name) != result.orphaned.contains(&name));
        assert!(!result.missed.contains(&name));
    }
    for name in b.to_vec() {
        assert!(result.known.contains(&name) != result.missed.contains(&name));
        assert!(!result.orphaned.contains(&name));
    }
}

#[test]
fn classes_of_overlapping_sets() {
    check_classes(&["a", "b", "c"], &["c", "d", "a"], &["a", "c"], &["b"], &["d"]);
}

#[test]
fn classes_when_nothing_is_downloaded() {
    check_classes(&[], &["x", "y"], &[], &[], &["x", "y"]);
}

#[test]
fn classes_when_nothing_is_known() {
    check_classes(&["x", "y"], &[], &[], &["x", "y"], &[]);
}

#[test]
fn classes_of_two_empty_sets() {
    check_classes(&[], &[], &[], &[], &[]);
}

#[test]
fn classes_of_equal_sets() {
    check_classes(&["x", "y"], &["y", "x"], &["x", "y"], &[], &[]);
}

#[test]
fn classes_of_disjoint_sets() {
    check_classes(&["a", "b"], &["c"], &[], &["a", "b"], &["c"]);
}

#[test]
fn classes_tell_names_apart_by_case() {
    check_classes(&["Movie.mkv"], &["movie.mkv"], &[], &["Movie.mkv"], &["movie.mkv"]);
}

#[test]
fn movie_and_extra() {
    let torrents = vec![torrent_file("movie.torrent", "Movie.2020.mkv")];
    let source = vec![source_entry("Movie.2020.mkv"), source_entry("extra.iso")];
    let report = inspect(&torrents, &source, &Layout::Simple, true).unwrap();
    assert_eq!(
        report,
        vec![
            Message::Collected { torrents: 1, entries: 2 },
            Message::Matched { count: 1 },
            Message::Orphaned { count: 1 },
            Message::OrphanedEntry { name: "extra.iso".to_string() },
        ]
    );
    let report = inspect(&torrents, &source, &Layout::Simple, false).unwrap();
    assert_eq!(
        report,
        vec![
            Message::Collected { torrents: 1, entries: 2 },
            Message::Matched { count: 1 },
            Message::Orphaned { count: 1 },
            Message::VerboseHint,
        ]
    );
}

#[test]
fn report_when_all_is_well() {
    let torrents = vec![torrent_file("a.torrent", "A"), torrent_file("b.torrent", "B")];
    let source = vec![source_entry("B"), source_entry("A")];
    for verbose in [false, true] {
        let report = inspect(&torrents, &source, &Layout::Simple, verbose).unwrap();
        assert_eq!(
            report,
            vec![Message::Collected { torrents: 2, entries: 2 }, Message::Matched { count: 2 }]
        );
    }
}

#[test]
fn report_names_what_is_orphaned_and_missed() {
    let torrents = vec![
        torrent_file("a.torrent", "A"),
        torrent_file("m1.torrent", "M1"),
        torrent_file("m2.torrent", "M2"),
        torrent_file("readme.txt", "R"),
    ];
    let source = vec![source_entry("O1"), source_entry("A"), source_entry("O2"), source_entry("O3")];
    let report = inspect(&torrents, &source, &Layout::Simple, true).unwrap();
    assert_eq!(
        report,
        vec![
            Message::Collected { torrents: 3, entries: 4 },
            Message::Matched { count: 1 },
            Message::Orphaned { count: 3 },
            Message::OrphanedEntry { name: "O1".to_string() },
            Message::OrphanedEntry { name: "O2".to_string() },
            Message::OrphanedEntry { name: "O3".to_string() },
            Message::Missed { count: 2 },
            Message::MissedTorrent { name: "M1".to_string() },
            Message::MissedTorrent { name: "M2".to_string() },
        ]
    );
    let report = inspect(&torrents, &source, &Layout::Simple, false).unwrap();
    assert_eq!(
        report,
        vec![
            Message::Collected { torrents: 3, entries: 4 },
            Message::Matched { count: 1 },
            Message::Orphaned { count: 3 },
            Message::Missed { count: 2 },
            Message::VerboseHint,
        ]
    );
}

#[test]
fn report_of_missed_only() {
    let torrents = vec![torrent_file("a.torrent", "A")];
    let report = inspect(&torrents, &Vec::new(), &Layout::Nested, false).unwrap();
    assert_eq!(
        report,
        vec![
            Message::Collected { torrents: 1, entries: 0 },
            Message::Matched { count: 0 },
            Message::Missed { count: 1 },
            Message::VerboseHint,
        ]
    );
}

#[test]
fn report_follows_the_layout() {
    let torrents = vec![torrent_file("a.torrent", "file.bin")];
    let source = vec![
        Ok(DirEntry { path: "top/subdir".to_string(), name: b"subdir".to_vec(), depth: 1 }),
        Ok(DirEntry { path: "top/subdir/file.bin".to_string(), name: b"file.bin".to_vec(), depth: 2 }),
    ];
    let nested = inspect(&torrents, &source, &Layout::Nested, true).unwrap();
    assert_eq!(
        nested,
        vec![Message::Collected { torrents: 1, entries: 1 }, Message::Matched { count: 1 }]
    );
    let simple = inspect(&torrents, &source, &Layout::Simple, true).unwrap();
    assert_eq!(
        simple,
        vec![
            Message::Collected { torrents: 1, entries: 1 },
            Message::Matched { count: 0 },
            Message::Orphaned { count: 1 },
            Message::OrphanedEntry { name: "subdir".to_string() },
            Message::Missed { count: 1 },
            Message::MissedTorrent { name: "file.bin".to_string() },
        ]
    );
}

#[test]
fn empty_descriptor_ends_the_inspection() {
    let empty = TorrentFile {
        entry: DirEntry {
            path: "torrents/empty.torrent".to_string(),
            name: b"empty.torrent".to_vec(),
            depth: 1,
        },
        contents: Ok(Vec::new()),
    };
    let torrents = vec![torrent_file("a.torrent", "A"), Ok(empty)];
    let source = vec![source_entry("A")];
    assert_eq!(
        inspect(&torrents, &source, &Layout::Simple, true),
        Err(Error::Decode {
            path: "torrents/empty.torrent".to_string(),
            reason: DecodeError::Malformed
        })
    );
}

#[test]
fn descriptors_are_read_before_the_source() {
    let torrents = vec![Err(WalkError { path: "torrents".to_string(), message: "gone".to_string() })];
    let source = vec![Err(WalkError { path: "src".to_string(), message: "locked".to_string() })];
    assert_eq!(
        inspect(&torrents, &source, &Layout::Simple, false),
        Err(Error::Traverse { path: "torrents".to_string(), message: "gone".to_string() })
    );
    assert_eq!(
        inspect(&Vec::new(), &source, &Layout::Simple, false),
        Err(Error::Traverse { path: "src".to_string(), message: "locked".to_string() })
    );
}

#[test]
fn inspecting_again_gives_the_same() {
    let torrents = vec![torrent_file("a.torrent", "A"), torrent_file("m.torrent", "M")];
    let source = vec![source_entry("O"), source_entry("A")];
    let first = inspect(&torrents, &source, &Layout::Simple, true);
    let second = inspect(&torrents, &source, &Layout::Simple, true);
    assert!(first.is_ok());
    assert_eq!(first, second);
}

#[test]
fn summary_counts_what_it_is_given() {
    let result = inspect_downloaded(&members(&["a", "b"]), &members(&["b", "c", "d"]));
    assert_eq!(
        summarize(&result, 30, 20, false),
        vec![
            Message::Collected { torrents: 30, entries: 20 },
            Message::Matched { count: 1 },
            Message::Orphaned { count: 1 },
            Message::Missed { count: 2 },
            Message::VerboseHint,
        ]
    );
}

#[test]
fn messages_have_their_weight() {
    assert_eq!(Message::Collected { torrents: 0, entries: 0 }.level(), Level::Info);
    assert_eq!(Message::Matched { count: 0 }.level(), Level::Info);
    assert_eq!(Message::VerboseHint.level(), Level::Info);
    assert_eq!(Message::Orphaned { count: 1 }.level(), Level::Warn);
    assert_eq!(Message::OrphanedEntry { name: String::new() }.level(), Level::Warn);
    assert_eq!(Message::Missed { count: 1 }.level(), Level::Warn);
    assert_eq!(Message::MissedTorrent { name: String::new() }.level(), Level::Warn);
    assert_eq!(Message::NotImplemented.level(), Level::Warn);
}

#[test]
fn relocate_does_nothing_yet() {
    let orphaned = members(&["extra.iso"]);
    assert_eq!(relocate(&orphaned, "quarantine", false), vec![Message::NotImplemented]);
    assert_eq!(relocate(&NameSet::new(), "", true), vec![Message::NotImplemented]);
    assert_eq!(orphaned.to_vec(), strings(&["extra.iso"]));
}

#[test]
fn cleanup_does_nothing_yet() {
    let orphaned = members(&["extra.iso"]);
    assert_eq!(cleanup(&orphaned, false), vec![Message::NotImplemented]);
    assert_eq!(cleanup(&NameSet::new(), true), vec![Message::NotImplemented]);
    assert_eq!(orphaned.to_vec(), strings(&["extra.iso"]));
}
