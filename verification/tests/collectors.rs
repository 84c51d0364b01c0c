use alda::actions::{collect_downloaded_torrents, collect_known_torrents, only_torrents};
use alda::errors::Error;
use alda::layout::Layout;
use alda::torrent::{DecodeError, Field};
use alda::walk::{check_walk, DirEntry, TorrentFile, WalkError};

fn entry(path: &str, depth: usize) -> DirEntry {
    let name = path.rsplit('/').next().unwrap();
    DirEntry { path: path.to_string(), name: name.as_bytes().to_vec(), depth }
}

fn found(path: &str, depth: usize) -> Result<DirEntry, WalkError> {
    Ok(entry(path, depth))
}

fn lost(path: &str, message: &str) -> WalkError {
    WalkError { path: path.to_string(), message: message.to_string() }
}

fn file(path: &str, contents: &[u8]) -> Result<TorrentFile, WalkError> {
    Ok(TorrentFile { entry: entry(path, 1), contents: Ok(contents.to_vec()) })
}

fn named(name: &str) -> Vec<u8> {
    format!("d4:infod4:name{}:{}ee", name.len(), name).into_bytes()
}

fn texts(names: &[&str]) -> Vec<String> {
    names.iter().map(|name| name.to_string()).collect()
}

#[test]
fn simple_layout_reads_the_children() {
    let walk = vec![found("topdir/file.bin", 1)];
    let set = collect_downloaded_torrents(&walk, &Layout::Simple).unwrap();
    assert_eq!(set.to_vec(), texts(&["file.bin"]));
}

#[test]
fn nested_layout_reads_the_grandchildren() {
    let walk = vec![found("topdir/subdir", 1), found("topdir/subdir/file.bin", 2)];
    let nested = collect_downloaded_torrents(&walk, &Layout::Nested).unwrap();
    assert_eq!(nested.to_vec(), texts(&["file.bin"]));
    let simple = collect_downloaded_torrents(&walk, &Layout::Simple).unwrap();
    assert_eq!(simple.to_vec(), texts(&["subdir"]));
}

#[test]
fn entries_at_other_depths_are_passed_over() {
    let walk = vec![
        found("src", 0),
        found("src/ab", 1),
        found("src/ab/one", 2),
        found("src/ab/one/deep", 3),
        found("src/cd", 1),
        found("src/cd/two", 2),
        found("src/readme", 1),
    ];
    let simple = collect_downloaded_torrents(&walk, &Layout::Simple).unwrap();
    assert_eq!(simple.to_vec(), texts(&["ab", "cd", "readme"]));
    let nested = collect_downloaded_torrents(&walk, &Layout::Nested).unwrap();
    assert_eq!(nested.to_vec(), texts(&["one", "two"]));
}

#[test]
fn equal_base_names_are_one_member() {
    let walk = vec![found("src/ab/same", 2), found("src/cd/same", 2), found("src/cd/other", 2)];
    let set = collect_downloaded_torrents(&walk, &Layout::Nested).unwrap();
    assert_eq!(set.len(), 2);
    assert_eq!(set.to_vec(), texts(&["same", "other"]));
}

#[test]
fn empty_walk_gives_the_empty_set() {
    let set = collect_downloaded_torrents(&Vec::new(), &Layout::Simple).unwrap();
    assert!(set.is_empty());
    let set = collect_known_torrents(&Vec::new()).unwrap();
    assert!(set.is_empty());
}

#[test]
fn name_that_is_not_text_is_an_error() {
    let odd = DirEntry { path: "src/caf\u{fffd}".to_string(), name: b"caf\xe9".to_vec(), depth: 1 };
    let walk = vec![found("src/fine", 1), Ok(odd), found("src/later", 1)];
    assert_eq!(
        collect_downloaded_torrents(&walk, &Layout::Simple).unwrap_err(),
        Error::Encoding { path: "src/caf\u{fffd}".to_string() }
    );
    assert_eq!(
        collect_downloaded_torrents(&walk, &Layout::Nested).unwrap().to_vec(),
        Vec::<String>::new()
    );
}

#[test]
fn name_beyond_ascii_is_text() {
    let walk = vec![found("src/caf\u{e9} \u{6620}\u{753b}", 1)];
    let set = collect_downloaded_torrents(&walk, &Layout::Simple).unwrap();
    assert_eq!(set.to_vec(), texts(&["caf\u{e9} \u{6620}\u{753b}"]));
}

#[test]
fn failed_walk_gives_no_set() {
    let walk = vec![
        found("src/a", 1),
        Err(lost("src/locked", "permission denied")),
        found("src/b", 1),
        Err(lost("src/gone", "no such file")),
    ];
    let expected =
        Error::Traverse { path: "src/locked".to_string(), message: "permission denied".to_string() };
    assert_eq!(collect_downloaded_torrents(&walk, &Layout::Simple).unwrap_err(), expected);
    assert_eq!(check_walk(&walk), Err(expected));
    assert_eq!(check_walk(&vec![found("src/a", 1)]), Ok(()));
}

#[test]
fn failed_walk_comes_before_a_bad_name() {
    let odd = DirEntry { path: "src/odd".to_string(), name: vec![0xff], depth: 1 };
    let walk = vec![Ok(odd), Err(lost("src/locked", "permission denied"))];
    assert_eq!(
        collect_downloaded_torrents(&walk, &Layout::Simple).unwrap_err(),
        Error::Traverse { path: "src/locked".to_string(), message: "permission denied".to_string() }
    );
}

#[test]
fn descriptor_files_are_known_by_their_suffix() {
    assert!(only_torrents(&entry("t/a.torrent", 1)));
    assert!(only_torrents(&entry("t/.torrent", 1)));
    assert!(only_torrents(&entry("t/a.b.torrent", 1)));
    assert!(only_torrents(&entry("t/\u{e9}.torrent", 1)));
    assert!(!only_torrents(&entry("t/readme.txt", 1)));
    assert!(!only_torrents(&entry("t/a.TORRENT", 1)));
    assert!(!only_torrents(&entry("t/a.Torrent", 1)));
    assert!(!only_torrents(&entry("t/a.torrent.bak", 1)));
    assert!(!only_torrents(&entry("t/a.torrent ", 1)));
    assert!(!only_torrents(&entry("t/torrent", 1)));
    assert!(!only_torrents(&entry("t/atorrent", 1)));
    assert!(!only_torrents(&entry("t/", 1)));
}

#[test]
fn descriptor_file_name_must_be_text() {
    let odd = DirEntry { path: "t/odd".to_string(), name: b"\xff.torrent".to_vec(), depth: 1 };
    assert!(!only_torrents(&odd));
    let files = vec![Ok(TorrentFile { entry: odd, contents: Ok(Vec::new()) })];
    assert!(collect_known_torrents(&files).unwrap().is_empty());
}

#[test]
fn other_files_are_silently_left_out() {
    let files = vec![file("t/a.torrent", &named("Alpha")), file("t/readme.txt", b"not a descriptor")];
    let set = collect_known_torrents(&files).unwrap();
    assert_eq!(set.to_vec(), texts(&["Alpha"]));
}

#[test]
fn other_files_are_not_even_read() {
    let files = vec![
        Ok(TorrentFile { entry: entry("t/notes", 1), contents: Err("is a directory".to_string()) }),
        file("t/a.torrent", &named("Alpha")),
    ];
    let set = collect_known_torrents(&files).unwrap();
    assert_eq!(set.to_vec(), texts(&["Alpha"]));
}

#[test]
fn descriptors_below_the_first_level_are_left_out() {
    let deep = TorrentFile { entry: entry("t/sub/b.torrent", 2), contents: Ok(named("Beta")) };
    let top = TorrentFile { entry: entry("t", 0), contents: Ok(named("Top")) };
    let files = vec![Ok(top), file("t/a.torrent", &named("Alpha")), Ok(deep)];
    let set = collect_known_torrents(&files).unwrap();
    assert_eq!(set.to_vec(), texts(&["Alpha"]));
}

#[test]
fn descriptors_with_one_name_are_one_member() {
    let files = vec![
        file("t/a.torrent", &named("Alpha")),
        file("t/b.torrent", &named("Beta")),
        file("t/c.torrent", &named("Alpha")),
    ];
    let set = collect_known_torrents(&files).unwrap();
    assert_eq!(set.len(), 2);
    assert_eq!(set.to_vec(), texts(&["Alpha", "Beta"]));
}

#[test]
fn empty_descriptor_gives_no_set() {
    let files = vec![file("t/a.torrent", &named("Alpha")), file("t/empty.torrent", b"")];
    assert_eq!(
        collect_known_torrents(&files).unwrap_err(),
        Error::Decode { path: "t/empty.torrent".to_string(), reason: DecodeError::Malformed }
    );
}

#[test]
fn first_bad_descriptor_is_the_error() {
    let files = vec![
        file("t/a.torrent", &named("Alpha")),
        file("t/b.torrent", b"d4:infodee"),
        file("t/c.torrent", b""),
    ];
    assert_eq!(
        collect_known_torrents(&files).unwrap_err(),
        Error::Decode { path: "t/b.torrent".to_string(), reason: DecodeError::Missing(Field::Name) }
    );
}

#[test]
fn unreadable_descriptor_gives_no_set() {
    let files = vec![
        file("t/a.torrent", &named("Alpha")),
        Ok(TorrentFile {
            entry: entry("t/dir.torrent", 1),
            contents: Err("is a directory".to_string()),
        }),
        file("t/c.torrent", b""),
    ];
    assert_eq!(
        collect_known_torrents(&files).unwrap_err(),
        Error::Io { path: "t/dir.torrent".to_string(), message: "is a directory".to_string() }
    );
}

#[test]
fn failed_walk_comes_before_a_bad_descriptor() {
    let files = vec![file("t/c.torrent", b""), Err(lost("t/x", "vanished"))];
    assert_eq!(
        collect_known_torrents(&files).unwrap_err(),
        Error::Traverse { path: "t/x".to_string(), message: "vanished".to_string() }
    );
}

#[test]
fn collecting_again_gives_the_same() {
    let files = vec![file("t/a.torrent", &named("Alpha")), file("t/b.torrent", &named("Beta"))];
    let first = collect_known_torrents(&files).unwrap();
    let second = collect_known_torrents(&files).unwrap();
    assert_eq!(first.to_vec(), second.to_vec());
    assert_eq!(first.len(), second.len());
    let walk = vec![found("src/Alpha", 1), found("src/Gamma", 1)];
    let first = collect_downloaded_torrents(&walk, &Layout::Simple).unwrap();
    let second = collect_downloaded_torrents(&walk, &Layout::Simple).unwrap();
    assert_eq!(first.to_vec(), second.to_vec());
    assert_eq!(first.len(), second.len());
}

#[test]
fn order_of_the_walk_changes_no_member() {
    let one = vec![found("src/a", 1), found("src/b", 1), found("src/c", 1), found("src/a", 1)];
    let other = vec![found("src/c", 1), found("src/a", 1), found("src/c", 1), found("src/b", 1)];
    let first = collect_downloaded_torrents(&one, &Layout::Simple).unwrap();
    let second = collect_downloaded_torrents(&other, &Layout::Simple).unwrap();
    assert_eq!(first.len(), 3);
    assert_eq!(second.len(), 3);
    for name in first.to_vec() {
        assert!(second.contains(&name));
    }
    for name in second.to_vec() {
        assert!(first.contains(&name));
    }
}
