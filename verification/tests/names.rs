use alda::names::NameSet;

fn names_of(names: &[&str]) -> NameSet {
    let mut set = NameSet::new();
    for name in names {
        set.insert(name.to_string());
    }
    set
}

fn list(names: &[&str]) -> Vec<String> {
    names.iter().map(|name| name.to_string()).collect()
}

#[test]
fn new_set_is_empty() {
    let set = NameSet::new();
    assert!(set.is_empty());
    assert_eq!(set.len(), 0);
    assert!(!set.contains(""));
    assert_eq!(set.get(0), None);
    assert_eq!(set.to_vec(), Vec::<String>::new());
}

#[test]
fn insert_says_whether_the_name_is_new() {
    let mut set = NameSet::new();
    assert!(set.insert("a".to_string()));
    assert!(set.insert("b".to_string()));
    assert!(!set.insert("a".to_string()));
    assert!(set.insert(String::new()));
    assert_eq!(set.len(), 3);
    assert!(!set.is_empty());
    assert_eq!(set.to_vec(), list(&["a", "b", ""]));
}

#[test]
fn members_are_told_apart_letter_by_letter() {
    let set = names_of(&["Movie.mkv", "movie.mkv", "movie.mkv ", "é"]);
    assert_eq!(set.len(), 4);
    assert!(set.contains("Movie.mkv"));
    assert!(set.contains("movie.mkv"));
    assert!(set.contains("movie.mkv "));
    assert!(set.contains("\u{e9}"));
    assert!(!set.contains("e\u{301}"));
    assert!(!set.contains("MOVIE.MKV"));
    assert!(!set.contains("movie"));
}

#[test]
fn members_keep_their_order_of_arrival() {
    let set = names_of(&["c", "a", "c", "b", "a"]);
    assert_eq!(set.to_vec(), list(&["c", "a", "b"]));
    assert_eq!(set.get(0), Some(&"c".to_string()));
    assert_eq!(set.get(2), Some(&"b".to_string()));
    assert_eq!(set.get(3), None);
}

#[test]
fn intersection_keeps_what_both_hold() {
    let left = names_of(&["a", "b", "c", "d"]);
    let right = names_of(&["d", "x", "b"]);
    assert_eq!(left.intersection(&right).to_vec(), list(&["b", "d"]));
    assert_eq!(right.intersection(&left).to_vec(), list(&["d", "b"]));
    assert!(left.intersection(&NameSet::new()).is_empty());
    assert!(NameSet::new().intersection(&left).is_empty());
    assert_eq!(left.intersection(&left).to_vec(), left.to_vec());
}

#[test]
fn difference_keeps_what_the_other_lacks() {
    let left = names_of(&["a", "b", "c", "d"]);
    let right = names_of(&["d", "x", "b"]);
    assert_eq!(left.difference(&right).to_vec(), list(&["a", "c"]));
    assert_eq!(right.difference(&left).to_vec(), list(&["x"]));
    assert_eq!(left.difference(&NameSet::new()).to_vec(), left.to_vec());
    assert!(NameSet::new().difference(&left).is_empty());
    assert!(left.difference(&left).is_empty());
}
