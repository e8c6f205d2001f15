use disk_usage::entry::{Entry, EntryKind};
use disk_usage::sort::{reversed, sort_by_size};

fn file(path: &str, size: u64) -> Entry {
    Entry::file(path.to_string(), false, size)
}

fn paths(entries: &[Entry]) -> Vec<String> {
    entries.iter().map(|entry| entry.path().to_string()).collect()
}

#[test]
fn file_entry_keeps_what_it_was_given() {
    let entry = Entry::file("a/b".to_string(), true, 4096);
    assert_eq!(entry.path(), "a/b");
    assert!(entry.is_hidden());
    assert!(!entry.is_dir());
    assert_eq!(entry.size(), 4096);
    assert!(matches!(entry.kind(), EntryKind::File(4096)));
}

#[test]
fn dir_entry_keeps_its_children_in_order() {
    let dir = Entry::dir("d".to_string(), false, vec![file("d/x", 3), file("d/y", 1)]);
    assert_eq!(dir.path(), "d");
    assert!(!dir.is_hidden());
    assert!(dir.is_dir());
    match dir.kind() {
        EntryKind::Dir(children) => assert_eq!(paths(children), vec!["d/x", "d/y"]),
        EntryKind::File(_) => panic!("a directory was expected"),
    }
}

#[test]
fn dir_size_is_the_sum_of_its_children() {
    let dir = Entry::dir("d".to_string(), false, vec![file("d/x", 3), file("d/y", 1), file("d/z", 10)]);
    assert_eq!(dir.size(), 14);
}

#[test]
fn empty_dir_has_size_zero() {
    let dir = Entry::dir("d".to_string(), false, Vec::new());
    assert_eq!(dir.size(), 0);
    assert!(dir.is_dir());
}

#[test]
fn hidden_children_count_toward_the_size() {
    let shown = Entry::file("d/a".to_string(), false, 4096);
    let hidden = Entry::file("d/.b".to_string(), true, 512);
    let dir = Entry::dir("d".to_string(), false, vec![shown, hidden]);
    assert_eq!(dir.size(), 4608);
}

#[test]
fn nested_sizes_add_up_through_every_level() {
    let inner = Entry::dir("d/e".to_string(), true, vec![file("d/e/x", 5), file("d/e/y", 6)]);
    let outer = Entry::dir("d".to_string(), false, vec![file("d/a", 1), inner, file("d/b", 2)]);
    assert_eq!(outer.size(), 14);
    match outer.kind() {
        EntryKind::Dir(children) => {
            let sum: u64 = children.iter().map(|child| child.size()).sum();
            assert_eq!(sum, outer.size());
            assert_eq!(children[1].size(), 11);
        },
        EntryKind::File(_) => panic!("a directory was expected"),
    }
}

#[test]
fn size_may_reach_the_largest_value() {
    let dir = Entry::dir("d".to_string(), false, vec![file("d/a", u64::MAX - 1), file("d/b", 1)]);
    assert_eq!(dir.size(), u64::MAX);
}

#[test]
fn into_parts_gives_back_the_pieces() {
    let dir = Entry::dir("d".to_string(), true, vec![file("d/x", 3)]);
    let (path, hidden, kind) = dir.into_parts();
    assert_eq!(path, "d");
    assert!(hidden);
    match kind {
        EntryKind::Dir(children) => {
            assert_eq!(children.len(), 1);
            assert_eq!(children[0].size(), 3);
        },
        EntryKind::File(_) => panic!("a directory was expected"),
    }
}

#[test]
fn sort_puts_sizes_in_ascending_order() {
    let sorted = sort_by_size(vec![file("c", 30), file("a", 10), file("b", 20)]);
    assert_eq!(paths(&sorted), vec!["a", "b", "c"]);
    let sizes: Vec<u64> = sorted.iter().map(|entry| entry.size()).collect();
    assert_eq!(sizes, vec![10, 20, 30]);
}

#[test]
fn sort_keeps_the_order_of_equal_sizes() {
    let sorted = sort_by_size(vec![
        file("p", 5),
        file("q", 1),
        file("r", 5),
        file("s", 1),
        file("t", 5),
        file("u", 0),
    ]);
    assert_eq!(paths(&sorted), vec!["u", "q", "s", "p", "r", "t"]);
}

#[test]
fn sort_of_nothing_and_of_one() {
    assert!(sort_by_size(Vec::new()).is_empty());
    assert_eq!(paths(&sort_by_size(vec![file("only", 9)])), vec!["only"]);
}

#[test]
fn sort_goes_by_aggregate_size_of_directories() {
    let big = Entry::dir("big".to_string(), false, vec![file("big/x", 40), file("big/y", 40)]);
    let small = Entry::dir("small".to_string(), false, vec![file("small/x", 1)]);
    let sorted = sort_by_size(vec![big, file("mid", 50), small]);
    assert_eq!(paths(&sorted), vec!["small", "mid", "big"]);
}

#[test]
fn sort_of_many_entries_is_stable_and_ascending() {
    let mut entries = Vec::new();
    for i in 0..1000u64 {
        entries.push(file(&format!("f{}", i), (i * 7919) % 13));
    }
    let sorted = sort_by_size(entries);
    assert_eq!(sorted.len(), 1000);
    for pair in sorted.windows(2) {
        assert!(pair[0].size() <= pair[1].size());
        if pair[0].size() == pair[1].size() {
            let first: u64 = pair[0].path()[1..].parse().unwrap();
            let second: u64 = pair[1].path()[1..].parse().unwrap();
            assert!(first < second);
        }
    }
}

#[test]
fn reversed_turns_the_order_round() {
    assert_eq!(reversed(vec![1, 2, 3]), vec![3, 2, 1]);
    assert_eq!(reversed(Vec::<u8>::new()), Vec::<u8>::new());
    assert_eq!(reversed(vec!['x']), vec!['x']);
}
