use disk_usage::builder::{build, Node, Probe, SizeReading};
use disk_usage::entry::{Entry, EntryKind};
use disk_usage::format::UnitSystem;
use disk_usage::matcher::{HiddenMarker, IgnoreMatcher};
use disk_usage::options::Options;
use disk_usage::report::{arrange, collect, render, report};
use ignore::gitignore::Gitignore;

fn file(path: &str, size: u64) -> Entry {
    Entry::file(path.to_string(), false, size)
}

fn hidden_file(path: &str, size: u64) -> Entry {
    Entry::file(path.to_string(), true, size)
}

fn dir(path: &str, children: Vec<Entry>) -> Entry {
    Entry::dir(path.to_string(), false, children)
}

fn options(max_depth: usize, sort: bool) -> Options {
    Options { max_depth, bytes: true, sort, ignore: false }
}

fn child_paths(entry: &Entry) -> Vec<String> {
    match entry.kind() {
        EntryKind::Dir(children) => children.iter().map(|child| child.path().to_string()).collect(),
        EntryKind::File(_) => Vec::new(),
    }
}

fn child(entry: &Entry, index: usize) -> &Entry {
    match entry.kind() {
        EntryKind::Dir(children) => &children[index],
        EntryKind::File(_) => panic!("a directory was expected"),
    }
}

fn sample() -> Entry {
    dir(
        "r",
        vec![
            dir("r/big", vec![file("r/big/y", 300), file("r/big/x", 200)]),
            file("r/small", 10),
            dir("r/mid", vec![dir("r/mid/deep", vec![file("r/mid/deep/f", 50)])]),
        ],
    )
}

#[test]
fn hidden_child_is_not_printed_but_is_counted() {
    let tree = Probe {
        path: "d".to_string(),
        marker: HiddenMarker::DotName,
        node: Node::Dir(Some(vec![
            Probe {
                path: "d/a".to_string(),
                marker: HiddenMarker::DotName,
                node: Node::File(SizeReading::Blocks(8)),
            },
            Probe {
                path: "d/.b".to_string(),
                marker: HiddenMarker::DotName,
                node: Node::File(SizeReading::Blocks(0)),
            },
        ])),
    };
    let matcher = IgnoreMatcher::new(true, Gitignore::empty());
    let mut root = build(&tree, &matcher).unwrap();
    let lines = render(&mut root, &options(1, false), UnitSystem::Binary);
    assert_eq!(lines, vec!["      4096 d/a", "      4096 d"]);
}

#[test]
fn hidden_child_with_a_size_adds_to_the_parent_line() {
    let mut root = dir("d", vec![file("d/a", 4096), hidden_file("d/.b", 512)]);
    let lines = render(&mut root, &options(1, false), UnitSystem::Binary);
    assert_eq!(lines, vec!["      4096 d/a", "      4608 d"]);
}

#[test]
fn depth_zero_prints_the_root_only() {
    let mut root = sample();
    let lines = render(&mut root, &options(0, false), UnitSystem::Binary);
    assert_eq!(lines, vec!["       560 r"]);
}

#[test]
fn depth_zero_prints_a_file_root() {
    let mut root = file("f", 7);
    let lines = render(&mut root, &options(0, true), UnitSystem::Binary);
    assert_eq!(lines, vec!["         7 f"]);
}

#[test]
fn depth_one_prints_children_before_the_root() {
    let mut root = sample();
    let lines = render(&mut root, &options(1, false), UnitSystem::Binary);
    assert_eq!(
        lines,
        vec!["       500 r/big", "        10 r/small", "        50 r/mid", "       560 r"]
    );
}

#[test]
fn each_level_is_printed_after_what_lies_below_it() {
    let mut root = sample();
    let lines = render(&mut root, &options(2, false), UnitSystem::Binary);
    assert_eq!(
        lines,
        vec![
            "       300 r/big/y",
            "       200 r/big/x",
            "       500 r/big",
            "        10 r/small",
            "        50 r/mid/deep",
            "        50 r/mid",
            "       560 r",
        ]
    );
}

#[test]
fn nothing_beyond_the_depth_limit_is_printed() {
    let mut root = sample();
    let lines = render(&mut root, &options(2, false), UnitSystem::Binary);
    assert!(lines.iter().all(|line| !line.ends_with("r/mid/deep/f")));
    let mut root = sample();
    let all = render(&mut root, &options(usize::MAX, false), UnitSystem::Binary);
    assert_eq!(all.len(), 8);
    assert_eq!(all[4], "        50 r/mid/deep/f");
    let mut root = sample();
    assert_eq!(render(&mut root, &options(3, false), UnitSystem::Binary), all);
}

#[test]
fn sorting_orders_siblings_by_size() {
    let mut root = sample();
    let lines = render(&mut root, &options(2, true), UnitSystem::Binary);
    assert_eq!(
        lines,
        vec![
            "        10 r/small",
            "        50 r/mid/deep",
            "        50 r/mid",
            "       200 r/big/x",
            "       300 r/big/y",
            "       500 r/big",
            "       560 r",
        ]
    );
}

#[test]
fn sorting_keeps_the_order_of_equal_sizes() {
    let mut root = dir(
        "r",
        vec![file("r/c", 5), file("r/a", 5), file("r/z", 1), file("r/b", 5), file("r/y", 1)],
    );
    let lines = render(&mut root, &options(1, true), UnitSystem::Binary);
    assert_eq!(
        lines,
        vec![
            "         1 r/z",
            "         1 r/y",
            "         5 r/c",
            "         5 r/a",
            "         5 r/b",
            "        17 r",
        ]
    );
}

#[test]
fn without_sorting_the_listing_order_stays() {
    let mut root = sample();
    render(&mut root, &options(5, false), UnitSystem::Binary);
    assert_eq!(child_paths(&root), vec!["r/big", "r/small", "r/mid"]);
    assert_eq!(child_paths(child(&root, 0)), vec!["r/big/y", "r/big/x"]);
}

#[test]
fn sorting_reorders_the_tree_in_place() {
    let mut root = sample();
    render(&mut root, &options(5, true), UnitSystem::Binary);
    assert_eq!(child_paths(&root), vec!["r/small", "r/mid", "r/big"]);
    assert_eq!(child_paths(child(&root, 2)), vec!["r/big/x", "r/big/y"]);
    assert_eq!(root.size(), 560);
}

#[test]
fn sorting_stops_at_the_depth_limit() {
    let mut root = sample();
    render(&mut root, &options(0, true), UnitSystem::Binary);
    assert_eq!(child_paths(&root), vec!["r/small", "r/mid", "r/big"]);
    assert_eq!(child_paths(child(&root, 2)), vec!["r/big/y", "r/big/x"]);
}

#[test]
fn hidden_directory_is_sorted_among_its_siblings_but_not_inside() {
    let hidden = Entry::dir("r/.h".to_string(), true, vec![file("r/.h/b", 9), file("r/.h/a", 1)]);
    let mut root = dir("r", vec![file("r/x", 20), hidden, file("r/y", 5)]);
    let lines = render(&mut root, &options(3, true), UnitSystem::Binary);
    assert_eq!(lines, vec!["         5 r/y", "        20 r/x", "        35 r"]);
    assert_eq!(child_paths(&root), vec!["r/y", "r/.h", "r/x"]);
    assert_eq!(child_paths(child(&root, 1)), vec!["r/.h/b", "r/.h/a"]);
}

#[test]
fn hidden_subtree_gets_no_line_at_all() {
    let hidden = Entry::dir("r/.h".to_string(), true, vec![file("r/.h/a", 1)]);
    let mut root = dir("r", vec![hidden, file("r/x", 2)]);
    let lines = render(&mut root, &options(9, false), UnitSystem::Binary);
    assert_eq!(lines, vec!["         2 r/x", "         3 r"]);
}

#[test]
fn hidden_root_gets_no_line() {
    let mut root = Entry::dir(".r".to_string(), true, vec![file(".r/a", 1)]);
    let lines = render(&mut root, &options(1, true), UnitSystem::Binary);
    assert!(lines.is_empty());
}

#[test]
fn human_readable_lines_in_binary_units() {
    let mut root = dir("r", vec![file("r/a", 1536), file("r/b", 512)]);
    let options = Options { max_depth: 1, bytes: false, sort: false, ignore: false };
    let lines = render(&mut root, &options, UnitSystem::Binary);
    assert_eq!(lines, vec!["   1.5 KiB r/a", "     512 B r/b", "     2 KiB r"]);
}

#[test]
fn human_readable_lines_in_decimal_units() {
    let mut root = dir("r", vec![file("r/a", 1500), file("r/b", 500)]);
    let options = Options { max_depth: 1, bytes: false, sort: false, ignore: false };
    let lines = render(&mut root, &options, UnitSystem::Decimal);
    assert_eq!(lines, vec!["    1.5 kB r/a", "     500 B r/b", "      2 kB r"]);
}

#[test]
fn report_reads_the_tree_without_changing_it() {
    let root = sample();
    let lines = report(&root, &options(1, true), UnitSystem::Binary);
    assert_eq!(
        lines,
        vec!["       500 r/big", "        10 r/small", "        50 r/mid", "       560 r"]
    );
    assert_eq!(child_paths(&root), vec!["r/big", "r/small", "r/mid"]);
}

#[test]
fn collect_appends_to_the_lines_given() {
    let root = dir("r", vec![file("r/a", 1)]);
    let mut lines = vec!["first".to_string()];
    collect(&root, 0, 1, true, UnitSystem::Binary, &mut lines);
    assert_eq!(lines, vec!["first", "         1 r/a", "         1 r"]);
    collect(&root, 2, 1, true, UnitSystem::Binary, &mut lines);
    assert_eq!(lines.len(), 3);
    collect(&root, 1, 1, true, UnitSystem::Binary, &mut lines);
    assert_eq!(lines[3], "         1 r");
    assert_eq!(lines.len(), 4);
}

#[test]
fn arrange_without_sorting_changes_nothing() {
    let tree = arrange(sample(), 0, 9, false);
    assert_eq!(child_paths(&tree), vec!["r/big", "r/small", "r/mid"]);
    assert_eq!(child_paths(child(&tree, 0)), vec!["r/big/y", "r/big/x"]);
}

#[test]
fn arrange_beyond_the_limit_changes_nothing() {
    let tree = arrange(sample(), 1, 0, true);
    assert_eq!(child_paths(&tree), vec!["r/big", "r/small", "r/mid"]);
}

#[test]
fn arrange_keeps_sizes_and_flags() {
    let hidden = Entry::dir("r/.h".to_string(), true, vec![file("r/.h/b", 9), file("r/.h/a", 1)]);
    let tree = arrange(dir("r", vec![file("r/x", 20), hidden]), 0, 9, true);
    assert_eq!(tree.size(), 30);
    assert_eq!(tree.path(), "r");
    assert!(!tree.is_hidden());
    assert!(child(&tree, 0).is_hidden());
    assert_eq!(child(&tree, 0).size(), 10);
}

#[test]
fn rendered_sizes_never_go_down_among_siblings() {
    let mut children = Vec::new();
    for i in 0..200u64 {
        children.push(file(&format!("r/f{}", i), (i * 37) % 11));
    }
    let mut root = dir("r", children);
    let lines = render(&mut root, &options(1, true), UnitSystem::Binary);
    assert_eq!(lines.len(), 201);
    let sizes: Vec<u64> = lines[..200]
        .iter()
        .map(|line| line.trim_start().split(' ').next().unwrap().parse().unwrap())
        .collect();
    assert!(sizes.windows(2).all(|pair| pair[0] <= pair[1]));
}

#[test]
fn unreadable_subdirectory_is_absent_from_the_report() {
    let leaf = |path: &str, blocks: u64| Probe {
        path: path.to_string(),
        marker: HiddenMarker::DotName,
        node: Node::File(SizeReading::Blocks(blocks)),
    };
    let tree = Probe {
        path: "top".to_string(),
        marker: HiddenMarker::DotName,
        node: Node::Dir(Some(vec![
            Probe {
                path: "top/open".to_string(),
                marker: HiddenMarker::DotName,
                node: Node::Dir(Some(vec![
                    leaf("top/open/f", 8),
                    Probe {
                        path: "top/open/shut".to_string(),
                        marker: HiddenMarker::DotName,
                        node: Node::Dir(None),
                    },
                ])),
            },
            leaf("top/g", 2),
        ])),
    };
    let matcher = IgnoreMatcher::new(false, Gitignore::empty());
    let mut root = build(&tree, &matcher).unwrap();
    let lines = render(&mut root, &options(9, false), UnitSystem::Binary);
    assert_eq!(
        lines,
        vec!["      4096 top/open/f", "      4096 top/open", "      1024 top/g", "      5120 top"]
    );
}
