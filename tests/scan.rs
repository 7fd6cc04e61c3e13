use tree_size::{build_directory, Node, Notice, Report, Request, Resolved, Scanner, SkipReason, PLACEHOLDER_NAME};

fn file(name: &str, len: u64) -> Report {
    Report::File { name: Some(name.to_string()), len: Some(len) }
}

fn dir(name: &str, id: usize) -> Report {
    Report::Directory { name: Some(name.to_string()), dir: id }
}

/// Drives a scan of directory 0 against a filesystem given as a function from a
/// directory's number to its listing; returns the tree, the diagnostics and the
/// directories that were listed, in order.
fn run(depth: usize, fs: &dyn Fn(usize) -> Option<Vec<Report>>) -> (Node, Vec<Notice>, Vec<usize>) {
    let mut scanner = Scanner::new(0, depth);
    let mut notices = Vec::new();
    let mut listed = Vec::new();
    loop {
        match scanner.request() {
            Request::List { dir } => {
                listed.push(dir);
                scanner.receive(fs(dir));
                notices.extend(scanner.take_notices());
            }
            Request::Finished => break,
        }
    }
    (scanner.finish().unwrap(), notices, listed)
}

fn child<'a>(n: &'a Node, name: &str) -> &'a Node {
    &n.children.iter().find(|c| c.0 == name).unwrap().1
}

fn aggregated(n: &Node) -> bool {
    (n.children.is_empty() || n.size == n.children.iter().map(|c| c.1.size).sum::<u64>())
        && n.children.iter().all(|c| aggregated(&c.1))
}

#[test]
fn depth_zero_reads_nothing() {
    let (root, notices, listed) = run(0, &|_| Some(vec![file("a", 10)]));
    assert_eq!(root.size, 0);
    assert!(root.children.is_empty());
    assert!(notices.is_empty());
    assert!(listed.is_empty());
}

#[test]
fn files_add_up() {
    let (root, _, _) = run(1, &|_| Some(vec![file("a", 3), file("b", 5), file("c", 7)]));
    assert_eq!(root.size, 15);
    assert_eq!(root.children.len(), 3);
    assert_eq!(child(&root, "a").size, 3);
    assert_eq!(child(&root, "b").size, 5);
    assert_eq!(child(&root, "c").size, 7);
    assert!(child(&root, "c").children.is_empty());
}

#[test]
fn chain_is_cut_at_the_budget() {
    // 0 -> 1 -> 2 -> 3 -> 4, each holding one file of 1 byte and the next directory.
    let fs = |d: usize| {
        if d < 4 {
            Some(vec![file("f", 1), dir("d", d + 1)])
        } else {
            Some(vec![file("f", 1)])
        }
    };
    let (root, _, listed) = run(3, &fs);
    assert_eq!(listed, vec![0, 1, 2]);
    let l1 = child(&root, "d");
    let l2 = child(l1, "d");
    let l3 = child(l2, "d");
    assert_eq!(l3.size, 0);
    assert!(l3.children.is_empty());
    assert_eq!(l2.size, 1);
    assert_eq!(l1.size, 2);
    assert_eq!(root.size, 3);
}

#[test]
fn unreadable_metadata_is_left_out() {
    let fs = |_| {
        Some(vec![
            file("a", 1),
            file("b", 2),
            Report::File { name: Some("bad".to_string()), len: None },
            file("c", 3),
            file("d", 4),
            file("e", 5),
        ])
    };
    let (root, notices, _) = run(2, &fs);
    assert_eq!(root.children.len(), 5);
    assert_eq!(root.size, 15);
    assert!(root.children.iter().all(|c| c.0 != "bad"));
    assert_eq!(notices, vec![Notice::Skipped { dir: 0, entry: 2, reason: SkipReason::MetadataUnreadable }]);
}

#[test]
fn empty_directory_is_empty() {
    let (root, notices, _) = run(4, &|_| Some(vec![]));
    assert_eq!(root.size, 0);
    assert!(root.children.is_empty());
    assert!(notices.is_empty());
}

#[test]
fn repeated_scans_agree() {
    let fs = |d: usize| match d {
        0 => Some(vec![file("x", 9), dir("sub", 1), dir("gone", 2)]),
        1 => Some(vec![file("y", 4), file("z", 6)]),
        _ => None,
    };
    let (a, _, _) = run(3, &fs);
    let (b, _, _) = run(3, &fs);
    assert_eq!(a, b);
    assert_eq!(a.size, 19);
}

#[test]
fn sizes_aggregate_at_every_level() {
    let fs = |d: usize| match d {
        0 => Some(vec![dir("a", 1), file("r", 100), dir("b", 2)]),
        1 => Some(vec![dir("aa", 3), file("x", 7)]),
        2 => Some(vec![file("y", 11), Report::Unresolvable]),
        3 => Some(vec![file("z", 13), file("w", 17)]),
        _ => None,
    };
    let (root, _, _) = run(8, &fs);
    assert!(aggregated(&root));
    assert_eq!(root.size, 148);
    assert_eq!(child(child(&root, "a"), "aa").size, 30);
}

#[test]
fn unreadable_directory_stands_as_empty() {
    let fs = |d: usize| match d {
        0 => Some(vec![dir("locked", 1), file("f", 8)]),
        _ => None,
    };
    let (root, notices, _) = run(2, &fs);
    assert_eq!(root.size, 8);
    assert_eq!(root.children.len(), 2);
    assert_eq!(child(&root, "locked").size, 0);
    assert_eq!(notices, vec![Notice::Unreadable { dir: 1 }]);
}

#[test]
fn unreadable_root_gives_empty_tree() {
    let (root, notices, _) = run(3, &|_| None);
    assert_eq!(root.size, 0);
    assert!(root.children.is_empty());
    assert_eq!(notices, vec![Notice::Unreadable { dir: 0 }]);
}

#[test]
fn skipped_entries_are_reported() {
    let fs = |_| Some(vec![Report::Unresolvable, Report::Untyped, file("ok", 2)]);
    let (root, notices, _) = run(1, &fs);
    assert_eq!(root.size, 2);
    assert_eq!(root.children.len(), 1);
    assert_eq!(
        notices,
        vec![
            Notice::Skipped { dir: 0, entry: 0, reason: SkipReason::EntryUnresolvable },
            Notice::Skipped { dir: 0, entry: 1, reason: SkipReason::KindUnknown },
        ]
    );
}

#[test]
fn undecodable_name_gets_placeholder() {
    let fs = |_| Some(vec![Report::File { name: None, len: Some(12) }]);
    let (root, _, _) = run(1, &fs);
    assert_eq!(root.children[0].0, PLACEHOLDER_NAME);
    assert_eq!(root.children[0].0, "Invalid UTF-8 Name");
    assert_eq!(root.size, 12);
}

#[test]
fn subdirectory_at_last_level_is_not_listed() {
    let fs = |d: usize| match d {
        0 => Some(vec![dir("inner", 1)]),
        _ => Some(vec![file("hidden", 50)]),
    };
    let (root, _, listed) = run(1, &fs);
    assert_eq!(listed, vec![0]);
    assert_eq!(root.children.len(), 1);
    assert_eq!(child(&root, "inner").size, 0);
    assert_eq!(root.size, 0);
}

#[test]
fn listing_order_is_kept() {
    let (root, _, _) = run(1, &|_| Some(vec![file("b", 1), file("a", 2), file("c", 3)]));
    let names: Vec<&str> = root.children.iter().map(|c| c.0.as_str()).collect();
    assert_eq!(names, vec!["b", "a", "c"]);
}

#[test]
fn build_directory_sums_kept_entries() {
    let n = build_directory(vec![
        Resolved::Leaf { name: "a".to_string(), size: 4 },
        Resolved::Skipped,
        Resolved::Sub { name: "s".to_string(), node: Node::leaf(6) },
    ]);
    assert_eq!(n.size, 10);
    assert_eq!(n.children.len(), 2);
    assert_eq!(n.children[1].0, "s");
}

#[test]
fn build_directory_leaves_out_what_overflows() {
    let n = build_directory(vec![
        Resolved::Leaf { name: "big".to_string(), size: u64::MAX - 1 },
        Resolved::Leaf { name: "more".to_string(), size: 5 },
        Resolved::Leaf { name: "one".to_string(), size: 1 },
    ]);
    assert_eq!(n.size, u64::MAX);
    assert_eq!(n.children.len(), 2);
    assert_eq!(n.children[1].0, "one");
}

#[test]
fn build_directory_of_nothing_is_empty() {
    let n = build_directory(Vec::new());
    assert_eq!(n, Node::empty());
    assert_eq!(n.child_count(), 0);
}

#[test]
fn notices_come_in_walk_order() {
    let fs = |d: usize| match d {
        0 => Some(vec![Report::Unresolvable, dir("a", 1), Report::Untyped, dir("b", 2)]),
        1 => Some(vec![Report::File { name: Some("m".to_string()), len: None }]),
        _ => None,
    };
    let (root, notices, listed) = run(2, &fs);
    assert_eq!(listed, vec![0, 1, 2]);
    assert_eq!(root.children.len(), 2);
    assert_eq!(
        notices,
        vec![
            Notice::Skipped { dir: 0, entry: 0, reason: SkipReason::EntryUnresolvable },
            Notice::Skipped { dir: 1, entry: 0, reason: SkipReason::MetadataUnreadable },
            Notice::Skipped { dir: 0, entry: 2, reason: SkipReason::KindUnknown },
            Notice::Unreadable { dir: 2 },
        ]
    );
}
