use treesize::analyze;
use treesize::builder::build;
use treesize::model::{EntryKind, Node, RawEntry};
use treesize::pathops::{basename_of, normalize, simplify_roots};
use treesize::sizefmt::format_size;
use treesize::sorter::sort_trees;
use treesize::tracker::IdentityTracker;

fn file(path: &str, device: u64, inode: u64, apparent: u64, allocated: u64) -> RawEntry {
    RawEntry {
        path: path.to_string(),
        device,
        inode,
        kind: EntryKind::File,
        apparent_size: apparent,
        allocated_size: allocated,
        children: Vec::new(),
    }
}

fn dir(
    path: &str,
    device: u64,
    inode: u64,
    own: u64,
    children: Vec<RawEntry>,
) -> RawEntry {
    RawEntry {
        path: path.to_string(),
        device,
        inode,
        kind: EntryKind::Directory,
        apparent_size: own,
        allocated_size: own,
        children,
    }
}

#[test]
fn format_size_exact_values() {
    assert_eq!(format_size(0), "   0B");
    assert_eq!(format_size(17), "  17B");
    assert_eq!(format_size(1023), "1023B");
    assert_eq!(format_size(1024), " 1.0K");
    assert_eq!(format_size(4096), " 4.0K");
    assert_eq!(format_size(12288), "  12K");
    assert_eq!(format_size(1048575), "1023K");
    assert_eq!(format_size(1048576), " 1.0M");
    assert_eq!(format_size(1610612736), " 1.5G");
    assert_eq!(format_size(u64::MAX), "  15E");
}

#[test]
fn tracker_observe_once() {
    let mut t = IdentityTracker::new();
    assert!(t.observe(1, 1));
    assert!(!t.observe(1, 1));
    assert!(t.observe(1, 2));
    assert!(t.observe(2, 1));
    assert!(!t.observe(2, 1));
}

#[test]
fn build_skips_second_sight_of_a_root() {
    let mut t = IdentityTracker::new();
    let a = file("a", 1, 1, 5, 4096);
    let again = file("a-again", 1, 1, 5, 4096);
    let first = build(&a, &mut t, false);
    assert!(first.is_some());
    assert!(build(&again, &mut t, false).is_none());
}

fn recompute(n: &Node) -> u64 {
    let mut sum = n.own_size;
    for c in n.children.iter() {
        sum = sum.saturating_add(recompute(c));
    }
    sum
}

#[test]
fn aggregation_recomputable_from_tree() {
    let root = dir(
        "r",
        1,
        1,
        4096,
        vec![
            dir(
                "r/a",
                1,
                2,
                4096,
                vec![file("r/a/x", 1, 3, 1, 100), file("r/a/y", 1, 4, 2, 200)],
            ),
            file("r/b", 1, 5, 3, 300),
        ],
    );
    let mut t = IdentityTracker::new();
    let n = build(&root, &mut t, false).unwrap();
    assert_eq!(n.aggregate_size, recompute(&n));
    assert_eq!(n.aggregate_size, 4096 + 4096 + 100 + 200 + 300);
    assert!(n.aggregate_size >= n.own_size);
}

#[test]
fn hard_links_counted_once_across_directories() {
    // the same physical file under two directories: one visible node,
    // counted in one aggregate chain only
    let root = dir(
        "r",
        1,
        1,
        0,
        vec![
            dir("r/d1", 1, 2, 0, vec![file("r/d1/f", 1, 9, 100, 100)]),
            dir("r/d2", 1, 3, 0, vec![file("r/d2/f", 1, 9, 100, 100)]),
        ],
    );
    let mut t = IdentityTracker::new();
    let n = build(&root, &mut t, false).unwrap();
    assert_eq!(n.aggregate_size, 100);
    let shown: usize = n.children.iter().map(|d| d.children.len()).sum();
    assert_eq!(shown, 1);
}

#[test]
fn overlapping_roots_identity_level() {
    // the second root is the same physical object: it contributes nothing
    let a1 = dir("a", 1, 1, 4096, vec![file("a/f", 1, 2, 5, 4096)]);
    let a2 = dir("a-alias", 1, 1, 4096, vec![file("a-alias/f", 1, 2, 5, 4096)]);
    let one = analyze(&vec![a1], false, false, None, false);
    let a1b = dir("a", 1, 1, 4096, vec![file("a/f", 1, 2, 5, 4096)]);
    let both = analyze(&vec![a1b, a2], false, false, None, false);
    assert_eq!(one, both);
}

#[test]
fn reverse_order_is_involution_on_siblings() {
    let root = dir(
        "r",
        1,
        1,
        0,
        vec![
            file("r/big", 1, 2, 0, 9000),
            file("r/mid", 1, 3, 0, 5000),
            file("r/tiny", 1, 4, 0, 100),
        ],
    );
    let mut t = IdentityTracker::new();
    let n = build(&root, &mut t, false).unwrap();
    let forest = vec![n];
    let default_order = sort_trees(&forest, false);
    let ascending = sort_trees(&forest, true);
    let default_paths: Vec<String> =
        default_order[0].children.iter().map(|c| c.path.clone()).collect();
    let mut ascending_paths: Vec<String> =
        ascending[0].children.iter().map(|c| c.path.clone()).collect();
    ascending_paths.reverse();
    assert_eq!(default_paths, ascending_paths);
    assert_eq!(
        default_paths,
        vec!["r/big".to_string(), "r/mid".to_string(), "r/tiny".to_string()]
    );
}

#[test]
fn depth_limit_keeps_full_totals() {
    let root = dir(
        "r",
        1,
        1,
        4096,
        vec![dir(
            "r/a",
            1,
            2,
            4096,
            vec![file("r/a/x", 1, 3, 1, 4096)],
        )],
    );
    let full = analyze(&vec![clone_raw(&root)], false, false, None, false);
    let cut = analyze(&vec![root], false, false, Some(1), false);
    assert_eq!(cut.len(), 2);
    // the root and the truncated directory keep the sizes of the full run
    assert_eq!(full[0][..5], cut[0][..5]);
    assert_eq!(full[1][..5], cut[1][..5]);
    assert!(cut[0].starts_with("  12K"));
    assert!(cut[1].starts_with(" 8.0K"));
}

fn clone_raw(e: &RawEntry) -> RawEntry {
    RawEntry {
        path: e.path.clone(),
        device: e.device,
        inode: e.inode,
        kind: e.kind,
        apparent_size: e.apparent_size,
        allocated_size: e.allocated_size,
        children: e.children.iter().map(clone_raw).collect(),
    }
}

#[test]
fn path_helpers() {
    assert_eq!(basename_of("src/test_dir/many"), "many");
    assert_eq!(basename_of("plain"), "plain");
    assert_eq!(normalize("src/test_dir/"), "src/test_dir");
    assert_eq!(normalize("src/test_dir///"), "src/test_dir");
    assert_eq!(normalize("/"), "/");
    let roots = vec![
        "a".to_string(),
        "a/b".to_string(),
        "ab".to_string(),
        "a".to_string(),
    ];
    // a/b is nested in a; the duplicate a is dropped; ab is only a
    // name-prefix, not a nested path, and stays
    assert_eq!(
        simplify_roots(&roots),
        vec!["a".to_string(), "ab".to_string()]
    );
}

#[test]
fn empty_directory_and_no_roots() {
    let empty = dir("lonely", 7, 1, 4096, vec![]);
    let lines = analyze(&vec![empty], false, false, None, false);
    assert_eq!(lines, vec![" 4.0K ── lonely".to_string()]);
    let none: Vec<RawEntry> = Vec::new();
    assert!(analyze(&none, false, false, None, false).is_empty());
}

#[test]
fn aggregate_saturates_at_the_largest_count() {
    let root = dir(
        "r",
        9,
        1,
        4096,
        vec![
            file("r/vast", 9, 2, u64::MAX, u64::MAX),
            file("r/more", 9, 3, 100, 100),
        ],
    );
    let mut t = IdentityTracker::new();
    let n = build(&root, &mut t, false).unwrap();
    assert_eq!(n.aggregate_size, u64::MAX);
}
