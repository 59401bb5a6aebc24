use treesize::analyze;
use treesize::model::{EntryKind, RawEntry};
use treesize::pathops::simplify_roots;

fn file(path: &str, device: u64, inode: u64, apparent: u64, allocated: u64) -> RawEntry {
    RawEntry {
        path: path.to_string(),
        device,
        inode,
        kind: EntryKind::File,
        apparent_size: apparent,
        allocated_size: allocated,
        children: Vec::new(),
    }
}

fn dir(
    path: &str,
    device: u64,
    inode: u64,
    apparent: u64,
    allocated: u64,
    children: Vec<RawEntry>,
) -> RawEntry {
    RawEntry {
        path: path.to_string(),
        device,
        inode,
        kind: EntryKind::Directory,
        apparent_size: apparent,
        allocated_size: allocated,
        children,
    }
}

fn symlink(path: &str, device: u64, inode: u64, apparent: u64, allocated: u64) -> RawEntry {
    RawEntry {
        path: path.to_string(),
        device,
        inode,
        kind: EntryKind::Symlink,
        apparent_size: apparent,
        allocated_size: allocated,
        children: Vec::new(),
    }
}

fn fx_test_dir() -> RawEntry {
    dir(
        "src/test_dir",
        1,
        1,
        4096,
        4096,
        vec![dir(
            "src/test_dir/many",
            1,
            2,
            4096,
            4096,
            vec![
                file("src/test_dir/many/a_file", 1, 3, 0, 0),
                file("src/test_dir/many/hello_file", 1, 4, 6, 4096),
            ],
        )],
    )
}

#[test]
fn test_main() {
    let lines = analyze(&vec![fx_test_dir()], false, false, None, false);
    assert_eq!(
        lines,
        vec![
            "  12K ─┬ src/test_dir".to_string(),
            " 8.0K  └─┬ many".to_string(),
            " 4.0K    ├── hello_file".to_string(),
            "   0B    └── a_file".to_string(),
        ]
    );
}

#[test]
fn test_main_long_paths() {
    let lines = analyze(&vec![fx_test_dir()], false, false, None, true);
    assert_eq!(
        lines,
        vec![
            "  12K ─┬ src/test_dir".to_string(),
            " 8.0K  └─┬ src/test_dir/many".to_string(),
            " 4.0K    ├── src/test_dir/many/hello_file".to_string(),
            "   0B    └── src/test_dir/many/a_file".to_string(),
        ]
    );
}

#[test]
fn test_main_multi_arg() {
    let roots = vec![
        "src/test_dir/many/".to_string(),
        "src/test_dir/".to_string(),
        "src/test_dir".to_string(),
    ];
    let simplified = simplify_roots(&roots);
    assert_eq!(simplified, vec!["src/test_dir".to_string()]);
    let lines = analyze(&vec![fx_test_dir()], false, false, None, false);
    assert_eq!(
        lines,
        vec![
            "  12K ─┬ src/test_dir".to_string(),
            " 8.0K  └─┬ many".to_string(),
            " 4.0K    ├── hello_file".to_string(),
            "   0B    └── a_file".to_string(),
        ]
    );
}

#[test]
fn test_apparent_size() {
    let lines = analyze(&vec![fx_test_dir()], true, false, None, false);
    let expected = "   6B    ├── hello_file";
    assert!(lines.iter().any(|l| l.contains(expected)));
}

#[test]
fn test_reverse_flag() {
    let lines = analyze(&vec![fx_test_dir()], false, true, None, false);
    let a = "    ┌── a_file";
    let b = "    ├── hello_file";
    let c = "  ┌─┴ many";
    let d = " ─┴ src/test_dir";
    assert!(lines.iter().any(|l| l.contains(a)));
    assert!(lines.iter().any(|l| l.contains(b)));
    assert!(lines.iter().any(|l| l.contains(c)));
    assert!(lines.iter().any(|l| l.contains(d)));
}

#[test]
fn test_d_flag_works() {
    let lines = analyze(&vec![fx_test_dir()], true, false, Some(1), false);
    assert!(lines.iter().all(|l| !l.contains("hello_file")));
    assert!(!lines.is_empty());
}

fn fx_test_dir2(dir_own: u64) -> RawEntry {
    dir(
        "src/test_dir2",
        2,
        1,
        dir_own,
        dir_own,
        vec![
            dir(
                "src/test_dir2/dir_substring",
                2,
                5,
                dir_own,
                dir_own,
                vec![file("src/test_dir2/dir_substring/hello", 2, 6, 6, 4096)],
            ),
            file("src/test_dir2/dir_name_clash", 2, 4, 6, 4096),
            dir(
                "src/test_dir2/dir",
                2,
                2,
                dir_own,
                dir_own,
                vec![file("src/test_dir2/dir/hello", 2, 3, 6, 4096)],
            ),
        ],
    )
}

#[test]
fn test_substring_of_names() {
    let lines = analyze(&vec![fx_test_dir2(4096)], false, false, None, false);
    assert!(lines.iter().any(|l| l.contains(" ─┬ src/test_dir2")));
    assert!(lines.iter().any(|l| l.contains("  ├─┬ dir")));
    assert!(lines.iter().any(|l| l.contains("  │ └── hello")));
    assert!(lines.iter().any(|l| l.contains("  ├─┬ dir_substring")));
    assert!(lines.iter().any(|l| l.contains("  └── dir_name_clash")));
}

#[test]
fn tests_test_substring_of_names() {
    let lines = analyze(&vec![fx_test_dir2(0)], false, false, None, false);
    assert!(lines.iter().any(|l| l.contains(" ─┬ src/test_dir2")));
    assert!(lines.iter().any(|l| l.contains("  ├─┬ dir")));
    assert!(lines.iter().any(|l| l.contains("  │ └── hello")));
    assert!(lines.iter().any(|l| l.contains("  ├── dir_name_clash")));
    assert!(lines.iter().any(|l| l.contains("  └─┬ dir_substring")));
    assert!(lines.iter().any(|l| l.contains("    └── hello")));
}

#[test]
fn test_soft_sym_link() {
    let root = dir(
        "tmpdir",
        3,
        1,
        4096,
        4096,
        vec![
            file("tmpdir/notes.txt", 3, 2, 17, 4096),
            symlink("tmpdir/the_link", 3, 3, 0, 0),
        ],
    );
    let lines = analyze(&vec![root], false, false, None, false);
    assert_eq!(
        lines,
        vec![
            " 8.0K ─┬ tmpdir".to_string(),
            " 4.0K  ├── notes.txt".to_string(),
            "   0B  └── the_link".to_string(),
        ]
    );
}

// Hard links are ignored as the inode is the same as the file
#[test]
fn test_hard_sym_link() {
    let root = dir(
        "tmpdir",
        3,
        1,
        4096,
        4096,
        vec![
            file("tmpdir/notes.txt", 3, 2, 17, 4096),
            file("tmpdir/the_link", 3, 2, 17, 4096),
        ],
    );
    let lines = analyze(&vec![root], false, false, None, false);
    assert_eq!(lines.len(), 2);
    assert!(lines[0].contains(" 8.0K ─┬ tmpdir"));
    assert!(lines[1].contains("notes.txt"));
    assert!(lines.iter().all(|l| !l.contains("the_link")));
}

// Check we don't recurse down an infinite symlink tree
#[test]
fn test_recursive_sym_link() {
    // even a listing mistakenly gathered below the link must stay unseen
    let mut link = symlink("tmpdir/the_link", 4, 2, 0, 0);
    link.children = vec![file("tmpdir/the_link/ghostly", 4, 3, 5, 4096)];
    let root = dir("tmpdir", 4, 1, 4096, 4096, vec![link]);
    let lines = analyze(&vec![root], false, false, None, false);
    assert_eq!(
        lines,
        vec![" 4.0K ─┬ tmpdir".to_string(), "   0B  └── the_link".to_string()]
    );
    assert!(lines.iter().all(|l| !l.contains("ghostly")));
}
