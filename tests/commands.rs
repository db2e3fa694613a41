use workspace_fs::filter::{should_ignore_entry, EntryInfo, EntryKind};
use workspace_fs::path::{path_escapes_root, root_display_name, to_relative_posix_path, validate_path_within_root, FsError};
use workspace_fs::read::{check_read, decode_text, is_binary_file, DEFAULT_MAX_READ_BYTES, PROBE_BYTES};
use workspace_fs::tree::{build_tree, NodeType, TreeNode, WalkEntry, MAX_NODES};

fn dir(name: &str, depth: usize) -> WalkEntry {
    WalkEntry { name: name.to_string(), depth, is_dir: true, size_bytes: None }
}

fn file(name: &str, depth: usize, size: u64) -> WalkEntry {
    WalkEntry { name: name.to_string(), depth, is_dir: false, size_bytes: Some(size) }
}

fn entry(name: &str, kind: EntryKind, target: Option<&str>) -> EntryInfo {
    EntryInfo { name: name.to_string(), kind, resolved_target: target.map(|t| t.to_string()) }
}

fn kids(t: &TreeNode) -> &Vec<TreeNode> {
    t.children.as_ref().unwrap()
}

#[test]
fn test_to_relative_posix_path() {
    assert_eq!(to_relative_posix_path("/home/user/project/src/main.rs", "/home/user/project"), "src/main.rs");
}

#[test]
fn relative_path_of_root_itself_is_empty() {
    assert_eq!(to_relative_posix_path("/home/user/project", "/home/user/project"), "");
}

#[test]
fn relative_path_outside_root_is_kept() {
    assert_eq!(to_relative_posix_path("/home/user/other/a", "/home/user/project"), "/home/user/other/a");
    assert_eq!(to_relative_posix_path("/home/user/projectx/a", "/home/user/project"), "/home/user/projectx/a");
}

#[test]
fn relative_path_turns_backslashes_into_slashes() {
    assert_eq!(to_relative_posix_path("/r/a\\b\\c.txt", "/r"), "a/b/c.txt");
    assert_eq!(to_relative_posix_path("/a", "/"), "a");
}

#[test]
fn containment_accepts_paths_inside_root() {
    assert_eq!(validate_path_within_root("/ws/src/main.txt", "/ws"), Ok("/ws/src/main.txt".to_string()));
    assert_eq!(validate_path_within_root("/ws", "/ws"), Ok("/ws".to_string()));
    assert_eq!(validate_path_within_root("/etc/passwd", "/"), Ok("/etc/passwd".to_string()));
}

#[test]
fn containment_rejects_sibling_with_shared_prefix() {
    assert_eq!(validate_path_within_root("/a/bb", "/a/b"), Err(FsError::Traversal));
    assert_eq!(validate_path_within_root("/root-evil/x", "/root"), Err(FsError::Traversal));
    assert_eq!(validate_path_within_root("/a", "/a/b"), Err(FsError::Traversal));
}

#[test]
fn traversal_outside_root_is_rejected() {
    // "/ws/../outside.txt" resolves to "/outside.txt".
    assert_eq!(validate_path_within_root("/outside.txt", "/ws"), Err(FsError::Traversal));
}

#[test]
fn denylisted_directories_are_ignored() {
    for name in ["node_modules", ".git", "dist", "build", "target", ".next", ".turbo", ".cache"] {
        assert!(should_ignore_entry(&entry(name, EntryKind::Dir, None), "/ws"), "{}", name);
    }
}

#[test]
fn dotted_directories_are_ignored_unless_allowlisted() {
    assert!(should_ignore_entry(&entry(".idea", EntryKind::Dir, None), "/ws"));
    assert!(!should_ignore_entry(&entry(".github", EntryKind::Dir, None), "/ws"));
    assert!(!should_ignore_entry(&entry(".vscode", EntryKind::Dir, None), "/ws"));
    assert!(!should_ignore_entry(&entry("src", EntryKind::Dir, None), "/ws"));
}

#[test]
fn denylisted_files_are_ignored_by_kind() {
    assert!(should_ignore_entry(&entry(".DS_Store", EntryKind::File, None), "/ws"));
    assert!(!should_ignore_entry(&entry(".env", EntryKind::File, None), "/ws"));
    assert!(!should_ignore_entry(&entry("node_modules", EntryKind::File, None), "/ws"));
    assert!(!should_ignore_entry(&entry("pipe", EntryKind::Other, None), "/ws"));
}

#[test]
fn symlinks_are_followed_only_to_files_inside_root() {
    let to_file = EntryKind::Symlink { to_dir: false };
    let to_dir = EntryKind::Symlink { to_dir: true };
    assert!(!should_ignore_entry(&entry("l", to_file, Some("/ws/src/a.txt")), "/ws"));
    assert!(should_ignore_entry(&entry("l", to_file, Some("/etc/passwd")), "/ws"));
    assert!(should_ignore_entry(&entry("l", to_file, Some("/wsx/a.txt")), "/ws"));
    assert!(should_ignore_entry(&entry("l", to_file, None), "/ws"));
    assert!(should_ignore_entry(&entry("l", to_dir, Some("/ws/src")), "/ws"));
}

#[test]
fn read_of_exactly_max_bytes_succeeds_and_one_more_is_too_large() {
    assert_eq!(check_read(true, 100, Some(100), &Some(vec![b'a'; 100])), Ok(()));
    assert_eq!(check_read(true, 101, Some(100), &Some(vec![b'a'; 100])), Err(FsError::TooLarge { size: 101, max: 100 }));
}

#[test]
fn default_read_limit_is_200_kib() {
    assert_eq!(DEFAULT_MAX_READ_BYTES, 204800);
    assert_eq!(check_read(true, 204800, None, &None), Ok(()));
    assert_eq!(check_read(true, 204801, None, &None), Err(FsError::TooLarge { size: 204801, max: 204800 }));
}

#[test]
fn read_of_non_file_is_refused() {
    assert_eq!(check_read(false, 0, None, &None), Err(FsError::NotAFile));
}

#[test]
fn null_byte_in_probe_is_binary() {
    let mut probe = vec![b'x'; PROBE_BYTES];
    probe[PROBE_BYTES - 1] = 0;
    assert!(is_binary_file(&probe));
    assert_eq!(check_read(true, 9000, None, &Some(probe)), Err(FsError::BinaryContent));
    assert!(is_binary_file(&[0u8]));
    assert!(!is_binary_file(&[]));
}

#[test]
fn null_byte_after_probe_is_not_seen() {
    let mut probe = vec![b'x'; PROBE_BYTES + 1];
    probe[PROBE_BYTES] = 0;
    assert!(!is_binary_file(&probe));
    assert_eq!(check_read(true, 9000, None, &Some(probe)), Ok(()));
}

#[test]
fn unreadable_probe_counts_as_text() {
    assert_eq!(check_read(true, 10, None, &None), Ok(()));
}

#[test]
fn read_text_file_scenario() {
    let r = decode_text(b"0123456789".to_vec()).unwrap();
    assert_eq!(r.content, "0123456789");
    assert_eq!(r.size_bytes, 10);
    assert!(!r.truncated);
}

#[test]
fn decoding_keeps_multibyte_text() {
    let r = decode_text("h\u{e9}!".as_bytes().to_vec()).unwrap();
    assert_eq!(r.content, "h\u{e9}!");
    assert_eq!(r.size_bytes, 4);
}

#[test]
fn invalid_utf8_is_a_decode_error() {
    assert!(matches!(decode_text(vec![0x66, 0xff, 0x66]), Err(FsError::Decode)));
}

#[test]
fn list_tree_scenario() {
    // The walk prunes ".git" before it reaches the tree.
    assert!(should_ignore_entry(&entry(".git", EntryKind::Dir, None), "/ws"));
    let t = build_tree("ws", &vec![dir("src", 1), file("main.txt", 2, 10)]);
    assert_eq!(t.name, "ws");
    assert_eq!(t.path, "");
    assert_eq!(t.node_type, NodeType::Dir);
    let top = kids(&t);
    assert_eq!(top.len(), 1);
    assert_eq!(top[0].name, "src");
    assert_eq!(top[0].path, "src");
    assert_eq!(top[0].node_type, NodeType::Dir);
    let inner = kids(&top[0]);
    assert_eq!(inner.len(), 1);
    assert_eq!(inner[0].name, "main.txt");
    assert_eq!(inner[0].path, "src/main.txt");
    assert_eq!(inner[0].node_type, NodeType::File);
    assert_eq!(inner[0].size_bytes, Some(10));
    assert!(!inner[0].is_too_large);
    assert!(inner[0].children.is_none());
}

#[test]
fn children_are_sorted_dirs_first_then_case_insensitive() {
    let t = build_tree(
        "ws",
        &vec![file("b.txt", 1, 1), file("A.txt", 1, 1), dir("Zdir", 1), dir("cdir", 1), file("C.txt", 1, 1)],
    );
    let names: Vec<&str> = kids(&t).iter().map(|n| n.name.as_str()).collect();
    assert_eq!(names, vec!["cdir", "Zdir", "A.txt", "b.txt", "C.txt"]);
}

#[test]
fn large_files_are_marked() {
    let t = build_tree("ws", &vec![file("big.bin", 1, 2097153), file("edge.bin", 1, 2097152), WalkEntry {
        name: "gone".to_string(),
        depth: 1,
        is_dir: false,
        size_bytes: None,
    }]);
    let k = kids(&t);
    assert_eq!(k[0].name, "big.bin");
    assert!(k[0].is_too_large);
    assert_eq!(k[0].size_bytes, Some(2097153));
    assert!(!k[1].is_too_large);
    assert_eq!(k[2].name, "gone");
    assert_eq!(k[2].size_bytes, None);
    assert!(!k[2].is_too_large);
}

#[test]
fn node_count_is_capped() {
    let entries: Vec<WalkEntry> = (0..MAX_NODES + 5).map(|i| file(&format!("f{}", i), 1, 1)).collect();
    let t = build_tree("ws", &entries);
    assert_eq!(kids(&t).len(), MAX_NODES);
}

#[test]
fn nesting_follows_walk_depth() {
    let t = build_tree("ws", &vec![dir("a", 1), dir("b", 2), file("x", 3, 1), file("y", 2, 2), file("z", 1, 3)]);
    let top = kids(&t);
    assert_eq!(top.len(), 2);
    assert_eq!(top[0].name, "a");
    assert_eq!(top[1].path, "z");
    let a = kids(&top[0]);
    assert_eq!(a.len(), 2);
    assert_eq!(a[0].path, "a/b");
    assert_eq!(a[1].path, "a/y");
    assert_eq!(kids(&a[0])[0].path, "a/b/x");
}

#[test]
fn entries_beyond_max_depth_are_dropped() {
    let mut entries = Vec::new();
    for d in 1..=10 {
        entries.push(dir(&format!("d{}", d), d));
    }
    entries.push(file("deep", 11, 1));
    let t = build_tree("ws", &entries);
    let mut node = &kids(&t)[0];
    for _ in 1..10 {
        node = &kids(node)[0];
    }
    assert_eq!(node.name, "d10");
    assert!(kids(node).is_empty());
}

#[test]
fn building_twice_gives_identical_output() {
    let entries = vec![dir("src", 1), file("main.txt", 2, 10), file("README.md", 1, 5)];
    let a = build_tree("ws", &entries);
    let b = build_tree("ws", &entries);
    assert_eq!(format!("{:?}", a), format!("{:?}", b));
}

#[test]
fn root_is_shown_by_its_last_name() {
    assert_eq!(root_display_name("/home/user/project"), "project");
    assert_eq!(root_display_name("/ws"), "ws");
    assert_eq!(root_display_name("/"), "/");
}

#[test]
fn entries_below_a_file_are_passed_over() {
    let t = build_tree("ws", &vec![file("a.txt", 1, 1), file("orphan", 2, 1), file("b.txt", 1, 2)]);
    let top = kids(&t);
    assert_eq!(top.len(), 2);
    assert_eq!(top[0].name, "a.txt");
    assert_eq!(top[1].name, "b.txt");
}

#[test]
fn entries_without_a_proper_name_are_passed_over() {
    let t = build_tree("ws", &vec![file("..", 1, 1), file("a/b", 1, 1), file("", 1, 1), file(".", 1, 1), file("...", 1, 3)]);
    let top = kids(&t);
    assert_eq!(top.len(), 1);
    assert_eq!(top[0].name, "...");
    assert_eq!(top[0].path, "...");
}

#[test]
fn relative_path_skips_every_separator_after_root() {
    assert_eq!(to_relative_posix_path("/a//b", "/a"), "b");
    assert_eq!(to_relative_posix_path("/a///b/c", "/a"), "b/c");
    assert_eq!(to_relative_posix_path("/a/", "/a"), "");
}

#[test]
fn traversal_is_detected_before_the_filesystem_is_asked() {
    // Whether or not "/outside.txt" exists, "../outside.txt" climbs above the root.
    assert!(path_escapes_root("../outside.txt"));
    assert!(path_escapes_root("src/../../x"));
    assert!(path_escapes_root(".."));
    assert!(path_escapes_root("./../x"));
    assert!(!path_escapes_root("src/main.txt"));
    assert!(!path_escapes_root("src/../main.txt"));
    assert!(!path_escapes_root("a/./b//c"));
    assert!(!path_escapes_root("..."));
    assert!(!path_escapes_root("a/.."));
    assert!(!path_escapes_root(""));
}

#[test]
fn each_entry_gives_exactly_one_node() {
    let t = build_tree("ws", &vec![file("a", 1, 1), file("b", 1, 2)]);
    let names: Vec<&str> = kids(&t).iter().map(|n| n.name.as_str()).collect();
    assert_eq!(names, vec!["a", "b"]);
    assert_eq!(kids(&t)[1].size_bytes, Some(2));
}
