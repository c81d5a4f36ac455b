use rust_tree::formatters::streaming_tree::{build_label, build_prefix, note_record, render_record};
use rust_tree::formatters::table::{format_compact, format_summary_size, order_by_count};
use rust_tree::formatters::tree::{
    count_files_recursive, format_tree, format_tree_with_links, LinkTarget,
};
use rust_tree::models::{FileTypeInfo, FsNode, FsNodeType, TreeStats};
use rust_tree::streaming::StreamNode;
use rust_tree::text::{decimal_string, path_base_name, str_before, str_equal};

fn record(name: &str, kind: FsNodeType, size: u64, depth: usize, is_last: bool) -> StreamNode {
    StreamNode {
        name: name.to_string(),
        path: format!("/root/{}", name),
        node_type: kind,
        size,
        depth,
        has_children: false,
        is_last,
    }
}

fn sample_root() -> FsNode {
    let inner = FsNode::new_directory(
        "src".into(),
        "/root/src".into(),
        1,
        vec![
            FsNode::new("main.rs".into(), "/root/src/main.rs".into(), FsNodeType::File, 1000, 2),
            FsNode::new("empty".into(), "/root/src/empty".into(), FsNodeType::File, 0, 2),
        ],
    );
    let link = FsNode::new("latest".into(), "/root/latest".into(), FsNodeType::Symlink, 9, 1);
    FsNode::new_directory(
        "root".into(),
        "/root".into(),
        0,
        vec![inner, link, FsNode::new("a.txt".into(), "/root/a.txt".into(), FsNodeType::File, 0, 1)],
    )
}

#[test]
fn test_build_prefix() {
    let prefix_stack = vec![false, false];
    let prefix = build_prefix(&prefix_stack, 1);
    assert_eq!(prefix, "├── ");
}

#[test]
fn test_build_prefix_last() {
    let prefix_stack = vec![true, false];
    let prefix = build_prefix(&prefix_stack, 1);
    assert_eq!(prefix, "└── ");
}

#[test]
fn test_build_prefix_nested() {
    let prefix_stack = vec![false, true, false];
    let prefix = build_prefix(&prefix_stack, 2);
    assert_eq!(prefix, "│   └── ");
}

#[test]
fn test_build_prefix_edges() {
    assert_eq!(build_prefix(&[true, true], 0), "");
    assert_eq!(build_prefix(&[], 3), "");
    assert_eq!(build_prefix(&[true], 3), "    ");
    assert_eq!(build_prefix(&[true, false, true], 3), "    │   └── ");
}

#[test]
fn test_format_tree_simple() {
    let file1 = FsNode::new(
        "file.txt".into(),
        "/test/file.txt".into(),
        FsNodeType::File,
        1024,
        1,
    );
    let mut dir1 = FsNode::new(
        "subdir".into(),
        "/test/subdir".into(),
        FsNodeType::Directory,
        0,
        1,
    );
    dir1.children = Some(vec![]);

    let mut root = FsNode::new(
        "root".into(),
        "/test".into(),
        FsNodeType::Directory,
        0,
        0,
    );
    root.children = Some(vec![dir1, file1]);

    let output = format_tree(&root, false);

    assert!(output.contains("root/"));
    assert!(output.contains("subdir/"));
    assert!(output.contains("file.txt"));
    assert_eq!(output, "root/\n├── subdir/\n└── file.txt\n");
}

#[test]
fn test_format_size() {
    let s1 = format_summary_size(1024);
    assert!(s1.contains("K") || s1.contains("k"));
    let s2 = format_summary_size(1048576);
    assert!(s2.contains("M") || s2.contains("m"));
    assert_eq!(format_summary_size(1000), "1 kB");
    assert_eq!(format_summary_size(0), "0 B");
}

#[test]
fn test_format_compact() {
    let stats = TreeStats {
        total_files: 10,
        total_directories: 2,
        total_symlinks: 0,
        total_size: 2048,
        files_by_extension: Vec::new(),
        largest_files: vec![],
        scan_duration_ms: 50,
    };

    let compact = format_compact(&stats);
    assert!(compact.contains("10 files"));
    assert!(compact.contains("2 directories"));
    assert_eq!(compact, "10 files, 2 directories, 2.05 kB total");
    assert_eq!(format_compact(&TreeStats::new()), "0 files, 0 directories, 0 B total");
}

#[test]
fn test_format_tree_nested() {
    let root = sample_root();
    assert_eq!(
        format_tree(&root, false),
        "root/\n├── src/\n│   ├── main.rs\n│   └── empty\n├── latest -> \n└── a.txt\n"
    );
    assert_eq!(
        format_tree(&root, true),
        "root (3 files)/\n├── src/ (2 files)\n│   ├── main.rs (1 kB)\n│   └── empty\n├── latest -> \n└── a.txt\n"
    );
}

#[test]
fn test_format_tree_with_links() {
    let root = sample_root();
    let links = vec![
        LinkTarget { path: "/elsewhere".into(), target: "nowhere".into() },
        LinkTarget { path: "/root/latest".into(), target: "v2".into() },
        LinkTarget { path: "/root/latest".into(), target: "v1".into() },
    ];
    assert_eq!(
        format_tree_with_links(&root, false, &links),
        "root/\n├── src/\n│   ├── main.rs\n│   └── empty\n├── latest -> v2\n└── a.txt\n"
    );
}

#[test]
fn test_format_tree_of_a_leaf_root() {
    let leaf = FsNode::new("single".into(), "/single".into(), FsNodeType::File, 1000, 0);
    assert_eq!(format_tree(&leaf, false), "single/\n");
    assert_eq!(format_tree(&leaf, true), "single (1 kB)/\n");
    let empty_dir = FsNode::new("void".into(), "/void".into(), FsNodeType::Directory, 0, 0);
    assert_eq!(format_tree(&empty_dir, true), "void (0 files)/\n");
}

#[test]
fn test_count_files_recursive() {
    let root = sample_root();
    assert_eq!(count_files_recursive(&root), 3);
    assert_eq!(count_files_recursive(&root.children.as_ref().unwrap()[0]), 2);
    assert_eq!(count_files_recursive(&root.children.as_ref().unwrap()[1]), 0);
}

#[test]
fn test_build_label() {
    let folder = record("src", FsNodeType::Directory, 0, 1, false);
    assert_eq!(build_label(&folder, true, None), "src/");
    let plain = record("main.rs", FsNodeType::File, 1000, 2, true);
    assert_eq!(build_label(&plain, false, None), "main.rs");
    assert_eq!(build_label(&plain, true, None), "main.rs (1 kB)");
    let empty = record("empty", FsNodeType::File, 0, 2, true);
    assert_eq!(build_label(&empty, true, None), "empty");
    let pointer = record("latest", FsNodeType::Symlink, 9, 1, true);
    assert_eq!(build_label(&pointer, true, Some("v2")), "latest -> v2");
    assert_eq!(build_label(&pointer, true, None), "latest -> ");
}

#[test]
fn test_render_record_keeps_the_stack() {
    let mut stack: Vec<bool> = Vec::new();
    let lines = vec![
        render_record(&mut stack, &record("src", FsNodeType::Directory, 0, 1, false), false, None),
        render_record(&mut stack, &record("main.rs", FsNodeType::File, 5, 2, false), false, None),
        render_record(&mut stack, &record("util.rs", FsNodeType::File, 5, 2, true), false, None),
        render_record(&mut stack, &record("README", FsNodeType::File, 5, 1, true), false, None),
    ];
    assert_eq!(
        lines,
        vec!["├── src/", "│   ├── main.rs", "│   └── util.rs", "└── README"]
    );
    assert_eq!(stack, vec![true, true, false]);
    let mut fresh: Vec<bool> = Vec::new();
    let top = render_record(&mut fresh, &record("top", FsNodeType::File, 5, 0, true), false, None);
    assert_eq!(top, "top");
    assert_eq!(fresh, vec![false]);
}

#[test]
fn test_text_primitives() {
    assert_eq!(decimal_string(0), "0");
    assert_eq!(decimal_string(7), "7");
    assert_eq!(decimal_string(1203), "1203");
    assert_eq!(decimal_string(u64::MAX), "18446744073709551615");
    assert_eq!(path_base_name("a/b/c.txt"), "c.txt");
    assert_eq!(path_base_name("plain"), "plain");
    assert_eq!(path_base_name("dir/"), "");
    assert_eq!(path_base_name("/top"), "top");
    assert!(str_before("a", "b"));
    assert!(str_before("", "a"));
    assert!(str_before("ab", "abc"));
    assert!(str_before("Z", "a"));
    assert!(!str_before("b", "a"));
    assert!(!str_before("same", "same"));
    assert!(str_before("z", "é"));
    assert!(str_equal("same", "same"));
    assert!(!str_equal("same", "sama"));
    assert!(!str_equal("same", "samee"));
    assert!(str_equal("", ""));
}

#[test]
fn test_order_by_count() {
    let bucket = |extension: &str, count: usize| FileTypeInfo {
        extension: extension.to_string(),
        count,
        total_size: 0,
    };
    let buckets = vec![bucket(".md", 1), bucket(".rs", 5), bucket(".txt", 1), bucket(".toml", 3)];
    assert_eq!(order_by_count(&buckets), vec![1, 3, 0, 2]);
    assert_eq!(order_by_count(&Vec::new()), Vec::<usize>::new());
}

#[test]
fn test_note_record() {
    let mut stack = vec![true];
    note_record(&mut stack, 3, true);
    assert_eq!(stack, vec![true, false, true, false]);
    note_record(&mut stack, 1, false);
    assert_eq!(stack, vec![false, false, true, false]);
    note_record(&mut stack, 0, true);
    assert_eq!(stack, vec![false, false, true, false]);
}
