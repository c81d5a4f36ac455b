use rust_tree::collector::{
    analyze_by_extension, checked_total_size, collect_dirs_recursive, collect_files_recursive,
    collect_nodes, collect_stats, find_largest_files, get_all_directories, get_all_files,
    total_node_count, try_collect_stats, DEFAULT_MAX_LARGEST,
};
use rust_tree::models::{FileEntry, FsNode, FsNodeType, FsTree, TreeStats};

fn file(name: &str, size: u64, depth: usize) -> FsNode {
    FsNode::new(name.into(), format!("/{}", name), FsNodeType::File, size, depth)
}

fn sample_tree() -> FsTree {
    let inner = FsNode::new_directory(
        "src".into(),
        "/root/src".into(),
        1,
        vec![file("main.rs", 200, 2), file("lib.rs", 100, 2), file("notes", 5, 2)],
    );
    let link = FsNode::new("latest".into(), "/root/latest".into(), FsNodeType::Symlink, 9, 1);
    let root = FsNode::new_directory(
        "root".into(),
        "/root".into(),
        0,
        vec![inner, file("README", 50, 1), file("archive.tar.gz", 400, 1), file("doc.md", 50, 1), link],
    );
    FsTree::new(root, 2)
}

#[test]
fn test_find_largest_files() {
    let files = vec![
        FsNode::new("a.txt".into(), "/a.txt".into(), FsNodeType::File, 100, 0),
        FsNode::new("b.txt".into(), "/b.txt".into(), FsNodeType::File, 500, 0),
        FsNode::new("c.txt".into(), "/c.txt".into(), FsNodeType::File, 200, 0),
        FsNode::new("d.txt".into(), "/d.txt".into(), FsNodeType::File, 1000, 0),
        FsNode::new("e.txt".into(), "/e.txt".into(), FsNodeType::File, 50, 0),
    ];

    let refs: Vec<&FsNode> = files.iter().collect();
    let largest = find_largest_files(&refs, 3);

    assert_eq!(largest.len(), 3);
    assert_eq!(largest[0].size, 1000);
    assert_eq!(largest[1].size, 500);
    assert_eq!(largest[2].size, 200);
}

#[test]
fn test_analyze_by_extension() {
    let files = vec![
        FsNode::new("file.rs".into(), "/file.rs".into(), FsNodeType::File, 100, 0),
        FsNode::new("doc.md".into(), "/doc.md".into(), FsNodeType::File, 50, 0),
        FsNode::new("main.rs".into(), "/main.rs".into(), FsNodeType::File, 200, 0),
    ];

    let refs: Vec<&FsNode> = files.iter().collect();
    let by_ext = analyze_by_extension(&refs);

    assert_eq!(by_ext.len(), 2);
    assert_eq!(by_ext.iter().find(|b| b.extension == ".rs").unwrap().count, 2);
    assert_eq!(by_ext.iter().find(|b| b.extension == ".md").unwrap().count, 1);
}

#[test]
fn test_extension_records_in_order_of_first_appearance() {
    let files = vec![
        file("file.rs", 100, 0),
        file("doc.md", 50, 0),
        file("main.rs", 200, 0),
        file("README", 7, 0),
        file("archive.tar.gz", 11, 0),
        file("trailing.", 3, 0),
        file(".gitignore", 2, 0),
    ];
    let refs: Vec<&FsNode> = files.iter().collect();
    let by_ext = analyze_by_extension(&refs);
    let rows: Vec<(&str, usize, u64)> = by_ext
        .iter()
        .map(|b| (b.extension.as_str(), b.count, b.total_size))
        .collect();
    assert_eq!(
        rows,
        vec![
            (".rs", 2, 300),
            (".md", 1, 50),
            ("(no extension)", 2, 10),
            (".gz", 1, 11),
            (".gitignore", 1, 2),
        ]
    );
    let counted: usize = by_ext.iter().map(|b| b.count).sum();
    let summed: u64 = by_ext.iter().map(|b| b.total_size).sum();
    assert_eq!(counted, files.len());
    assert_eq!(summed, 373);
}

#[test]
fn test_extension_of_nodes() {
    assert_eq!(file("README", 1, 0).extension(), None);
    assert_eq!(file("archive.tar.gz", 1, 0).extension(), Some(".gz".to_string()));
    assert_eq!(file("trailing.", 1, 0).extension(), None);
    assert_eq!(file(".bashrc", 1, 0).extension(), Some(".bashrc".to_string()));
    let folder = FsNode::new("pkg.d".into(), "/pkg.d".into(), FsNodeType::Directory, 0, 0);
    assert_eq!(folder.extension(), None);
    assert!(folder.is_directory());
    assert!(!folder.is_file());
    assert!(!folder.is_symlink());
}

#[test]
fn test_largest_files_are_stable_and_bounded() {
    let files = vec![
        file("first", 10, 0),
        file("second", 30, 0),
        file("third", 10, 0),
        file("fourth", 30, 0),
    ];
    let refs: Vec<&FsNode> = files.iter().collect();
    let all = find_largest_files(&refs, 10);
    let order: Vec<&str> = all.iter().map(|e| e.name.as_str()).collect();
    assert_eq!(order, vec!["second", "fourth", "first", "third"]);
    assert_eq!(all[0], FileEntry::new("second".into(), "/second".into(), 30));
    assert_eq!(find_largest_files(&refs, 0).len(), 0);
    assert_eq!(find_largest_files(&refs, 4).len(), 4);
    assert_eq!(find_largest_files(&Vec::new(), 3).len(), 0);
    let top = find_largest_files(&refs, 2);
    assert!(top.windows(2).all(|w| w[0].size >= w[1].size));
}

#[test]
fn test_collect_stats_of_sample_tree() {
    let tree = sample_tree();
    let stats = collect_stats(&tree, DEFAULT_MAX_LARGEST);
    assert_eq!(stats.total_files, 6);
    assert_eq!(stats.total_directories, 2);
    assert_eq!(stats.total_symlinks, 1);
    assert_eq!(stats.total_size, 805);
    assert_eq!(stats.scan_duration_ms, 0);
    assert_eq!(total_node_count(&tree), 9);
    let rows: Vec<(&str, usize, u64)> = stats
        .files_by_extension
        .iter()
        .map(|b| (b.extension.as_str(), b.count, b.total_size))
        .collect();
    assert_eq!(
        rows,
        vec![(".rs", 2, 300), ("(no extension)", 2, 55), (".gz", 1, 400), (".md", 1, 50)]
    );
    let largest: Vec<(&str, u64)> =
        stats.largest_files.iter().map(|e| (e.name.as_str(), e.size)).collect();
    assert_eq!(
        largest,
        vec![
            ("archive.tar.gz", 400),
            ("main.rs", 200),
            ("lib.rs", 100),
            ("README", 50),
            ("doc.md", 50),
            ("notes", 5),
        ]
    );
}

#[test]
fn test_largest_limit_has_a_minimum_of_one() {
    let tree = sample_tree();
    assert_eq!(collect_stats(&tree, 0).largest_files.len(), 1);
    assert_eq!(collect_stats(&tree, 1).largest_files.len(), 1);
    assert_eq!(collect_stats(&tree, 3).largest_files.len(), 3);
    assert_eq!(collect_stats(&tree, 100).largest_files.len(), 6);
    assert_eq!(DEFAULT_MAX_LARGEST, 10);
}

#[test]
fn test_get_all_files_and_directories() {
    let tree = sample_tree();
    let files: Vec<String> = get_all_files(&tree).iter().map(|n| n.name.clone()).collect();
    assert_eq!(files, vec!["main.rs", "lib.rs", "notes", "README", "archive.tar.gz", "doc.md"]);
    let dirs = get_all_directories(&tree);
    let dir_names: Vec<&str> = dirs.iter().map(|n| n.name.as_str()).collect();
    assert_eq!(dir_names, vec!["root", "src"]);
    assert_eq!(dirs[0].children.as_ref().unwrap().len(), 5);
    assert_eq!(dirs[1].children.as_ref().unwrap()[0].name, "main.rs");
}

#[test]
fn test_deep_clone_copies_the_subtree() {
    let tree = sample_tree();
    let copy = tree.root.deep_clone();
    assert_eq!(copy.name, "root");
    assert_eq!(copy.depth, 0);
    let children = copy.children.as_ref().unwrap();
    assert_eq!(children.len(), 5);
    assert_eq!(children[0].children.as_ref().unwrap()[2].name, "notes");
    assert_eq!(children[4].node_type, FsNodeType::Symlink);
    assert_eq!(children[2].size, 400);
    assert_eq!(children[2].path.as_deref(), Some("/archive.tar.gz"));
}

#[test]
fn test_sizes_that_do_not_fit() {
    let root = FsNode::new_directory(
        "root".into(),
        "/root".into(),
        0,
        vec![file("huge", u64::MAX, 1), file("one", 1, 1)],
    );
    let tree = FsTree::new(root, 1);
    assert_eq!(checked_total_size(&tree), None);
    assert!(try_collect_stats(&tree, 10).is_none());
    let fits = sample_tree();
    assert_eq!(checked_total_size(&fits), Some(805));
    assert_eq!(try_collect_stats(&fits, 10).unwrap().total_size, 805);
}

#[test]
fn test_new_stats_are_empty() {
    let stats = TreeStats::new();
    assert_eq!(stats.total_files, 0);
    assert_eq!(stats.total_directories, 0);
    assert_eq!(stats.total_symlinks, 0);
    assert_eq!(stats.total_size, 0);
    assert!(stats.files_by_extension.is_empty());
    assert!(stats.largest_files.is_empty());
    assert_eq!(stats.scan_duration_ms, 0);
    assert_eq!(TreeStats::default().total_files, 0);
}

#[test]
fn test_recursive_collectors_append() {
    let tree = sample_tree();
    let mut files = vec![file("before", 1, 0)];
    collect_files_recursive(&tree.root.children.as_ref().unwrap()[0], &mut files);
    let names: Vec<&str> = files.iter().map(|n| n.name.as_str()).collect();
    assert_eq!(names, vec!["before", "main.rs", "lib.rs", "notes"]);
    let mut dirs = Vec::new();
    collect_dirs_recursive(&tree.root, &mut dirs);
    assert_eq!(dirs.len(), 2);
    let mut nodes = Vec::new();
    collect_nodes(&tree.root, &mut nodes);
    let order: Vec<&str> = nodes.iter().map(|n| n.name.as_str()).collect();
    assert_eq!(
        order,
        vec!["root", "src", "main.rs", "lib.rs", "notes", "README", "archive.tar.gz", "doc.md", "latest"]
    );
}
