use rust_tree::collector::{collect_stats, total_node_count};
use rust_tree::filter::FilterConfig;
use rust_tree::models::{FsNode, FsNodeType, TreeError};
use rust_tree::snapshot::{
    classify, classify_entry, has_children, sibling_positions, EntryMeta, ProbeError,
    RawMetadata, ScanEntry,
};
use rust_tree::sorting::SortField;
use rust_tree::streaming::{walk_streaming, StreamConfig, StreamNode, StreamWalker};
use rust_tree::walker::{calculate_max_depth, descends, walk_directory, WalkConfig};

fn file(parent: &str, name: &str, size: u64) -> ScanEntry {
    ScanEntry {
        name: name.to_string(),
        path: format!("{}/{}", parent, name),
        meta: Ok(EntryMeta { kind: FsNodeType::File, size }),
        entries: Vec::new(),
    }
}

fn dir(parent: &str, name: &str, entries: Vec<ScanEntry>) -> ScanEntry {
    ScanEntry {
        name: name.to_string(),
        path: format!("{}/{}", parent, name),
        meta: Ok(EntryMeta { kind: FsNodeType::Directory, size: 4096 }),
        entries,
    }
}

fn link(parent: &str, name: &str) -> ScanEntry {
    ScanEntry {
        name: name.to_string(),
        path: format!("{}/{}", parent, name),
        meta: Ok(EntryMeta { kind: FsNodeType::Symlink, size: 7 }),
        entries: Vec::new(),
    }
}

fn unreadable(parent: &str, name: &str) -> ScanEntry {
    ScanEntry {
        name: name.to_string(),
        path: format!("{}/{}", parent, name),
        meta: Err(ProbeError::PermissionDenied),
        entries: Vec::new(),
    }
}

fn project() -> ScanEntry {
    dir(
        "/tmp",
        "project",
        vec![
            file("/tmp/project", "README.md", 0),
            dir(
                "/tmp/project",
                "src",
                vec![
                    file("/tmp/project/src", "main.rs", 33),
                    file("/tmp/project/src", "lib.rs", 0),
                    dir(
                        "/tmp/project/src",
                        "core",
                        vec![file("/tmp/project/src/core", "models.rs", 0)],
                    ),
                ],
            ),
            file("/tmp/project", "Cargo.toml", 0),
            dir("/tmp/project", "tests", vec![]),
        ],
    )
}

fn names(nodes: &Option<Vec<FsNode>>) -> Vec<String> {
    match nodes {
        Some(list) => list.iter().map(|n| n.name.clone()).collect(),
        None => Vec::new(),
    }
}

fn tree_rows(node: &FsNode, rows: &mut Vec<(String, usize, bool)>) {
    if let Some(children) = &node.children {
        for (i, child) in children.iter().enumerate() {
            rows.push((child.name.clone(), child.depth, i == children.len() - 1));
            tree_rows(child, rows);
        }
    }
}

fn stream_rows(records: &[StreamNode]) -> Vec<(String, usize, bool)> {
    records.iter().map(|r| (r.name.clone(), r.depth, r.is_last)).collect()
}

fn stream_config(walk: &WalkConfig) -> StreamConfig {
    StreamConfig {
        max_depth: walk.max_depth,
        show_hidden: walk.show_hidden,
        follow_symlinks: walk.follow_symlinks,
        sort_by: walk.sort_by,
        reverse: walk.reverse,
        filter: walk.filter.clone(),
    }
}

#[test]
fn test_walk_config_default() {
    let config = WalkConfig::default();
    assert_eq!(config.max_depth, 0);
    assert!(!config.show_hidden);
    assert!(!config.follow_symlinks);
}

#[test]
fn test_stream_config_default() {
    let config = StreamConfig::default();
    assert_eq!(config.max_depth, 0);
    assert!(!config.show_hidden);
}

#[test]
fn test_walk_streaming() {
    let root = dir("/tmp", "empty", vec![]);
    let config = StreamConfig::default();
    let result = walk_streaming(&root, config);
    assert!(result.is_ok());
    assert!(result.unwrap().is_empty());
}

#[test]
fn test_walk_directory() {
    let root = project();
    let config = WalkConfig::default();
    let result = walk_directory(&root, &config);
    assert!(result.is_ok());
    let tree = result.unwrap();
    assert_eq!(tree.root.name, "project");
    assert!(tree.root.children.is_some());
}

#[test]
fn test_collect_stats() {
    let root = project();
    let config = WalkConfig::default();
    let tree = walk_directory(&root, &config).unwrap();
    let stats = collect_stats(&tree, 10);
    assert!(stats.total_files > 0);
    assert!(stats.total_directories > 0);
    assert!(stats.total_size > 0);
}

#[test]
fn test_walk_builds_sorted_tree() {
    let tree = walk_directory(&project(), &WalkConfig::default()).unwrap();
    assert_eq!(tree.root.depth, 0);
    assert_eq!(tree.root.node_type, FsNodeType::Directory);
    assert_eq!(tree.root.size, 0);
    assert_eq!(tree.root.path.as_deref(), Some("/tmp/project"));
    assert_eq!(names(&tree.root.children), vec!["src", "tests", "Cargo.toml", "README.md"]);
    let children = tree.root.children.as_ref().unwrap();
    assert_eq!(names(&children[0].children), vec!["core", "lib.rs", "main.rs"]);
    assert!(children[1].children.is_none());
    assert_eq!(children[0].depth, 1);
    assert_eq!(children[0].size, 0);
    let core = &children[0].children.as_ref().unwrap()[0];
    assert_eq!(core.depth, 2);
    assert_eq!(names(&core.children), vec!["models.rs"]);
    assert_eq!(core.children.as_ref().unwrap()[0].depth, 3);
    assert_eq!(tree.max_depth, 3);
    assert_eq!(calculate_max_depth(&tree.root), 3);
}

#[test]
fn test_root_errors() {
    let config = WalkConfig::default();
    let mut root = dir("/tmp", "gone", vec![]);
    root.meta = Err(ProbeError::NotFound);
    assert!(matches!(walk_directory(&root, &config), Err(TreeError::PathNotFound(p)) if p == "/tmp/gone"));
    assert!(matches!(walk_streaming(&root, StreamConfig::default()), Err(TreeError::PathNotFound(p)) if p == "/tmp/gone"));
    root.meta = Err(ProbeError::PermissionDenied);
    assert!(matches!(walk_directory(&root, &config), Err(TreeError::PermissionDenied(p)) if p == "/tmp/gone"));
    assert!(matches!(walk_streaming(&root, StreamConfig::default()), Err(TreeError::PermissionDenied(p)) if p == "/tmp/gone"));
    root.meta = Err(ProbeError::Io("disk on fire".to_string()));
    assert!(matches!(walk_directory(&root, &config), Err(TreeError::Io(m)) if m == "disk on fire"));
    assert!(matches!(walk_streaming(&root, StreamConfig::default()), Err(TreeError::Io(m)) if m == "disk on fire"));
    let plain = file("/tmp", "plain.txt", 3);
    assert!(matches!(walk_directory(&plain, &config), Err(TreeError::NotADirectory(p)) if p == "/tmp/plain.txt"));
    assert!(matches!(walk_streaming(&plain, StreamConfig::default()), Err(TreeError::NotADirectory(p)) if p == "/tmp/plain.txt"));
}

#[test]
fn test_error_messages() {
    assert_eq!(TreeError::Io("boom".to_string()).message(), "IO error: boom");
    assert_eq!(TreeError::PathNotFound("/x".to_string()).message(), "Path does not exist: /x");
    assert_eq!(TreeError::NotADirectory("/x".to_string()).message(), "Not a directory: /x");
    assert_eq!(TreeError::PermissionDenied("/x".to_string()).message(), "Permission denied: /x");
    assert_eq!(TreeError::Json("bad".to_string()).message(), "JSON error: bad");
    assert_eq!(TreeError::Other("plain".to_string()).message(), "plain");
}

#[test]
fn test_scenario_exclude_log_files() {
    let root = dir(
        "/data",
        "root",
        vec![
            file("/data/root", "a.txt", 100),
            dir("/data/root", "b", vec![]),
            file("/data/root", "c.log", 50),
        ],
    );
    let mut config = WalkConfig::default();
    config.show_hidden = false;
    config.filter.exclude_hidden = true;
    config.filter.add_exclude("*.log").unwrap();
    let tree = walk_directory(&root, &config).unwrap();
    let children = tree.root.children.as_ref().unwrap();
    assert_eq!(children.len(), 2);
    assert_eq!(children[0].name, "b");
    assert!(children[0].is_directory());
    assert!(children[0].children.is_none());
    assert_eq!(children[1].name, "a.txt");
    assert_eq!(children[1].size, 100);
    let stats = collect_stats(&tree, 10);
    assert_eq!(stats.total_files, 1);
    assert_eq!(stats.total_size, 100);
    assert_eq!(stats.total_directories, 2);
}

#[test]
fn test_scenario_depth_limit_one() {
    let root = dir(
        "",
        "root",
        vec![dir("/root", "sub", vec![file("/root/sub", "deep.txt", 5)])],
    );
    let mut config = WalkConfig::default();
    config.max_depth = 1;
    let tree = walk_directory(&root, &config).unwrap();
    let children = tree.root.children.as_ref().unwrap();
    assert_eq!(children.len(), 1);
    assert_eq!(children[0].name, "sub");
    assert!(children[0].children.is_none());
    assert_eq!(tree.max_depth, 1);
    let records = walk_streaming(&root, stream_config(&config)).unwrap();
    assert_eq!(records.len(), 1);
    assert_eq!(records[0].name, "sub");
    assert_eq!(records[0].depth, 1);
    assert!(records[0].has_children);
    assert!(records[0].is_last);
}

#[test]
fn test_depth_limit_bounds_every_node() {
    for limit in 1..5 {
        let mut config = WalkConfig::default();
        config.max_depth = limit;
        let tree = walk_directory(&project(), &config).unwrap();
        let mut rows = Vec::new();
        tree_rows(&tree.root, &mut rows);
        assert!(rows.iter().all(|(_, depth, _)| *depth <= limit));
        assert!(tree.max_depth <= limit);
        assert_eq!(tree.max_depth, limit.min(3));
    }
}

#[test]
fn test_descends() {
    assert!(descends(0, 0));
    assert!(descends(1_000_000, 0));
    assert!(!descends(usize::MAX, 0));
    assert!(descends(0, 1));
    assert!(!descends(1, 1));
    assert!(descends(2, 3));
    assert!(!descends(3, 3));
}

#[test]
fn test_streaming_and_materialized_walks_agree() {
    let mut configs = Vec::new();
    for field in [SortField::Name, SortField::Size, SortField::Type] {
        for reverse in [false, true] {
            for max_depth in [0, 1, 2] {
                let mut config = WalkConfig::default();
                config.sort_by = field;
                config.reverse = reverse;
                config.max_depth = max_depth;
                configs.push(config);
            }
        }
    }
    let mut filtered = WalkConfig::default();
    filtered.filter.add_exclude("*.rs").unwrap();
    configs.push(filtered);
    for config in configs {
        let tree = walk_directory(&project(), &config).unwrap();
        let records = walk_streaming(&project(), stream_config(&config)).unwrap();
        let mut rows = Vec::new();
        tree_rows(&tree.root, &mut rows);
        assert_eq!(stream_rows(&records), rows);
        assert_eq!(records.len() + 1, total_node_count(&tree));
    }
}

#[test]
fn test_counts_cover_every_node() {
    let mut root = project();
    root.entries.push(link("/tmp/project", "latest"));
    let tree = walk_directory(&root, &WalkConfig::default()).unwrap();
    let stats = collect_stats(&tree, 10);
    assert_eq!(stats.total_files, 5);
    assert_eq!(stats.total_directories, 4);
    assert_eq!(stats.total_symlinks, 1);
    assert_eq!(
        stats.total_files + stats.total_directories + stats.total_symlinks,
        total_node_count(&tree)
    );
    let records = walk_streaming(&root, StreamConfig::default()).unwrap();
    assert_eq!(records.len(), total_node_count(&tree) - 1);
}

#[test]
fn test_sort_by_size_puts_directories_first() {
    let root = dir(
        "",
        "root",
        vec![
            file("/root", "small.txt", 10),
            dir("/root", "zeta", vec![]),
            file("/root", "big.bin", 900),
            file("/root", "tie-a", 50),
            dir("/root", "alpha", vec![]),
            file("/root", "tie-b", 50),
        ],
    );
    let mut config = WalkConfig::default();
    config.sort_by = SortField::Size;
    let tree = walk_directory(&root, &config).unwrap();
    assert_eq!(
        names(&tree.root.children),
        vec!["zeta", "alpha", "big.bin", "tie-a", "tie-b", "small.txt"]
    );
    config.reverse = true;
    let reversed = walk_directory(&root, &config).unwrap();
    assert_eq!(
        names(&reversed.root.children),
        vec!["small.txt", "tie-b", "tie-a", "big.bin", "alpha", "zeta"]
    );
}

#[test]
fn test_sort_by_name_and_type() {
    let root = dir(
        "",
        "root",
        vec![
            file("/root", "b.txt", 1),
            file("/root", "a.rs", 1),
            file("/root", "Makefile", 1),
            dir("/root", "src", vec![]),
            file("/root", "c.rs", 1),
            dir("/root", "docs.d", vec![]),
            file("/root", "a.txt", 1),
        ],
    );
    let mut config = WalkConfig::default();
    let by_name = walk_directory(&root, &config).unwrap();
    assert_eq!(
        names(&by_name.root.children),
        vec!["docs.d", "src", "Makefile", "a.rs", "a.txt", "b.txt", "c.rs"]
    );
    config.sort_by = SortField::Type;
    let by_type = walk_directory(&root, &config).unwrap();
    assert_eq!(
        names(&by_type.root.children),
        vec!["docs.d", "src", "Makefile", "a.rs", "c.rs", "a.txt", "b.txt"]
    );
    config.reverse = true;
    let reversed = walk_directory(&root, &config).unwrap();
    assert_eq!(
        names(&reversed.root.children),
        vec!["b.txt", "a.txt", "c.rs", "a.rs", "Makefile", "src", "docs.d"]
    );
}

#[test]
fn test_unclassified_and_hidden_entries_are_left_out() {
    let root = dir(
        "",
        "root",
        vec![
            unreadable("/root", "locked"),
            file("/root", ".hidden", 1),
            file("/root", "seen", 1),
            link("/root", "pointer"),
        ],
    );
    let mut config = WalkConfig::default();
    config.filter.exclude_hidden = true;
    let tree = walk_directory(&root, &config).unwrap();
    assert_eq!(names(&tree.root.children), vec!["pointer", "seen"]);
    let pointer = &tree.root.children.as_ref().unwrap()[0];
    assert_eq!(pointer.node_type, FsNodeType::Symlink);
    assert!(pointer.children.is_none());
    assert_eq!(pointer.size, 7);
    let all = walk_directory(&root, &WalkConfig::default()).unwrap();
    assert_eq!(names(&all.root.children), vec![".hidden", "pointer", "seen"]);
}

#[test]
fn test_directory_without_survivors_has_no_children() {
    let root = dir(
        "",
        "root",
        vec![dir("/root", "logs", vec![file("/root/logs", "a.log", 1), file("/root/logs", "b.log", 2)])],
    );
    let mut config = WalkConfig::default();
    config.filter.add_exclude("*.log").unwrap();
    let tree = walk_directory(&root, &config).unwrap();
    let logs = &tree.root.children.as_ref().unwrap()[0];
    assert!(logs.children.is_none());
    let records = walk_streaming(&root, stream_config(&config)).unwrap();
    assert_eq!(records.len(), 1);
    assert!(!records[0].has_children);
}

#[test]
fn test_has_children_probe_ignores_classification_and_depth() {
    let filter = FilterConfig::new();
    assert!(!has_children(&vec![], &filter));
    assert!(has_children(&vec![unreadable("/root", "locked")], &filter));
    let mut only_rs = FilterConfig::new();
    only_rs.set_include("*.rs").unwrap();
    assert!(!has_children(&vec![file("/root", "a.txt", 1)], &only_rs));
    assert!(has_children(&vec![file("/root", "a.txt", 1), file("/root", "b.rs", 1)], &only_rs));
}

#[test]
fn test_stream_records_carry_node_data() {
    let records = walk_streaming(&project(), StreamConfig::default()).unwrap();
    let rows: Vec<(&str, usize, bool, bool)> = records
        .iter()
        .map(|r| (r.name.as_str(), r.depth, r.has_children, r.is_last))
        .collect();
    assert_eq!(
        rows,
        vec![
            ("src", 1, true, false),
            ("core", 2, true, false),
            ("models.rs", 3, false, true),
            ("lib.rs", 2, false, false),
            ("main.rs", 2, false, true),
            ("tests", 1, false, false),
            ("Cargo.toml", 1, false, false),
            ("README.md", 1, false, true),
        ]
    );
    assert_eq!(records[4].path, "/tmp/project/src/main.rs");
    assert_eq!(records[4].size, 33);
    assert_eq!(records[4].node_type, FsNodeType::File);
    assert_eq!(records[0].size, 0);
    assert_eq!(records[0].node_type, FsNodeType::Directory);
}

#[test]
fn test_sibling_positions() {
    let entries = vec![
        file("/root", "b", 1),
        unreadable("/root", "x"),
        dir("/root", "d", vec![]),
        file("/root", "a", 1),
    ];
    let filter = FilterConfig::new();
    assert_eq!(sibling_positions(&entries, &filter, SortField::Name, false), vec![2, 3, 0]);
    assert_eq!(sibling_positions(&entries, &filter, SortField::Name, true), vec![0, 3, 2]);
    assert_eq!(sibling_positions(&entries, &filter, SortField::Size, false), vec![2, 0, 3]);
}

#[test]
fn test_classify() {
    let plain = RawMetadata { is_dir: false, is_symlink: false, len: 12 };
    let folder = RawMetadata { is_dir: true, is_symlink: false, len: 4096 };
    let pointer = RawMetadata { is_dir: false, is_symlink: true, len: 9 };
    assert_eq!(classify(plain), EntryMeta { kind: FsNodeType::File, size: 12 });
    assert_eq!(classify(folder), EntryMeta { kind: FsNodeType::Directory, size: 4096 });
    assert_eq!(classify(pointer), EntryMeta { kind: FsNodeType::Symlink, size: 9 });
    let followed = classify_entry(Ok(folder), Ok(pointer)).unwrap();
    assert_eq!(followed.kind, FsNodeType::Directory);
    let broken = classify_entry(Err(ProbeError::NotFound), Ok(pointer)).unwrap();
    assert_eq!(broken, EntryMeta { kind: FsNodeType::Symlink, size: 9 });
    let lost = classify_entry(Err(ProbeError::NotFound), Err(ProbeError::PermissionDenied));
    assert!(matches!(lost, Err(ProbeError::PermissionDenied)));
}

fn drain(root: &ScanEntry, config: StreamConfig) -> Vec<StreamNode> {
    let mut walker = StreamWalker::new(root, config).unwrap();
    let mut records = Vec::new();
    while let Some(record) = walker.next() {
        records.push(record);
    }
    assert!(walker.next().is_none());
    records
}

fn full_rows(records: &[StreamNode]) -> Vec<(String, String, FsNodeType, u64, usize, bool, bool)> {
    records
        .iter()
        .map(|r| {
            (
                r.name.clone(),
                r.path.clone(),
                r.node_type,
                r.size,
                r.depth,
                r.has_children,
                r.is_last,
            )
        })
        .collect()
}

#[test]
fn test_stream_walker_hands_out_the_same_records() {
    let mut root = project();
    root.entries.push(link("/tmp/project", "latest"));
    root.entries.push(unreadable("/tmp/project", "locked"));
    for field in [SortField::Name, SortField::Size, SortField::Type] {
        for reverse in [false, true] {
            for max_depth in [0, 1, 2, 3] {
                let mut config = StreamConfig::default();
                config.sort_by = field;
                config.reverse = reverse;
                config.max_depth = max_depth;
                let all = walk_streaming(&root, config.clone()).unwrap();
                assert_eq!(full_rows(&drain(&root, config)), full_rows(&all));
            }
        }
    }
}

#[test]
fn test_stream_walker_on_an_empty_directory_and_bad_roots() {
    let empty = dir("/tmp", "empty", vec![]);
    assert!(drain(&empty, StreamConfig::default()).is_empty());
    let plain = file("/tmp", "plain.txt", 3);
    assert!(matches!(
        StreamWalker::new(&plain, StreamConfig::default()),
        Err(TreeError::NotADirectory(p)) if p == "/tmp/plain.txt"
    ));
    let mut gone = dir("/tmp", "gone", vec![]);
    gone.meta = Err(ProbeError::NotFound);
    assert!(matches!(
        StreamWalker::new(&gone, StreamConfig::default()),
        Err(TreeError::PathNotFound(p)) if p == "/tmp/gone"
    ));
}
