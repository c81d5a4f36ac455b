//! Directory-tree traversal, filtering and statistics, verified with Verus.
//!
//! A scan of the file system is handed over as a [`snapshot::ScanEntry`]. The tree walker
//! ([`walker::walk_directory`]) and the streaming walker ([`streaming::walk_streaming`])
//! apply the same filter, depth and sort rules to it; the collector
//! ([`collector::collect_stats`]) aggregates a tree into statistics.

pub mod collector;
pub mod color;
pub mod common_excludes;
pub mod config;
pub mod filter;
pub mod formatters;
pub mod laws;
pub mod models;
pub mod snapshot;
pub mod sorting;
pub mod streaming;
pub mod text;
pub mod walker;

pub use collector::{collect_stats, get_all_directories, get_all_files};
pub use config::{Config, OutputFormat, SortBy};
pub use formatters::tree::format_tree;
pub use models::{FileEntry, FileTypeInfo, FsNode, FsNodeType, FsTree, TreeError, TreeStats};
pub use sorting::SortField;
pub use walker::{walk_directory, WalkConfig};
