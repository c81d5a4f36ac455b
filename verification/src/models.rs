//! Data model: tree nodes, trees, statistics and errors, each with its mathematical view.

use crate::text::{extension_of, name_extension};
use vstd::prelude::*;

verus! {

broadcast use vstd::std_specs::vec::group_vec_axioms;

/// Classification of a file system entry.
#[derive(Debug, Clone, Copy, PartialEq, Eq, Structural)]
pub enum FsNodeType {
    /// Regular file
    File,
    /// Directory
    Directory,
    /// Symbolic link
    Symlink,
}

/// One file system entry in a traversal result.
#[derive(Debug)]
pub struct FsNode {
    /// Name of the file or directory
    pub name: String,
    /// Full path to the file or directory
    pub path: Option<String>,
    /// Kind of the entry
    pub node_type: FsNodeType,
    /// Size in bytes
    pub size: u64,
    /// Depth in the tree (0 for the root)
    pub depth: usize,
    /// Child nodes, present only for directories with at least one surviving entry
    pub children: Option<Vec<FsNode>>,
}

/// Mathematical view of an [`FsNode`].
pub ghost struct NodeModel {
    pub name: Seq<char>,
    pub path: Option<Seq<char>>,
    pub kind: FsNodeType,
    pub size: nat,
    pub depth: nat,
    pub children: Option<Seq<NodeModel>>,
}

/// View of an optional string.
pub open spec fn opt_view(s: Option<String>) -> Option<Seq<char>> {
    match s {
        Some(p) => Some(p@),
        None => None,
    }
}

/// Views of a sequence of nodes, element by element.
pub open spec fn nodes_view(v: Seq<FsNode>) -> Seq<NodeModel> {
    Seq::new(v.len(), |i: int| v[i]@)
}

/// The mathematical content of a node and of everything below it.
pub open spec fn node_model(node: FsNode) -> NodeModel
    decreases node,
{
    NodeModel {
        name: node.name@,
        path: opt_view(node.path),
        kind: node.node_type,
        size: node.size as nat,
        depth: node.depth as nat,
        children: match node.children {
            Some(v) => Some(
                Seq::new(
                    v@.len(),
                    |i: int|
                        if 0 <= i < v.len() {
                            node_model(v[i])
                        } else {
                            arbitrary()
                        },
                ),
            ),
            None => None,
        },
    }
}

impl View for FsNode {
    type V = NodeModel;

    open spec fn view(&self) -> NodeModel {
        node_model(*self)
    }
}

/// The view of a node's children is the sequence of the children's views.
pub proof fn lemma_children_view(node: FsNode)
    ensures
        node.children is None <==> node@.children is None,
        node.children matches Some(v) ==> node@.children == Some(nodes_view(v@)),
{
    match node.children {
        Some(v) => {
            let c = node@.children->0;
            assert(c.len() == v@.len());
            assert forall|i: int| 0 <= i < c.len() implies c[i] == nodes_view(v@)[i] by {}
            assert(c =~= nodes_view(v@));
        },
        None => {},
    }
}

impl NodeModel {
    /// Whether the node is a directory.
    pub open spec fn is_directory(self) -> bool {
        self.kind == FsNodeType::Directory
    }

    /// Whether the node is a regular file.
    pub open spec fn is_file(self) -> bool {
        self.kind == FsNodeType::File
    }

    /// Whether the node is a symbolic link.
    pub open spec fn is_symlink(self) -> bool {
        self.kind == FsNodeType::Symlink
    }

    /// The node's extension: none for a directory, else the extension of its name.
    pub open spec fn extension(self) -> Option<Seq<char>> {
        if self.is_directory() {
            None
        } else {
            extension_of(self.name)
        }
    }
}

impl FsNode {
    /// Creates a node without children.
    pub fn new(name: String, path: String, node_type: FsNodeType, size: u64, depth: usize) -> (node:
        Self)
        ensures
            node@ == (NodeModel {
                name: name@,
                path: Some(path@),
                kind: node_type,
                size: size as nat,
                depth: depth as nat,
                children: None,
            }),
    {
        Self { name, path: Some(path), node_type, size, depth, children: None }
    }

    /// Creates a directory node that holds the given children.
    pub fn new_directory(name: String, path: String, depth: usize, children: Vec<FsNode>) -> (node:
        Self)
        ensures
            node@ == (NodeModel {
                name: name@,
                path: Some(path@),
                kind: FsNodeType::Directory,
                size: 0,
                depth: depth as nat,
                children: Some(nodes_view(children@)),
            }),
    {
        let node = Self {
            name,
            path: Some(path),
            node_type: FsNodeType::Directory,
            size: 0,
            depth,
            children: Some(children),
        };
        proof {
            lemma_children_view(node);
        }
        node
    }

    /// Whether this node is a directory.
    pub fn is_directory(&self) -> (b: bool)
        ensures
            b == self@.is_directory(),
    {
        self.node_type == FsNodeType::Directory
    }

    /// Whether this node is a regular file.
    pub fn is_file(&self) -> (b: bool)
        ensures
            b == self@.is_file(),
    {
        self.node_type == FsNodeType::File
    }

    /// Whether this node is a symbolic link.
    pub fn is_symlink(&self) -> (b: bool)
        ensures
            b == self@.is_symlink(),
    {
        self.node_type == FsNodeType::Symlink
    }

    /// The extension of the node's name with its leading dot, if the node is no directory
    /// and its name has one.
    pub fn extension(&self) -> (r: Option<String>)
        ensures
            match r {
                Some(e) => self@.extension() == Some(e@),
                None => self@.extension() is None,
            },
    {
        if self.is_directory() {
            return None;
        }
        name_extension(self.name.as_str())
    }

    /// Copies the node together with everything below it.
    pub fn deep_clone(&self) -> (r: Self)
        ensures
            r@ == self@,
        decreases self,
    {
        let children = match &self.children {
            Some(v) => {
                let mut copies: Vec<FsNode> = Vec::new();
                let mut i: usize = 0;
                while i < v.len()
                    invariant
                        i <= v.len(),
                        copies.len() == i,
                        self.children == Some(*v),
                        forall|k: int| 0 <= k < i ==> copies[k]@ == v[k]@,
                    decreases v.len() - i,
                {
                    assert(self.children->0 == *v);
                    let c = v[i].deep_clone();
                    copies.push(c);
                    i = i + 1;
                }
                assert(nodes_view(copies@) =~= nodes_view(v@));
                Some(copies)
            },
            None => None,
        };
        let path = match &self.path {
            Some(p) => Some(p.clone()),
            None => None,
        };
        let r = Self {
            name: self.name.clone(),
            path,
            node_type: self.node_type,
            size: self.size,
            depth: self.depth,
            children,
        };
        proof {
            lemma_children_view(r);
            lemma_children_view(*self);
        }
        r
    }
}

impl Clone for FsNode {
    fn clone(&self) -> (r: Self)
        ensures
            r@ == self@,
    {
        self.deep_clone()
    }
}

/// Every node of the subtree rooted at `node`, parents before their children and siblings
/// in their stored order.
pub open spec fn all_nodes(node: NodeModel) -> Seq<NodeModel>
    decreases node,
{
    match node.children {
        Some(c) => seq![node] + forest_nodes(c),
        None => seq![node],
    }
}

/// The nodes of several subtrees, one subtree after the other.
pub open spec fn forest_nodes(trees: Seq<NodeModel>) -> Seq<NodeModel>
    decreases trees,
{
    if trees.len() == 0 {
        Seq::empty()
    } else {
        forest_nodes(trees.drop_last()) + all_nodes(trees.last())
    }
}

/// The invariants of a tree node: a directory has size 0; only a directory has children,
/// and then at least one; every child lies one level below its parent and is well formed.
pub open spec fn well_formed(node: NodeModel) -> bool
    decreases node,
{
    &&& node.is_directory() ==> node.size == 0
    &&& match node.children {
        None => true,
        Some(c) => {
            &&& node.is_directory()
            &&& c.len() > 0
            &&& forall|i: int|
                0 <= i < c.len() ==> (#[trigger] c[i]).depth == node.depth + 1 && well_formed(c[i])
        },
    }
}

/// Views of a sequence of borrowed nodes, element by element.
pub open spec fn refs_view(v: Seq<&FsNode>) -> Seq<NodeModel> {
    Seq::new(v.len(), |i: int| v[i]@)
}

/// The greatest depth among the given nodes, 0 where there is none.
pub open spec fn deepest(nodes: Seq<NodeModel>) -> nat
    decreases nodes.len(),
{
    if nodes.len() == 0 {
        0
    } else {
        let rest = deepest(nodes.drop_last());
        if nodes.last().depth > rest {
            nodes.last().depth
        } else {
            rest
        }
    }
}

/// `deepest` bounds every depth and, on a sequence that is not empty, is the depth of
/// one of the nodes.
pub proof fn lemma_deepest(nodes: Seq<NodeModel>)
    ensures
        forall|i: int| 0 <= i < nodes.len() ==> nodes[i].depth <= deepest(nodes),
        nodes.len() > 0 ==> exists|i: int| 0 <= i < nodes.len() && nodes[i].depth == deepest(nodes),
    decreases nodes.len(),
{
    if nodes.len() > 0 {
        let rest = nodes.drop_last();
        lemma_deepest(rest);
        assert forall|i: int| 0 <= i < nodes.len() implies nodes[i].depth <= deepest(nodes) by {
            if i < rest.len() {
                assert(rest[i] == nodes[i]);
            }
        }
        if nodes.last().depth > deepest(rest) || rest.len() == 0 {
            assert(nodes[nodes.len() - 1].depth == deepest(nodes));
        } else {
            let i = choose|i: int| 0 <= i < rest.len() && rest[i].depth == deepest(rest);
            assert(nodes[i].depth == deepest(nodes));
        }
    }
}

/// A tree snapshot: its root and the deepest depth observed in it.
#[derive(Debug)]
pub struct FsTree {
    /// Root node of the tree
    pub root: FsNode,
    /// Greatest depth of any node of the tree
    pub max_depth: usize,
}

/// Mathematical view of an [`FsTree`].
pub ghost struct TreeModel {
    pub root: NodeModel,
    pub max_depth: nat,
}

impl View for FsTree {
    type V = TreeModel;

    open spec fn view(&self) -> TreeModel {
        TreeModel { root: self.root@, max_depth: self.max_depth as nat }
    }
}

impl Clone for FsTree {
    fn clone(&self) -> (r: Self)
        ensures
            r@ == self@,
    {
        Self { root: self.root.clone(), max_depth: self.max_depth }
    }
}

impl FsTree {
    /// Creates a tree from its root and its greatest depth.
    pub fn new(root: FsNode, max_depth: usize) -> (tree: Self)
        ensures
            tree@ == (TreeModel { root: root@, max_depth: max_depth as nat }),
    {
        Self { root, max_depth }
    }
}

/// A file in a listing ordered by size.
#[derive(Debug, Clone, PartialEq, Eq, PartialOrd, Ord)]
pub struct FileEntry {
    /// File name
    pub name: String,
    /// File path
    pub path: String,
    /// File size in bytes
    pub size: u64,
}

/// Mathematical view of a [`FileEntry`].
pub ghost struct FileEntryModel {
    pub name: Seq<char>,
    pub path: Seq<char>,
    pub size: nat,
}

impl View for FileEntry {
    type V = FileEntryModel;

    open spec fn view(&self) -> FileEntryModel {
        FileEntryModel { name: self.name@, path: self.path@, size: self.size as nat }
    }
}

impl FileEntry {
    /// Creates a file entry.
    pub fn new(name: String, path: String, size: u64) -> (entry: Self)
        ensures
            entry@ == (FileEntryModel { name: name@, path: path@, size: size as nat }),
    {
        Self { name, path, size }
    }
}

/// Views of a sequence of file entries, element by element.
pub open spec fn entries_view(v: Seq<FileEntry>) -> Seq<FileEntryModel> {
    Seq::new(v.len(), |i: int| v[i]@)
}

/// What is known about the files of one extension.
#[derive(Debug, Clone)]
pub struct FileTypeInfo {
    /// Extension with its leading dot, or the label of files without one
    pub extension: String,
    /// Number of files with this extension
    pub count: usize,
    /// Total size of the files with this extension
    pub total_size: u64,
}

/// Mathematical view of a [`FileTypeInfo`].
pub ghost struct FileTypeModel {
    pub extension: Seq<char>,
    pub count: nat,
    pub total_size: nat,
}

impl View for FileTypeInfo {
    type V = FileTypeModel;

    open spec fn view(&self) -> FileTypeModel {
        FileTypeModel {
            extension: self.extension@,
            count: self.count as nat,
            total_size: self.total_size as nat,
        }
    }
}

/// Views of a sequence of per-extension records, element by element.
pub open spec fn types_view(v: Seq<FileTypeInfo>) -> Seq<FileTypeModel> {
    Seq::new(v.len(), |i: int| v[i]@)
}

/// Aggregate statistics of a tree.
#[derive(Debug, Clone)]
pub struct TreeStats {
    /// Total number of files
    pub total_files: usize,
    /// Total number of directories
    pub total_directories: usize,
    /// Total number of symbolic links
    pub total_symlinks: usize,
    /// Total size of all files in bytes
    pub total_size: u64,
    /// Files grouped by extension, one record per extension, in order of first appearance
    pub files_by_extension: Vec<FileTypeInfo>,
    /// Largest files, largest first
    pub largest_files: Vec<FileEntry>,
    /// Time taken by the scan, in milliseconds
    pub scan_duration_ms: u64,
}

/// Mathematical view of a [`TreeStats`].
pub ghost struct StatsModel {
    pub total_files: nat,
    pub total_directories: nat,
    pub total_symlinks: nat,
    pub total_size: nat,
    pub files_by_extension: Seq<FileTypeModel>,
    pub largest_files: Seq<FileEntryModel>,
    pub scan_duration_ms: nat,
}

impl View for TreeStats {
    type V = StatsModel;

    open spec fn view(&self) -> StatsModel {
        StatsModel {
            total_files: self.total_files as nat,
            total_directories: self.total_directories as nat,
            total_symlinks: self.total_symlinks as nat,
            total_size: self.total_size as nat,
            files_by_extension: types_view(self.files_by_extension@),
            largest_files: entries_view(self.largest_files@),
            scan_duration_ms: self.scan_duration_ms as nat,
        }
    }
}

impl TreeStats {
    /// Creates statistics in which every count is zero and every list is empty.
    pub fn new() -> (stats: Self)
        ensures
            stats@ == (StatsModel {
                total_files: 0,
                total_directories: 0,
                total_symlinks: 0,
                total_size: 0,
                files_by_extension: Seq::empty(),
                largest_files: Seq::empty(),
                scan_duration_ms: 0,
            }),
    {
        let stats = Self {
            total_files: 0,
            total_directories: 0,
            total_symlinks: 0,
            total_size: 0,
            files_by_extension: Vec::new(),
            largest_files: Vec::new(),
            scan_duration_ms: 0,
        };
        assert(stats@.files_by_extension =~= Seq::empty());
        assert(stats@.largest_files =~= Seq::empty());
        stats
    }
}

impl Default for TreeStats {
    fn default() -> (stats: Self)
        ensures
            stats@ == (StatsModel {
                total_files: 0,
                total_directories: 0,
                total_symlinks: 0,
                total_size: 0,
                files_by_extension: Seq::empty(),
                largest_files: Seq::empty(),
                scan_duration_ms: 0,
            }),
    {
        Self::new()
    }
}

/// Errors of tree operations.
#[derive(Debug)]
pub enum TreeError {
    /// An I/O operation failed; holds its message
    Io(String),
    /// The path does not exist
    PathNotFound(String),
    /// The path is no directory
    NotADirectory(String),
    /// Access to the path was denied
    PermissionDenied(String),
    /// JSON serialization failed; holds its message
    Json(String),
    /// Any other failure; holds its message
    Other(String),
}

impl TreeError {
    /// The text that the error is reported with.
    pub open spec fn message_text(self) -> Seq<char> {
        match self {
            TreeError::Io(m) => "IO error: "@ + m@,
            TreeError::PathNotFound(p) => "Path does not exist: "@ + p@,
            TreeError::NotADirectory(p) => "Not a directory: "@ + p@,
            TreeError::PermissionDenied(p) => "Permission denied: "@ + p@,
            TreeError::Json(m) => "JSON error: "@ + m@,
            TreeError::Other(m) => m@,
        }
    }

    /// Renders the error as text.
    pub fn message(&self) -> (r: String)
        ensures
            r@ == self.message_text(),
    {
        match self {
            TreeError::Io(m) => String::from_str("IO error: ").concat(m.as_str()),
            TreeError::PathNotFound(p) => String::from_str("Path does not exist: ").concat(
                p.as_str(),
            ),
            TreeError::NotADirectory(p) => String::from_str("Not a directory: ").concat(p.as_str()),
            TreeError::PermissionDenied(p) => String::from_str("Permission denied: ").concat(
                p.as_str(),
            ),
            TreeError::Json(m) => String::from_str("JSON error: ").concat(m.as_str()),
            TreeError::Other(m) => m.clone(),
        }
    }
}

} // verus!
