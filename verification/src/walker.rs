//! Tree walker: builds the materialized tree of a directory snapshot under depth, filter
//! and sort rules.

use crate::filter::{FilterConfig, FilterModel};
use crate::laws::{law_depth_limit, law_walk_well_formed};
use crate::models::{
    all_nodes, deepest, forest_nodes, lemma_children_view, lemma_deepest, nodes_view, well_formed,
    FsNode, FsNodeType, FsTree, NodeModel, TreeError, TreeModel,
};
use crate::snapshot::{
    lemma_entries_view, scans_view, sibling_order, sibling_positions, ProbeError, ProbeFailure,
    ScanEntry, ScanModel,
};
use crate::sorting::{ints, SortField};
use vstd::prelude::*;

verus! {

broadcast use vstd::std_specs::vec::group_vec_axioms;

/// Configuration of a walk.
#[derive(Debug, Clone)]
pub struct WalkConfig {
    /// Maximum depth to traverse (0 for unlimited)
    pub max_depth: usize,
    /// Show hidden files (starting with a dot)
    pub show_hidden: bool,
    /// Follow symbolic links while enumerating
    pub follow_symlinks: bool,
    /// Field that siblings are sorted by
    pub sort_by: SortField,
    /// Reverse the sibling order
    pub reverse: bool,
    /// Filter configuration
    pub filter: FilterConfig,
}

/// Mathematical view of a walk configuration.
pub ghost struct WalkModel {
    pub max_depth: nat,
    pub show_hidden: bool,
    pub follow_symlinks: bool,
    pub sort_by: SortField,
    pub reverse: bool,
    pub filter: FilterModel,
}

impl View for WalkConfig {
    type V = WalkModel;

    open spec fn view(&self) -> WalkModel {
        WalkModel {
            max_depth: self.max_depth as nat,
            show_hidden: self.show_hidden,
            follow_symlinks: self.follow_symlinks,
            sort_by: self.sort_by,
            reverse: self.reverse,
            filter: self.filter@,
        }
    }
}

impl Default for WalkConfig {
    fn default() -> (config: Self)
        ensures
            config@ == (WalkModel {
                max_depth: 0,
                show_hidden: false,
                follow_symlinks: false,
                sort_by: SortField::Name,
                reverse: false,
                filter: FilterModel {
                    exclude: Seq::empty(),
                    include_only: None,
                    exclude_hidden: false,
                },
            }),
    {
        Self {
            max_depth: 0,
            show_hidden: false,
            follow_symlinks: false,
            sort_by: SortField::Name,
            reverse: false,
            filter: FilterConfig::new(),
        }
    }
}

/// Whether a directory at `depth` is descended into: below the depth limit, or, where
/// the limit is 0 (none), as long as the depth of its children can still be counted.
pub open spec fn may_descend(depth: nat, max_depth: nat) -> bool {
    if max_depth == 0 {
        depth < usize::MAX
    } else {
        depth < max_depth
    }
}

impl WalkModel {
    /// The sibling order of a listing under these rules.
    pub open spec fn order(self, entries: Seq<ScanModel>) -> Seq<int> {
        sibling_order(entries, self.filter, self.sort_by, self.reverse)
    }
}

/// The nodes of the surviving entries of `entry`, in sibling order, at `depth`.
pub open spec fn walk_children(entry: ScanModel, rules: WalkModel, depth: nat) -> Seq<NodeModel>
    decreases entry, 0nat,
{
    let order = rules.order(entry.entries);
    Seq::new(
        order.len(),
        |k: int|
            if 0 <= k < order.len() && 0 <= order[k] < entry.entries.len() {
                walk_node(entry.entries[order[k]], rules, depth)
            } else {
                arbitrary()
            },
    )
}

/// The node that the walk builds for a classified entry at `depth`. A directory that is
/// descended into holds the nodes of its surviving entries; where none survives, or the
/// directory is at the depth limit, or the entry is no directory, the node has no children.
pub open spec fn walk_node(entry: ScanModel, rules: WalkModel, depth: nat) -> NodeModel
    decreases entry, 1nat,
{
    NodeModel {
        name: entry.name,
        path: Some(entry.path),
        kind: entry.kind(),
        size: entry.node_size(),
        depth: depth,
        children: if entry.is_directory() && may_descend(depth, rules.max_depth) && walk_children(
            entry,
            rules,
            depth + 1,
        ).len() > 0 {
            Some(walk_children(entry, rules, depth + 1))
        } else {
            None
        },
    }
}

/// Decides whether a directory at `depth` is descended into.
pub fn descends(depth: usize, max_depth: usize) -> (b: bool)
    ensures
        b == may_descend(depth as nat, max_depth as nat),
{
    if max_depth == 0 {
        depth < usize::MAX
    } else {
        depth < max_depth
    }
}

/// Builds the nodes of the surviving entries of a directory, in sibling order.
fn collect_children(entry: &ScanEntry, depth: usize, config: &WalkConfig) -> (children: Vec<
    FsNode,
>)
    ensures
        nodes_view(children@) == walk_children(entry@, config@, depth as nat),
    decreases entry, 0nat,
{
    let order = sibling_positions(
        &entry.entries,
        &config.filter,
        config.sort_by,
        config.reverse,
    );
    proof {
        lemma_entries_view(*entry);
    }
    let ghost expected = walk_children(entry@, config@, depth as nat);
    let mut children: Vec<FsNode> = Vec::new();
    let mut k: usize = 0;
    while k < order.len()
        invariant
            k <= order.len(),
            children.len() == k,
            entry@.entries == scans_view(entry.entries@),
            ints(order@) == config@.order(entry@.entries),
            expected == walk_children(entry@, config@, depth as nat),
            forall|j: int|
                0 <= j < order.len() ==> (#[trigger] order[j]) < entry.entries.len()
                    && entry.entries[order[j] as int]@.survives(config.filter@),
            forall|j: int| 0 <= j < k ==> children[j]@ == expected[j],
        decreases order.len() - k,
    {
        let i = order[k];
        assert(ints(order@)[k as int] == i as int);
        let child = walk_recursive(&entry.entries[i], depth, config);
        children.push(child);
        k = k + 1;
    }
    assert(nodes_view(children@) =~= expected);
    children
}

/// Builds the node of a classified entry, with everything below it that the rules admit.
fn walk_recursive(entry: &ScanEntry, depth: usize, config: &WalkConfig) -> (node: FsNode)
    ensures
        node@ == walk_node(entry@, config@, depth as nat),
    decreases entry, 1nat,
{
    let kind = match &entry.meta {
        Ok(m) => m.kind,
        Err(_) => FsNodeType::File,
    };
    let children = if entry.is_directory() && descends(depth, config.max_depth) {
        let nodes = collect_children(entry, depth + 1, config);
        if nodes.len() == 0 {
            None
        } else {
            Some(nodes)
        }
    } else {
        None
    };
    let node = FsNode {
        name: entry.name.clone(),
        path: Some(entry.path.clone()),
        node_type: kind,
        size: entry.node_size(),
        depth,
        children,
    };
    proof {
        lemma_children_view(node);
    }
    node
}

/// Finds the greatest depth in a subtree.
pub fn calculate_max_depth(node: &FsNode) -> (max_depth: usize)
    ensures
        max_depth as nat == deepest(all_nodes(node@)),
    decreases node,
{
    let mut max_depth = node.depth;
    proof {
        lemma_children_view(*node);
        lemma_deepest_one(node@);
    }
    if let Some(children) = &node.children {
        let mut i: usize = 0;
        proof {
            assert(nodes_view(children@).take(0) =~= Seq::empty());
            lemma_deepest_concat(seq![node@], forest_nodes(Seq::empty()));
        }
        while i < children.len()
            invariant
                i <= children.len(),
                node.children == Some(*children),
                max_depth as nat == deepest(
                    seq![node@] + forest_nodes(nodes_view(children@).take(i as int)),
                ),
            decreases children.len() - i,
        {
            assert(node.children->0 == *children);
            let child_depth = calculate_max_depth(&children[i]);
            proof {
                let views = nodes_view(children@);
                let done = forest_nodes(views.take(i as int));
                assert(views.take(i + 1).drop_last() =~= views.take(i as int));
                assert(views.take(i + 1).last() == children[i as int]@);
                assert(seq![node@] + (done + all_nodes(children[i as int]@)) =~= (seq![node@]
                    + done) + all_nodes(children[i as int]@));
                lemma_deepest_concat(seq![node@] + done, all_nodes(children[i as int]@));
            }
            if child_depth > max_depth {
                max_depth = child_depth;
            }
            i = i + 1;
        }
        assert(nodes_view(children@).take(i as int) =~= nodes_view(children@));
    }
    max_depth
}

/// The greatest depth of a single node is its own depth.
proof fn lemma_deepest_one(node: NodeModel)
    ensures
        deepest(seq![node]) == node.depth,
{
    assert(seq![node].drop_last() =~= Seq::empty());
    assert(deepest(Seq::<NodeModel>::empty()) == 0);
}

/// The greatest depth of a concatenation is the greater of the parts' greatest depths.
pub proof fn lemma_deepest_concat(a: Seq<NodeModel>, b: Seq<NodeModel>)
    ensures
        deepest(a + b) == if deepest(a) >= deepest(b) {
            deepest(a)
        } else {
            deepest(b)
        },
    decreases b.len(),
{
    if b.len() == 0 {
        assert(a + b =~= a);
    } else {
        lemma_deepest_concat(a, b.drop_last());
        assert((a + b).drop_last() =~= a + b.drop_last());
        assert((a + b).last() == b.last());
    }
}

/// Walks a directory snapshot and builds its tree.
///
/// The root must have been found and be a directory: a root that does not exist gives
/// `PathNotFound`, one that could not be read `PermissionDenied` or `Io`, and one that is
/// no directory `NotADirectory`. Failures below the root never fail the walk: an entry
/// that could not be classified is left out.
pub fn walk_directory(root: &ScanEntry, config: &WalkConfig) -> (r: Result<FsTree, TreeError>)
    ensures
        match root@.meta {
            Err(ProbeFailure::NotFound) => r matches Err(TreeError::PathNotFound(p)) && p@
                == root@.path,
            Err(ProbeFailure::PermissionDenied) => r matches Err(TreeError::PermissionDenied(p))
                && p@ == root@.path,
            Err(ProbeFailure::Io(m)) => r matches Err(TreeError::Io(x)) && x@ == m,
            Ok(meta) => if meta.kind == FsNodeType::Directory {
                r matches Ok(tree) && tree@ == (TreeModel {
                    root: walk_node(root@, config@, 0),
                    max_depth: deepest(all_nodes(walk_node(root@, config@, 0))),
                })
            } else {
                r matches Err(TreeError::NotADirectory(p)) && p@ == root@.path
            },
        },
        r matches Ok(tree) ==> {
            &&& well_formed(tree@.root)
            &&& tree@.root.depth == 0
            &&& forall|i: int|
                0 <= i < all_nodes(tree@.root).len() ==> (#[trigger] all_nodes(
                    tree@.root,
                )[i]).depth <= tree@.max_depth
            &&& config.max_depth > 0 ==> tree@.max_depth <= config.max_depth
        },
{
    match &root.meta {
        Err(ProbeError::NotFound) => Err(TreeError::PathNotFound(root.path.clone())),
        Err(ProbeError::PermissionDenied) => Err(TreeError::PermissionDenied(root.path.clone())),
        Err(ProbeError::Io(m)) => Err(TreeError::Io(m.clone())),
        Ok(meta) => {
            if meta.kind == FsNodeType::Directory {
                let root_node = walk_recursive(root, 0, config);
                let max_depth = calculate_max_depth(&root_node);
                proof {
                    law_walk_well_formed(root@, config@, 0);
                    lemma_deepest(all_nodes(root_node@));
                    if config.max_depth > 0 {
                        law_depth_limit(root@, config@, 0);
                    }
                }
                Ok(FsTree::new(root_node, max_depth))
            } else {
                Err(TreeError::NotADirectory(root.path.clone()))
            }
        },
    }
}

} // verus!
