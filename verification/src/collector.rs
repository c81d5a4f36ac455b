//! Statistics collector: counts, sizes, per-extension records and the largest files of a
//! materialized tree.

use crate::laws::{law_counts_cover_tree, law_largest_files};
use crate::models::{
    all_nodes, entries_view, forest_nodes, lemma_children_view, nodes_view, refs_view,
    types_view, FileEntry, FileEntryModel, FileTypeInfo, FileTypeModel, FsNode, FsNodeType,
    FsTree, NodeModel, StatsModel, TreeStats,
};
use crate::sorting::{ints, keys_view, position_order, sort_positions, KeyModel, SortField, SortKey};
use crate::text::str_equal;
use vstd::prelude::*;

verus! {

broadcast use {
    vstd::std_specs::vec::group_vec_axioms,
    vstd::seq_lib::group_filter_ensures,
    vstd::seq_lib::group_to_multiset_ensures,
};

/// Default number of largest files to track.
pub const DEFAULT_MAX_LARGEST: usize = 10;

/// The test for nodes of one kind.
pub open spec fn has_kind(kind: FsNodeType) -> spec_fn(NodeModel) -> bool {
    |n: NodeModel| n.kind == kind
}

/// The nodes of one kind among `nodes`, in their order.
pub open spec fn nodes_of_kind(nodes: Seq<NodeModel>, kind: FsNodeType) -> Seq<NodeModel> {
    nodes.filter(has_kind(kind))
}

/// The file nodes of a subtree, parents before children.
pub open spec fn files_of(root: NodeModel) -> Seq<NodeModel> {
    nodes_of_kind(all_nodes(root), FsNodeType::File)
}

/// The directory nodes of a subtree, parents before children.
pub open spec fn directories_of(root: NodeModel) -> Seq<NodeModel> {
    nodes_of_kind(all_nodes(root), FsNodeType::Directory)
}

/// The sum of the sizes of the given nodes.
pub open spec fn size_sum(nodes: Seq<NodeModel>) -> nat
    decreases nodes.len(),
{
    if nodes.len() == 0 {
        0
    } else {
        size_sum(nodes.drop_last()) + nodes.last().size
    }
}

/// Filtering a sequence that ends in `last` filters what comes before and keeps `last`
/// where the test admits it.
pub proof fn lemma_filter_push<A>(s: Seq<A>, last: A, pred: spec_fn(A) -> bool)
    ensures
        s.push(last).filter(pred) == if pred(last) {
            s.filter(pred).push(last)
        } else {
            s.filter(pred)
        },
{
    reveal(Seq::filter);
    assert(s.push(last).drop_last() =~= s);
}

/// Appends every node of the subtree rooted at `node` to `out`, parents before children.
pub fn collect_nodes<'a>(node: &'a FsNode, out: &mut Vec<&'a FsNode>)
    ensures
        refs_view(final(out)@) == refs_view(old(out)@) + all_nodes(node@),
    decreases node,
{
    let ghost start = refs_view(out@);
    out.push(node);
    proof {
        lemma_children_view(*node);
        assert(refs_view(out@) =~= start + seq![node@]);
    }
    if let Some(children) = &node.children {
        let mut i: usize = 0;
        proof {
            assert(nodes_view(children@).take(0) =~= Seq::empty());
            assert(refs_view(out@) =~= start + (seq![node@] + forest_nodes(
                nodes_view(children@).take(0),
            )));
        }
        while i < children.len()
            invariant
                i <= children.len(),
                node.children == Some(*children),
                refs_view(out@) == start + (seq![node@] + forest_nodes(
                    nodes_view(children@).take(i as int),
                )),
            decreases children.len() - i,
        {
            assert(node.children->0 == *children);
            collect_nodes(&children[i], out);
            proof {
                let views = nodes_view(children@);
                assert(views.take(i + 1).drop_last() =~= views.take(i as int));
                assert(views.take(i + 1).last() == children[i as int]@);
                assert(refs_view(out@) =~= start + (seq![node@] + forest_nodes(
                    views.take(i + 1),
                )));
            }
            i = i + 1;
        }
        assert(nodes_view(children@).take(i as int) =~= nodes_view(children@));
    }
}

/// Counts the nodes of a tree, the root included.
pub fn total_node_count(tree: &FsTree) -> (count: usize)
    ensures
        count == all_nodes(tree@.root).len(),
{
    let mut nodes: Vec<&FsNode> = Vec::new();
    collect_nodes(&tree.root, &mut nodes);
    assert(refs_view(nodes@) =~= all_nodes(tree@.root));
    nodes.len()
}

/// Appends copies of the nodes of one kind in the subtree rooted at `node` to `out`,
/// parents before children.
fn collect_kind_recursive(node: &FsNode, kind: FsNodeType, out: &mut Vec<FsNode>)
    ensures
        nodes_view(final(out)@) == nodes_view(old(out)@) + nodes_of_kind(all_nodes(node@), kind),
    decreases node,
{
    let ghost start = nodes_view(out@);
    let ghost pred = has_kind(kind);
    proof {
        lemma_children_view(*node);
        lemma_filter_push(Seq::empty(), node@, pred);
        assert(Seq::<NodeModel>::empty().push(node@) =~= seq![node@]);
        assert(Seq::<NodeModel>::empty().filter(pred).len() <= 0);
    }
    if node.node_type == kind {
        let copy = node.clone();
        out.push(copy);
    }
    assert(nodes_view(out@) =~= start + seq![node@].filter(pred));
    if let Some(children) = &node.children {
        let ghost views = nodes_view(children@);
        let mut i: usize = 0;
        proof {
            assert(views.take(0) =~= Seq::empty());
            assert(forest_nodes(views.take(0)).filter(pred).len() <= 0);
            assert(nodes_view(out@) =~= start + (seq![node@].filter(pred) + forest_nodes(
                views.take(0),
            ).filter(pred)));
        }
        while i < children.len()
            invariant
                i <= children.len(),
                node.children == Some(*children),
                views == nodes_view(children@),
                pred == has_kind(kind),
                nodes_view(out@) == start + (seq![node@].filter(pred) + forest_nodes(
                    views.take(i as int),
                ).filter(pred)),
            decreases children.len() - i,
        {
            assert(node.children->0 == *children);
            collect_kind_recursive(&children[i], kind, out);
            proof {
                let done = forest_nodes(views.take(i as int));
                let more = all_nodes(children[i as int]@);
                assert(views.take(i + 1).drop_last() =~= views.take(i as int));
                assert(views.take(i + 1).last() == children[i as int]@);
                Seq::filter_distributes_over_add(done, more, pred);
                assert(nodes_view(out@) =~= start + (seq![node@].filter(pred) + forest_nodes(
                    views.take(i + 1),
                ).filter(pred)));
            }
            i = i + 1;
        }
        proof {
            assert(views.take(i as int) =~= views);
            Seq::filter_distributes_over_add(seq![node@], forest_nodes(views), pred);
        }
    }
}

/// Appends copies of the file nodes of a subtree to `files`, parents before children.
pub fn collect_files_recursive(node: &FsNode, files: &mut Vec<FsNode>)
    ensures
        nodes_view(final(files)@) == nodes_view(old(files)@) + files_of(node@),
{
    collect_kind_recursive(node, FsNodeType::File, files)
}

/// Appends copies of the directory nodes of a subtree to `dirs`, parents before children.
pub fn collect_dirs_recursive(node: &FsNode, dirs: &mut Vec<FsNode>)
    ensures
        nodes_view(final(dirs)@) == nodes_view(old(dirs)@) + directories_of(node@),
{
    collect_kind_recursive(node, FsNodeType::Directory, dirs)
}

/// Returns copies of all file nodes of the tree, parents before children.
pub fn get_all_files(tree: &FsTree) -> (files: Vec<FsNode>)
    ensures
        nodes_view(files@) == files_of(tree@.root),
{
    let mut files: Vec<FsNode> = Vec::new();
    collect_files_recursive(&tree.root, &mut files);
    assert(nodes_view(files@) =~= files_of(tree@.root));
    files
}

/// Returns copies of all directory nodes of the tree, parents before children.
pub fn get_all_directories(tree: &FsTree) -> (dirs: Vec<FsNode>)
    ensures
        nodes_view(dirs@) == directories_of(tree@.root),
{
    let mut dirs: Vec<FsNode> = Vec::new();
    collect_dirs_recursive(&tree.root, &mut dirs);
    assert(nodes_view(dirs@) =~= directories_of(tree@.root));
    dirs
}

/// The label of the record for files without an extension.
pub open spec fn no_extension_label() -> Seq<char> {
    "(no extension)"@
}

/// The extension that a node is counted under: its extension, or the label for none.
pub open spec fn bucket_key(node: NodeModel) -> Seq<char> {
    match node.extension() {
        Some(e) => e,
        None => no_extension_label(),
    }
}

/// The number of nodes that are counted under `key`.
pub open spec fn bucket_count(files: Seq<NodeModel>, key: Seq<char>) -> nat
    decreases files.len(),
{
    if files.len() == 0 {
        0
    } else {
        bucket_count(files.drop_last(), key) + if bucket_key(files.last()) == key {
            1nat
        } else {
            0nat
        }
    }
}

/// The total size of the nodes that are counted under `key`.
pub open spec fn bucket_size(files: Seq<NodeModel>, key: Seq<char>) -> nat
    decreases files.len(),
{
    if files.len() == 0 {
        0
    } else {
        bucket_size(files.drop_last(), key) + if bucket_key(files.last()) == key {
            files.last().size
        } else {
            0nat
        }
    }
}

/// The distinct extensions of the given nodes, in order of first appearance.
pub open spec fn bucket_keys(files: Seq<NodeModel>) -> Seq<Seq<char>>
    decreases files.len(),
{
    if files.len() == 0 {
        Seq::empty()
    } else {
        let before = bucket_keys(files.drop_last());
        let key = bucket_key(files.last());
        if before.contains(key) {
            before
        } else {
            before.push(key)
        }
    }
}

/// The per-extension records of the given nodes: one record for each distinct
/// extension, in order of first appearance, with the number and the total size of the
/// nodes counted under it.
pub open spec fn extension_buckets(files: Seq<NodeModel>) -> Seq<FileTypeModel> {
    let keys = bucket_keys(files);
    Seq::new(
        keys.len(),
        |i: int|
            FileTypeModel {
                extension: keys[i],
                count: bucket_count(files, keys[i]),
                total_size: bucket_size(files, keys[i]),
            },
    )
}

/// The extensions of the records are distinct, and each is the extension of a node.
pub proof fn lemma_bucket_keys(files: Seq<NodeModel>)
    ensures
        bucket_keys(files).no_duplicates(),
        forall|i: int| 0 <= i < files.len() ==> bucket_keys(files).contains(bucket_key(files[i])),
        forall|k: int|
            0 <= k < bucket_keys(files).len() ==> bucket_count(files, #[trigger] bucket_keys(files)[k])
                > 0,
    decreases files.len(),
{
    if files.len() > 0 {
        let rest = files.drop_last();
        lemma_bucket_keys(rest);
        let before = bucket_keys(rest);
        let key = bucket_key(files.last());
        let keys = bucket_keys(files);
        assert forall|i: int| 0 <= i < files.len() implies keys.contains(bucket_key(files[i])) by {
            if i < rest.len() {
                assert(rest[i] == files[i]);
                let j = choose|j: int| 0 <= j < before.len() && before[j] == bucket_key(rest[i]);
                assert(keys[j] == bucket_key(files[i]));
            } else if before.contains(key) {
            } else {
                assert(keys[before.len() as int] == key);
            }
        }
        assert forall|k: int| 0 <= k < keys.len() implies bucket_count(files, #[trigger] keys[k])
            > 0 by {
            if k < before.len() {
                assert(before[k] == keys[k]);
            }
        }
    }
}

/// A record never counts more nodes than there are, nor more bytes than all nodes hold.
pub proof fn lemma_bucket_bounds(files: Seq<NodeModel>, key: Seq<char>)
    ensures
        bucket_count(files, key) <= files.len(),
        bucket_size(files, key) <= size_sum(files),
    decreases files.len(),
{
    if files.len() > 0 {
        lemma_bucket_bounds(files.drop_last(), key);
    }
}

/// The sizes of a prefix sum to no more than the sizes of the whole.
pub proof fn lemma_size_sum_prefix(nodes: Seq<NodeModel>, n: int)
    requires
        0 <= n <= nodes.len(),
    ensures
        size_sum(nodes.take(n)) <= size_sum(nodes),
    decreases nodes.len() - n,
{
    if n < nodes.len() {
        lemma_size_sum_prefix(nodes, n + 1);
        assert(nodes.take(n + 1).drop_last() =~= nodes.take(n));
    } else {
        assert(nodes.take(n) =~= nodes);
    }
}

/// The name of the record for files without an extension.
pub fn no_extension_name() -> (r: &'static str)
    ensures
        r@ == no_extension_label(),
{
    "(no extension)"
}

/// Groups nodes by extension.
///
/// Returns one record per distinct extension, in order of first appearance.
pub fn analyze_by_extension(files: &Vec<&FsNode>) -> (buckets: Vec<FileTypeInfo>)
    requires
        size_sum(refs_view(files@)) <= u64::MAX,
    ensures
        types_view(buckets@) == extension_buckets(refs_view(files@)),
{
    let ghost views = refs_view(files@);
    let mut buckets: Vec<FileTypeInfo> = Vec::new();
    let mut i: usize = 0;
    proof {
        assert(views.take(0) =~= Seq::empty());
        assert(types_view(buckets@) =~= extension_buckets(views.take(0)));
    }
    while i < files.len()
        invariant
            i <= files.len(),
            views == refs_view(files@),
            size_sum(views) <= u64::MAX,
            types_view(buckets@) == extension_buckets(views.take(i as int)),
        decreases files.len() - i,
    {
        let file = files[i];
        let key = match file.extension() {
            Some(e) => e,
            None => String::from_str(no_extension_name()),
        };
        let ghost done = views.take(i as int);
        let ghost next = views.take(i + 1);
        let ghost keys = bucket_keys(done);
        proof {
            assert(next.drop_last() =~= done);
            assert(next.last() == file@);
            assert(key@ == bucket_key(file@));
            lemma_bucket_keys(done);
            lemma_size_sum_prefix(views, i + 1);
            lemma_bucket_bounds(next, key@);
            assert(types_view(buckets@).len() == buckets.len());
            assert(extension_buckets(done).len() == keys.len());
            assert forall|j: int| 0 <= j < buckets.len() implies buckets[j]@
                == extension_buckets(done)[j] by {
                assert(types_view(buckets@)[j] == buckets[j]@);
            }
            assert forall|k: int| 0 <= k < buckets.len() implies (#[trigger] buckets[k]).extension@
                == keys[k] by {
                assert(buckets[k]@ == extension_buckets(done)[k]);
            }
        }
        let mut j: usize = 0;
        let mut found: bool = false;
        while j < buckets.len() && !found
            invariant
                j <= buckets.len(),
                buckets.len() == keys.len(),
                forall|k: int| 0 <= k < buckets.len() ==> (#[trigger] buckets[k]).extension@ == keys[k],
                forall|k: int| 0 <= k < j - (if found { 1int } else { 0int }) ==> keys[k] != key@,
                found ==> j > 0 && keys[j - 1] == key@,
            decreases buckets.len() - j,
        {
            if str_equal(buckets[j].extension.as_str(), key.as_str()) {
                found = true;
            }
            j = j + 1;
        }
        let ghost before = buckets@;
        assert(types_view(before) == extension_buckets(done));
        if found {
            let at = j - 1;
            let current = &buckets[at];
            assert(current@ == extension_buckets(done)[at as int]);
            let updated = FileTypeInfo {
                extension: key,
                count: current.count + 1,
                total_size: current.total_size + file.size,
            };
            buckets.set(at, updated);
            proof {
                assert(keys.contains(key@));
                assert(bucket_keys(next) == keys);
                assert(extension_buckets(next).len() == keys.len());
                assert forall|k: int| 0 <= k < buckets.len() implies types_view(buckets@)[k]
                    == extension_buckets(next)[k] by {
                    assert(types_view(buckets@)[k] == buckets[k]@);
                    assert(types_view(before)[k] == before[k]@);
                    assert(types_view(before)[k] == extension_buckets(done)[k]);
                    assert(extension_buckets(next)[k].extension == keys[k]);
                    if k != at {
                        assert(buckets[k] == before[k]);
                        assert(keys[k] != keys[at as int]);
                        assert(bucket_key(next.last()) != keys[k]);
                    } else {
                        assert(bucket_key(next.last()) == keys[k]);
                    }
                    assert(bucket_count(next, keys[k]) == bucket_count(done, keys[k]) + if k
                        == at {
                        1nat
                    } else {
                        0nat
                    });
                    assert(bucket_size(next, keys[k]) == bucket_size(done, keys[k]) + if k == at {
                        file@.size
                    } else {
                        0nat
                    });
                }
                assert(types_view(buckets@) =~= extension_buckets(next));
            }
        } else {
            let fresh = FileTypeInfo { extension: key, count: 1, total_size: file.size };
            buckets.push(fresh);
            proof {
                assert(!keys.contains(key@));
                assert(bucket_keys(next) == keys.push(key@));
                lemma_absent_bucket(done, key@);
                assert(extension_buckets(next).len() == keys.len() + 1);
                assert forall|k: int| 0 <= k < buckets.len() implies types_view(buckets@)[k]
                    == extension_buckets(next)[k] by {
                    assert(types_view(buckets@)[k] == buckets[k]@);
                    assert(extension_buckets(next)[k].extension == keys.push(key@)[k]);
                    if k < before.len() {
                        assert(types_view(before)[k] == before[k]@);
                        assert(types_view(before)[k] == extension_buckets(done)[k]);
                        assert(buckets[k] == before[k]);
                        assert(keys.contains(keys[k]));
                        assert(keys[k] != key@);
                        assert(bucket_key(next.last()) != keys[k]);
                        assert(bucket_count(next, keys[k]) == bucket_count(done, keys[k]));
                        assert(bucket_size(next, keys[k]) == bucket_size(done, keys[k]));
                    } else {
                        assert(bucket_key(next.last()) == key@);
                        assert(bucket_count(next, key@) == bucket_count(done, key@) + 1);
                        assert(bucket_size(next, key@) == bucket_size(done, key@) + file@.size);
                    }
                }
                assert(types_view(buckets@) =~= extension_buckets(next));
            }
        }
        i = i + 1;
    }
    assert(views.take(i as int) =~= views);
    buckets
}

/// An extension that is no record's counts nothing.
proof fn lemma_absent_bucket(files: Seq<NodeModel>, key: Seq<char>)
    requires
        !bucket_keys(files).contains(key),
    ensures
        bucket_count(files, key) == 0,
        bucket_size(files, key) == 0,
    decreases files.len(),
{
    if files.len() > 0 {
        let rest = files.drop_last();
        let before = bucket_keys(rest);
        let keys = bucket_keys(files);
        if before.contains(key) {
            let j = choose|j: int| 0 <= j < before.len() && before[j] == key;
            assert(keys[j] == key);
        }
        if bucket_key(files.last()) == key {
            if before.contains(key) {
            } else {
                assert(keys[before.len() as int] == key);
            }
        }
        lemma_absent_bucket(rest, key);
    }
}

/// The entry that a node is listed as among the largest files.
pub open spec fn file_entry(node: NodeModel) -> FileEntryModel {
    FileEntryModel {
        name: node.name,
        path: match node.path {
            Some(p) => p,
            None => Seq::empty(),
        },
        size: node.size,
    }
}

/// Sort keys that order nodes by size alone.
pub open spec fn size_keys(files: Seq<NodeModel>) -> Seq<KeyModel> {
    Seq::new(
        files.len(),
        |i: int|
            KeyModel {
                is_dir: false,
                size: files[i].size,
                name: Seq::empty(),
                extension: Seq::empty(),
            },
    )
}

/// The positions of the given nodes ordered by size, largest first; nodes of equal size
/// keep their order.
pub open spec fn by_size(files: Seq<NodeModel>) -> Seq<int> {
    Seq::new(files.len(), |i: int| i).sort_by(position_order(size_keys(files), SortField::Size))
}

/// The `limit` largest of the given nodes as entries, largest first; fewer where there
/// are fewer nodes.
pub open spec fn largest_files(files: Seq<NodeModel>, limit: nat) -> Seq<FileEntryModel> {
    let order = by_size(files);
    let count = if limit <= order.len() {
        limit
    } else {
        order.len()
    };
    Seq::new(count, |k: int| file_entry(files[order[k]]))
}

/// Finds the largest of the given nodes.
///
/// Returns at most `limit` entries, largest first; nodes of equal size keep their order.
pub fn find_largest_files(files: &Vec<&FsNode>, limit: usize) -> (entries: Vec<FileEntry>)
    ensures
        entries_view(entries@) == largest_files(refs_view(files@), limit as nat),
{
    let ghost views = refs_view(files@);
    let mut positions: Vec<usize> = Vec::new();
    let mut keys: Vec<SortKey> = Vec::new();
    let mut i: usize = 0;
    while i < files.len()
        invariant
            i <= files.len(),
            views == refs_view(files@),
            positions.len() == i,
            keys.len() == i,
            forall|k: int| 0 <= k < i ==> positions[k] == k,
            forall|k: int| 0 <= k < i ==> (#[trigger] keys[k])@ == size_keys(views)[k],
        decreases files.len() - i,
    {
        positions.push(i);
        keys.push(
            SortKey { is_dir: false, size: files[i].size, name: String::new(), extension: String::new() },
        );
        i = i + 1;
    }
    proof {
        assert(ints(positions@) =~= Seq::new(views.len(), |i: int| i));
        assert(keys_view(keys@) =~= size_keys(views));
    }
    let order = sort_positions(&positions, &keys, SortField::Size);
    assert(ints(order@) == by_size(views));
    let count = if limit <= order.len() {
        limit
    } else {
        order.len()
    };
    let mut entries: Vec<FileEntry> = Vec::new();
    let mut k: usize = 0;
    while k < count
        invariant
            k <= count,
            count <= order.len(),
            views == refs_view(files@),
            keys.len() == files.len(),
            ints(order@) == by_size(views),
            forall|j: int| 0 <= j < order.len() ==> order[j] < keys.len(),
            entries.len() == k,
            forall|j: int| 0 <= j < k ==> (#[trigger] entries[j])@ == file_entry(views[by_size(views)[j]]),
        decreases count - k,
    {
        let at = order[k];
        assert(ints(order@)[k as int] == at as int);
        let file = files[at];
        let path = match &file.path {
            Some(p) => p.clone(),
            None => String::new(),
        };
        entries.push(FileEntry::new(file.name.clone(), path, file.size));
        k = k + 1;
    }
    assert(entries_view(entries@) =~= largest_files(views, limit as nat));
    entries
}

/// Counts the nodes of each kind in a list of nodes, sums the sizes of the files, and
/// lists the files in their order.
fn count_nodes<'a>(nodes: &Vec<&'a FsNode>, stats: &mut TreeStats, all_files: &mut Vec<&'a FsNode>)
    requires
        old(all_files)@.len() == 0,
        size_sum(nodes_of_kind(refs_view(nodes@), FsNodeType::File)) <= u64::MAX,
    ensures
        final(stats).total_files == nodes_of_kind(refs_view(nodes@), FsNodeType::File).len(),
        final(stats).total_directories == nodes_of_kind(
            refs_view(nodes@),
            FsNodeType::Directory,
        ).len(),
        final(stats).total_symlinks == nodes_of_kind(refs_view(nodes@), FsNodeType::Symlink).len(),
        final(stats).total_size == size_sum(nodes_of_kind(refs_view(nodes@), FsNodeType::File)),
        final(stats).files_by_extension == old(stats).files_by_extension,
        final(stats).largest_files == old(stats).largest_files,
        final(stats).scan_duration_ms == old(stats).scan_duration_ms,
        refs_view(final(all_files)@) == nodes_of_kind(refs_view(nodes@), FsNodeType::File),
{
    let ghost views = refs_view(nodes@);
    let mut files: usize = 0;
    let mut directories: usize = 0;
    let mut symlinks: usize = 0;
    let mut size: u64 = 0;
    let mut i: usize = 0;
    proof {
        assert(views.take(0) =~= Seq::empty());
        assert(refs_view(all_files@) =~= nodes_of_kind(views.take(0), FsNodeType::File));
    }
    while i < nodes.len()
        invariant
            i <= nodes.len(),
            views == refs_view(nodes@),
            size_sum(nodes_of_kind(views, FsNodeType::File)) <= u64::MAX,
            files == nodes_of_kind(views.take(i as int), FsNodeType::File).len(),
            directories == nodes_of_kind(views.take(i as int), FsNodeType::Directory).len(),
            symlinks == nodes_of_kind(views.take(i as int), FsNodeType::Symlink).len(),
            size == size_sum(nodes_of_kind(views.take(i as int), FsNodeType::File)),
            refs_view(all_files@) == nodes_of_kind(views.take(i as int), FsNodeType::File),
        decreases nodes.len() - i,
    {
        let node = nodes[i];
        let ghost done = views.take(i as int);
        let ghost before = refs_view(all_files@);
        proof {
            assert(views.take(i + 1) =~= done.push(node@));
            lemma_filter_push(done, node@, has_kind(FsNodeType::File));
            lemma_filter_push(done, node@, has_kind(FsNodeType::Directory));
            lemma_filter_push(done, node@, has_kind(FsNodeType::Symlink));
            done.lemma_filter_len(has_kind(FsNodeType::File));
            done.lemma_filter_len(has_kind(FsNodeType::Directory));
            done.lemma_filter_len(has_kind(FsNodeType::Symlink));
            lemma_kind_prefix(views, i + 1, FsNodeType::File);
            lemma_size_sum_prefix(
                nodes_of_kind(views, FsNodeType::File),
                nodes_of_kind(views.take(i + 1), FsNodeType::File).len() as int,
            );
        }
        match node.node_type {
            FsNodeType::Directory => {
                directories = directories + 1;
            },
            FsNodeType::File => {
                proof {
                    let kept = nodes_of_kind(done, FsNodeType::File);
                    assert(kept.push(node@).drop_last() =~= kept);
                }
                files = files + 1;
                size = size + node.size;
                all_files.push(node);
                assert(refs_view(all_files@) =~= before.push(node@));
            },
            FsNodeType::Symlink => {
                symlinks = symlinks + 1;
            },
        }
        i = i + 1;
    }
    assert(views.take(i as int) =~= views);
    stats.total_files = files;
    stats.total_directories = directories;
    stats.total_symlinks = symlinks;
    stats.total_size = size;
}

/// The nodes of one kind in a prefix are a prefix of the nodes of that kind.
pub proof fn lemma_kind_prefix(nodes: Seq<NodeModel>, n: int, kind: FsNodeType)
    requires
        0 <= n <= nodes.len(),
    ensures
        nodes_of_kind(nodes.take(n), kind).len() <= nodes_of_kind(nodes, kind).len(),
        nodes_of_kind(nodes.take(n), kind) == nodes_of_kind(nodes, kind).take(
            nodes_of_kind(nodes.take(n), kind).len() as int,
        ),
{
    let pred = has_kind(kind);
    assert(nodes =~= nodes.take(n) + nodes.skip(n));
    Seq::filter_distributes_over_add(nodes.take(n), nodes.skip(n), pred);
    let a = nodes.take(n).filter(pred);
    let b = nodes.skip(n).filter(pred);
    assert((a + b).take(a.len() as int) =~= a);
}

/// Sums the sizes of the file nodes of a tree; `None` where the sum does not fit.
pub fn checked_total_size(tree: &FsTree) -> (total: Option<u64>)
    ensures
        match total {
            Some(t) => t == size_sum(files_of(tree@.root)),
            None => size_sum(files_of(tree@.root)) > u64::MAX,
        },
{
    let mut nodes: Vec<&FsNode> = Vec::new();
    collect_nodes(&tree.root, &mut nodes);
    let ghost views = refs_view(nodes@);
    assert(views =~= all_nodes(tree@.root));
    let mut size: u64 = 0;
    let mut i: usize = 0;
    proof {
        assert(views.take(0) =~= Seq::empty());
    }
    while i < nodes.len()
        invariant
            i <= nodes.len(),
            views == refs_view(nodes@),
            views == all_nodes(tree@.root),
            size == size_sum(nodes_of_kind(views.take(i as int), FsNodeType::File)),
        decreases nodes.len() - i,
    {
        let node = nodes[i];
        proof {
            let done = views.take(i as int);
            assert(views.take(i + 1) =~= done.push(node@));
            lemma_filter_push(done, node@, has_kind(FsNodeType::File));
            let kept = nodes_of_kind(done, FsNodeType::File);
            assert(kept.push(node@).drop_last() =~= kept);
            lemma_kind_prefix(views, i + 1, FsNodeType::File);
            lemma_size_sum_prefix(
                nodes_of_kind(views, FsNodeType::File),
                nodes_of_kind(views.take(i + 1), FsNodeType::File).len() as int,
            );
        }
        if node.node_type == FsNodeType::File {
            match size.checked_add(node.size) {
                Some(sum) => {
                    size = sum;
                },
                None => {
                    return None;
                },
            }
        }
        i = i + 1;
    }
    assert(views.take(i as int) =~= views);
    Some(size)
}

/// The number of largest files that is tracked for a requested limit: at least one.
pub open spec fn effective_limit(limit: nat) -> nat {
    if limit < 1 {
        1
    } else {
        limit
    }
}

/// The statistics of a tree: the number of nodes of each kind, the total size of the
/// files, one record per extension, and the largest files up to the limit. The scan
/// duration is left at 0 for the caller to fill in.
pub open spec fn stats_of(root: NodeModel, limit: nat) -> StatsModel {
    StatsModel {
        total_files: files_of(root).len(),
        total_directories: directories_of(root).len(),
        total_symlinks: nodes_of_kind(all_nodes(root), FsNodeType::Symlink).len(),
        total_size: size_sum(files_of(root)),
        files_by_extension: extension_buckets(files_of(root)),
        largest_files: largest_files(files_of(root), effective_limit(limit)),
        scan_duration_ms: 0,
    }
}

/// Collects the statistics of a tree in one pass over its nodes.
///
/// `largest_limit` bounds the list of largest files; a limit of 0 counts as 1. The sizes
/// of the files must sum to a value that fits in `u64`, which `checked_total_size` tests.
pub fn collect_stats(tree: &FsTree, largest_limit: usize) -> (stats: TreeStats)
    requires
        size_sum(files_of(tree@.root)) <= u64::MAX,
    ensures
        stats@ == stats_of(tree@.root, largest_limit as nat),
        stats.total_files + stats.total_directories + stats.total_symlinks == all_nodes(
            tree@.root,
        ).len(),
        stats.largest_files.len() == if effective_limit(largest_limit as nat)
            <= stats.total_files {
            effective_limit(largest_limit as nat)
        } else {
            stats.total_files as nat
        },
        forall|i: int, j: int|
            0 <= i < j < stats.largest_files.len() ==> stats.largest_files[i].size
                >= stats.largest_files[j].size,
{
    let mut nodes: Vec<&FsNode> = Vec::new();
    collect_nodes(&tree.root, &mut nodes);
    assert(refs_view(nodes@) =~= all_nodes(tree@.root));
    let mut stats = TreeStats::new();
    let mut all_files: Vec<&FsNode> = Vec::new();
    count_nodes(&nodes, &mut stats, &mut all_files);
    let limit = if largest_limit < 1 {
        1
    } else {
        largest_limit
    };
    stats.files_by_extension = analyze_by_extension(&all_files);
    stats.largest_files = find_largest_files(&all_files, limit);
    proof {
        law_counts_cover_tree(tree@.root, largest_limit as nat);
        law_largest_files(files_of(tree@.root), effective_limit(largest_limit as nat));
        let listed = entries_view(stats.largest_files@);
        assert forall|i: int, j: int| 0 <= i < j < stats.largest_files.len() implies stats.largest_files[i].size
            >= stats.largest_files[j].size by {
            assert(listed[i] == stats.largest_files[i]@);
            assert(listed[j] == stats.largest_files[j]@);
        }
    }
    stats
}

/// Collects the statistics of a tree; `None` where the sizes of its files sum to more
/// than fits in `u64`.
pub fn try_collect_stats(tree: &FsTree, largest_limit: usize) -> (stats: Option<TreeStats>)
    ensures
        match stats {
            Some(s) => {
                &&& size_sum(files_of(tree@.root)) <= u64::MAX
                &&& s@ == stats_of(tree@.root, largest_limit as nat)
                &&& s.total_files + s.total_directories + s.total_symlinks == all_nodes(
                    tree@.root,
                ).len()
                &&& s.largest_files.len() <= effective_limit(largest_limit as nat)
                &&& s.largest_files.len() <= s.total_files
            },
            None => size_sum(files_of(tree@.root)) > u64::MAX,
        },
{
    match checked_total_size(tree) {
        Some(_) => Some(collect_stats(tree, largest_limit)),
        None => None,
    }
}

} // verus!
