//! Laws that relate the walkers, the sibling order and the statistics to one another.

use crate::collector::{
    bucket_count, bucket_key, bucket_keys, bucket_size, by_size, extension_buckets, file_entry,
    has_kind, largest_files, lemma_bucket_keys, lemma_filter_push, nodes_of_kind,
    size_keys, size_sum, stats_of,
};
use crate::filter::FilterModel;
use crate::models::{
    all_nodes, deepest, forest_nodes, lemma_deepest, well_formed, FileEntryModel, FileTypeModel,
    FsNodeType, NodeModel,
};
use crate::snapshot::{
    entry_keys, lemma_sibling_order_members, sibling_order, survivors, ScanModel,
};
use crate::sorting::{lemma_position_order_total, position_order, SortField};
use crate::streaming::{stream_below, stream_level, stream_record, StreamModel};
use crate::walker::{may_descend, walk_children, walk_node, WalkModel};
use vstd::prelude::*;

verus! {

broadcast use {vstd::seq_lib::group_filter_ensures, vstd::seq_lib::group_to_multiset_ensures};

/// Every node has exactly one kind: the nodes of the three kinds add up to all nodes.
pub proof fn law_kinds_partition(nodes: Seq<NodeModel>)
    ensures
        nodes_of_kind(nodes, FsNodeType::File).len() + nodes_of_kind(
            nodes,
            FsNodeType::Directory,
        ).len() + nodes_of_kind(nodes, FsNodeType::Symlink).len() == nodes.len(),
    decreases nodes.len(),
{
    if nodes.len() > 0 {
        let rest = nodes.drop_last();
        law_kinds_partition(rest);
        assert(nodes =~= rest.push(nodes.last()));
        lemma_filter_push(rest, nodes.last(), has_kind(FsNodeType::File));
        lemma_filter_push(rest, nodes.last(), has_kind(FsNodeType::Directory));
        lemma_filter_push(rest, nodes.last(), has_kind(FsNodeType::Symlink));
    } else {
        assert(nodes.filter(has_kind(FsNodeType::File)).len() <= nodes.len());
        assert(nodes.filter(has_kind(FsNodeType::Directory)).len() <= nodes.len());
        assert(nodes.filter(has_kind(FsNodeType::Symlink)).len() <= nodes.len());
    }
}

/// The file, directory and link counts of a tree's statistics add up to the number of
/// nodes of the tree, the root included.
pub proof fn law_counts_cover_tree(root: NodeModel, limit: nat)
    ensures
        stats_of(root, limit).total_files + stats_of(root, limit).total_directories + stats_of(
            root,
            limit,
        ).total_symlinks == all_nodes(root).len(),
{
    law_kinds_partition(all_nodes(root));
}

/// What holds of every node of several subtrees holds of every node of their forest.
proof fn lemma_forest_all(trees: Seq<NodeModel>, p: spec_fn(NodeModel) -> bool)
    requires
        forall|k: int, i: int|
            0 <= k < trees.len() && 0 <= i < all_nodes(trees[k]).len() ==> p(
                #[trigger] all_nodes(trees[k])[i],
            ),
    ensures
        forall|i: int| 0 <= i < forest_nodes(trees).len() ==> p(#[trigger] forest_nodes(trees)[i]),
    decreases trees.len(),
{
    if trees.len() > 0 {
        let rest = trees.drop_last();
        assert forall|k: int, i: int|
            0 <= k < rest.len() && 0 <= i < all_nodes(rest[k]).len() implies p(
            #[trigger] all_nodes(rest[k])[i],
        ) by {
            assert(rest[k] == trees[k]);
        }
        lemma_forest_all(rest, p);
        let a = forest_nodes(rest);
        let b = all_nodes(trees.last());
        assert forall|i: int| 0 <= i < forest_nodes(trees).len() implies p(
            #[trigger] forest_nodes(trees)[i],
        ) by {
            if i < a.len() {
                assert(forest_nodes(trees)[i] == a[i]);
            } else {
                assert(forest_nodes(trees)[i] == b[i - a.len()]);
                assert(p(all_nodes(trees[trees.len() - 1])[i - a.len()]));
            }
        }
    }
}

/// The test for a depth between two bounds.
pub open spec fn depth_within(low: nat, high: nat) -> spec_fn(NodeModel) -> bool {
    |n: NodeModel| low <= n.depth <= high
}

/// Under a depth limit, every node of the walk of an entry placed at or above the limit
/// lies between the entry's depth and the limit.
pub proof fn law_depth_limit(entry: ScanModel, rules: WalkModel, depth: nat)
    requires
        rules.max_depth > 0,
        depth <= rules.max_depth,
    ensures
        forall|i: int|
            0 <= i < all_nodes(walk_node(entry, rules, depth)).len() ==> depth <= (
            #[trigger] all_nodes(walk_node(entry, rules, depth))[i]).depth <= rules.max_depth,
        deepest(all_nodes(walk_node(entry, rules, depth))) <= rules.max_depth,
    decreases entry,
{
    let node = walk_node(entry, rules, depth);
    let nodes = all_nodes(node);
    match node.children {
        Some(c) => {
            let order = rules.order(entry.entries);
            lemma_sibling_order_members(entry.entries, rules.filter, rules.sort_by, rules.reverse);
            let p = depth_within(depth + 1, rules.max_depth);
            assert forall|k: int, i: int|
                0 <= k < c.len() && 0 <= i < all_nodes(c[k]).len() implies p(
                #[trigger] all_nodes(c[k])[i],
            ) by {
                law_depth_limit(entry.entries[order[k]], rules, depth + 1);
            }
            lemma_forest_all(c, p);
            assert forall|i: int| 0 <= i < nodes.len() implies depth <= (#[trigger] nodes[i]).depth
                <= rules.max_depth by {
                if i > 0 {
                    assert(nodes[i] == forest_nodes(c)[i - 1]);
                    assert(p(forest_nodes(c)[i - 1]));
                }
            }
        },
        None => {},
    }
    lemma_deepest(nodes);
}

/// In the sibling order without reversal, nothing but directories comes before a
/// directory; with reversal, nothing but directories comes after one.
pub proof fn law_directories_first(
    entries: Seq<ScanModel>,
    filter: FilterModel,
    field: SortField,
    reverse: bool,
)
    ensures
        ({
            let order = sibling_order(entries, filter, field, reverse);
            forall|i: int, j: int|
                0 <= i < j < order.len() ==> if reverse {
                    entries[order[i]].is_directory() ==> entries[order[j]].is_directory()
                } else {
                    entries[order[j]].is_directory() ==> entries[order[i]].is_directory()
                }
        }),
{
    let keys = entry_keys(entries);
    let leq = position_order(keys, field);
    let sorted = sibling_order(entries, filter, field, false);
    let order = sibling_order(entries, filter, field, reverse);
    lemma_position_order_total(keys, field);
    survivors(entries, filter).lemma_sort_by_ensures(leq);
    lemma_sibling_order_members(entries, filter, field, false);
    assert forall|a: int, b: int|
        0 <= a < b < sorted.len() && entries[sorted[b]].is_directory() implies entries[sorted[a]].is_directory() by {
        assert(leq(sorted[a], sorted[b]));
        assert(keys[sorted[a]] == entries[sorted[a]].key());
        assert(keys[sorted[b]] == entries[sorted[b]].key());
    }
    assert forall|i: int, j: int| 0 <= i < j < order.len() implies if reverse {
        entries[order[i]].is_directory() ==> entries[order[j]].is_directory()
    } else {
        entries[order[j]].is_directory() ==> entries[order[i]].is_directory()
    } by {
        if reverse {
            let n = sorted.len();
            assert(order[i] == sorted[n - 1 - i]);
            assert(order[j] == sorted[n - 1 - j]);
        }
    }
}

/// Reversal flips the whole sibling order, the grouping of directories included.
pub proof fn law_reverse_flips_order(entries: Seq<ScanModel>, filter: FilterModel, field: SortField)
    ensures
        sibling_order(entries, filter, field, true) == sibling_order(
            entries,
            filter,
            field,
            false,
        ).reverse(),
{
}

/// Sorted by size without reversal, entries of one class never grow in size along the
/// sibling order, and entries of equal class and size keep their enumeration order.
pub proof fn law_size_order(entries: Seq<ScanModel>, filter: FilterModel)
    ensures
        ({
            let order = sibling_order(entries, filter, SortField::Size, false);
            forall|i: int, j: int|
                0 <= i < j < order.len() && entries[order[i]].is_directory()
                    == entries[order[j]].is_directory() ==> entries[order[i]].node_size()
                    >= entries[order[j]].node_size() && (entries[order[i]].node_size()
                    == entries[order[j]].node_size() ==> order[i] < order[j])
        }),
{
    let keys = entry_keys(entries);
    let leq = position_order(keys, SortField::Size);
    let order = sibling_order(entries, filter, SortField::Size, false);
    lemma_position_order_total(keys, SortField::Size);
    survivors(entries, filter).lemma_sort_by_ensures(leq);
    lemma_sibling_order_members(entries, filter, SortField::Size, false);
    assert forall|i: int, j: int|
        0 <= i < j < order.len() && entries[order[i]].is_directory()
            == entries[order[j]].is_directory() implies entries[order[i]].node_size()
        >= entries[order[j]].node_size() && (entries[order[i]].node_size()
        == entries[order[j]].node_size() ==> order[i] < order[j]) by {
        assert(leq(order[i], order[j]));
        assert(keys[order[i]] == entries[order[i]].key());
        assert(keys[order[j]] == entries[order[j]].key());
        if order[i] == order[j] {
            assert(order.to_multiset().count(order[i]) >= 2) by {
                lemma_twice(order, i, j);
            }
            lemma_survivors_once(entries, filter, order[i]);
        }
    }
}

/// A value at two positions of a sequence occurs at least twice in its multiset.
proof fn lemma_twice(s: Seq<int>, i: int, j: int)
    requires
        0 <= i < j < s.len(),
        s[i] == s[j],
    ensures
        s.to_multiset().count(s[i]) >= 2,
    decreases s.len(),
{
    let rest = s.drop_last();
    assert(s =~= rest.push(s.last()));
    if j == s.len() - 1 {
        assert(rest.contains(rest[i]));
        assert(rest.to_multiset().count(s[i]) >= 1);
    } else {
        lemma_twice(rest, i, j);
    }
}

/// Each position occurs at most once among the survivors.
proof fn lemma_survivors_once(entries: Seq<ScanModel>, filter: FilterModel, x: int)
    ensures
        survivors(entries, filter).to_multiset().count(x) <= 1,
{
    let all = Seq::new(entries.len(), |i: int| i);
    let pred = |i: int| entries[i].survives(filter);
    lemma_filter_count(all, pred, x);
    lemma_identity_count(entries.len(), x);
}

/// Filtering never raises the number of occurrences of a value.
proof fn lemma_filter_count(s: Seq<int>, pred: spec_fn(int) -> bool, x: int)
    ensures
        s.filter(pred).to_multiset().count(x) <= s.to_multiset().count(x),
    decreases s.len(),
{
    if s.len() > 0 {
        let rest = s.drop_last();
        assert(s =~= rest.push(s.last()));
        lemma_filter_push(rest, s.last(), pred);
        lemma_filter_count(rest, pred, x);
    } else {
        assert(s.filter(pred).len() <= s.len());
        assert(s.filter(pred) =~= s);
    }
}

/// Each value occurs at most once among the positions `0..n`.
proof fn lemma_identity_count(n: nat, x: int)
    ensures
        Seq::new(n, |i: int| i).to_multiset().count(x) <= 1,
        !(0 <= x < n) ==> Seq::new(n, |i: int| i).to_multiset().count(x) == 0,
    decreases n,
{
    let s = Seq::new(n, |i: int| i);
    if n > 0 {
        let rest = Seq::new((n - 1) as nat, |i: int| i);
        assert(s =~= rest.push(n - 1));
        lemma_identity_count((n - 1) as nat, x);
    } else {
        assert(s =~= Seq::empty());
        assert(s.to_multiset().len() == 0);
    }
}

/// Whether an entry lists one of the given nodes.
pub open spec fn is_entry_of(files: Seq<NodeModel>, entry: FileEntryModel) -> bool {
    exists|i: int| 0 <= i < files.len() && entry == file_entry(#[trigger] files[i])
}

/// The list of largest files holds as many entries as the limit allows and there are
/// files, and its sizes never grow.
pub proof fn law_largest_files(files: Seq<NodeModel>, limit: nat)
    ensures
        largest_files(files, limit).len() == if limit <= files.len() {
            limit
        } else {
            files.len()
        },
        forall|i: int, j: int|
            0 <= i < j < largest_files(files, limit).len() ==> largest_files(files, limit)[i].size
                >= largest_files(files, limit)[j].size,
        forall|k: int|
            0 <= k < largest_files(files, limit).len() ==> is_entry_of(
                files,
                #[trigger] largest_files(files, limit)[k],
            ),
{
    let all = Seq::new(files.len(), |i: int| i);
    let keys = size_keys(files);
    let leq = position_order(keys, SortField::Size);
    let order = by_size(files);
    lemma_position_order_total(keys, SortField::Size);
    all.lemma_sort_by_ensures(leq);
    assert(order.len() == order.to_multiset().len());
    assert(all.len() == all.to_multiset().len());
    assert forall|k: int| 0 <= k < order.len() implies 0 <= #[trigger] order[k] < files.len() by {
        assert(order.to_multiset().count(order[k]) > 0);
        lemma_identity_count(files.len(), order[k]);
    }
    let largest = largest_files(files, limit);
    assert forall|i: int, j: int| 0 <= i < j < largest.len() implies largest[i].size
        >= largest[j].size by {
        assert(leq(order[i], order[j]));
        assert(0 <= order[i] < files.len());
        assert(0 <= order[j] < files.len());
    }
    assert forall|k: int| 0 <= k < largest.len() implies is_entry_of(files, #[trigger] largest[k]) by {
        assert(0 <= order[k] < files.len());
        assert(largest[k] == file_entry(files[order[k]]));
    }
}

/// The walk of an entry is a well-formed node at the depth it was placed at.
pub proof fn law_walk_well_formed(entry: ScanModel, rules: WalkModel, depth: nat)
    ensures
        well_formed(walk_node(entry, rules, depth)),
        walk_node(entry, rules, depth).depth == depth,
    decreases entry,
{
    let node = walk_node(entry, rules, depth);
    match node.children {
        Some(c) => {
            let order = rules.order(entry.entries);
            lemma_sibling_order_members(entry.entries, rules.filter, rules.sort_by, rules.reverse);
            assert forall|i: int| 0 <= i < c.len() implies (#[trigger] c[i]).depth == node.depth + 1
                && well_formed(c[i]) by {
                law_walk_well_formed(entry.entries[order[i]], rules, depth + 1);
            }
        },
        None => {},
    }
}

/// What a renderer draws of one entry: everything a record carries but the probe for
/// children.
pub ghost struct RowModel {
    pub name: Seq<char>,
    pub path: Seq<char>,
    pub kind: FsNodeType,
    pub size: nat,
    pub depth: nat,
    pub is_last: bool,
}

/// The row of an emitted record.
pub open spec fn record_row(record: StreamModel) -> RowModel {
    RowModel {
        name: record.name,
        path: record.path,
        kind: record.kind,
        size: record.size,
        depth: record.depth,
        is_last: record.is_last,
    }
}

/// The rows of a sequence of records.
pub open spec fn stream_rows(records: Seq<StreamModel>) -> Seq<RowModel> {
    Seq::new(records.len(), |i: int| record_row(records[i]))
}

/// The row of a tree node that is, or is not, the last of its siblings.
pub open spec fn node_row(node: NodeModel, is_last: bool) -> RowModel {
    RowModel {
        name: node.name,
        path: match node.path {
            Some(p) => p,
            None => Seq::empty(),
        },
        kind: node.kind,
        size: node.size,
        depth: node.depth,
        is_last: is_last,
    }
}

/// The rows of the first `count` of some siblings, each followed by the rows below it.
pub open spec fn rows_of(siblings: Seq<NodeModel>, count: nat) -> Seq<RowModel>
    decreases siblings, count,
{
    if count == 0 {
        Seq::empty()
    } else {
        let k = count - 1;
        let before = rows_of(siblings, k as nat);
        if k < siblings.len() {
            before + seq![node_row(siblings[k], k == siblings.len() - 1)] + rows_below(siblings[k])
        } else {
            before
        }
    }
}

/// The rows of everything below a tree node, parents before children.
pub open spec fn rows_below(node: NodeModel) -> Seq<RowModel>
    decreases node, 0nat,
{
    match node.children {
        Some(c) => rows_of(c, c.len()),
        None => Seq::empty(),
    }
}

/// The rows of a concatenation are the rows of its parts.
proof fn lemma_stream_rows_concat(a: Seq<StreamModel>, b: Seq<StreamModel>)
    ensures
        stream_rows(a + b) == stream_rows(a) + stream_rows(b),
{
    assert(stream_rows(a + b) =~= stream_rows(a) + stream_rows(b));
}

/// The records of the first `count` surviving entries draw the rows of the first `count`
/// children of the walk.
proof fn lemma_level_matches(entry: ScanModel, rules: WalkModel, depth: nat, count: nat)
    requires
        count <= rules.order(entry.entries).len(),
    ensures
        stream_rows(stream_level(entry, rules, depth, count)) == rows_of(
            walk_children(entry, rules, depth),
            count,
        ),
    decreases entry, 0nat, count,
{
    let order = rules.order(entry.entries);
    let children = walk_children(entry, rules, depth);
    if count == 0 {
        assert(stream_rows(Seq::<StreamModel>::empty()) =~= Seq::<RowModel>::empty());
    } else {
        let k = count - 1;
        lemma_sibling_order_members(entry.entries, rules.filter, rules.sort_by, rules.reverse);
        lemma_level_matches(entry, rules, depth, k as nat);
        let child = entry.entries[order[k]];
        law_stream_matches_tree(child, rules, depth);
        let before = stream_level(entry, rules, depth, k as nat);
        let record = stream_record(child, rules, depth, k == order.len() - 1);
        let below = stream_below(child, rules, depth);
        lemma_stream_rows_concat(before + seq![record], below);
        lemma_stream_rows_concat(before, seq![record]);
        assert(stream_rows(seq![record]) =~= seq![record_row(record)]);
        assert(children[k] == walk_node(child, rules, depth));
        assert(record_row(record) == node_row(children[k], k == children.len() - 1));
    }
}

/// The streaming walk and the tree walk agree: the records emitted below an entry draw,
/// in order, the rows of the nodes below the entry's node, with the same names, paths,
/// kinds, sizes, depths and last-sibling marks.
pub proof fn law_stream_matches_tree(entry: ScanModel, rules: WalkModel, depth: nat)
    ensures
        stream_rows(stream_below(entry, rules, depth)) == rows_below(
            walk_node(entry, rules, depth),
        ),
    decreases entry, 1nat, 0nat,
{
    let order = rules.order(entry.entries);
    if entry.is_directory() && may_descend(depth, rules.max_depth) {
        lemma_level_matches(entry, rules, depth + 1, order.len());
        if order.len() == 0 {
            assert(stream_rows(Seq::<StreamModel>::empty()) =~= Seq::<RowModel>::empty());
        }
    } else {
        assert(stream_rows(Seq::<StreamModel>::empty()) =~= Seq::<RowModel>::empty());
    }
}

/// The first `count` of some siblings have as many rows as their subtrees have nodes.
proof fn lemma_rows_of_count(siblings: Seq<NodeModel>, count: nat)
    requires
        count <= siblings.len(),
    ensures
        rows_of(siblings, count).len() == forest_nodes(siblings.take(count as int)).len(),
    decreases siblings, count,
{
    if count == 0 {
        assert(siblings.take(0) =~= Seq::empty());
    } else {
        let k = count - 1;
        lemma_rows_of_count(siblings, k as nat);
        lemma_rows_below_count(siblings[k]);
        assert(siblings.take(count as int).drop_last() =~= siblings.take(k));
        assert(siblings.take(count as int).last() == siblings[k]);
    }
}

/// A node has one row below it for each node of its subtree but itself.
pub proof fn lemma_rows_below_count(node: NodeModel)
    ensures
        rows_below(node).len() + 1 == all_nodes(node).len(),
    decreases node, 0nat,
{
    match node.children {
        Some(c) => {
            lemma_rows_of_count(c, c.len());
            assert(c.take(c.len() as int) =~= c);
        },
        None => {},
    }
}

/// The streaming walk emits one record for each node of the tree walk but the root.
pub proof fn law_stream_count(entry: ScanModel, rules: WalkModel, depth: nat)
    ensures
        stream_below(entry, rules, depth).len() + 1 == all_nodes(
            walk_node(entry, rules, depth),
        ).len(),
{
    law_stream_matches_tree(entry, rules, depth);
    lemma_rows_below_count(walk_node(entry, rules, depth));
    assert(stream_rows(stream_below(entry, rules, depth)).len() == stream_below(
        entry,
        rules,
        depth,
    ).len());
}

/// The statistics of the tree walk count one node more than the streaming walk emits
/// records: the root, which is drawn apart.
pub proof fn law_counts_match_stream(entry: ScanModel, rules: WalkModel, limit: nat)
    ensures
        ({
            let stats = stats_of(walk_node(entry, rules, 0), limit);
            stats.total_files + stats.total_directories + stats.total_symlinks == stream_below(
                entry,
                rules,
                0,
            ).len() + 1
        }),
{
    law_counts_cover_tree(walk_node(entry, rules, 0), limit);
    law_stream_count(entry, rules, 0);
}

/// The sum of the counts of some per-extension records.
pub open spec fn count_total(buckets: Seq<FileTypeModel>) -> nat
    decreases buckets.len(),
{
    if buckets.len() == 0 {
        0
    } else {
        count_total(buckets.drop_last()) + buckets.last().count
    }
}

/// The sum of the sizes of some per-extension records.
pub open spec fn size_total(buckets: Seq<FileTypeModel>) -> nat
    decreases buckets.len(),
{
    if buckets.len() == 0 {
        0
    } else {
        size_total(buckets.drop_last()) + buckets.last().total_size
    }
}

/// The records of the given nodes for a list of extensions.
spec fn buckets_for(files: Seq<NodeModel>, keys: Seq<Seq<char>>) -> Seq<FileTypeModel> {
    Seq::new(
        keys.len(),
        |i: int|
            FileTypeModel {
                extension: keys[i],
                count: bucket_count(files, keys[i]),
                total_size: bucket_size(files, keys[i]),
            },
    )
}

/// One more node raises the totals of the records by one node and its size where its
/// extension is among the distinct extensions, and leaves them where it is not.
proof fn lemma_partition_step(files: Seq<NodeModel>, last: NodeModel, keys: Seq<Seq<char>>)
    requires
        keys.no_duplicates(),
    ensures
        count_total(buckets_for(files.push(last), keys)) == count_total(buckets_for(files, keys))
            + if keys.contains(bucket_key(last)) {
            1nat
        } else {
            0nat
        },
        size_total(buckets_for(files.push(last), keys)) == size_total(buckets_for(files, keys))
            + if keys.contains(bucket_key(last)) {
            last.size
        } else {
            0nat
        },
    decreases keys.len(),
{
    let more = files.push(last);
    assert(more.drop_last() =~= files);
    if keys.len() > 0 {
        let rest = keys.drop_last();
        lemma_partition_step(files, last, rest);
        assert(buckets_for(more, keys).drop_last() =~= buckets_for(more, rest));
        assert(buckets_for(files, keys).drop_last() =~= buckets_for(files, rest));
        let key = bucket_key(last);
        if keys.last() == key {
            if rest.contains(key) {
                let j = choose|j: int| 0 <= j < rest.len() && rest[j] == key;
                assert(keys[j] == keys[keys.len() - 1]);
            }
            assert(keys[keys.len() - 1] == key);
        } else if rest.contains(key) {
            let j = choose|j: int| 0 <= j < rest.len() && rest[j] == key;
            assert(keys[j] == key);
        } else if keys.contains(key) {
            let j = choose|j: int| 0 <= j < keys.len() && keys[j] == key;
            assert(rest[j] == key);
        }
    }
}

/// Records over distinct extensions that cover every node count each node once.
proof fn lemma_partition(files: Seq<NodeModel>, keys: Seq<Seq<char>>)
    requires
        keys.no_duplicates(),
        forall|i: int| 0 <= i < files.len() ==> keys.contains(bucket_key(#[trigger] files[i])),
    ensures
        count_total(buckets_for(files, keys)) == files.len(),
        size_total(buckets_for(files, keys)) == size_sum(files),
    decreases files.len(),
{
    if files.len() == 0 {
        assert(files =~= Seq::empty());
        lemma_partition_empty(keys);
    } else {
        let rest = files.drop_last();
        assert forall|i: int| 0 <= i < rest.len() implies keys.contains(
            bucket_key(#[trigger] rest[i]),
        ) by {
            assert(rest[i] == files[i]);
        }
        lemma_partition(rest, keys);
        assert(files =~= rest.push(files.last()));
        assert(keys.contains(bucket_key(files[files.len() - 1])));
        lemma_partition_step(rest, files.last(), keys);
    }
}

/// The records of no nodes count nothing.
proof fn lemma_partition_empty(keys: Seq<Seq<char>>)
    ensures
        count_total(buckets_for(Seq::empty(), keys)) == 0,
        size_total(buckets_for(Seq::empty(), keys)) == 0,
    decreases keys.len(),
{
    if keys.len() > 0 {
        lemma_partition_empty(keys.drop_last());
        assert(buckets_for(Seq::empty(), keys).drop_last() =~= buckets_for(
            Seq::empty(),
            keys.drop_last(),
        ));
    }
}

/// Every node falls under exactly one per-extension record: the counts of the records
/// add up to the number of nodes and their sizes to the total size, so that the shares
/// of the records make up the whole.
pub proof fn law_buckets_partition(files: Seq<NodeModel>)
    ensures
        count_total(extension_buckets(files)) == files.len(),
        size_total(extension_buckets(files)) == size_sum(files),
        forall|k: int|
            0 <= k < extension_buckets(files).len() ==> (#[trigger] extension_buckets(
                files,
            )[k]).total_size <= size_sum(files),
{
    lemma_bucket_keys(files);
    lemma_partition(files, bucket_keys(files));
    assert(extension_buckets(files) =~= buckets_for(files, bucket_keys(files)));
    assert forall|k: int| 0 <= k < extension_buckets(files).len() implies (
    #[trigger] extension_buckets(files)[k]).total_size <= size_sum(files) by {
        crate::collector::lemma_bucket_bounds(files, bucket_keys(files)[k]);
    }
}

} // verus!
