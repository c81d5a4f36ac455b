//! Streaming walker: emits the records of a directory snapshot one by one, parents before
//! their children, in the sibling order of the tree walker.

use crate::filter::{FilterConfig, FilterModel};
use crate::laws::law_stream_count;
use crate::models::{all_nodes, FsNodeType, TreeError};
use crate::snapshot::{
    has_children, has_visible_entry, lemma_entries_view, lemma_sibling_order_members,
    scans_view, sibling_positions, ProbeError, ProbeFailure, ScanEntry, ScanModel,
};
use crate::sorting::{ints, SortField};
use crate::walker::{descends, may_descend, walk_node, WalkModel};
use vstd::prelude::*;

verus! {

broadcast use vstd::std_specs::vec::group_vec_axioms;

/// One emitted record of the streaming walk.
#[derive(Debug, Clone)]
pub struct StreamNode {
    /// Name of the entry
    pub name: String,
    /// Full path of the entry
    pub path: String,
    /// Kind of the entry
    pub node_type: FsNodeType,
    /// Size in bytes
    pub size: u64,
    /// Depth in the tree; the entries of the root have depth 1
    pub depth: usize,
    /// Whether the entry is a directory that holds an entry which the filter admits
    pub has_children: bool,
    /// Whether the entry is the last of its surviving siblings
    pub is_last: bool,
}

/// Mathematical view of a [`StreamNode`].
pub ghost struct StreamModel {
    pub name: Seq<char>,
    pub path: Seq<char>,
    pub kind: FsNodeType,
    pub size: nat,
    pub depth: nat,
    pub has_children: bool,
    pub is_last: bool,
}

impl View for StreamNode {
    type V = StreamModel;

    open spec fn view(&self) -> StreamModel {
        StreamModel {
            name: self.name@,
            path: self.path@,
            kind: self.node_type,
            size: self.size as nat,
            depth: self.depth as nat,
            has_children: self.has_children,
            is_last: self.is_last,
        }
    }
}

/// Views of a sequence of records, element by element.
pub open spec fn stream_view(v: Seq<StreamNode>) -> Seq<StreamModel> {
    Seq::new(v.len(), |i: int| v[i]@)
}

/// Configuration of a streaming walk.
#[derive(Debug, Clone)]
pub struct StreamConfig {
    /// Maximum depth to traverse (0 for unlimited)
    pub max_depth: usize,
    /// Show hidden files (starting with a dot)
    pub show_hidden: bool,
    /// Follow symbolic links while enumerating
    pub follow_symlinks: bool,
    /// Field that siblings are sorted by
    pub sort_by: SortField,
    /// Reverse the sibling order
    pub reverse: bool,
    /// Filter configuration
    pub filter: FilterConfig,
}

impl View for StreamConfig {
    type V = WalkModel;

    open spec fn view(&self) -> WalkModel {
        WalkModel {
            max_depth: self.max_depth as nat,
            show_hidden: self.show_hidden,
            follow_symlinks: self.follow_symlinks,
            sort_by: self.sort_by,
            reverse: self.reverse,
            filter: self.filter@,
        }
    }
}

impl Default for StreamConfig {
    fn default() -> (config: Self)
        ensures
            config@ == (WalkModel {
                max_depth: 0,
                show_hidden: false,
                follow_symlinks: false,
                sort_by: SortField::Name,
                reverse: false,
                filter: FilterModel {
                    exclude: Seq::empty(),
                    include_only: None,
                    exclude_hidden: false,
                },
            }),
    {
        Self {
            max_depth: 0,
            show_hidden: false,
            follow_symlinks: false,
            sort_by: SortField::Name,
            reverse: false,
            filter: FilterConfig::new(),
        }
    }
}

/// The record of one surviving entry at `depth`.
pub open spec fn stream_record(entry: ScanModel, rules: WalkModel, depth: nat, is_last: bool) -> StreamModel {
    StreamModel {
        name: entry.name,
        path: entry.path,
        kind: entry.kind(),
        size: entry.node_size(),
        depth: depth,
        has_children: entry.is_directory() && has_visible_entry(entry.entries, rules.filter),
        is_last: is_last,
    }
}

/// The records of the first `count` surviving entries of `entry` in sibling order, each
/// followed by the records of what lies below it. The entries sit at `depth`.
pub open spec fn stream_level(entry: ScanModel, rules: WalkModel, depth: nat, count: nat) -> Seq<
    StreamModel,
>
    decreases entry, 0nat, count,
{
    if count == 0 {
        Seq::empty()
    } else {
        let order = rules.order(entry.entries);
        let k = count - 1;
        let before = stream_level(entry, rules, depth, k as nat);
        if k < order.len() && 0 <= order[k] < entry.entries.len() {
            let child = entry.entries[order[k]];
            before + seq![stream_record(child, rules, depth, k == order.len() - 1)] + stream_below(
                child,
                rules,
                depth,
            )
        } else {
            before
        }
    }
}

/// The records of everything below `entry`, which sits at `depth`: those of its
/// surviving entries where it is a directory that is descended into, else none.
pub open spec fn stream_below(entry: ScanModel, rules: WalkModel, depth: nat) -> Seq<StreamModel>
    decreases entry, 1nat, 0nat,
{
    if entry.is_directory() && may_descend(depth, rules.max_depth) {
        stream_level(entry, rules, depth + 1, rules.order(entry.entries).len())
    } else {
        Seq::empty()
    }
}

/// Emits the records of everything below `entry` behind those already in `out`.
fn walk_recursive_streaming(
    entry: &ScanEntry,
    depth: usize,
    config: &StreamConfig,
    out: &mut Vec<StreamNode>,
)
    ensures
        stream_view(final(out)@) == stream_view(old(out)@) + stream_below(
            entry@,
            config@,
            depth as nat,
        ),
    decreases entry,
{
    if !(entry.is_directory() && descends(depth, config.max_depth)) {
        assert(stream_view(out@) =~= stream_view(old(out)@) + Seq::empty());
        return ;
    }
    let order = sibling_positions(
        &entry.entries,
        &config.filter,
        config.sort_by,
        config.reverse,
    );
    proof {
        lemma_entries_view(*entry);
    }
    let total = order.len();
    let ghost start = stream_view(out@);
    let mut k: usize = 0;
    assert(stream_view(out@) =~= start + stream_level(entry@, config@, (depth + 1) as nat, 0));
    while k < total
        invariant
            k <= total,
            total == order.len(),
            depth < usize::MAX,
            entry@.entries == scans_view(entry.entries@),
            ints(order@) == config@.order(entry@.entries),
            forall|j: int|
                0 <= j < order.len() ==> (#[trigger] order[j]) < entry.entries.len()
                    && entry.entries[order[j] as int]@.survives(config.filter@),
            stream_view(out@) == start + stream_level(
                entry@,
                config@,
                (depth + 1) as nat,
                k as nat,
            ),
        decreases total - k,
    {
        let i = order[k];
        let child = &entry.entries[i];
        assert(ints(order@)[k as int] == i as int);
        let is_dir = child.is_directory();
        let kind = match &child.meta {
            Ok(m) => m.kind,
            Err(_) => FsNodeType::File,
        };
        let probe = if is_dir {
            proof {
                lemma_entries_view(*child);
            }
            has_children(&child.entries, &config.filter)
        } else {
            false
        };
        let record = StreamNode {
            name: child.name.clone(),
            path: child.path.clone(),
            node_type: kind,
            size: child.node_size(),
            depth: depth + 1,
            has_children: probe,
            is_last: k == total - 1,
        };
        let ghost before = stream_view(out@);
        out.push(record);
        assert(stream_view(out@) =~= before + seq![record@]);
        walk_recursive_streaming(child, depth + 1, config, out);
        proof {
            let level = stream_level(entry@, config@, (depth + 1) as nat, k as nat);
            let below = stream_below(child@, config@, (depth + 1) as nat);
            assert(record@ == stream_record(
                child@,
                config@,
                (depth + 1) as nat,
                k == order.len() - 1,
            ));
            assert(stream_view(out@) =~= start + (level + seq![record@] + below));
        }
        k = k + 1;
    }
}

/// Walks a directory snapshot and returns the records of everything below the root, in
/// the order in which a renderer draws them.
///
/// The root is validated as in the tree walk and is not itself emitted.
pub fn walk_streaming(root: &ScanEntry, config: StreamConfig) -> (r: Result<
    Vec<StreamNode>,
    TreeError,
>)
    ensures
        match root@.meta {
            Err(ProbeFailure::NotFound) => r matches Err(TreeError::PathNotFound(p)) && p@
                == root@.path,
            Err(ProbeFailure::PermissionDenied) => r matches Err(TreeError::PermissionDenied(p))
                && p@ == root@.path,
            Err(ProbeFailure::Io(m)) => r matches Err(TreeError::Io(x)) && x@ == m,
            Ok(meta) => if meta.kind == FsNodeType::Directory {
                r matches Ok(records) && stream_view(records@) == stream_below(root@, config@, 0)
            } else {
                r matches Err(TreeError::NotADirectory(p)) && p@ == root@.path
            },
        },
        r matches Ok(records) ==> records.len() + 1 == all_nodes(walk_node(root@, config@, 0)).len(),
{
    match &root.meta {
        Err(ProbeError::NotFound) => Err(TreeError::PathNotFound(root.path.clone())),
        Err(ProbeError::PermissionDenied) => Err(TreeError::PermissionDenied(root.path.clone())),
        Err(ProbeError::Io(m)) => Err(TreeError::Io(m.clone())),
        Ok(meta) => {
            if meta.kind == FsNodeType::Directory {
                let mut records: Vec<StreamNode> = Vec::new();
                walk_recursive_streaming(root, 0, &config, &mut records);
                assert(stream_view(records@) =~= stream_below(root@, config@, 0));
                proof {
                    law_stream_count(root@, config@, 0);
                }
                Ok(records)
            } else {
                Err(TreeError::NotADirectory(root.path.clone()))
            }
        },
    }
}

/// The record of the surviving entry at position `k` of the sibling order of `entry`,
/// followed by the records of what lies below it. The entries sit at `depth`.
pub open spec fn stream_piece(entry: ScanModel, rules: WalkModel, depth: nat, k: int) -> Seq<
    StreamModel,
> {
    let order = rules.order(entry.entries);
    if 0 <= k < order.len() && 0 <= order[k] < entry.entries.len() {
        let child = entry.entries[order[k]];
        seq![stream_record(child, rules, depth, k == order.len() - 1)] + stream_below(
            child,
            rules,
            depth,
        )
    } else {
        Seq::empty()
    }
}

/// The records of the surviving entries of `entry` at positions `from` up to `to` of the
/// sibling order, each followed by the records of what lies below it.
pub open spec fn stream_range(entry: ScanModel, rules: WalkModel, depth: nat, from: int, to: int) -> Seq<
    StreamModel,
>
    decreases to - from,
{
    if from >= to {
        Seq::empty()
    } else {
        stream_piece(entry, rules, depth, from) + stream_range(entry, rules, depth, from + 1, to)
    }
}

/// A range that ends one position later ends with the piece of that position.
proof fn lemma_range_extend(entry: ScanModel, rules: WalkModel, depth: nat, from: int, to: int)
    requires
        from <= to,
    ensures
        stream_range(entry, rules, depth, from, to + 1) == stream_range(
            entry,
            rules,
            depth,
            from,
            to,
        ) + stream_piece(entry, rules, depth, to),
    decreases to - from,
{
    if from < to {
        lemma_range_extend(entry, rules, depth, from + 1, to);
        assert(stream_range(entry, rules, depth, from, to + 1) =~= stream_range(
            entry,
            rules,
            depth,
            from,
            to,
        ) + stream_piece(entry, rules, depth, to));
    } else {
        assert(stream_range(entry, rules, depth, from + 1, to + 1) =~= Seq::empty());
        assert(stream_range(entry, rules, depth, from, to + 1) =~= stream_range(
            entry,
            rules,
            depth,
            from,
            to,
        ) + stream_piece(entry, rules, depth, to));
    }
}

/// The records of a level are the range of all its positions.
proof fn lemma_level_is_range(entry: ScanModel, rules: WalkModel, depth: nat, count: nat)
    requires
        count <= rules.order(entry.entries).len(),
    ensures
        stream_level(entry, rules, depth, count) == stream_range(
            entry,
            rules,
            depth,
            0,
            count as int,
        ),
    decreases count,
{
    if count > 0 {
        let k = (count - 1) as nat;
        lemma_level_is_range(entry, rules, depth, k);
        lemma_range_extend(entry, rules, depth, 0, k as int);
        lemma_sibling_order_members(entry.entries, rules.filter, rules.sort_by, rules.reverse);
        assert(stream_level(entry, rules, depth, count) =~= stream_level(entry, rules, depth, k)
            + stream_piece(entry, rules, depth, k as int));
    }
}

/// One directory level of a streaming walk in progress.
pub struct StreamFrame<'a> {
    /// The directory whose entries are being emitted
    entry: &'a ScanEntry,
    /// The sibling order of the directory's entries
    order: Vec<usize>,
    /// Position in the sibling order of the next entry to emit
    next: usize,
    /// Depth of the entries
    depth: usize,
}

impl<'a> StreamFrame<'a> {
    /// The frame describes a level of a walk under `rules`.
    pub closed spec fn well_formed(self, rules: WalkModel) -> bool {
        &&& ints(self.order@) == rules.order(self.entry@.entries)
        &&& self.next <= self.order.len()
        &&& forall|j: int|
            0 <= j < self.order.len() ==> (#[trigger] self.order[j]) < self.entry.entries.len()
    }

    /// The records that the frame has yet to emit.
    pub closed spec fn remaining(self, rules: WalkModel) -> Seq<StreamModel> {
        stream_range(
            self.entry@,
            rules,
            self.depth as nat,
            self.next as int,
            self.order.len() as int,
        )
    }
}

/// The records that a stack of frames has yet to emit: those of the innermost level
/// first.
pub open spec fn stack_remaining(frames: Seq<StreamFrame>, rules: WalkModel) -> Seq<StreamModel>
    decreases frames.len(),
{
    if frames.len() == 0 {
        Seq::empty()
    } else {
        frames.last().remaining(rules) + stack_remaining(frames.drop_last(), rules)
    }
}

/// A streaming walk in progress: hands out the records one by one and holds no more than
/// the sibling order of each directory between the root and the record at hand.
pub struct StreamWalker<'a> {
    config: StreamConfig,
    stack: Vec<StreamFrame<'a>>,
}

impl<'a> StreamWalker<'a> {
    /// The rules of the walk.
    pub closed spec fn rules(self) -> WalkModel {
        self.config@
    }

    /// Every level on the stack is a level of this walk.
    pub closed spec fn well_formed(self) -> bool {
        forall|i: int|
            0 <= i < self.stack.len() ==> (#[trigger] self.stack[i]).well_formed(self.config@)
    }

    /// The records that the walk has yet to hand out, in order.
    pub closed spec fn remaining(self) -> Seq<StreamModel> {
        stack_remaining(self.stack@, self.config@)
    }

    /// Opens the level of the entries of `entry`, which sit at `depth`.
    fn open_level(entry: &'a ScanEntry, depth: usize, config: &StreamConfig) -> (frame: StreamFrame<
        'a,
    >)
        ensures
            frame.well_formed(config@),
            frame.remaining(config@) == stream_level(
                entry@,
                config@,
                depth as nat,
                config@.order(entry@.entries).len(),
            ),
    {
        let order = sibling_positions(
            &entry.entries,
            &config.filter,
            config.sort_by,
            config.reverse,
        );
        proof {
            lemma_entries_view(*entry);
            lemma_level_is_range(
                entry@,
                config@,
                depth as nat,
                config@.order(entry@.entries).len(),
            );
            assert(ints(order@).len() == order.len());
        }
        StreamFrame { entry, order, next: 0, depth }
    }

    /// Emits the next record of a level: returns the record, the level moved past it, and
    /// the level below it where the record is a directory that is descended into.
    fn step(frame: StreamFrame<'a>, config: &StreamConfig) -> (r: (
        StreamNode,
        StreamFrame<'a>,
        Option<StreamFrame<'a>>,
    ))
        requires
            frame.well_formed(config@),
            frame.next < frame.order.len(),
        ensures
            r.1.well_formed(config@),
            r.2 matches Some(inner) ==> inner.well_formed(config@),
            frame.remaining(config@) == seq![r.0@] + match r.2 {
                Some(inner) => inner.remaining(config@),
                None => Seq::empty(),
            } + r.1.remaining(config@),
    {
        let ghost rules = config@;
        let entry: &'a ScanEntry = frame.entry;
        let depth = frame.depth;
        let total = frame.order.len();
        let k = frame.next;
        let i = frame.order[k];
        let child: &'a ScanEntry = &entry.entries[i];
        proof {
            lemma_entries_view(*entry);
            lemma_entries_view(*child);
            assert(ints(frame.order@)[k as int] == i as int);
        }
        let is_dir = child.is_directory();
        let kind = match &child.meta {
            Ok(m) => m.kind,
            Err(_) => FsNodeType::File,
        };
        let probe = if is_dir {
            has_children(&child.entries, &config.filter)
        } else {
            false
        };
        let record = StreamNode {
            name: child.name.clone(),
            path: child.path.clone(),
            node_type: kind,
            size: child.node_size(),
            depth,
            has_children: probe,
            is_last: k == total - 1,
        };
        let ghost before = frame.remaining(rules);
        let advanced = StreamFrame { entry, order: frame.order, next: k + 1, depth };
        proof {
            assert(record@ == stream_record(child@, rules, depth as nat, k == total - 1));
            assert(before == stream_piece(entry@, rules, depth as nat, k as int)
                + advanced.remaining(rules));
            assert(stream_piece(entry@, rules, depth as nat, k as int) == seq![record@]
                + stream_below(child@, rules, depth as nat));
        }
        if is_dir && descends(depth, config.max_depth) {
            let inner = Self::open_level(child, depth + 1, config);
            assert(inner.remaining(rules) == stream_below(child@, rules, depth as nat));
            (record, advanced, Some(inner))
        } else {
            assert(stream_below(child@, rules, depth as nat) == Seq::<StreamModel>::empty());
            (record, advanced, None)
        }
    }

    /// Starts a streaming walk of a directory snapshot. The root is validated as in
    /// `walk_streaming`.
    pub fn new(root: &'a ScanEntry, config: StreamConfig) -> (r: Result<StreamWalker<'a>, TreeError>)
        ensures
            match root@.meta {
                Err(ProbeFailure::NotFound) => r matches Err(TreeError::PathNotFound(p)) && p@
                    == root@.path,
                Err(ProbeFailure::PermissionDenied) => r matches Err(
                    TreeError::PermissionDenied(p),
                ) && p@ == root@.path,
                Err(ProbeFailure::Io(m)) => r matches Err(TreeError::Io(x)) && x@ == m,
                Ok(meta) => if meta.kind == FsNodeType::Directory {
                    r matches Ok(walker) && walker.well_formed() && walker.rules() == config@
                        && walker.remaining() == stream_below(root@, config@, 0)
                } else {
                    r matches Err(TreeError::NotADirectory(p)) && p@ == root@.path
                },
            },
    {
        match &root.meta {
            Err(ProbeError::NotFound) => Err(TreeError::PathNotFound(root.path.clone())),
            Err(ProbeError::PermissionDenied) => Err(
                TreeError::PermissionDenied(root.path.clone()),
            ),
            Err(ProbeError::Io(m)) => Err(TreeError::Io(m.clone())),
            Ok(meta) => {
                if meta.kind == FsNodeType::Directory {
                    let mut stack: Vec<StreamFrame<'a>> = Vec::new();
                    let frame = Self::open_level(root, 1, &config);
                    proof {
                        lemma_stack_push(stack@, frame, config@);
                    }
                    stack.push(frame);
                    assert(stack_remaining(stack@, config@) =~= stream_below(root@, config@, 0));
                    Ok(StreamWalker { config, stack })
                } else {
                    Err(TreeError::NotADirectory(root.path.clone()))
                }
            },
        }
    }

    /// Hands out the next record of the walk, or `None` when the walk is over.
    pub fn next(&mut self) -> (r: Option<StreamNode>)
        requires
            old(self).well_formed(),
        ensures
            final(self).well_formed(),
            final(self).rules() == old(self).rules(),
            match r {
                Some(record) => old(self).remaining() == seq![record@] + final(self).remaining(),
                None => {
                    &&& old(self).remaining() == Seq::<StreamModel>::empty()
                    &&& final(self).remaining() == Seq::<StreamModel>::empty()
                },
            },
    {
        loop
            invariant
                self.well_formed(),
                self.config@ == old(self).config@,
                self.remaining() == old(self).remaining(),
            decreases self.stack.len(),
        {
            let ghost rules = self.config@;
            let ghost held = self.stack@;
            let top = match self.stack.pop() {
                Some(frame) => frame,
                None => {
                    return None;
                },
            };
            let ghost below = self.stack@;
            proof {
                assert(held =~= below.push(top));
                lemma_stack_push(below, top, rules);
            }
            if top.next == top.order.len() {
                assert(top.remaining(rules) =~= Seq::empty());
                assert(stack_remaining(held, rules) =~= stack_remaining(below, rules));
                continue ;
            }
            let (record, advanced, inner) = Self::step(top, &self.config);
            proof {
                lemma_stack_push(below, advanced, rules);
            }
            self.stack.push(advanced);
            match inner {
                Some(frame) => {
                    proof {
                        lemma_stack_push(self.stack@, frame, rules);
                    }
                    self.stack.push(frame);
                    assert(stack_remaining(held, rules) =~= seq![record@] + stack_remaining(
                        self.stack@,
                        rules,
                    ));
                },
                None => {
                    assert(stack_remaining(held, rules) =~= seq![record@] + stack_remaining(
                        self.stack@,
                        rules,
                    ));
                },
            }
            return Some(record);
        }
    }
}

/// A stack with one more level has the records of that level to emit first.
proof fn lemma_stack_push(frames: Seq<StreamFrame>, frame: StreamFrame, rules: WalkModel)
    ensures
        stack_remaining(frames.push(frame), rules) == frame.remaining(rules) + stack_remaining(
            frames,
            rules,
        ),
{
    assert(frames.push(frame).drop_last() =~= frames);
}

} // verus!
