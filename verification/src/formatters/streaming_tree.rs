//! Lines of the streaming tree output: prefixes, labels, and the state that draws them
//! record by record.

use crate::formatters::tree::{connector, continuation, format_size_impl, size_note};
use crate::models::FsNodeType;
use crate::streaming::{StreamModel, StreamNode};
use vstd::prelude::*;

verus! {

/// The indentation of a line at `depth`, drawn from the last-sibling marks of the levels
/// above: a branch for the line's own level, a continuation for each level before it.
/// `count` is the number of levels drawn so far.
pub open spec fn prefix_text(marks: Seq<bool>, depth: nat, count: nat) -> Seq<char>
    decreases count,
{
    if count == 0 {
        Seq::empty()
    } else {
        let i = count - 1;
        let before = prefix_text(marks, depth, i as nat);
        if i < depth && i < marks.len() {
            before + if i == depth - 1 {
                connector(marks[i])
            } else {
                continuation(marks[i])
            }
        } else {
            before
        }
    }
}

/// The number of levels that a prefix at `depth` draws from the given marks.
pub open spec fn drawn_levels(marks: Seq<bool>, depth: nat) -> nat {
    if depth <= marks.len() {
        depth
    } else {
        marks.len()
    }
}

/// Builds the tree prefix of a line at `current_depth`.
pub fn build_prefix(prefix_stack: &[bool], current_depth: usize) -> (prefix: String)
    ensures
        prefix@ == prefix_text(
            prefix_stack@,
            current_depth as nat,
            drawn_levels(prefix_stack@, current_depth as nat),
        ),
{
    let mut prefix = String::new();
    if current_depth == 0 {
        return prefix;
    }
    let mut i: usize = 0;
    while i < prefix_stack.len() && i < current_depth
        invariant
            i <= prefix_stack.len(),
            i <= current_depth,
            current_depth > 0,
            prefix@ == prefix_text(prefix_stack@, current_depth as nat, i as nat),
        decreases prefix_stack.len() - i,
    {
        let is_last = prefix_stack[i];
        if i == current_depth - 1 {
            prefix.append(
                if is_last {
                    "└── "
                } else {
                    "├── "
                },
            );
        } else {
            prefix.append(
                if is_last {
                    "    "
                } else {
                    "│   "
                },
            );
        }
        i = i + 1;
    }
    prefix
}

/// The label of a record: its name, a mark of its kind, and a note of its size where
/// sizes are shown. `target` is the text a symbolic link points to, where it was read.
pub open spec fn record_label(record: StreamModel, show_size: bool, target: Option<Seq<char>>) -> Seq<
    char,
> {
    let mark = if record.kind == FsNodeType::Directory {
        "/"@
    } else if record.kind == FsNodeType::Symlink {
        " -> "@ + match target {
            Some(t) => t,
            None => Seq::empty(),
        }
    } else {
        Seq::empty()
    };
    let note = if show_size && record.kind == FsNodeType::File && record.size > 0 {
        size_note(record.size)
    } else {
        Seq::empty()
    };
    record.name + mark + note
}

/// View of an optional borrowed string.
pub open spec fn target_view(target: Option<&str>) -> Option<Seq<char>> {
    match target {
        Some(t) => Some(t@),
        None => None,
    }
}

/// Builds the label of a record.
pub fn build_label(node: &StreamNode, show_size: bool, target: Option<&str>) -> (label: String)
    ensures
        label@ == record_label(node@, show_size, target_view(target)),
{
    let mut label = node.name.clone();
    if node.node_type == FsNodeType::Directory {
        label.append("/");
    } else if node.node_type == FsNodeType::Symlink {
        label.append(" -> ");
        if let Some(t) = target {
            label.append(t);
        }
    }
    let ghost marked = label@;
    if show_size && node.node_type == FsNodeType::File && node.size > 0 {
        label.append(" (");
        label.append(format_size_impl(node.size).as_str());
        label.append(")");
        assert(label@ =~= marked + size_note(node@.size));
    }
    assert(label@ =~= record_label(node@, show_size, target_view(target)));
    label
}

/// The marks after a record at `depth` has been noted: long enough to hold the
/// record's level, with the mark of the level above it set to the record's own.
pub open spec fn noted_marks(marks: Seq<bool>, depth: nat, is_last: bool) -> Seq<bool> {
    let grown = if marks.len() <= depth {
        marks + Seq::new((depth + 1 - marks.len()) as nat, |i: int| false)
    } else {
        marks
    };
    if depth > 0 {
        grown.update(depth - 1, is_last)
    } else {
        grown
    }
}

/// Notes a record at `depth` in the stack of last-sibling marks: the stack grows to hold
/// the record's level, and the mark of the level above it becomes the record's own.
///
/// The stack is never cut back, since a record overwrites the mark of its level before
/// any line below it is drawn.
pub fn note_record(prefix_stack: &mut Vec<bool>, depth: usize, is_last: bool)
    ensures
        final(prefix_stack)@ == noted_marks(old(prefix_stack)@, depth as nat, is_last),
{
    let ghost start = prefix_stack@;
    while prefix_stack.len() <= depth
        invariant
            start.len() <= depth ==> prefix_stack.len() <= depth + 1,
            start.len() <= prefix_stack.len(),
            start.len() <= depth ==> prefix_stack@ == start + Seq::new(
                (prefix_stack.len() - start.len()) as nat,
                |i: int| false,
            ),
            start.len() > depth ==> prefix_stack@ == start,
        decreases depth + 1 - prefix_stack.len(),
    {
        prefix_stack.push(false);
        assert(prefix_stack@ =~= start + Seq::new(
            (prefix_stack.len() - start.len()) as nat,
            |i: int| false,
        ));
    }
    if depth > 0 {
        prefix_stack.set(depth - 1, is_last);
    }
    assert(prefix_stack@ =~= noted_marks(start, depth as nat, is_last));
}

/// Notes a record in the stack of last-sibling marks and returns the line that draws it.
pub fn render_record(
    prefix_stack: &mut Vec<bool>,
    node: &StreamNode,
    show_size: bool,
    target: Option<&str>,
) -> (line: String)
    ensures
        final(prefix_stack)@ == noted_marks(old(prefix_stack)@, node@.depth, node@.is_last),
        line@ == prefix_text(
            final(prefix_stack)@,
            node@.depth,
            drawn_levels(final(prefix_stack)@, node@.depth),
        ) + record_label(node@, show_size, target_view(target)),
{
    note_record(prefix_stack, node.depth, node.is_last);
    let mut line = build_prefix(prefix_stack.as_slice(), node.depth);
    let label = build_label(node, show_size, target);
    line.append(label.as_str());
    line
}

} // verus!
