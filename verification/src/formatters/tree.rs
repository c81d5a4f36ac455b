//! Tree-style text of a materialized tree, drawn with box-drawing characters.

use crate::models::{lemma_children_view, nodes_view, FsNode, NodeModel};
use crate::text::{decimal, decimal_string};
use vstd::prelude::*;

verus! {

broadcast use vstd::std_specs::vec::group_vec_axioms;

/// The text that `humansize::format_size` writes for a size with its `DECIMAL` options.
pub uninterp spec fn decimal_size_text(bytes: nat) -> Seq<char>;

/// Formats a size in bytes for people to read. `humansize::format_size` with the
/// `DECIMAL` options decides the text; it is a function of the size alone.
#[verifier::external_body]
pub(crate) fn format_size_impl(bytes: u64) -> (r: String)
    ensures
        r@ == decimal_size_text(bytes as nat),
{
    humansize::format_size(bytes, humansize::DECIMAL)
}

/// Where a symbolic link points, as read by the caller.
#[derive(Debug, Clone)]
pub struct LinkTarget {
    /// Path of the link
    pub path: String,
    /// Text of the link's target
    pub target: String,
}

/// Views of a list of link targets: pairs of path and target.
pub open spec fn links_view(links: Seq<LinkTarget>) -> Seq<(Seq<char>, Seq<char>)> {
    Seq::new(links.len(), |i: int| (links[i].path@, links[i].target@))
}

/// The target recorded for a path: that of the first record with the path, or nothing.
pub open spec fn target_of(links: Seq<(Seq<char>, Seq<char>)>, path: Seq<char>) -> Seq<char>
    decreases links.len(),
{
    if links.len() == 0 {
        Seq::empty()
    } else if links[0].0 == path {
        links[0].1
    } else {
        target_of(links.drop_first(), path)
    }
}

/// The number of files that a directory is shown to hold: the files among its children,
/// and those counted for the directories among them.
pub open spec fn counted_files(node: NodeModel) -> nat
    decreases node, 0nat,
{
    match node.children {
        Some(c) => counted_among(c, c.len()),
        None => 0,
    }
}

/// The files counted for the first `count` of some siblings.
pub open spec fn counted_among(siblings: Seq<NodeModel>, count: nat) -> nat
    decreases siblings, count,
{
    if count == 0 {
        0
    } else {
        let k = count - 1;
        let before = counted_among(siblings, k as nat);
        if k < siblings.len() {
            before + if siblings[k].is_file() {
                1nat
            } else if siblings[k].is_directory() {
                counted_files(siblings[k])
            } else {
                0nat
            }
        } else {
            before
        }
    }
}

/// The note behind a name that tells a number of files.
pub open spec fn files_note(count: nat) -> Seq<char> {
    " ("@ + decimal(count) + " files)"@
}

/// The note behind a name that tells a size.
pub open spec fn size_note(bytes: nat) -> Seq<char> {
    " ("@ + decimal_size_text(bytes) + ")"@
}

/// The note behind the root's name.
pub open spec fn root_note(node: NodeModel, show_size: bool) -> Seq<char> {
    if show_size && node.is_directory() {
        files_note(counted_files(node))
    } else if show_size && node.size > 0 {
        size_note(node.size)
    } else {
        Seq::empty()
    }
}

/// The label of a node below the root: its name, a mark of its kind, and a note of its
/// size where sizes are shown.
pub open spec fn node_label(node: NodeModel, show_size: bool, links: Seq<(Seq<char>, Seq<char>)>) -> Seq<
    char,
> {
    let mark = if node.is_directory() {
        "/"@
    } else if node.is_symlink() {
        " -> "@ + match node.path {
            Some(p) => target_of(links, p),
            None => Seq::empty(),
        }
    } else {
        Seq::empty()
    };
    let note = if show_size && node.is_file() && node.size > 0 {
        size_note(node.size)
    } else if show_size && node.is_directory() && counted_files(node) > 0 {
        files_note(counted_files(node))
    } else {
        Seq::empty()
    };
    node.name + mark + note
}

/// The branch that leads to a node.
pub open spec fn connector(is_last: bool) -> Seq<char> {
    if is_last {
        "└── "@
    } else {
        "├── "@
    }
}

/// What the lines below a node are indented by, behind the node's own indentation.
pub open spec fn continuation(is_last: bool) -> Seq<char> {
    if is_last {
        "    "@
    } else {
        "│   "@
    }
}

/// The lines of a node below the root and of everything below it.
pub open spec fn node_text(
    node: NodeModel,
    prefix: Seq<char>,
    is_last: bool,
    show_size: bool,
    links: Seq<(Seq<char>, Seq<char>)>,
) -> Seq<char>
    decreases node, 0nat,
{
    prefix + connector(is_last) + node_label(node, show_size, links) + "\n"@ + match node.children {
        Some(c) => children_text(c, prefix + continuation(is_last), show_size, links, c.len()),
        None => Seq::empty(),
    }
}

/// The lines of the first `count` of some siblings.
pub open spec fn children_text(
    siblings: Seq<NodeModel>,
    prefix: Seq<char>,
    show_size: bool,
    links: Seq<(Seq<char>, Seq<char>)>,
    count: nat,
) -> Seq<char>
    decreases siblings, count,
{
    if count == 0 {
        Seq::empty()
    } else {
        let k = count - 1;
        let before = children_text(siblings, prefix, show_size, links, k as nat);
        if k < siblings.len() {
            before + node_text(siblings[k], prefix, k == siblings.len() - 1, show_size, links)
        } else {
            before
        }
    }
}

/// The text of a whole tree: the root's line, then the lines of everything below it.
pub open spec fn tree_text(node: NodeModel, show_size: bool, links: Seq<(Seq<char>, Seq<char>)>) -> Seq<
    char,
> {
    node.name + root_note(node, show_size) + "/\n"@ + match node.children {
        Some(c) => children_text(c, Seq::empty(), show_size, links, c.len()),
        None => Seq::empty(),
    }
}

/// Appends the nodes that `counted_files` counts for `node` to `out`.
fn collect_counted<'a>(node: &'a FsNode, out: &mut Vec<&'a FsNode>)
    ensures
        final(out).len() == old(out).len() + counted_files(node@),
    decreases node,
{
    proof {
        lemma_children_view(*node);
    }
    if let Some(children) = &node.children {
        let mut i: usize = 0;
        let ghost views = nodes_view(children@);
        while i < children.len()
            invariant
                i <= children.len(),
                node.children == Some(*children),
                views == nodes_view(children@),
                out.len() == old(out).len() + counted_among(views, i as nat),
            decreases children.len() - i,
        {
            assert(node.children->0 == *children);
            let child = &children[i];
            assert(views[i as int] == child@);
            if child.is_file() {
                out.push(child);
            } else if child.is_directory() {
                collect_counted(child, out);
            }
            i = i + 1;
        }
    }
}

/// Counts the files of a subtree as the tree output shows them.
pub fn count_files_recursive(node: &FsNode) -> (count: usize)
    ensures
        count == counted_files(node@),
{
    let mut counted: Vec<&FsNode> = Vec::new();
    collect_counted(node, &mut counted);
    counted.len()
}

/// Looks up the target recorded for a path.
fn find_target<'a>(links: &'a Vec<LinkTarget>, path: &str) -> (r: Option<&'a LinkTarget>)
    ensures
        match r {
            Some(link) => link.target@ == target_of(links_view(links@), path@),
            None => target_of(links_view(links@), path@) == Seq::<char>::empty(),
        },
{
    let mut i: usize = 0;
    let ghost all = links_view(links@);
    assert(all.skip(0) =~= all);
    while i < links.len()
        invariant
            i <= links.len(),
            all == links_view(links@),
            target_of(all, path@) == target_of(all.skip(i as int), path@),
        decreases links.len() - i,
    {
        assert(all.skip(i as int)[0] == all[i as int]);
        assert(all.skip(i as int).drop_first() =~= all.skip(i + 1));
        if crate::text::str_equal(links[i].path.as_str(), path) {
            return Some(&links[i]);
        }
        i = i + 1;
    }
    None
}

/// Builds the label of a node below the root.
fn build_node_label(node: &FsNode, show_size: bool, links: &Vec<LinkTarget>) -> (label: String)
    ensures
        label@ == node_label(node@, show_size, links_view(links@)),
{
    let mut label = node.name.clone();
    if node.is_directory() {
        label.append("/");
    } else if node.is_symlink() {
        label.append(" -> ");
        if let Some(path) = &node.path {
            if let Some(link) = find_target(links, path.as_str()) {
                label.append(link.target.as_str());
            }
        }
    }
    let ghost marked = label@;
    if show_size && node.is_file() && node.size > 0 {
        label.append(" (");
        label.append(format_size_impl(node.size).as_str());
        label.append(")");
        assert(label@ =~= marked + size_note(node@.size));
    } else if show_size && node.is_directory() {
        let file_count = count_files_recursive(node);
        if file_count > 0 {
            label.append(" (");
            label.append(decimal_string(file_count as u64).as_str());
            label.append(" files)");
            assert(label@ =~= marked + files_note(file_count as nat));
        }
    }
    assert(label@ =~= node_label(node@, show_size, links_view(links@)));
    label
}

/// Appends the lines of a node below the root, and of everything below it, to `output`.
fn format_node_recursive(
    node: &FsNode,
    prefix: &str,
    is_last: bool,
    show_size: bool,
    links: &Vec<LinkTarget>,
    output: &mut String,
)
    ensures
        final(output)@ == old(output)@ + node_text(
            node@,
            prefix@,
            is_last,
            show_size,
            links_view(links@),
        ),
    decreases node,
{
    let (branch, indent) = if is_last {
        ("└── ", "    ")
    } else {
        ("├── ", "│   ")
    };
    let next_prefix = String::from_str(prefix).concat(indent);
    let label = build_node_label(node, show_size, links);
    let ghost start = output@;
    output.append(prefix);
    output.append(branch);
    output.append(label.as_str());
    output.append("\n");
    let ghost head = prefix@ + connector(is_last) + node_label(
        node@,
        show_size,
        links_view(links@),
    ) + "\n"@;
    assert(output@ =~= start + head);
    proof {
        lemma_children_view(*node);
    }
    if let Some(children) = &node.children {
        let ghost views = nodes_view(children@);
        let mut i: usize = 0;
        assert(output@ =~= start + (head + children_text(
            views,
            next_prefix@,
            show_size,
            links_view(links@),
            0,
        )));
        while i < children.len()
            invariant
                i <= children.len(),
                node.children == Some(*children),
                views == nodes_view(children@),
                next_prefix@ == prefix@ + continuation(is_last),
                output@ == start + (head + children_text(
                    views,
                    next_prefix@,
                    show_size,
                    links_view(links@),
                    i as nat,
                )),
            decreases children.len() - i,
        {
            assert(node.children->0 == *children);
            let ghost done = children_text(
                views,
                next_prefix@,
                show_size,
                links_view(links@),
                i as nat,
            );
            format_node_recursive(
                &children[i],
                next_prefix.as_str(),
                i == children.len() - 1,
                show_size,
                links,
                output,
            );
            proof {
                assert(views[i as int] == children[i as int]@);
                let line = node_text(
                    children[i as int]@,
                    next_prefix@,
                    i == children.len() - 1,
                    show_size,
                    links_view(links@),
                );
                assert(output@ =~= start + (head + (done + line)));
            }
            i = i + 1;
        }
    } else {
        assert(output@ =~= start + (head + Seq::<char>::empty()));
    }
}

/// Formats a tree as text with resolved link targets.
///
/// A symbolic link is drawn with the target that `links` records for its path; where
/// none is recorded, nothing follows the arrow.
pub fn format_tree_with_links(node: &FsNode, show_size: bool, links: &Vec<LinkTarget>) -> (output:
    String)
    ensures
        output@ == tree_text(node@, show_size, links_view(links@)),
{
    let mut output = String::new();
    output.append(node.name.as_str());
    if show_size && node.is_directory() {
        output.append(" (");
        output.append(decimal_string(count_files_recursive(node) as u64).as_str());
        output.append(" files)");
    } else if show_size && node.size > 0 {
        output.append(" (");
        output.append(format_size_impl(node.size).as_str());
        output.append(")");
    }
    output.append("/\n");
    let ghost head = node@.name + root_note(node@, show_size) + "/\n"@;
    assert(output@ =~= head);
    proof {
        lemma_children_view(*node);
    }
    if let Some(children) = &node.children {
        let ghost views = nodes_view(children@);
        let mut i: usize = 0;
        assert(output@ =~= head + children_text(
            views,
            Seq::empty(),
            show_size,
            links_view(links@),
            0,
        ));
        while i < children.len()
            invariant
                i <= children.len(),
                views == nodes_view(children@),
                output@ == head + children_text(
                    views,
                    Seq::empty(),
                    show_size,
                    links_view(links@),
                    i as nat,
                ),
            decreases children.len() - i,
        {
            let ghost done = children_text(
                views,
                Seq::empty(),
                show_size,
                links_view(links@),
                i as nat,
            );
            format_node_recursive(&children[i], "", i == children.len() - 1, show_size, links, &mut output);
            proof {
                reveal_strlit("");
                assert(""@ =~= Seq::<char>::empty());
                assert(views[i as int] == children[i as int]@);
                let line = node_text(
                    children[i as int]@,
                    Seq::empty(),
                    i == children.len() - 1,
                    show_size,
                    links_view(links@),
                );
                assert(output@ =~= head + (done + line));
            }
            i = i + 1;
        }
    } else {
        assert(output@ =~= head + Seq::<char>::empty());
    }
    output
}

/// Formats a tree as text. Link targets are not resolved: nothing follows the arrow of a
/// symbolic link.
pub fn format_tree(node: &FsNode, show_size: bool) -> (output: String)
    ensures
        output@ == tree_text(node@, show_size, Seq::empty()),
{
    let links: Vec<LinkTarget> = Vec::new();
    assert(links_view(links@) =~= Seq::empty());
    format_tree_with_links(node, show_size, &links)
}

} // verus!
