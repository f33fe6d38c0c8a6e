//! Where the disk went, as a tree in lines.

use vstd::prelude::*;

use crate::report::{self, push_line, push_lines};
use crate::text::{self, digits, strings};
use crate::ui::{self, in_bold, in_dim, right_aligned, shown_bar, shown_bytes, truncated};
use crate::usage::{UsageNode, UsageProgress};

verus! {

/// How an entry is named: another volume and a folder are marked.
pub open spec fn entry_name(color: bool, node: UsageNode) -> Seq<char> {
    if node.is_mount {
        node.name@ + " "@ + in_dim(color, "(another volume)"@)
    } else if node.is_dir {
        node.name@ + "/"@
    } else {
        node.name@
    }
}

/// The line of one entry, with its share of the whole.
pub open spec fn entry_row(color: bool, node: UsageNode, total: nat, indent: Seq<char>) -> Seq<char> {
    "  "@ + right_aligned(shown_bytes(node.size_bytes as nat), 9) + "  "@ + in_dim(
        color,
        shown_bar(node.size_bytes as nat, total, 10),
    ) + " "@ + indent + truncated(entry_name(color, node), 52)
}

/// The lines of a row of entries and all below them, each level further in.
pub open spec fn rows_below(color: bool, nodes: Seq<UsageNode>, total: nat, indent: Seq<char>) -> Seq<Seq<char>>
    decreases nodes,
{
    if nodes.len() == 0 {
        Seq::empty()
    } else {
        rows_below(color, nodes.drop_last(), total, indent) + rows_of(color, nodes.last(), total, indent)
    }
}

/// The lines of one entry and all below it.
pub open spec fn rows_of(color: bool, node: UsageNode, total: nat, indent: Seq<char>) -> Seq<Seq<char>>
    decreases node,
{
    seq![entry_row(color, node, total, indent)] + rows_below(color, node.children@, total, indent + "  "@)
}

fn entry_line(color: bool, node: &UsageNode, total: u64, indent: &str) -> (r: String)
    ensures
        r@ == entry_row(color, *node, total as nat, indent@),
{
    let mut r = "  ".to_owned();
    let size = ui::bytes(node.size_bytes);
    let size = ui::rpad(size.as_str(), 9);
    r.append(size.as_str());
    r.append("  ");
    let bar = ui::bar(node.size_bytes, total, 10);
    let bar = ui::dim(color, bar.as_str());
    r.append(bar.as_str());
    r.append(" ");
    r.append(indent);
    let mut name = node.name.clone();
    if node.is_mount {
        name.append(" ");
        let mark = ui::dim(color, "(another volume)");
        name.append(mark.as_str());
    } else if node.is_dir {
        name.append("/");
    }
    let name = ui::truncate_path(name.as_str(), 52);
    r.append(name.as_str());
    r
}

/// The lines of all below an entry, each level further in, with the share of
/// the whole.
pub fn children_lines(color: bool, node: &UsageNode, total: u64, indent: &str) -> (r: Vec<String>)
    ensures
        strings(r@) == rows_below(color, node.children@, total as nat, indent@),
    decreases node,
{
    let ghost children = node.children@;
    let mut lines = report::no_lines();
    let mut deeper = indent.to_owned();
    deeper.append("  ");
    let mut i: usize = 0;
    assert(children.take(0).len() == 0);
    while i < node.children.len()
        invariant
            children == node.children@,
            deeper@ == indent@ + "  "@,
            i <= node.children@.len(),
            strings(lines@) == rows_below(color, children.take(i as int), total as nat, indent@),
        decreases node.children@.len() - i,
    {
        let child: &UsageNode = &node.children[i];
        proof {
            assert(decreases_to!(node => node.children));
            assert(decreases_to!(node.children@ => node.children@[i as int]));
            assert(children.take(i + 1).drop_last() =~= children.take(i as int));
        }
        let ghost before = strings(lines@);
        push_line(&mut lines, entry_line(color, child, total, indent));
        push_lines(&mut lines, children_lines(color, child, total, deeper.as_str()));
        assert(strings(lines@) =~= before + rows_of(color, *child, total as nat, indent@));
        i += 1;
    }
    assert(children.take(i as int) =~= children);
    lines
}

/// The whole tree: its root, then all below it.
pub open spec fn tree_text(color: bool, tree: UsageNode, root: Seq<char>) -> Seq<Seq<char>> {
    let head = "  "@ + right_aligned(in_bold(color, shown_bytes(tree.size_bytes as nat)), 9) + "  "@ + in_bold(
        color,
        root,
    );
    seq![""@, head] + rows_below(color, tree.children@, tree.size_bytes as nat, "  "@) + seq![""@]
}

/// The whole tree, as lines.
pub fn tree_lines(color: bool, tree: &UsageNode, root: &str) -> (r: Vec<String>)
    ensures
        strings(r@) == tree_text(color, *tree, root@),
{
    let mut head = "  ".to_owned();
    let size = ui::bytes(tree.size_bytes);
    let size = ui::bold(color, size.as_str());
    let size = ui::rpad(size.as_str(), 9);
    head.append(size.as_str());
    head.append("  ");
    let name = ui::bold(color, root);
    head.append(name.as_str());
    let mut lines = report::no_lines();
    push_line(&mut lines, "".to_owned());
    push_line(&mut lines, head);
    push_lines(&mut lines, children_lines(color, tree, tree.size_bytes, "  "));
    push_line(&mut lines, "".to_owned());
    assert(strings(lines@) =~= tree_text(color, *tree, root@));
    lines
}

/// The line that stands while a folder is measured, over the one before it.
pub fn progress_line(progress: &UsageProgress) -> (r: String)
    ensures
        r@ == "\r\x1b[2Kmeasuring — "@ + digits(progress.dirs_scanned as nat) + " folders, "@ + shown_bytes(
            progress.bytes_seen as nat,
        ),
{
    let mut r = "\r\x1b[2Kmeasuring — ".to_owned();
    let n = text::decimal(progress.dirs_scanned);
    r.append(n.as_str());
    r.append(" folders, ");
    let size = ui::bytes(progress.bytes_seen);
    r.append(size.as_str());
    r
}

/// Every entry of a folder is one row, with its own below it; a folder ends in
/// a slash, and another volume is said to be one.
pub proof fn every_entry_is_a_row(color: bool, nodes: Seq<UsageNode>, node: UsageNode, total: nat, indent: Seq<char>)
    ensures
        rows_below(color, Seq::empty(), total, indent).len() == 0,
        rows_below(color, nodes.push(node), total, indent) == rows_below(color, nodes, total, indent).push(
            entry_row(color, node, total, indent),
        ) + rows_below(color, node.children@, total, indent + "  "@),
        node.is_dir && !node.is_mount ==> entry_name(color, node) == node.name@ + "/"@,
        !node.is_dir && !node.is_mount ==> entry_name(color, node) == node.name@,
        node.is_mount ==> entry_name(color, node) == node.name@ + " "@ + in_dim(color, "(another volume)"@),
{
    assert(nodes.push(node).drop_last() =~= nodes);
    assert(rows_of(color, node, total, indent) == seq![entry_row(color, node, total, indent)] + rows_below(
        color,
        node.children@,
        total,
        indent + "  "@,
    ));
    assert(rows_below(color, nodes.push(node), total, indent) =~= rows_below(color, nodes, total, indent).push(
        entry_row(color, node, total, indent),
    ) + rows_below(color, node.children@, total, indent + "  "@));
}

} // verus!
