//! Forgetting an entry of a snapshot, against walking the disk again.
//!
//! A snapshot that forgets what was deleted holds what the next walk would
//! find. Only where siblings weigh the same can their order be another.

use vstd::prelude::*;

use crate::disk::{len_or_zero, FileKind};
use crate::order::{larger_first, lemma_reordered_multiset, ordered, reordered, sum};
use crate::paths::joined;
use crate::usage::{
    descending, dir_built, distinct_names, dropped, forgot, kid_built, kids_built, lemma_position, planned, position_of,
    root_built, root_name, sizes, DiskNode, DiskRoot, Entry, PlanView, UsageSnapshot,
};

verus! {

/// The same entries, whatever their order.
pub open spec fn same_entries(a: Seq<Entry>, b: Seq<Entry>) -> bool {
    a.to_multiset() == b.to_multiset()
}

/// `entry` holds what a walk finds of the entry `node` of the directory
/// `dir`.
pub open spec fn kid_held(entry: Entry, dir: Seq<char>, node: DiskNode, mirror: Option<Seq<char>>) -> bool
    decreases node, 2int,
{
    match node.kind {
        FileKind::Symlink => entry.is_leaf(node.name@, 0),
        FileKind::Dir => match planned(dir, node.name@, mirror, node.mounted, node.own, node.mirror) {
            PlanView::Drop => false,
            PlanView::Marker => entry.is_marker(node.name@),
            PlanView::Descend(below) => entry.name@ == node.name@ && dir_held(
                entry,
                joined(dir, node.name@),
                node.children@,
                below,
            ),
        },
        _ => entry.is_leaf(node.name@, len_or_zero(node.len)),
    }
}

/// `entry` holds what a walk finds of a directory that lists `nodes`: the
/// largest first, those of one size in any order.
pub open spec fn dir_held(entry: Entry, path: Seq<char>, nodes: Seq<DiskNode>, mirror: Option<Seq<char>>) -> bool
    decreases nodes, 1int,
{
    &&& entry.is_dir
    &&& !entry.is_mount
    &&& entry.size_bytes == sum(sizes(entry.children@))
    &&& descending(sizes(entry.children@))
    &&& exists|kids: Seq<Entry>|
        kids_held(kids, path, nodes, mirror) && #[trigger] same_entries(entry.children@, kids)
}

/// `kids` hold what a walk finds of the entries of a directory.
pub open spec fn kids_held(kids: Seq<Entry>, dir: Seq<char>, nodes: Seq<DiskNode>, mirror: Option<Seq<char>>) -> bool
    decreases nodes, 0int,
{
    if nodes.len() == 0 {
        kids.len() == 0
    } else if dropped(dir, nodes.last(), mirror) {
        kids_held(kids, dir, nodes.drop_last(), mirror)
    } else {
        &&& kids.len() > 0
        &&& kids_held(kids.drop_last(), dir, nodes.drop_last(), mirror)
        &&& kid_held(kids.last(), dir, nodes.last(), mirror)
    }
}

/// A snapshot's tree holds what a walk of the disk finds.
pub open spec fn root_held(entry: Entry, root: Seq<char>, disk: DiskRoot) -> bool {
    if disk.is_dir {
        entry.name@ == root_name(root) && dir_held(entry, root, disk.children@, None)
    } else {
        entry.is_leaf(root_name(root), len_or_zero(disk.len))
    }
}

/// The disk lists `after` where it listed `before`: what the names lead to is
/// gone, and nothing else has changed.
pub open spec fn gone_from(before: Seq<DiskNode>, after: Seq<DiskNode>, names: Seq<Seq<char>>) -> bool
    decreases names.len(),
{
    &&& names.len() > 0
    &&& exists|m: int|
        {
            &&& 0 <= m < before.len()
            &&& (#[trigger] before[m]).name@ == names[0]
            &&& if names.len() == 1 {
                after == before.remove(m)
            } else {
                let (x, y) = (before[m], after[m]);
                &&& after == before.update(m, y)
                &&& y.name == x.name
                &&& y.kind == x.kind
                &&& y.len == x.len
                &&& y.mounted == x.mounted
                &&& y.own == x.own
                &&& y.mirror == x.mirror
                &&& gone_from(x.children@, y.children@, names.drop_first())
            }
        }
}

proof fn lemma_kid_held(entry: Entry, dir: Seq<char>, node: DiskNode, mirror: Option<Seq<char>>)
    requires
        kid_built(entry, dir, node, mirror),
    ensures
        kid_held(entry, dir, node, mirror),
    decreases node, 2int,
{
    if node.kind == FileKind::Dir {
        match planned(dir, node.name@, mirror, node.mounted, node.own, node.mirror) {
            PlanView::Descend(below) => {
                what_is_built_is_held(entry, joined(dir, node.name@), node.children@, below);
            },
            _ => {},
        }
    }
}

/// What a walk builds of a directory holds what it finds.
pub proof fn what_is_built_is_held(entry: Entry, path: Seq<char>, nodes: Seq<DiskNode>, mirror: Option<Seq<char>>)
    requires
        dir_built(entry, path, nodes, mirror),
    ensures
        dir_held(entry, path, nodes, mirror),
    decreases nodes, 1int,
{
    let (kids, by_size) = choose|kids: Seq<Entry>, by_size: Seq<usize>|
        {
            &&& kids_built(kids, path, nodes, mirror)
            &&& ordered(by_size, 0, kids.len() as int, larger_first(sizes(kids)))
            &&& entry.children@ == #[trigger] reordered(kids, by_size)
        };
    lemma_kids_held(kids, path, nodes, mirror);
    let keys = sizes(kids);
    assert(sizes(entry.children@) =~= reordered(keys, by_size));
    assert forall|i: int, j: int| 0 <= i < j < by_size.len() implies #[trigger] sizes(entry.children@)[i]
        >= #[trigger] sizes(entry.children@)[j] by {
        assert(larger_first(keys)(by_size[i] as int, by_size[j] as int));
    }
    assert(entry.children@.len() == kids.len());
    assert(entry.children.len() <= usize::MAX);
    lemma_reordered_multiset(kids, by_size, larger_first(sizes(kids)));
    assert(same_entries(entry.children@, kids));
}

proof fn lemma_kids_held(kids: Seq<Entry>, dir: Seq<char>, nodes: Seq<DiskNode>, mirror: Option<Seq<char>>)
    requires
        kids_built(kids, dir, nodes, mirror),
    ensures
        kids_held(kids, dir, nodes, mirror),
    decreases nodes, 0int,
{
    if nodes.len() == 0 {
    } else if dropped(dir, nodes.last(), mirror) {
        lemma_kids_held(kids, dir, nodes.drop_last(), mirror);
    } else {
        lemma_kids_held(kids.drop_last(), dir, nodes.drop_last(), mirror);
        lemma_kid_held(kids.last(), dir, nodes.last(), mirror);
    }
}

/// The node that the kid at `k` is of.
proof fn lemma_node_of(kids: Seq<Entry>, dir: Seq<char>, nodes: Seq<DiskNode>, mirror: Option<Seq<char>>, k: int) -> (m:
    int)
    requires
        kids_held(kids, dir, nodes, mirror),
        0 <= k < kids.len(),
    ensures
        0 <= m < nodes.len(),
        !dropped(dir, nodes[m], mirror),
        kid_held(kids[k], dir, nodes[m], mirror),
        kids_held(kids.remove(k), dir, nodes.remove(m), mirror),
        forall|kid: Entry, node: DiskNode|
            #![trigger kids.update(k, kid), nodes.update(m, node)]
            !dropped(dir, node, mirror) && kid_held(kid, dir, node, mirror) ==> kids_held(
                kids.update(k, kid),
                dir,
                nodes.update(m, node),
                mirror,
            ),
    decreases nodes.len(),
{
    let front = nodes.drop_last();
    if dropped(dir, nodes.last(), mirror) {
        let m = lemma_node_of(kids, dir, front, mirror, k);
        assert(nodes.remove(m).drop_last() =~= front.remove(m));
        assert(nodes.remove(m).last() == nodes.last());
        assert forall|kid: Entry, node: DiskNode|
            #![trigger kids.update(k, kid), nodes.update(m, node)]
            !dropped(dir, node, mirror) && kid_held(kid, dir, node, mirror) implies kids_held(
            kids.update(k, kid),
            dir,
            nodes.update(m, node),
            mirror,
        ) by {
            assert(nodes.update(m, node).drop_last() =~= front.update(m, node));
            assert(nodes.update(m, node).last() == nodes.last());
        }
        m
    } else if k == kids.len() - 1 {
        let m = nodes.len() - 1;
        assert(kids.remove(k) =~= kids.drop_last());
        assert(nodes.remove(m) =~= front);
        assert forall|kid: Entry, node: DiskNode|
            #![trigger kids.update(k, kid), nodes.update(m, node)]
            !dropped(dir, node, mirror) && kid_held(kid, dir, node, mirror) implies kids_held(
            kids.update(k, kid),
            dir,
            nodes.update(m, node),
            mirror,
        ) by {
            assert(nodes.update(m, node).drop_last() =~= front);
            assert(kids.update(k, kid).drop_last() =~= kids.drop_last());
        }
        m
    } else {
        let m = lemma_node_of(kids.drop_last(), dir, front, mirror, k);
        assert(nodes.remove(m).drop_last() =~= front.remove(m));
        assert(nodes.remove(m).last() == nodes.last());
        assert(kids.remove(k).drop_last() =~= kids.drop_last().remove(k));
        assert(kids.remove(k).last() == kids.last());
        assert forall|kid: Entry, node: DiskNode|
            #![trigger kids.update(k, kid), nodes.update(m, node)]
            !dropped(dir, node, mirror) && kid_held(kid, dir, node, mirror) implies kids_held(
            kids.update(k, kid),
            dir,
            nodes.update(m, node),
            mirror,
        ) by {
            assert(nodes.update(m, node).drop_last() =~= front.update(m, node));
            assert(nodes.update(m, node).last() == nodes.last());
            assert(kids.update(k, kid).drop_last() =~= kids.drop_last().update(k, kid));
            assert(kids.update(k, kid).last() == kids.last());
        }
        m
    }
}

proof fn lemma_held_name(entry: Entry, dir: Seq<char>, node: DiskNode, mirror: Option<Seq<char>>)
    requires
        kid_held(entry, dir, node, mirror),
    ensures
        entry.name@ == node.name@,
{
}

/// A directory that forgets an entry holds what a walk finds once the entry
/// is gone from the disk.
pub proof fn forgetting_is_as_good_as_walking(
    before: Entry,
    after: Entry,
    path: Seq<char>,
    nodes: Seq<DiskNode>,
    left: Seq<DiskNode>,
    mirror: Option<Seq<char>>,
    names: Seq<Seq<char>>,
    freed: u64,
)
    requires
        dir_held(before, path, nodes, mirror),
        distinct_names(nodes),
        forgot(before, after, names, freed),
        after.well_formed(),
        gone_from(nodes, left, names),
    ensures
        dir_held(after, path, left, mirror),
    decreases names.len(),
{
    broadcast use vstd::seq_lib::group_to_multiset_ensures;

    let had = before.children@;
    let kids = choose|kids: Seq<Entry>|
        kids_held(kids, path, nodes, mirror) && #[trigger] same_entries(had, kids);
    let at = position_of(had, names[0]) as int;
    lemma_position(had, names[0]);
    assert(had.contains(had[at]));
    assert(kids.to_multiset().count(had[at]) > 0);
    assert(kids.contains(had[at]));
    let k = choose|k: int| 0 <= k < kids.len() && kids[k] == had[at];
    let m = lemma_node_of(kids, path, nodes, mirror, k);
    lemma_held_name(kids[k], path, nodes[m], mirror);
    let there = choose|there: int|
        {
            &&& 0 <= there < nodes.len()
            &&& (#[trigger] nodes[there]).name@ == names[0]
            &&& if names.len() == 1 {
                left == nodes.remove(there)
            } else {
                let (x, y) = (nodes[there], left[there]);
                &&& left == nodes.update(there, y)
                &&& y.name == x.name
                &&& y.kind == x.kind
                &&& y.len == x.len
                &&& y.mounted == x.mounted
                &&& y.own == x.own
                &&& y.mirror == x.mirror
                &&& gone_from(x.children@, y.children@, names.drop_first())
            }
        };
    assert(there == m) by {
        if there < m {
            assert(nodes[there].name@ != nodes[m].name@);
        }
        if m < there {
            assert(nodes[m].name@ != nodes[there].name@);
        }
    }
    if names.len() == 1 {
        assert(after.children@.to_multiset() == kids.remove(k).to_multiset());
        assert(same_entries(after.children@, kids.remove(k)));
    } else {
        let (child, to) = choose|child: Entry, to: int|
            {
                &&& 0 <= to < had.len()
                &&& after.children@ == #[trigger] had.remove(at).insert(to, child)
                &&& forgot(had[at], child, names.drop_first(), freed)
            };
        let (x, y) = (nodes[m], left[m]);
        assert(after.children@[to] == child);
        assert(child.well_formed());
        assert(had[at].children@.len() > 0);
        assert(x.kind == FileKind::Dir);
        let plan = planned(path, x.name@, mirror, x.mounted, x.own, x.mirror);
        assert(plan is Descend);
        let below = plan->Descend_0;
        assert(distinct_names(nodes[m].children@));
        forgetting_is_as_good_as_walking(
            had[at],
            child,
            joined(path, x.name@),
            x.children@,
            y.children@,
            below,
            names.drop_first(),
            freed,
        );
        assert(kid_held(child, path, y, mirror));
        assert(kids_held(kids.update(k, child), path, nodes.update(m, y), mirror));
        assert(after.children@.to_multiset() =~= kids.update(k, child).to_multiset());
        assert(same_entries(after.children@, kids.update(k, child)));
    }
}

/// A snapshot that forgets an entry holds what the next walk of the disk
/// finds, once the entry is gone from it.
pub proof fn a_snapshot_that_forgets_needs_no_new_walk(
    before: UsageSnapshot,
    after: UsageSnapshot,
    disk: DiskRoot,
    left: DiskRoot,
    names: Seq<Seq<char>>,
    freed: u64,
    again: UsageSnapshot,
)
    requires
        root_held(before.tree(), before.covers(), disk),
        distinct_names(disk.children@),
        forgot(before.tree(), after.tree(), names, freed),
        after.inv(),
        after.covers() == before.covers(),
        disk.is_dir && left.is_dir,
        gone_from(disk.children@, left.children@, names),
        root_built(again.tree(), before.covers(), left),
    ensures
        root_held(after.tree(), before.covers(), left),
        root_held(again.tree(), before.covers(), left),
{
    forgetting_is_as_good_as_walking(
        before.tree(),
        after.tree(),
        before.covers(),
        disk.children@,
        left.children@,
        None,
        names,
        freed,
    );
    what_is_built_is_held(again.tree(), before.covers(), left.children@, None);
}

} // verus!
