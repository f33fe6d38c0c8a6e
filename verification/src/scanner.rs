//! The scanner: measures what each [`ScanTarget`] could reclaim.
//!
//! Scanning never changes the filesystem. What could not be read on the way
//! is collected as warnings rather than aborting the scan.

use vstd::prelude::*;

use crate::disk::{
    child_path, children_size, children_warnings, entry_size, entry_warnings, is_one_of, len_or_zero, one_of,
    probe_size, probe_warnings, FileKind, ListedChild, Present, Probe, WalkEntry,
};
use crate::model::{ScanItem, ScanReport, ScanTarget, Scope, TargetScan};
use crate::paths;
use crate::paths::{
    is_name, joined, lemma_parts_joined_name, lemma_under_trans, opt_view, parts, same_path, texts, tilde_expanded,
    under, FsPath,
};
use crate::text::strings;

verus! {

/// `cancel` says to stop whenever it is asked.
pub open spec fn always<C: Fn() -> bool>(cancel: C) -> bool {
    forall|r: bool| call_ensures(cancel, (), r) ==> r
}

/// `cancel` never says to stop.
pub open spec fn never<C: Fn() -> bool>(cancel: C) -> bool {
    forall|r: bool| call_ensures(cancel, (), r) ==> !r
}

proof fn lemma_children_prefix(path: Seq<char>, children: Seq<WalkEntry>, excluded: Seq<Seq<char>>, i: int)
    requires
        0 <= i < children.len(),
    ensures
        children_size(path, children.take(i + 1), excluded) == children_size(path, children.take(i), excluded)
            + entry_size(child_path(path, children[i]), children[i], excluded),
        children_warnings(path, children.take(i + 1), excluded) == children_warnings(path, children.take(i), excluded)
            + entry_warnings(child_path(path, children[i]), children[i], excluded),
        children_size(path, children.take(i + 1), excluded) <= children_size(path, children, excluded),
    decreases children.len() - i,
{
    assert(children.take(i + 1).drop_last() =~= children.take(i));
    if i + 1 < children.len() {
        lemma_children_prefix(path, children, excluded, i + 1);
    } else {
        assert(children.take(i + 1) =~= children);
    }
}

/// Adds the sizes at and beneath `path` to `total`; returns whether `cancel`
/// stopped the walk on the way.
fn walk_into<C: Fn() -> bool>(
    path: &FsPath,
    entry: &WalkEntry,
    excluded: &Vec<FsPath>,
    warnings: &mut Vec<String>,
    total: &mut u64,
    cancel: &C,
) -> (stopped: bool)
    requires
        call_requires(*cancel, ()),
        *old(total) + entry_size(path@, *entry, texts(excluded@)) <= u64::MAX,
    ensures
        *old(total) <= *final(total) <= *old(total) + entry_size(path@, *entry, texts(excluded@)),
        stopped ==> call_ensures(*cancel, (), true),
        always(*cancel) ==> stopped && *final(total) == *old(total) && final(warnings)@ == old(warnings)@,
        !stopped ==> *final(total) == *old(total) + entry_size(path@, *entry, texts(excluded@)),
        !stopped ==> strings(final(warnings)@) == strings(old(warnings)@) + entry_warnings(path@, *entry, texts(excluded@)),
    decreases entry,
{
    if cancel() {
        return true;
    }
    match entry {
        WalkEntry::Failed(message) => {
            let mut warning = "walk error: ".to_owned();
            warning.append(message.as_str());
            warnings.push(warning);
            assert(strings(warnings@) =~= strings(old(warnings)@) + entry_warnings(path@, *entry, texts(excluded@)));
            false
        },
        WalkEntry::Node(node) => {
            if is_one_of(path, excluded) {
                assert(strings(warnings@) =~= strings(old(warnings)@) + entry_warnings(path@, *entry, texts(excluded@)));
                return false;
            }
            if node.kind == FileKind::Dir {
                let ghost children = node.children@;
                let ghost start = *total;
                let ghost noted = strings(warnings@);
                let mut i: usize = 0;
                assert(children_warnings(path@, children.take(0), texts(excluded@)) =~= Seq::<Seq<char>>::empty());
                assert(strings(warnings@) =~= noted + children_warnings(path@, children.take(0), texts(excluded@)));
                while i < node.children.len()
                    invariant
                        call_requires(*cancel, ()),
                        !always(*cancel),
                        *entry == WalkEntry::Node(*node),
                        children == node.children@,
                        i <= children.len(),
                        start == *old(total),
                        entry_size(path@, *entry, texts(excluded@)) == children_size(path@, children, texts(excluded@)),
                        start + children_size(path@, children, texts(excluded@)) <= u64::MAX,
                        *total == start + children_size(path@, children.take(i as int), texts(excluded@)),
                        strings(warnings@) == noted + children_warnings(path@, children.take(i as int), texts(excluded@)),
                    decreases children.len() - i,
                {
                    proof {
                        lemma_children_prefix(path@, children, texts(excluded@), i as int);
                    }
                    let child: &WalkEntry = &node.children[i];
                    assert(decreases_to!(entry->Node_0 => entry->Node_0.children));
                    assert(decreases_to!(entry => entry->Node_0));
                    assert(decreases_to!(children => children[i as int]));
                    let below = match child {
                        WalkEntry::Node(n) => path.join(n.name.as_str()),
                        WalkEntry::Failed(_) => path.clone(),
                    };
                    let stopped = walk_into(&below, child, excluded, warnings, total, cancel);
                    if stopped {
                        return true;
                    }
                    assert(strings(warnings@) =~= noted + children_warnings(path@, children.take(i + 1), texts(excluded@)));
                    i += 1;
                }
                assert(children.take(i as int) =~= children);
            } else {
                if node.kind == FileKind::File {
                    if let Some(len) = node.len {
                        *total = *total + len;
                    }
                }
                assert(strings(warnings@) =~= strings(old(warnings)@) + entry_warnings(path@, *entry, texts(excluded@)));
            }
            false
        },
    }
}

/// The on-disk size of a path, leaving out anything at or under one of
/// `excluded`; and whether `cancel` stopped the walk on the way.
pub(crate) fn size_excluding<C: Fn() -> bool>(
    path: &FsPath,
    probe: &Probe,
    excluded: &Vec<FsPath>,
    warnings: &mut Vec<String>,
    cancel: &C,
) -> (r: (u64, bool))
    requires
        call_requires(*cancel, ()),
        probe_size(path@, *probe, texts(excluded@)) <= u64::MAX,
    ensures
        r.0 <= probe_size(path@, *probe, texts(excluded@)),
        r.1 ==> call_ensures(*cancel, (), true),
        probe.is_file ==> r.0 == len_or_zero(probe.len),
        always(*cancel) && !probe.is_file ==> r.0 == 0 && r.1 && final(warnings)@ == old(warnings)@,
        !r.1 ==> r.0 == probe_size(path@, *probe, texts(excluded@)),
        !r.1 ==> strings(final(warnings)@) == strings(old(warnings)@) + probe_warnings(
            path@,
            *probe,
            texts(excluded@),
        ),
{
    if probe.is_file {
        assert(strings(warnings@) =~= strings(old(warnings)@) + probe_warnings(path@, *probe, texts(excluded@)));
        let len: u64 = match probe.len {
            Some(n) => n,
            None => 0,
        };
        return (len, false);
    }
    let mut total: u64 = 0;
    let stopped = walk_into(path, &probe.walk, excluded, warnings, &mut total, cancel);
    (total, stopped)
}

/// The on-disk size of a path, leaving out anything at or under one of
/// `excluded`. A walk that `cancel` stops returns what it had added up so
/// far, which is not a usable figure.
pub fn dir_size_excluding<C: Fn() -> bool>(
    path: &FsPath,
    probe: &Probe,
    excluded: &Vec<FsPath>,
    warnings: &mut Vec<String>,
    cancel: &C,
) -> (r: u64)
    requires
        call_requires(*cancel, ()),
        probe_size(path@, *probe, texts(excluded@)) <= u64::MAX,
    ensures
        r <= probe_size(path@, *probe, texts(excluded@)),
        probe.is_file ==> r == len_or_zero(probe.len),
        always(*cancel) && !probe.is_file ==> r == 0 && final(warnings)@ == old(warnings)@,
        never(*cancel) ==> r == probe_size(path@, *probe, texts(excluded@)),
        never(*cancel) ==> strings(final(warnings)@) == strings(old(warnings)@) + probe_warnings(
            path@,
            *probe,
            texts(excluded@),
        ),
{
    size_excluding(path, probe, excluded, warnings, cancel).0
}

/// The on-disk size of a path. Entries that cannot be read are recorded as
/// warnings and skipped.
pub fn dir_size(path: &FsPath, probe: &Probe, warnings: &mut Vec<String>) -> (r: u64)
    requires
        probe_size(path@, *probe, Seq::empty()) <= u64::MAX,
    ensures
        r == probe_size(path@, *probe, Seq::empty()),
        strings(final(warnings)@) == strings(old(warnings)@) + probe_warnings(path@, *probe, Seq::empty()),
{
    let cancel = || -> (r: bool)
        ensures
            !r,
        { false };
    dir_size_with(path, probe, warnings, &cancel)
}

/// [`dir_size`], abandoning the walk as soon as `cancel` says so.
pub fn dir_size_with<C: Fn() -> bool>(path: &FsPath, probe: &Probe, warnings: &mut Vec<String>, cancel: &C) -> (r: u64)
    requires
        call_requires(*cancel, ()),
        probe_size(path@, *probe, Seq::empty()) <= u64::MAX,
    ensures
        r <= probe_size(path@, *probe, Seq::empty()),
        probe.is_file ==> r == len_or_zero(probe.len),
        always(*cancel) && !probe.is_file ==> r == 0 && final(warnings)@ == old(warnings)@,
        never(*cancel) ==> r == probe_size(path@, *probe, Seq::empty()),
        never(*cancel) ==> strings(final(warnings)@) == strings(old(warnings)@) + probe_warnings(
            path@,
            *probe,
            Seq::empty(),
        ),
{
    let none: Vec<FsPath> = Vec::new();
    assert(texts(none@) =~= Seq::empty());
    dir_size_excluding(path, probe, &none, warnings, cancel)
}

/// A removable item, as a mathematical value.
pub struct ItemView {
    pub target_id: Seq<char>,
    pub path: Seq<char>,
    pub size: nat,
    pub is_dir: bool,
}

impl View for ScanItem {
    type V = ItemView;

    open spec fn view(&self) -> ItemView {
        ItemView {
            target_id: self.target_id@,
            path: self.path@,
            size: self.size_bytes as nat,
            is_dir: self.is_dir,
        }
    }
}

/// What a list of items stands for.
pub open spec fn items_view(items: Seq<ScanItem>) -> Seq<ItemView> {
    items.map_values(|i: ScanItem| i@)
}

/// The sizes of a list of items, added up.
pub open spec fn total_size(items: Seq<ItemView>) -> nat
    decreases items.len(),
{
    if items.len() == 0 {
        0
    } else {
        total_size(items.drop_last()) + items.last().size
    }
}

/// The items that the children of a directory become: each child that no
/// other target owns.
pub open spec fn contents_items(
    id: Seq<char>,
    root: Seq<char>,
    children: Seq<ListedChild>,
    owned: Seq<Seq<char>>,
) -> Seq<ItemView>
    decreases children.len(),
{
    if children.len() == 0 {
        Seq::empty()
    } else {
        let before = contents_items(id, root, children.drop_last(), owned);
        match children.last() {
            ListedChild::Failed(_) => before,
            ListedChild::Child(name, probe) => {
                let path = joined(root, name@);
                if one_of(path, owned) {
                    before
                } else {
                    before.push(
                        ItemView { target_id: id, path, size: probe_size(path, probe, owned), is_dir: probe.is_dir },
                    )
                }
            },
        }
    }
}

/// The warnings that reading the children of a directory gives.
pub open spec fn contents_warnings(
    root: Seq<char>,
    children: Seq<ListedChild>,
    owned: Seq<Seq<char>>,
) -> Seq<Seq<char>>
    decreases children.len(),
{
    if children.len() == 0 {
        Seq::empty()
    } else {
        contents_warnings(root, children.drop_last(), owned) + match children.last() {
            ListedChild::Failed(message) => seq!["read entry failed: "@ + message@],
            ListedChild::Child(name, probe) => {
                let path = joined(root, name@);
                if one_of(path, owned) {
                    Seq::empty()
                } else {
                    probe_warnings(path, probe, owned)
                }
            },
        }
    }
}

/// The items of a target whose root the filesystem shows as `reading`, where
/// `owned` belongs to other targets.
pub open spec fn target_items(
    target: ScanTarget,
    root: Seq<char>,
    reading: Option<Present>,
    owned: Seq<Seq<char>>,
) -> Seq<ItemView> {
    match reading {
        None => Seq::empty(),
        Some(present) => match target.scope {
            Scope::Contents => match present.children {
                Ok(children) => contents_items(target.id@, root, children@, owned),
                Err(_) => Seq::empty(),
            },
            Scope::Path => seq![
                ItemView {
                    target_id: target.id@,
                    path: root,
                    size: probe_size(root, present.probe, owned),
                    is_dir: present.probe.is_dir,
                },
            ],
        },
    }
}

/// The warnings that scanning a target gives.
pub open spec fn target_warnings(
    target: ScanTarget,
    root: Seq<char>,
    reading: Option<Present>,
    owned: Seq<Seq<char>>,
) -> Seq<Seq<char>> {
    match reading {
        None => Seq::empty(),
        Some(present) => match target.scope {
            Scope::Contents => match present.children {
                Ok(children) => contents_warnings(root, children@, owned),
                Err(message) => seq!["cannot read "@ + root + ": "@ + message@],
            },
            Scope::Path => probe_warnings(root, present.probe, owned),
        },
    }
}

/// The bytes a target could reclaim.
pub open spec fn target_size(
    target: ScanTarget,
    root: Seq<char>,
    reading: Option<Present>,
    owned: Seq<Seq<char>>,
) -> nat {
    total_size(target_items(target, root, reading, owned))
}

/// The items of a scan that is stopped before it walks anything. A target
/// that is one path keeps it, with what is known of it without a walk.
pub open spec fn unwalked_items(target: ScanTarget, root: Seq<char>, reading: Option<Present>) -> Seq<ItemView> {
    match reading {
        Some(present) => match target.scope {
            Scope::Contents => Seq::empty(),
            Scope::Path => seq![
                ItemView {
                    target_id: target.id@,
                    path: root,
                    size: if present.probe.is_file {
                        len_or_zero(present.probe.len)
                    } else {
                        0
                    },
                    is_dir: present.probe.is_dir,
                },
            ],
        },
        None => Seq::empty(),
    }
}

/// `scan` is the full result of scanning `target`.
pub open spec fn measured(
    scan: TargetScan,
    target: ScanTarget,
    root: Seq<char>,
    reading: Option<Present>,
    owned: Seq<Seq<char>>,
) -> bool {
    &&& scan.target == target
    &&& items_view(scan.items@) == target_items(target, root, reading, owned)
    &&& scan.total_bytes == target_size(target, root, reading, owned)
    &&& strings(scan.warnings@) == target_warnings(target, root, reading, owned)
}

proof fn lemma_contents_prefix(id: Seq<char>, root: Seq<char>, children: Seq<ListedChild>, owned: Seq<Seq<char>>, i: int)
    requires
        0 <= i <= children.len(),
    ensures
        total_size(contents_items(id, root, children.take(i), owned)) <= total_size(
            contents_items(id, root, children, owned),
        ),
    decreases children.len() - i,
{
    if i < children.len() {
        lemma_contents_prefix(id, root, children, owned, i + 1);
        assert(children.take(i + 1).drop_last() =~= children.take(i));
        let before = contents_items(id, root, children.take(i), owned);
        let after = contents_items(id, root, children.take(i + 1), owned);
        if after != before {
            assert(after.drop_last() =~= before);
        }
    } else {
        assert(children.take(i) =~= children);
    }
}

/// Scans `target`, treating every path in `owned` as belonging to another
/// target; tells whether `cancel` stopped the walk on the way.
fn measure_target<C: Fn() -> bool>(
    target: &ScanTarget,
    root: &FsPath,
    reading: &Option<Present>,
    owned: &Vec<FsPath>,
    cancel: &C,
) -> (r: (TargetScan, bool))
    requires
        call_requires(*cancel, ()),
        target_size(*target, root@, *reading, texts(owned@)) <= u64::MAX,
    ensures
        r.0.target == *target,
        r.0.total_bytes == total_size(items_view(r.0.items@)),
        r.0.total_bytes <= target_size(*target, root@, *reading, texts(owned@)),
        r.1 ==> call_ensures(*cancel, (), true),
        always(*cancel) ==> items_view(r.0.items@) == unwalked_items(*target, root@, *reading),
        !r.1 ==> measured(r.0, *target, root@, *reading, texts(owned@)),
{
    let mut items: Vec<ScanItem> = Vec::new();
    let mut warnings: Vec<String> = Vec::new();
    let mut total: u64 = 0;
    let mut stopped = false;
    let ghost own = texts(owned@);
    proof {
        reveal_with_fuel(total_size, 2);
    }
    assert(items_view(items@) =~= Seq::<ItemView>::empty());
    assert(strings(warnings@) =~= Seq::<Seq<char>>::empty());
    if let Some(present) = reading {
        match target.scope {
            Scope::Contents => {
                match &present.children {
                    Ok(children) => {
                        let ghost all = children@;
                        let mut i: usize = 0;
                        assert(contents_warnings(root@, all.take(0), own) =~= Seq::<Seq<char>>::empty());
                        assert(contents_items(target.id@, root@, all.take(0), own) =~= Seq::<ItemView>::empty());
                        while i < children.len() && !stopped
                            invariant
                                call_requires(*cancel, ()),
                                all == children@,
                                own == texts(owned@),
                                i <= all.len(),
                                total_size(contents_items(target.id@, root@, all, own)) <= u64::MAX,
                                total == total_size(items_view(items@)),
                                total <= total_size(contents_items(target.id@, root@, all.take(i as int), own)),
                                stopped ==> call_ensures(*cancel, (), true),
                                always(*cancel) ==> items@.len() == 0,
                                !stopped ==> items_view(items@) == contents_items(
                                    target.id@,
                                    root@,
                                    all.take(i as int),
                                    own,
                                ),
                                !stopped ==> strings(warnings@) == contents_warnings(root@, all.take(i as int), own),
                            decreases children@.len() - i + (if stopped { 0int } else { 1int }),
                        {
                            if cancel() {
                                stopped = true;
                            } else {
                                let ghost before = items_view(items@);
                                let ghost noted = strings(warnings@);
                                proof {
                                    lemma_contents_prefix(target.id@, root@, all, own, i + 1);
                                    assert(all.take(i + 1).drop_last() =~= all.take(i as int));
                                    let after = contents_items(target.id@, root@, all.take(i + 1), own);
                                    if after != before {
                                        assert(after.drop_last() =~= before);
                                    }
                                }
                                match &children[i] {
                                    ListedChild::Failed(message) => {
                                        let mut warning = "read entry failed: ".to_owned();
                                        warning.append(message.as_str());
                                        warnings.push(warning);
                                        assert(strings(warnings@) =~= contents_warnings(root@, all.take(i + 1), own));
                                    },
                                    ListedChild::Child(name, probe) => {
                                        let path = root.join(name.as_str());
                                        if is_one_of(&path, owned) {
                                            assert(strings(warnings@) =~= contents_warnings(
                                                root@,
                                                all.take(i + 1),
                                                own,
                                            ));
                                        } else {
                                            let (size, cut) = size_excluding(
                                                &path,
                                                probe,
                                                owned,
                                                &mut warnings,
                                                cancel,
                                            );
                                            total = total + size;
                                            items.push(
                                                ScanItem {
                                                    target_id: target.id.clone(),
                                                    path,
                                                    size_bytes: size,
                                                    is_dir: probe.is_dir,
                                                },
                                            );
                                            stopped = cut;
                                            proof {
                                                let now = items_view(items@);
                                                assert(now.drop_last() =~= before);
                                                if !cut {
                                                    assert(now =~= contents_items(
                                                        target.id@,
                                                        root@,
                                                        all.take(i + 1),
                                                        own,
                                                    ));
                                                    assert(strings(warnings@) =~= contents_warnings(
                                                        root@,
                                                        all.take(i + 1),
                                                        own,
                                                    ));
                                                }
                                            }
                                        }
                                    },
                                }
                                i += 1;
                            }
                        }
                        assert(always(*cancel) ==> items_view(items@) =~= Seq::<ItemView>::empty());
                        proof {
                            lemma_contents_prefix(target.id@, root@, all, own, i as int);
                            if !stopped {
                                assert(all.take(i as int) =~= all);
                            }
                        }
                    },
                    Err(message) => {
                        let mut warning = "cannot read ".to_owned();
                        warning.append(root.as_str());
                        warning.append(": ");
                        warning.append(message.as_str());
                        warnings.push(warning);
                        assert(strings(warnings@) =~= target_warnings(*target, root@, *reading, own));
                    },
                }
            },
            Scope::Path => {
                assert(target_items(*target, root@, *reading, own).drop_last() =~= Seq::<ItemView>::empty());
                let (size, cut) = size_excluding(root, &present.probe, owned, &mut warnings, cancel);
                total = size;
                items.push(
                    ScanItem {
                        target_id: target.id.clone(),
                        path: root.clone(),
                        size_bytes: size,
                        is_dir: present.probe.is_dir,
                    },
                );
                stopped = cut;
                proof {
                    let now = items_view(items@);
                    assert(now.drop_last() =~= Seq::<ItemView>::empty());
                    assert(always(*cancel) ==> now =~= unwalked_items(*target, root@, *reading));
                    if !cut {
                        assert(now =~= target_items(*target, root@, *reading, own));
                        assert(strings(warnings@) =~= target_warnings(*target, root@, *reading, own));
                    }
                }
            },
        }
    }
    (TargetScan { target: target.clone(), items, total_bytes: total, warnings }, stopped)
}

/// Scans `target`, treating every path in `owned_elsewhere` as belonging to
/// another target, and abandoning the walk as soon as `cancel` says so.
///
/// An item that is one of those paths is dropped; an item that merely
/// contains one has those bytes left out of its size. A cancelled scan holds
/// what it had measured so far, which is not a usable figure.
pub fn scan_target_excluding_with<C: Fn() -> bool>(
    target: &ScanTarget,
    home: Option<&FsPath>,
    reading: &Option<Present>,
    owned_elsewhere: &Vec<FsPath>,
    cancel: &C,
) -> (r: TargetScan)
    requires
        call_requires(*cancel, ()),
        target_size(*target, tilde_expanded(target.path@, opt_view(home)), *reading, texts(owned_elsewhere@))
            <= u64::MAX,
    ensures
        r.target == *target,
        r.total_bytes == total_size(items_view(r.items@)),
        r.total_bytes <= target_size(
            *target,
            tilde_expanded(target.path@, opt_view(home)),
            *reading,
            texts(owned_elsewhere@),
        ),
        always(*cancel) ==> items_view(r.items@) == unwalked_items(
            *target,
            tilde_expanded(target.path@, opt_view(home)),
            *reading,
        ),
        never(*cancel) ==> measured(
            r,
            *target,
            tilde_expanded(target.path@, opt_view(home)),
            *reading,
            texts(owned_elsewhere@),
        ),
{
    let root = paths::resolve(target.path.as_str(), home);
    measure_target(target, &root, reading, owned_elsewhere, cancel).0
}

/// Scans `target`, treating every path in `owned_elsewhere` as belonging to
/// another target.
pub fn scan_target_excluding(
    target: &ScanTarget,
    home: Option<&FsPath>,
    reading: &Option<Present>,
    owned_elsewhere: &Vec<FsPath>,
) -> (r: TargetScan)
    requires
        target_size(*target, tilde_expanded(target.path@, opt_view(home)), *reading, texts(owned_elsewhere@))
            <= u64::MAX,
    ensures
        measured(r, *target, tilde_expanded(target.path@, opt_view(home)), *reading, texts(owned_elsewhere@)),
{
    let cancel = || -> (r: bool)
        ensures
            !r,
        { false };
    scan_target_excluding_with(target, home, reading, owned_elsewhere, &cancel)
}

/// Scans a single target on its own, counting everything under it.
pub fn scan_target(target: &ScanTarget, home: Option<&FsPath>, reading: &Option<Present>) -> (r: TargetScan)
    requires
        target_size(*target, tilde_expanded(target.path@, opt_view(home)), *reading, Seq::empty()) <= u64::MAX,
    ensures
        measured(r, *target, tilde_expanded(target.path@, opt_view(home)), *reading, Seq::empty()),
{
    let none: Vec<FsPath> = Vec::new();
    assert(texts(none@) =~= Seq::empty());
    scan_target_excluding(target, home, reading, &none)
}

/// Where the targets' paths lead.
pub open spec fn root_texts(targets: Seq<ScanTarget>, home: Option<Seq<char>>) -> Seq<Seq<char>> {
    targets.map_values(|t: ScanTarget| tilde_expanded(t.path@, home))
}

/// `inner` lies beneath `outer` and is not the same place.
pub open spec fn strictly_under(inner: Seq<char>, outer: Seq<char>) -> bool {
    under(inner, outer) && !same_path(inner, outer)
}

/// The roots strictly inside `root`: only those can take bytes away from it.
pub open spec fn nested_in(roots: Seq<Seq<char>>, root: Seq<char>) -> Seq<Seq<char>> {
    roots.filter(|r: Seq<char>| strictly_under(r, root))
}

/// The roots that other targets own inside `root`.
fn nested_roots(roots: &Vec<FsPath>, root: &FsPath) -> (r: Vec<FsPath>)
    ensures
        texts(r@) == nested_in(texts(roots@), root@),
{
    let ghost inside = |r: Seq<char>| strictly_under(r, root@);
    let mut r: Vec<FsPath> = Vec::new();
    let mut i: usize = 0;
    while i < roots.len()
        invariant
            i <= roots@.len(),
            inside == (|r: Seq<char>| strictly_under(r, root@)),
            texts(r@) == texts(roots@).take(i as int).filter(inside),
        decreases roots@.len() - i,
    {
        let ghost before = texts(r@);
        proof {
            reveal(Seq::filter);
            assert(texts(roots@).take(i + 1).drop_last() =~= texts(roots@).take(i as int));
        }
        if roots[i].starts_with(root) && !roots[i].same(root) {
            r.push(roots[i].clone());
            assert(texts(r@) =~= before.push(roots@[i as int]@));
        }
        i += 1;
    }
    assert(texts(roots@).take(i as int) =~= texts(roots@));
    r
}

/// `readings` are what `read` can answer for the first targets.
pub open spec fn readings_of<R: Fn(&ScanTarget, &FsPath, &Vec<FsPath>) -> Option<Present>>(
    read: R,
    targets: Seq<ScanTarget>,
    home: Option<Seq<char>>,
    readings: Seq<Option<Present>>,
) -> bool {
    &&& readings.len() <= targets.len()
    &&& forall|i: int| 0 <= i < readings.len() ==> reading_of(read, targets, home, i, #[trigger] readings[i])
}

/// `reading` is what `read` can answer for the target at `i`, asked for its
/// root and for what other targets own inside it.
pub open spec fn reading_of<R: Fn(&ScanTarget, &FsPath, &Vec<FsPath>) -> Option<Present>>(
    read: R,
    targets: Seq<ScanTarget>,
    home: Option<Seq<char>>,
    i: int,
    reading: Option<Present>,
) -> bool {
    let roots = root_texts(targets, home);
    exists|root: FsPath, owned: Vec<FsPath>| #[trigger]
        call_ensures(read, (&targets[i], &root, &owned), reading) && root@ == roots[i] && texts(owned@) == nested_in(
            roots,
            roots[i],
        )
}

/// The bytes that the first targets could reclaim, each byte counted by the
/// most specific target that holds it.
pub open spec fn report_size(targets: Seq<ScanTarget>, home: Option<Seq<char>>, readings: Seq<Option<Present>>) -> nat
    decreases readings.len(),
{
    if readings.len() == 0 {
        0
    } else {
        let i = readings.len() - 1;
        let roots = root_texts(targets, home);
        report_size(targets, home, readings.drop_last()) + target_size(
            targets[i],
            roots[i],
            readings[i],
            nested_in(roots, roots[i]),
        )
    }
}

/// `report` holds the full scans of the first targets, for the readings given.
pub open spec fn reported(
    report: ScanReport,
    targets: Seq<ScanTarget>,
    home: Option<Seq<char>>,
    readings: Seq<Option<Present>>,
) -> bool {
    let roots = root_texts(targets, home);
    &&& report.targets@.len() == readings.len()
    &&& report.total_bytes == report_size(targets, home, readings)
    &&& forall|i: int|
        0 <= i < readings.len() ==> measured(
            #[trigger] report.targets@[i],
            targets[i],
            roots[i],
            readings[i],
            nested_in(roots, roots[i]),
        )
}

/// Scans a list of targets, handing each completed scan to `on_target`, and
/// stopping as soon as `cancel` says so. The report then holds the targets
/// that finished before; one caught half-measured is dropped.
///
/// `read` looks a target's root up on disk. It is told which places inside
/// the root other targets own: nothing at or beneath those is looked at.
///
/// Targets can nest. Each is scanned knowing where the other roots are, and
/// the more specific one owns the overlap, so that no byte is counted twice.
pub fn scan_targets_with<
    R: Fn(&ScanTarget, &FsPath, &Vec<FsPath>) -> Option<Present>,
    F: Fn(&TargetScan),
    C: Fn() -> bool,
>(targets: &Vec<ScanTarget>, home: Option<&FsPath>, read: &R, on_target: &F, cancel: &C) -> (r: ScanReport)
    requires
        call_requires(*cancel, ()),
        forall|t: &ScanTarget, p: &FsPath, o: &Vec<FsPath>| call_requires(*read, (t, p, o)),
        forall|s: &TargetScan| call_requires(*on_target, (s,)),
        forall|readings: Seq<Option<Present>>| #[trigger]
            readings_of(*read, targets@, opt_view(home), readings) ==> report_size(targets@, opt_view(home), readings)
                <= u64::MAX,
    ensures
        exists|readings: Seq<Option<Present>>| #[trigger]
            readings_of(*read, targets@, opt_view(home), readings) && reported(
                r,
                targets@,
                opt_view(home),
                readings,
            ),
        r.targets@.len() < targets@.len() ==> call_ensures(*cancel, (), true),
        always(*cancel) ==> r.targets@.len() == 0 && r.total_bytes == 0,
        forall|i: int| 0 <= i < r.targets@.len() ==> call_ensures(*on_target, (&#[trigger] r.targets@[i],), ()),
{
    let ghost all = targets@;
    let ghost h = opt_view(home);
    let mut roots: Vec<FsPath> = Vec::new();
    let mut n: usize = 0;
    while n < targets.len()
        invariant
            all == targets@,
            h == opt_view(home),
            n <= all.len(),
            texts(roots@) == root_texts(all, h).take(n as int),
        decreases all.len() - n,
    {
        let ghost before = texts(roots@);
        roots.push(paths::resolve(targets[n].path.as_str(), home));
        assert(texts(roots@) =~= before.push(root_texts(all, h)[n as int]));
        assert(texts(roots@) =~= root_texts(all, h).take(n + 1));
        n += 1;
    }
    assert(texts(roots@) =~= root_texts(all, h));
    assert(texts(roots@).len() == roots@.len());

    let mut scans: Vec<TargetScan> = Vec::new();
    let mut total: u64 = 0;
    let ghost mut readings: Seq<Option<Present>> = Seq::empty();
    let mut i: usize = 0;
    let mut stopped = false;
    while i < targets.len() && !stopped
        invariant
            all == targets@,
            h == opt_view(home),
            roots@.len() == all.len(),
            texts(roots@) == root_texts(all, h),
            call_requires(*cancel, ()),
            forall|t: &ScanTarget, p: &FsPath, o: &Vec<FsPath>| call_requires(*read, (t, p, o)),
            forall|s: &TargetScan| call_requires(*on_target, (s,)),
            forall|readings: Seq<Option<Present>>| #[trigger]
                readings_of(*read, all, h, readings) ==> report_size(all, h, readings) <= u64::MAX,
            i <= all.len(),
            readings.len() == i,
            scans@.len() == i,
            total == report_size(all, h, readings),
            readings_of(*read, all, h, readings),
            forall|j: int|
                0 <= j < i ==> measured(
                    #[trigger] scans@[j],
                    all[j],
                    root_texts(all, h)[j],
                    readings[j],
                    nested_in(root_texts(all, h), root_texts(all, h)[j]),
                ),
            forall|j: int| 0 <= j < i ==> call_ensures(*on_target, (&#[trigger] scans@[j],), ()),
            stopped ==> call_ensures(*cancel, (), true),
            always(*cancel) ==> i == 0,
        decreases all.len() - i + (if stopped { 0int } else { 1int }),
    {
        if cancel() {
            stopped = true;
        } else {
            let target: &ScanTarget = &targets[i];
            let root: &FsPath = &roots[i];
            assert(root@ == texts(roots@)[i as int]);
            let owned = nested_roots(&roots, root);
            let reading = read(target, root, &owned);
            let ghost next = readings.push(reading);
            proof {
                assert(call_ensures(*read, (&all[i as int], root, &owned), reading));
                assert(reading_of(*read, all, h, i as int, reading));
                assert forall|j: int| 0 <= j < next.len() implies reading_of(*read, all, h, j, #[trigger] next[j]) by {
                    if j < i {
                        assert(next[j] == readings[j]);
                    }
                }
                assert(readings_of(*read, all, h, next));
                assert(next.drop_last() =~= readings);
            }
            let (scan, cut) = measure_target(target, root, &reading, &owned, cancel);
            if cut {
                stopped = true;
            } else if cancel() {
                stopped = true;
            } else {
                total = total + scan.total_bytes;
                on_target(&scan);
                scans.push(scan);
                proof {
                    readings = next;
                }
                i += 1;
            }
        }
    }
    ScanReport { targets: scans, total_bytes: total }
}

/// Scans a list of targets and produces an aggregate report.
pub fn scan_targets<R: Fn(&ScanTarget, &FsPath, &Vec<FsPath>) -> Option<Present>>(
    targets: &Vec<ScanTarget>,
    home: Option<&FsPath>,
    read: &R,
) -> (r: ScanReport)
    requires
        forall|t: &ScanTarget, p: &FsPath, o: &Vec<FsPath>| call_requires(*read, (t, p, o)),
        forall|readings: Seq<Option<Present>>| #[trigger]
            readings_of(*read, targets@, opt_view(home), readings) ==> report_size(targets@, opt_view(home), readings)
                <= u64::MAX,
    ensures
        r.targets@.len() == targets@.len(),
        exists|readings: Seq<Option<Present>>| #[trigger]
            readings_of(*read, targets@, opt_view(home), readings) && reported(
                r,
                targets@,
                opt_view(home),
                readings,
            ),
{
    let cancel = || -> (r: bool)
        ensures
            !r,
        { false };
    let on_target = |_s: &TargetScan| {  };
    scan_targets_with(targets, home, read, &on_target, &cancel)
}

/// A regular file that a walk meets: its path and its length.
pub struct Found {
    pub path: Seq<char>,
    pub size: nat,
}

/// The regular files at and beneath `path`.
pub open spec fn files_below(path: Seq<char>, entry: WalkEntry) -> Seq<Found>
    decreases entry,
{
    match entry {
        WalkEntry::Failed(_) => Seq::empty(),
        WalkEntry::Node(node) => match node.kind {
            FileKind::Dir => files_in(path, node.children@),
            FileKind::File => seq![Found { path, size: len_or_zero(node.len) }],
            _ => Seq::empty(),
        },
    }
}

/// The regular files beneath a directory.
pub open spec fn files_in(path: Seq<char>, children: Seq<WalkEntry>) -> Seq<Found>
    decreases children,
{
    if children.len() == 0 {
        Seq::empty()
    } else {
        files_in(path, children.drop_last()) + files_below(child_path(path, children.last()), children.last())
    }
}

/// Every name beneath this entry is a proper file name.
pub open spec fn properly_named(entry: WalkEntry) -> bool
    decreases entry,
{
    match entry {
        WalkEntry::Failed(_) => true,
        WalkEntry::Node(node) => all_properly_named(node.children@),
    }
}

/// Every name of a listing, and beneath it, is a proper file name.
pub open spec fn all_properly_named(children: Seq<WalkEntry>) -> bool
    decreases children,
{
    children.len() == 0 || {
        &&& all_properly_named(children.drop_last())
        &&& properly_named(children.last())
        &&& children.last() is Node ==> is_name(children.last()->Node_0.name@)
    }
}

/// `path` lies at or beneath one of `places`.
pub open spec fn covered(path: Seq<char>, places: Seq<Seq<char>>) -> bool {
    exists|i: int| 0 <= i < places.len() && under(path, #[trigger] places[i])
}

/// The lengths of the files that none of `places` covers, added up.
pub open spec fn uncovered_size(files: Seq<Found>, places: Seq<Seq<char>>) -> nat
    decreases files.len(),
{
    if files.len() == 0 {
        0
    } else {
        uncovered_size(files.drop_last(), places) + if covered(files.last().path, places) {
            0
        } else {
            files.last().size
        }
    }
}

proof fn lemma_uncovered_size_concat(a: Seq<Found>, b: Seq<Found>, places: Seq<Seq<char>>)
    ensures
        uncovered_size(a + b, places) == uncovered_size(a, places) + uncovered_size(b, places),
    decreases b.len(),
{
    if b.len() == 0 {
        assert(a + b =~= a);
    } else {
        assert((a + b).drop_last() =~= a + b.drop_last());
        lemma_uncovered_size_concat(a, b.drop_last(), places);
    }
}

proof fn lemma_uncovered_size_zero(files: Seq<Found>, places: Seq<Seq<char>>)
    requires
        forall|i: int| 0 <= i < files.len() ==> covered(#[trigger] files[i].path, places),
    ensures
        uncovered_size(files, places) == 0,
    decreases files.len(),
{
    if files.len() > 0 {
        assert(covered(files[files.len() - 1].path, places));
        assert forall|i: int| 0 <= i < files.drop_last().len() implies covered(
            #[trigger] files.drop_last()[i].path,
            places,
        ) by {
            assert(files.drop_last()[i] == files[i]);
        }
        lemma_uncovered_size_zero(files.drop_last(), places);
    }
}

proof fn lemma_child_under(path: Seq<char>, name: Seq<char>)
    requires
        is_name(name),
    ensures
        under(joined(path, name), path),
        !same_path(joined(path, name), path),
        forall|x: Seq<char>| #[trigger]
            under(joined(path, name), x) ==> under(path, x) || same_path(x, joined(path, name)),
{
    lemma_parts_joined_name(path, name);
    let short = parts(path);
    let long = parts(joined(path, name));
    assert(long.subrange(0, short.len() as int) =~= short);
    assert(long.len() != short.len());
    assert forall|x: Seq<char>| #[trigger] under(joined(path, name), x) implies under(path, x) || same_path(
        x,
        joined(path, name),
    ) by {
        let px = parts(x);
        assert(px =~= long.subrange(0, px.len() as int));
        if px.len() == long.len() {
            assert(px =~= long);
        } else {
            assert(px =~= short.subrange(0, px.len() as int));
        }
    }
}

proof fn lemma_files_lie_below(path: Seq<char>, entry: WalkEntry)
    requires
        properly_named(entry),
    ensures
        forall|i: int| 0 <= i < files_below(path, entry).len() ==> under(#[trigger] files_below(path, entry)[i].path, path),
    decreases entry, 0int,
{
    assert(parts(path) =~= parts(path).subrange(0, parts(path).len() as int));
    match entry {
        WalkEntry::Node(node) => match node.kind {
            FileKind::Dir => {
                lemma_files_lie_in(path, node.children@);
                assert(files_below(path, entry) == files_in(path, node.children@));
            },
            FileKind::File => {
                assert(files_below(path, entry)[0].path == path);
            },
            _ => {
                assert(files_below(path, entry).len() == 0);
            },
        },
        WalkEntry::Failed(_) => {
            assert(files_below(path, entry).len() == 0);
        },
    }
}

proof fn lemma_files_lie_in(path: Seq<char>, children: Seq<WalkEntry>)
    requires
        all_properly_named(children),
    ensures
        forall|i: int| 0 <= i < files_in(path, children).len() ==> under(#[trigger] files_in(path, children)[i].path, path),
    decreases children, 1int,
{
    if children.len() > 0 {
        let last = children.last();
        let below = child_path(path, last);
        lemma_files_lie_in(path, children.drop_last());
        lemma_files_lie_below(below, last);
        let front = files_in(path, children.drop_last());
        let back = files_below(below, last);
        assert forall|i: int| 0 <= i < (front + back).len() implies under(#[trigger] (front + back)[i].path, path) by {
            if i < front.len() {
                assert((front + back)[i] == front[i]);
            } else {
                assert((front + back)[i] == back[i - front.len()]);
                let node = last->Node_0;
                lemma_child_under(path, node.name@);
                lemma_under_trans(back[i - front.len()].path, below, path);
            }
        }
    }
}

/// The size of a walk is the sum of the lengths of the files it meets, each
/// counted once, without those at or beneath an excluded place.
pub proof fn size_counts_each_file_once(path: Seq<char>, entry: WalkEntry, excluded: Seq<Seq<char>>)
    requires
        properly_named(entry),
        forall|i: int| 0 <= i < excluded.len() ==> !strictly_under(path, #[trigger] excluded[i]),
    ensures
        entry_size(path, entry, excluded) == uncovered_size(files_below(path, entry), excluded),
    decreases entry, 0int,
{
    lemma_files_lie_below(path, entry);
    let files = files_below(path, entry);
    if let WalkEntry::Node(node) = entry {
        if one_of(path, excluded) {
            let x = choose|i: int| 0 <= i < excluded.len() && same_path(#[trigger] excluded[i], path);
            assert forall|i: int| 0 <= i < files.len() implies covered(#[trigger] files[i].path, excluded) by {
                assert(under(files[i].path, path));
                assert(under(files[i].path, excluded[x]));
            }
            lemma_uncovered_size_zero(files, excluded);
        } else if node.kind == FileKind::Dir {
            size_counts_each_file_in(path, node.children@, excluded);
        } else if node.kind == FileKind::File {
            assert(!covered(path, excluded)) by {
                if covered(path, excluded) {
                    let i = choose|i: int| 0 <= i < excluded.len() && under(path, #[trigger] excluded[i]);
                    assert(!strictly_under(path, excluded[i]));
                    assert(same_path(excluded[i], path));
                }
            }
            reveal_with_fuel(uncovered_size, 2);
            assert(files.drop_last() =~= Seq::<Found>::empty());
        }
    }
}

proof fn size_counts_each_file_in(path: Seq<char>, children: Seq<WalkEntry>, excluded: Seq<Seq<char>>)
    requires
        all_properly_named(children),
        forall|i: int| 0 <= i < excluded.len() ==> !strictly_under(path, #[trigger] excluded[i]),
        !one_of(path, excluded),
    ensures
        children_size(path, children, excluded) == uncovered_size(files_in(path, children), excluded),
    decreases children, 1int,
{
    if children.len() > 0 {
        let last = children.last();
        let below = child_path(path, last);
        size_counts_each_file_in(path, children.drop_last(), excluded);
        if let WalkEntry::Node(node) = last {
            lemma_child_under(path, node.name@);
            assert forall|i: int| 0 <= i < excluded.len() implies !strictly_under(below, #[trigger] excluded[i]) by {
                assert(!strictly_under(path, excluded[i]));
                assert(!same_path(excluded[i], path));
            }
            size_counts_each_file_once(below, last, excluded);
        }
        lemma_uncovered_size_concat(files_in(path, children.drop_last()), files_below(below, last), excluded);
        assert(entry_size(below, last, excluded) == uncovered_size(files_below(below, last), excluded));
        assert(files_in(path, children) == files_in(path, children.drop_last()) + files_below(below, last));
        assert(children_size(path, children, excluded) == children_size(path, children.drop_last(), excluded)
            + entry_size(below, last, excluded));
    }
}

/// The lengths of the files that one of `places` covers, added up.
pub open spec fn covered_size(files: Seq<Found>, places: Seq<Seq<char>>) -> nat
    decreases files.len(),
{
    if files.len() == 0 {
        0
    } else {
        covered_size(files.drop_last(), places) + if covered(files.last().path, places) {
            files.last().size
        } else {
            0
        }
    }
}

proof fn lemma_covered_or_not(files: Seq<Found>, places: Seq<Seq<char>>)
    ensures
        covered_size(files, places) + uncovered_size(files, places) == uncovered_size(files, Seq::empty()),
    decreases files.len(),
{
    if files.len() > 0 {
        assert(!covered(files.last().path, Seq::empty()));
        lemma_covered_or_not(files.drop_last(), places);
    }
}

proof fn lemma_nothing_covered(files: Seq<Found>, places: Seq<Seq<char>>)
    requires
        forall|i: int| 0 <= i < files.len() ==> !covered(#[trigger] files[i].path, places),
    ensures
        covered_size(files, places) == 0,
    decreases files.len(),
{
    if files.len() > 0 {
        assert(!covered(files[files.len() - 1].path, places));
        assert forall|i: int| 0 <= i < files.drop_last().len() implies !covered(
            #[trigger] files.drop_last()[i].path,
            places,
        ) by {
            assert(files.drop_last()[i] == files[i]);
        }
        lemma_nothing_covered(files.drop_last(), places);
    }
}

/// The regular files that sizing a path counts: the path itself where it is
/// one, links followed, and else those that a walk meets.
pub open spec fn counted_files(path: Seq<char>, probe: Probe) -> Seq<Found> {
    if probe.is_file {
        seq![Found { path, size: len_or_zero(probe.len) }]
    } else {
        files_below(path, probe.walk)
    }
}

/// The children of a directory that could be read, each with its path.
pub open spec fn listed_probes(root: Seq<char>, children: Seq<ListedChild>) -> Seq<(Seq<char>, Probe)>
    decreases children.len(),
{
    if children.len() == 0 {
        Seq::empty()
    } else {
        let before = listed_probes(root, children.drop_last());
        match children.last() {
            ListedChild::Failed(_) => before,
            ListedChild::Child(name, probe) => before.push((joined(root, name@), probe)),
        }
    }
}

/// What a target offers for removal when nothing inside it is owned by
/// another, each with its path.
pub open spec fn target_probes(target: ScanTarget, root: Seq<char>, reading: Option<Present>) -> Seq<(Seq<char>, Probe)> {
    match reading {
        None => Seq::empty(),
        Some(present) => match target.scope {
            Scope::Contents => match present.children {
                Ok(children) => listed_probes(root, children@),
                Err(_) => Seq::empty(),
            },
            Scope::Path => seq![(root, present.probe)],
        },
    }
}

/// The item that a path becomes, sized without what is owned.
pub open spec fn sized(id: Seq<char>, found: (Seq<char>, Probe), owned: Seq<Seq<char>>) -> ItemView {
    ItemView {
        target_id: id,
        path: found.0,
        size: probe_size(found.0, found.1, owned),
        is_dir: found.1.is_dir,
    }
}

/// The paths that no other target owns.
pub open spec fn unowned(found: Seq<(Seq<char>, Probe)>, owned: Seq<Seq<char>>) -> Seq<(Seq<char>, Probe)> {
    found.filter(|f: (Seq<char>, Probe)| !one_of(f.0, owned))
}

/// Paths as items.
pub open spec fn all_sized(id: Seq<char>, found: Seq<(Seq<char>, Probe)>, owned: Seq<Seq<char>>) -> Seq<ItemView> {
    found.map_values(|f: (Seq<char>, Probe)| sized(id, f, owned))
}

/// A reading that a filesystem can give: every name in it is a proper file
/// name.
pub open spec fn well_formed(reading: Option<Present>) -> bool {
    reading matches Some(present) ==> {
        &&& properly_named(present.probe.walk)
        &&& present.children matches Ok(children) ==> forall|i: int|
            0 <= i < children@.len() ==> child_is_proper(#[trigger] children@[i])
    }
}

/// A child of a directory has a proper file name, and so has all beneath it.
pub open spec fn child_is_proper(child: ListedChild) -> bool {
    child matches ListedChild::Child(name, probe) ==> is_name(name@) && properly_named(probe.walk)
}

/// An item found at or directly beneath the root of its target.
pub open spec fn well_placed(found: (Seq<char>, Probe), root: Seq<char>) -> bool {
    &&& properly_named(found.1.walk)
    &&& forall|x: Seq<char>| #[trigger] under(found.0, x) ==> under(root, x) || same_path(x, found.0)
}

proof fn lemma_listed(id: Seq<char>, root: Seq<char>, children: Seq<ListedChild>, owned: Seq<Seq<char>>)
    requires
        forall|i: int| 0 <= i < children.len() ==> child_is_proper(#[trigger] children[i]),
    ensures
        contents_items(id, root, children, owned) == all_sized(id, unowned(listed_probes(root, children), owned), owned),
        forall|k: int|
            0 <= k < listed_probes(root, children).len() ==> well_placed(
                #[trigger] listed_probes(root, children)[k],
                root,
            ),
    decreases children.len(),
{
    reveal(Seq::filter);
    if children.len() == 0 {
        assert(contents_items(id, root, children, owned) =~= all_sized(
            id,
            unowned(listed_probes(root, children), owned),
            owned,
        ));
    } else {
        let front = children.drop_last();
        assert forall|i: int| 0 <= i < front.len() implies child_is_proper(#[trigger] front[i]) by {
            assert(front[i] == children[i]);
        }
        lemma_listed(id, root, front, owned);
        assert(child_is_proper(children[children.len() - 1]));
        let before = listed_probes(root, front);
        let all = listed_probes(root, children);
        if let ListedChild::Child(name, probe) = children.last() {
            lemma_child_under(root, name@);
            assert(all.drop_last() =~= before);
            assert(contents_items(id, root, children, owned) =~= all_sized(id, unowned(all, owned), owned));
            assert forall|k: int| 0 <= k < all.len() implies well_placed(#[trigger] all[k], root) by {
                if k < before.len() {
                    assert(all[k] == before[k]);
                }
            }
        }
    }
}

proof fn lemma_reduced(id: Seq<char>, found: (Seq<char>, Probe), root: Seq<char>, owned: Seq<Seq<char>>)
    requires
        well_placed(found, root),
        forall|i: int| 0 <= i < owned.len() ==> strictly_under(#[trigger] owned[i], root),
        !one_of(found.0, owned),
    ensures
        sized(id, found, owned).size + covered_size(counted_files(found.0, found.1), owned) == sized(
            id,
            found,
            Seq::empty(),
        ).size,
        (forall|i: int| 0 <= i < owned.len() ==> !under(#[trigger] owned[i], found.0)) ==> sized(id, found, owned)
            == sized(id, found, Seq::empty()),
{
    let (path, probe) = found;
    let files = counted_files(path, probe);
    let none: Seq<Seq<char>> = Seq::empty();
    assert forall|i: int| 0 <= i < owned.len() implies !under(path, #[trigger] owned[i]) by {
        assert(strictly_under(owned[i], root));
        if under(path, owned[i]) {
            if under(root, owned[i]) {
                lemma_both_ways(root, owned[i]);
            }
            assert(same_path(owned[i], path));
        }
    }
    assert(!covered(path, owned));
    assert(!one_of(path, none));
    lemma_covered_or_not(files, owned);
    if probe.is_file {
        assert(files.drop_last() =~= Seq::<Found>::empty());
        reveal_with_fuel(covered_size, 2);
    } else {
        assert forall|i: int| 0 <= i < owned.len() implies !strictly_under(path, #[trigger] owned[i]) by {
            assert(!under(path, owned[i]));
        }
        size_counts_each_file_once(path, probe.walk, owned);
        size_counts_each_file_once(path, probe.walk, none);
        lemma_files_lie_below(path, probe.walk);
    }
    if forall|i: int| 0 <= i < owned.len() ==> !under(#[trigger] owned[i], path) {
        assert forall|i: int| 0 <= i < files.len() implies !covered(#[trigger] files[i].path, owned) by {
            if covered(files[i].path, owned) {
                let o = choose|o: int| 0 <= o < owned.len() && under(files[i].path, #[trigger] owned[o]);
                assert(under(files[i].path, path)) by {
                    assert(parts(path) =~= parts(path).subrange(0, parts(path).len() as int));
                }
                lemma_one_above_the_other(files[i].path, owned[o], path);
                assert(!under(owned[o], path));
                assert(!under(path, owned[o]));
            }
        }
        lemma_nothing_covered(files, owned);
    }
}

proof fn lemma_both_ways(a: Seq<char>, b: Seq<char>)
    requires
        under(a, b),
        under(b, a),
    ensures
        same_path(a, b),
{
    assert(parts(a) =~= parts(b));
}

proof fn lemma_one_above_the_other(path: Seq<char>, a: Seq<char>, b: Seq<char>)
    requires
        under(path, a),
        under(path, b),
    ensures
        under(a, b) || under(b, a),
{
    let (p, pa, pb) = (parts(path), parts(a), parts(b));
    if pa.len() <= pb.len() {
        assert(pb.subrange(0, pa.len() as int) =~= pa);
    } else {
        assert(pa.subrange(0, pb.len() as int) =~= pb);
    }
}

/// What leaving out the places that other targets own inside a target's root
/// changes, in any reading that a filesystem can give. The items at such a place are gone, and all others are there, in
/// the order they had. An item that holds such places weighs less by exactly
/// the bytes at and beneath them; any other item weighs what it weighed.
pub proof fn leaving_out_what_others_own(
    full: TargetScan,
    left: TargetScan,
    target: ScanTarget,
    root: Seq<char>,
    reading: Option<Present>,
    owned: Seq<Seq<char>>,
)
    requires
        measured(full, target, root, reading, Seq::empty()),
        measured(left, target, root, reading, owned),
        well_formed(reading),
        forall|i: int| 0 <= i < owned.len() ==> strictly_under(#[trigger] owned[i], root),
    ensures
        items_view(full.items@) == all_sized(target.id@, target_probes(target, root, reading), Seq::empty()),
        items_view(left.items@) == all_sized(target.id@, unowned(target_probes(target, root, reading), owned), owned),
        forall|k: int|
            0 <= k < target_probes(target, root, reading).len() ==> reduced_by(
                target.id@,
                #[trigger] target_probes(target, root, reading)[k],
                owned,
            ),
{
    let found = target_probes(target, root, reading);
    let none: Seq<Seq<char>> = Seq::empty();
    reveal(Seq::filter);
    if let Some(present) = reading {
        if let Scope::Contents = target.scope {
            if let Ok(children) = present.children {
                lemma_listed(target.id@, root, children@, none);
                lemma_listed(target.id@, root, children@, owned);
            }
        } else {
            assert(well_placed(found[0], root)) by {
                assert(found[0].0 == root);
            }
            assert(!one_of(root, owned));
            assert(found.drop_last() =~= Seq::empty());
            reveal_with_fuel(Seq::filter, 2);
            assert(unowned(found, owned) =~= found);
            assert(unowned(found, none) =~= found);
        }
    }
    lemma_all_unowned(found);
    assert(items_view(full.items@) =~= all_sized(target.id@, unowned(found, none), none));
    assert(items_view(left.items@) =~= all_sized(target.id@, unowned(found, owned), owned));
    assert forall|k: int| 0 <= k < found.len() implies reduced_by(target.id@, #[trigger] found[k], owned) by {
        assert(well_placed(found[k], root));
        if !one_of(found[k].0, owned) {
            lemma_reduced(target.id@, found[k], root, owned);
        }
    }
}

proof fn lemma_all_unowned(found: Seq<(Seq<char>, Probe)>)
    ensures
        unowned(found, Seq::empty()) == found,
    decreases found.len(),
{
    reveal(Seq::filter);
    if found.len() > 0 {
        lemma_all_unowned(found.drop_last());
        assert(!one_of(found.last().0, Seq::empty()));
        assert(unowned(found, Seq::empty()) =~= found);
    }
}

/// What an item weighs without the places owned elsewhere: less by the bytes
/// of the files they cover, and the same where none of them lies beneath it.
/// An item that is owned elsewhere is none.
pub open spec fn reduced_by(id: Seq<char>, found: (Seq<char>, Probe), owned: Seq<Seq<char>>) -> bool {
    !one_of(found.0, owned) ==> {
        &&& sized(id, found, owned).size + covered_size(counted_files(found.0, found.1), owned) == sized(
            id,
            found,
            Seq::empty(),
        ).size
        &&& (forall|i: int| 0 <= i < owned.len() ==> !under(#[trigger] owned[i], found.0)) ==> sized(id, found, owned)
            == sized(id, found, Seq::empty())
    }
}

/// The target at `i` counts what lies at `path`: it holds it, and no root
/// nested inside its own does.
pub open spec fn counted_by(roots: Seq<Seq<char>>, i: int, path: Seq<char>) -> bool {
    under(path, roots[i]) && !covered(path, nested_in(roots, roots[i]))
}

proof fn lemma_nested_in(roots: Seq<Seq<char>>, root: Seq<char>)
    ensures
        forall|k: int| 0 <= k < roots.len() && strictly_under(#[trigger] roots[k], root) ==> nested_in(roots, root).contains(
            roots[k],
        ),
        forall|k: int|
            0 <= k < nested_in(roots, root).len() ==> strictly_under(#[trigger] nested_in(roots, root)[k], root)
                && roots.contains(nested_in(roots, root)[k]),
{
    let inside = |r: Seq<char>| strictly_under(r, root);
    assert forall|k: int| 0 <= k < roots.len() && strictly_under(#[trigger] roots[k], root) implies nested_in(
        roots,
        root,
    ).contains(roots[k]) by {
        roots.lemma_filter_contains(inside, k);
    }
    assert forall|k: int| 0 <= k < nested_in(roots, root).len() implies strictly_under(
        #[trigger] nested_in(roots, root)[k],
        root,
    ) && roots.contains(nested_in(roots, root)[k]) by {
        roots.lemma_filter_pred(inside, k);
        assert(roots.filter(inside).contains(roots.filter(inside)[k]));
        roots.lemma_filter_contains_rev(inside, roots.filter(inside)[k]);
    }
}

/// No byte is counted twice: when the targets' roots are different places, at
/// most one target counts what lies at a path.
pub proof fn at_most_one_target_counts_a_path(roots: Seq<Seq<char>>, i: int, j: int, path: Seq<char>)
    requires
        0 <= i < roots.len(),
        0 <= j < roots.len(),
        !same_path(roots[i], roots[j]),
    ensures
        !(counted_by(roots, i, path) && counted_by(roots, j, path)),
{
    if counted_by(roots, i, path) && counted_by(roots, j, path) {
        let a = parts(roots[i]);
        let b = parts(roots[j]);
        let p = parts(path);
        assert(a =~= p.subrange(0, a.len() as int));
        assert(b =~= p.subrange(0, b.len() as int));
        let (outer, inner) = if a.len() <= b.len() {
            assert(a =~= b.subrange(0, a.len() as int));
            (i, j)
        } else {
            assert(b =~= a.subrange(0, b.len() as int));
            (j, i)
        };
        assert(strictly_under(roots[inner], roots[outer]));
        lemma_nested_in(roots, roots[outer]);
        let nested = nested_in(roots, roots[outer]);
        let k = choose|k: int| 0 <= k < nested.len() && nested[k] == roots[inner];
        assert(under(path, nested[k]));
    }
}

/// Every byte is counted: what lies beneath some target's root is counted by
/// a target, and by the narrowest one that holds it.
pub proof fn some_target_counts_a_path(roots: Seq<Seq<char>>, i: int, path: Seq<char>) -> (k: int)
    requires
        0 <= i < roots.len(),
        under(path, roots[i]),
    ensures
        0 <= k < roots.len(),
        counted_by(roots, k, path),
        under(roots[k], roots[i]),
    decreases parts(path).len() - parts(roots[i]).len(),
{
    lemma_nested_in(roots, roots[i]);
    if counted_by(roots, i, path) {
        assert(parts(roots[i]) =~= parts(roots[i]).subrange(0, parts(roots[i]).len() as int));
        i
    } else {
        let nested = nested_in(roots, roots[i]);
        let n = choose|n: int| 0 <= n < nested.len() && under(path, #[trigger] nested[n]);
        let j = choose|j: int| 0 <= j < roots.len() && roots[j] == nested[n];
        let outer = parts(roots[i]);
        let inner = parts(roots[j]);
        if inner.len() == outer.len() {
            assert(inner =~= outer);
        }
        let k = some_target_counts_a_path(roots, j, path);
        lemma_under_trans(roots[k], roots[j], roots[i]);
        k
    }
}

/// Every child of a directory that could be read and that no other target
/// owns is an item, with its path, its size and whether it is a folder.
pub proof fn every_child_is_an_item(
    id: Seq<char>,
    root: Seq<char>,
    children: Seq<ListedChild>,
    owned: Seq<Seq<char>>,
    k: int,
    name: String,
    probe: Probe,
)
    requires
        0 <= k < children.len(),
        children[k] == ListedChild::Child(name, probe),
    ensures
        !one_of(joined(root, name@), owned) ==> contents_items(id, root, children, owned).contains(
            ItemView {
                target_id: id,
                path: joined(root, name@),
                size: probe_size(joined(root, name@), probe, owned),
                is_dir: probe.is_dir,
            },
        ),
        contents_items(id, root, children, owned).len() <= children.len(),
    decreases children.len(),
{
    let front = children.drop_last();
    let (before, all) = (contents_items(id, root, front, owned), contents_items(id, root, children, owned));
    let item = ItemView {
        target_id: id,
        path: joined(root, name@),
        size: probe_size(joined(root, name@), probe, owned),
        is_dir: probe.is_dir,
    };
    lemma_few_items(id, root, children, owned);
    if !one_of(joined(root, name@), owned) {
        if k < front.len() {
            assert(front[k] == children[k]);
            every_child_is_an_item(id, root, front, owned, k, name, probe);
            let i = choose|i: int| 0 <= i < before.len() && before[i] == item;
            assert(all[i] == item);
        } else {
            assert(all[all.len() - 1] == item);
        }
    }
}

proof fn lemma_few_items(id: Seq<char>, root: Seq<char>, children: Seq<ListedChild>, owned: Seq<Seq<char>>)
    ensures
        contents_items(id, root, children, owned).len() <= children.len(),
    decreases children.len(),
{
    if children.len() > 0 {
        lemma_few_items(id, root, children.drop_last(), owned);
    }
}

/// A target of one path is one item, at that path; one that is not there has
/// none; and what a target could reclaim is what its items weigh together.
pub proof fn what_a_target_holds(target: ScanTarget, root: Seq<char>, present: Present, owned: Seq<Seq<char>>, items: Seq<ItemView>, item: ItemView)
    ensures
        target_items(target, root, None, owned).len() == 0,
        target.scope == Scope::Path ==> {
            let all = target_items(target, root, Some(present), owned);
            &&& all.len() == 1
            &&& all[0].path == root
            &&& all[0].target_id == target.id@
            &&& all[0].size == probe_size(root, present.probe, owned)
            &&& all[0].is_dir == present.probe.is_dir
        },
        target.scope == Scope::Contents && present.children is Ok ==> target_items(target, root, Some(present), owned)
            == contents_items(target.id@, root, present.children->Ok_0@, owned),
        target.scope == Scope::Contents && present.children is Err ==> target_items(
            target,
            root,
            Some(present),
            owned,
        ).len() == 0 && target_warnings(target, root, Some(present), owned).len() == 1,
        total_size(items.push(item)) == total_size(items) + item.size,
        total_size(Seq::empty()) == 0,
        target_size(target, root, Some(present), owned) == total_size(target_items(target, root, Some(present), owned)),
{
    assert(items.push(item).drop_last() =~= items);
}

/// Of the other roots a target leaves out those inside its own, and only
/// those; it never leaves out its own.
pub proof fn what_a_target_leaves_out(roots: Seq<Seq<char>>, root: Seq<char>, k: int)
    ensures
        0 <= k < roots.len() && under(roots[k], root) && !same_path(roots[k], root) ==> nested_in(roots, root).contains(
            roots[k],
        ),
        forall|i: int|
            0 <= i < nested_in(roots, root).len() ==> under(#[trigger] nested_in(roots, root)[i], root) && !same_path(
                nested_in(roots, root)[i],
                root,
            ) && roots.contains(nested_in(roots, root)[i]),
{
    let inside = |r: Seq<char>| strictly_under(r, root);
    if 0 <= k < roots.len() && under(roots[k], root) && !same_path(roots[k], root) {
        assert(inside(roots[k]));
        roots.lemma_filter_contains(inside, k);
    }
    assert forall|i: int| 0 <= i < nested_in(roots, root).len() implies under(#[trigger] nested_in(roots, root)[i], root)
        && !same_path(nested_in(roots, root)[i], root) && roots.contains(nested_in(roots, root)[i]) by {
        roots.lemma_filter_pred(inside, i);
        assert(roots.filter(inside).contains(roots.filter(inside)[i]));
        roots.lemma_filter_contains_rev(inside, roots.filter(inside)[i]);
    }
}

} // verus!
