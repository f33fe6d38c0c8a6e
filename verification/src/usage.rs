//! Disk-usage trees.
//!
//! One walk produces two things. The [`UsageSnapshot`] is the whole tree,
//! every entry, kept in memory; a [`UsageNode`] is a view onto it, expanded
//! only to a depth and keeping the largest entries per level with the
//! remainder folded into a single "Other" node. Any number of views can be
//! cut from one snapshot without measuring again.
//!
//! Symlinks are never followed: they are zero-size leaves. Neither is any
//! other volume: attached disks appear as zero-byte markers, and the boot
//! volume's data half is entered only through the firmlinks at `/`.

use vstd::prelude::*;

use crate::disk::{len_or_zero, FileKind};
use crate::mounts;
use crate::mounts::{mirrored, relation, Fingerprint, Mirrored, DATA_VOLUME};
use crate::order;
use crate::order::{
    larger_first, lemma_sum_remove, lemma_sum_reordered, lemma_sum_take, ordered, reordered, sum,
};
use crate::paths;
use crate::paths::{joined, last_name, opt_view, parts, parts_view, same_path, Component, FsPath, Part};
use crate::scanner::always;
use crate::text;
use crate::text::{digits, strings};

verus! {

/// One entry beneath the root of a walk, as the filesystem lists it.
#[derive(Debug)]
pub struct DiskNode {
    pub name: String,
    /// What the entry is, without following links.
    pub kind: FileKind,
    /// The length that the metadata gives, where it can be read.
    pub len: Option<u64>,
    /// Whether a filesystem is mounted exactly here.
    pub mounted: bool,
    /// The fingerprint of this directory.
    pub own: Option<Fingerprint>,
    /// The fingerprint of its mirror under `/`, where it has one.
    pub mirror: Option<Fingerprint>,
    /// What listing the directory gave; empty where it could not be read.
    pub children: Vec<DiskNode>,
}

/// The place a walk starts at.
#[derive(Debug)]
pub struct DiskRoot {
    /// Whether the place, its links followed, is a directory.
    pub is_dir: bool,
    /// The length that the metadata gives, links followed.
    pub len: Option<u64>,
    /// What listing the directory gave; empty where it could not be read.
    pub children: Vec<DiskNode>,
}

/// What the walk does with a directory that may be a mount point.
#[derive(Debug, Clone, Copy, PartialEq, Eq, Structural)]
pub enum Crossing {
    /// An ordinary folder on this volume.
    Enter,
    /// The boot volume's data half: from here down each folder is checked
    /// against its mirror.
    EnterDataVolume,
    /// Another volume: recorded as a marker, not measured.
    Skip,
}

/// Whether descending into `path` would leave the volume being measured.
pub open spec fn crosses(path: Seq<char>, mounted: bool) -> Crossing {
    if !mounted {
        Crossing::Enter
    } else if same_path(path, DATA_VOLUME@) {
        Crossing::EnterDataVolume
    } else {
        Crossing::Skip
    }
}

/// Whether descending into `path` would leave the volume being measured.
pub fn crossing(path: &FsPath, mounted: bool) -> (r: Crossing)
    ensures
        r == crosses(path@, mounted),
{
    if !mounted {
        Crossing::Enter
    } else if path.same(&FsPath::new(DATA_VOLUME)) {
        Crossing::EnterDataVolume
    } else {
        Crossing::Skip
    }
}

/// What becomes of a directory that the walk meets.
#[derive(Debug)]
pub enum Plan {
    /// The same folder under a second name: not listed again.
    Drop,
    /// Another volume: a zero-byte marker.
    Marker,
    /// Measured. Holds where the directory also appears under `/`, while that
    /// has to be watched.
    Descend(Option<FsPath>),
}

/// What becomes of a directory, as a mathematical value.
pub enum PlanView {
    Drop,
    Marker,
    Descend(Option<Seq<char>>),
}

impl View for Plan {
    type V = PlanView;

    open spec fn view(&self) -> PlanView {
        match self {
            Plan::Drop => PlanView::Drop,
            Plan::Marker => PlanView::Marker,
            Plan::Descend(mirror) => PlanView::Descend(
                match mirror {
                    Some(m) => Some(m@),
                    None => None,
                },
            ),
        }
    }
}

/// What becomes of the directory `name` in `dir`, where `mirror` is the place
/// at which `dir` also appears under `/`.
pub open spec fn planned(
    dir: Seq<char>,
    name: Seq<char>,
    mirror: Option<Seq<char>>,
    mounted: bool,
    own: Option<Fingerprint>,
    other: Option<Fingerprint>,
) -> PlanView {
    if mirror is Some && relation(own, other) == Mirrored::Same {
        PlanView::Drop
    } else {
        match crosses(joined(dir, name), mounted) {
            Crossing::Skip => PlanView::Marker,
            Crossing::EnterDataVolume => PlanView::Descend(Some("/"@)),
            Crossing::Enter => PlanView::Descend(
                if mirror is Some && relation(own, other) == Mirrored::Different {
                    Some(joined(mirror->0, name))
                } else {
                    None
                },
            ),
        }
    }
}

/// Decides what becomes of the directory `name` in `dir`. Inside the data
/// volume a folder that `/` already led to is dropped; where it is another
/// folder its children may still be mirrored; and once the mirror stops
/// existing, nothing below can be.
pub fn plan(
    dir: &FsPath,
    name: &str,
    mirror: Option<&FsPath>,
    mounted: bool,
    own: Option<Fingerprint>,
    other: Option<Fingerprint>,
) -> (r: Plan)
    ensures
        r@ == planned(dir@, name@, opt_view(mirror), mounted, own, other),
{
    let below = match mirror {
        Some(m) => match mirrored(own, other) {
            Mirrored::Same => {
                return Plan::Drop;
            },
            Mirrored::Different => Some(m.join(name)),
            Mirrored::Absent => None,
        },
        None => None,
    };
    match crossing(&dir.join(name), mounted) {
        Crossing::Skip => Plan::Marker,
        Crossing::EnterDataVolume => Plan::Descend(Some(FsPath::new("/"))),
        Crossing::Enter => Plan::Descend(below),
    }
}

/// One entry of a retained walk.
#[derive(Debug)]
pub struct Entry {
    pub name: String,
    pub size_bytes: u64,
    pub is_dir: bool,
    /// A separate volume, recorded but not walked.
    pub is_mount: bool,
    /// Children, largest first.
    pub children: Vec<Entry>,
}

/// The sizes of a list of entries.
pub open spec fn sizes(entries: Seq<Entry>) -> Seq<u64> {
    entries.map_values(|e: Entry| e.size_bytes)
}

/// The largest first.
pub open spec fn descending(keys: Seq<u64>) -> bool {
    forall|i: int, j: int| 0 <= i < j < keys.len() ==> #[trigger] keys[i] >= #[trigger] keys[j]
}

impl Entry {
    /// A folder weighs what its children add up to, and lists them largest
    /// first; nothing else has children; another volume weighs nothing.
    pub open spec fn well_formed(self) -> bool
        decreases self,
    {
        &&& self.is_dir ==> self.size_bytes == sum(sizes(self.children@))
        &&& !self.is_dir ==> self.children@.len() == 0
        &&& self.is_mount ==> self.size_bytes == 0 && !self.is_dir
        &&& descending(sizes(self.children@))
        &&& forall|i: int| 0 <= i < self.children@.len() ==> (#[trigger] self.children@[i]).well_formed()
    }

    /// This is a leaf of the given size.
    pub open spec fn is_leaf(self, name: Seq<char>, size: nat) -> bool {
        &&& self.name@ == name
        &&& self.size_bytes == size
        &&& !self.is_dir
        &&& !self.is_mount
        &&& self.children@.len() == 0
    }

    /// This marks another volume.
    pub open spec fn is_marker(self, name: Seq<char>) -> bool {
        &&& self.name@ == name
        &&& self.size_bytes == 0
        &&& !self.is_dir
        &&& self.is_mount
        &&& self.children@.len() == 0
    }

    /// A leaf.
    pub fn leaf(name: String, size_bytes: u64, is_dir: bool) -> (r: Self)
        ensures
            r.name == name,
            r.size_bytes == size_bytes,
            r.is_dir == is_dir,
            !r.is_mount,
            r.children@.len() == 0,
    {
        Entry { name, size_bytes, is_dir, is_mount: false, children: Vec::new() }
    }

    /// A volume the walk stopped at. Zero bytes because its contents belong
    /// to another disk's total, and not a folder because nothing was measured
    /// inside it.
    pub fn mount(name: String) -> (r: Self)
        ensures
            r.is_marker(name@),
            r.well_formed(),
    {
        Entry { name, size_bytes: 0, is_dir: false, is_mount: true, children: Vec::new() }
    }
}

/// What the entry `node` of the directory `dir` weighs.
pub open spec fn kid_size(dir: Seq<char>, node: DiskNode, mirror: Option<Seq<char>>) -> nat
    decreases node,
{
    match node.kind {
        FileKind::Symlink => 0,
        FileKind::Dir => match planned(dir, node.name@, mirror, node.mounted, node.own, node.mirror) {
            PlanView::Descend(below) => kids_size(joined(dir, node.name@), node.children@, below),
            _ => 0,
        },
        _ => len_or_zero(node.len),
    }
}

/// What the entries of the directory `dir` weigh.
pub open spec fn kids_size(dir: Seq<char>, nodes: Seq<DiskNode>, mirror: Option<Seq<char>>) -> nat
    decreases nodes,
{
    if nodes.len() == 0 {
        0
    } else {
        kids_size(dir, nodes.drop_last(), mirror) + kid_size(dir, nodes.last(), mirror)
    }
}

/// How many directories are entered at and beneath the entry `node` of `dir`.
pub open spec fn kid_dirs(dir: Seq<char>, node: DiskNode, mirror: Option<Seq<char>>) -> nat
    decreases node,
{
    match node.kind {
        FileKind::Dir => match planned(dir, node.name@, mirror, node.mounted, node.own, node.mirror) {
            PlanView::Descend(below) => 1 + kids_dirs(joined(dir, node.name@), node.children@, below),
            _ => 0,
        },
        _ => 0,
    }
}

/// How many directories are entered beneath `dir`.
pub open spec fn kids_dirs(dir: Seq<char>, nodes: Seq<DiskNode>, mirror: Option<Seq<char>>) -> nat
    decreases nodes,
{
    if nodes.len() == 0 {
        0
    } else {
        kids_dirs(dir, nodes.drop_last(), mirror) + kid_dirs(dir, nodes.last(), mirror)
    }
}

/// The entry `node` of the directory `dir` is not listed.
pub open spec fn dropped(dir: Seq<char>, node: DiskNode, mirror: Option<Seq<char>>) -> bool {
    node.kind == FileKind::Dir && planned(dir, node.name@, mirror, node.mounted, node.own, node.mirror) is Drop
}

/// `entry` is what the walk keeps of the entry `node` of the directory `dir`.
pub open spec fn kid_built(entry: Entry, dir: Seq<char>, node: DiskNode, mirror: Option<Seq<char>>) -> bool
    decreases node, 2int,
{
    match node.kind {
        FileKind::Symlink => entry.is_leaf(node.name@, 0),
        FileKind::Dir => match planned(dir, node.name@, mirror, node.mounted, node.own, node.mirror) {
            PlanView::Drop => false,
            PlanView::Marker => entry.is_marker(node.name@),
            PlanView::Descend(below) => entry.name@ == node.name@ && dir_built(
                entry,
                joined(dir, node.name@),
                node.children@,
                below,
            ),
        },
        _ => entry.is_leaf(node.name@, len_or_zero(node.len)),
    }
}

/// `entry` is what the walk keeps of a directory at `path` that lists `nodes`:
/// what it keeps of each, the largest first.
pub open spec fn dir_built(entry: Entry, path: Seq<char>, nodes: Seq<DiskNode>, mirror: Option<Seq<char>>) -> bool
    decreases nodes, 1int,
{
    &&& entry.is_dir
    &&& !entry.is_mount
    &&& entry.size_bytes == sum(sizes(entry.children@))
    &&& exists|kids: Seq<Entry>, order: Seq<usize>|
        {
            &&& kids_built(kids, path, nodes, mirror)
            &&& ordered(order, 0, kids.len() as int, larger_first(sizes(kids)))
            &&& entry.children@ == #[trigger] reordered(kids, order)
        }
}

/// `kids` are what the walk keeps of the entries of the directory `dir`, in
/// the order in which they are listed.
pub open spec fn kids_built(kids: Seq<Entry>, dir: Seq<char>, nodes: Seq<DiskNode>, mirror: Option<Seq<char>>) -> bool
    decreases nodes, 0int,
{
    if nodes.len() == 0 {
        kids.len() == 0
    } else if dropped(dir, nodes.last(), mirror) {
        kids_built(kids, dir, nodes.drop_last(), mirror)
    } else {
        &&& kids.len() > 0
        &&& kids_built(kids.drop_last(), dir, nodes.drop_last(), mirror)
        &&& kid_built(kids.last(), dir, nodes.last(), mirror)
    }
}

/// No two entries of a directory have one name, at any depth.
pub open spec fn distinct_names(nodes: Seq<DiskNode>) -> bool
    decreases nodes,
{
    &&& forall|i: int, j: int|
        0 <= i < j < nodes.len() ==> (#[trigger] nodes[i]).name@ != (#[trigger] nodes[j]).name@
    &&& forall|i: int| 0 <= i < nodes.len() ==> distinct_names((#[trigger] nodes[i]).children@)
}

/// One of the nodes is called what the entry is called.
pub open spec fn names_one_of(entry: Entry, nodes: Seq<DiskNode>) -> bool {
    exists|m: int| 0 <= m < nodes.len() && (#[trigger] nodes[m]).name@ == entry.name@
}

/// No two entries beside each other have one name, at any depth.
pub open spec fn distinct_entries(entries: Seq<Entry>) -> bool
    decreases entries,
{
    &&& forall|i: int, j: int|
        0 <= i < j < entries.len() ==> (#[trigger] entries[i]).name@ != (#[trigger] entries[j]).name@
    &&& forall|i: int| 0 <= i < entries.len() ==> distinct_entries((#[trigger] entries[i]).children@)
}

/// What the walk keeps of an entry is well formed, and weighs what the entry
/// weighs.
pub proof fn lemma_kid_built(entry: Entry, dir: Seq<char>, node: DiskNode, mirror: Option<Seq<char>>)
    requires
        kid_built(entry, dir, node, mirror),
    ensures
        entry.well_formed(),
        entry.size_bytes == kid_size(dir, node, mirror),
    decreases node, 2int,
{
    if node.kind == FileKind::Dir {
        match planned(dir, node.name@, mirror, node.mounted, node.own, node.mirror) {
            PlanView::Descend(below) => {
                lemma_dir_built(entry, joined(dir, node.name@), node.children@, below);
            },
            _ => {},
        }
    }
}

/// What the walk keeps of a directory is well formed, and weighs what its
/// entries weigh: sizes roll up.
pub proof fn lemma_dir_built(entry: Entry, path: Seq<char>, nodes: Seq<DiskNode>, mirror: Option<Seq<char>>)
    requires
        dir_built(entry, path, nodes, mirror),
    ensures
        entry.well_formed(),
        entry.size_bytes == kids_size(path, nodes, mirror),
    decreases nodes, 1int,
{
    let (kids, order) = choose|kids: Seq<Entry>, order: Seq<usize>|
        {
            &&& kids_built(kids, path, nodes, mirror)
            &&& ordered(order, 0, kids.len() as int, larger_first(sizes(kids)))
            &&& entry.children@ == #[trigger] reordered(kids, order)
        };
    lemma_kids_built(kids, path, nodes, mirror);
    let keys = sizes(kids);
    assert(sizes(entry.children@) =~= reordered(keys, order));
    assert(entry.children@.len() == kids.len());
    assert(entry.children.len() <= usize::MAX);
    lemma_sum_reordered(keys, order, larger_first(keys));
    assert forall|i: int, j: int| 0 <= i < j < order.len() implies #[trigger] sizes(entry.children@)[i]
        >= #[trigger] sizes(entry.children@)[j] by {
        assert(larger_first(keys)(order[i] as int, order[j] as int));
    }
    assert forall|i: int| 0 <= i < entry.children@.len() implies (#[trigger] entry.children@[i]).well_formed() by {
        assert(entry.children@[i] == kids[order[i] as int]);
    }
}

/// The same of a list of entries.
pub proof fn lemma_kids_built(kids: Seq<Entry>, dir: Seq<char>, nodes: Seq<DiskNode>, mirror: Option<Seq<char>>)
    requires
        kids_built(kids, dir, nodes, mirror),
    ensures
        forall|i: int| 0 <= i < kids.len() ==> (#[trigger] kids[i]).well_formed(),
        sum(sizes(kids)) == kids_size(dir, nodes, mirror),
        kids.len() <= nodes.len(),
    decreases nodes, 0int,
{
    if nodes.len() == 0 {
        assert(sizes(kids) =~= Seq::<u64>::empty());
    } else if dropped(dir, nodes.last(), mirror) {
        lemma_kids_built(kids, dir, nodes.drop_last(), mirror);
        assert(kid_size(dir, nodes.last(), mirror) == 0);
    } else {
        lemma_kids_built(kids.drop_last(), dir, nodes.drop_last(), mirror);
        lemma_kid_built(kids.last(), dir, nodes.last(), mirror);
        assert(sizes(kids).drop_last() =~= sizes(kids.drop_last()));
        assert forall|i: int| 0 <= i < kids.len() implies (#[trigger] kids[i]).well_formed() by {
            if i < kids.len() - 1 {
                assert(kids[i] == kids.drop_last()[i]);
            }
        }
    }
}

/// How far along a running walk is.
#[derive(Debug, Clone, Copy)]
pub struct UsageProgress {
    /// Directories entered so far.
    pub dirs_scanned: u64,
    /// Bytes summed so far.
    pub bytes_seen: u64,
}

/// Two to the sixty-fourth: where a counter starts again at zero.
pub open spec fn counter() -> int {
    0x1_0000_0000_0000_0000
}

/// The counters of one walk.
#[derive(Debug)]
pub struct Walk {
    pub dirs: u64,
    pub bytes: u64,
}

impl Walk {
    /// Counts a directory, reporting progress every so often.
    pub fn enter_dir<P: Fn(UsageProgress)>(&mut self, on_progress: &P)
        requires
            forall|p: UsageProgress| call_requires(*on_progress, (p,)),
        ensures
            final(self).dirs == (old(self).dirs + 1) % counter(),
            final(self).bytes == old(self).bytes,
            final(self).dirs % 256 == 0 ==> exists|p: UsageProgress|
                {
                    &&& #[trigger] call_ensures(*on_progress, (p,), ())
                    &&& p.dirs_scanned == final(self).dirs
                    &&& p.bytes_seen == final(self).bytes
                },
    {
        self.dirs = self.dirs.wrapping_add(1);
        if self.dirs % 256 == 0 {
            let now = self.progress();
            on_progress(now);
            assert(call_ensures(*on_progress, (now,), ()));
        }
    }

    /// Counts the bytes of a file.
    pub fn add_bytes(&mut self, n: u64)
        requires
            old(self).bytes + n <= u64::MAX,
        ensures
            final(self).bytes == old(self).bytes + n,
            final(self).dirs == old(self).dirs,
    {
        self.bytes = self.bytes + n;
    }

    /// How far along the walk is.
    pub fn progress(&self) -> (r: UsageProgress)
        ensures
            r.dirs_scanned == self.dirs,
            r.bytes_seen == self.bytes,
    {
        UsageProgress { dirs_scanned: self.dirs, bytes_seen: self.bytes }
    }
}

proof fn lemma_counter(a: int, x: int, y: int)
    requires
        0 <= a,
        0 <= x,
        0 <= y,
    ensures
        ((a + x) % counter() + y) % counter() == (a + x + y) % counter(),
{
    vstd::arithmetic::div_mod::lemma_add_mod_noop(a + x, y, counter());
    vstd::arithmetic::div_mod::lemma_add_mod_noop((a + x) % counter(), y, counter());
    vstd::arithmetic::div_mod::lemma_mod_twice(a + x, counter());
}

proof fn lemma_kids_prefix(dir: Seq<char>, nodes: Seq<DiskNode>, mirror: Option<Seq<char>>, i: int)
    requires
        0 <= i < nodes.len(),
    ensures
        kids_size(dir, nodes.take(i + 1), mirror) == kids_size(dir, nodes.take(i), mirror) + kid_size(
            dir,
            nodes[i],
            mirror,
        ),
        kids_dirs(dir, nodes.take(i + 1), mirror) == kids_dirs(dir, nodes.take(i), mirror) + kid_dirs(
            dir,
            nodes[i],
            mirror,
        ),
        kids_size(dir, nodes.take(i + 1), mirror) <= kids_size(dir, nodes, mirror),
    decreases nodes.len() - i,
{
    assert(nodes.take(i + 1).drop_last() =~= nodes.take(i));
    if i + 1 < nodes.len() {
        lemma_kids_prefix(dir, nodes, mirror, i + 1);
    } else {
        assert(nodes.take(i + 1) =~= nodes);
    }
}

/// What became of an entry: dropped, kept, or left because the walk was
/// stopped.
enum Built {
    Dropped,
    Kept(Entry),
    Stopped,
}

/// Measures one entry of the directory `dir` and everything under it.
fn build_kid<P: Fn(UsageProgress), C: Fn() -> bool>(
    dir: &FsPath,
    node: &DiskNode,
    mirror: Option<&FsPath>,
    walk: &mut Walk,
    on_progress: &P,
    cancel: &C,
) -> (r: Built)
    requires
        forall|p: UsageProgress| call_requires(*on_progress, (p,)),
        call_requires(*cancel, ()),
        old(walk).bytes + kid_size(dir@, *node, opt_view(mirror)) <= u64::MAX,
    ensures
        match r {
            Built::Dropped => dropped(dir@, *node, opt_view(mirror)),
            Built::Kept(entry) => !dropped(dir@, *node, opt_view(mirror)) && kid_built(
                entry,
                dir@,
                *node,
                opt_view(mirror),
            ),
            Built::Stopped => call_ensures(*cancel, (), true),
        },
        r !is Stopped ==> final(walk).bytes == old(walk).bytes + kid_size(dir@, *node, opt_view(mirror)),
        r !is Stopped ==> final(walk).dirs == (old(walk).dirs + kid_dirs(dir@, *node, opt_view(mirror)))
            % counter(),
    decreases node, 1int,
{
    match node.kind {
        FileKind::Symlink => Built::Kept(Entry::leaf(node.name.clone(), 0, false)),
        FileKind::Dir => match plan(dir, node.name.as_str(), mirror, node.mounted, node.own, node.mirror) {
            Plan::Drop => Built::Dropped,
            Plan::Marker => Built::Kept(Entry::mount(node.name.clone())),
            Plan::Descend(below) => {
                let path = dir.join(node.name.as_str());
                match build_dir(
                    &path,
                    node.name.clone(),
                    &node.children,
                    below.as_ref(),
                    walk,
                    on_progress,
                    cancel,
                ) {
                    Some(entry) => Built::Kept(entry),
                    None => Built::Stopped,
                }
            },
        },
        _ => {
            if cancel() {
                return Built::Stopped;
            }
            let size: u64 = match node.len {
                Some(n) => n,
                None => 0,
            };
            walk.add_bytes(size);
            Built::Kept(Entry::leaf(node.name.clone(), size, false))
        },
    }
}

/// Measures a directory and everything under it: what it lists, the largest
/// first. Gives nothing when the walk was stopped.
fn build_dir<P: Fn(UsageProgress), C: Fn() -> bool>(
    path: &FsPath,
    name: String,
    nodes: &Vec<DiskNode>,
    mirror: Option<&FsPath>,
    walk: &mut Walk,
    on_progress: &P,
    cancel: &C,
) -> (r: Option<Entry>)
    requires
        forall|p: UsageProgress| call_requires(*on_progress, (p,)),
        call_requires(*cancel, ()),
        old(walk).bytes + kids_size(path@, nodes@, opt_view(mirror)) <= u64::MAX,
    ensures
        match r {
            Some(entry) => entry.name == name && dir_built(entry, path@, nodes@, opt_view(mirror)),
            None => call_ensures(*cancel, (), true),
        },
        always(*cancel) ==> r is None,
        r is Some ==> final(walk).bytes == old(walk).bytes + kids_size(path@, nodes@, opt_view(mirror)),
        r is Some ==> final(walk).dirs == (old(walk).dirs + 1 + kids_dirs(path@, nodes@, opt_view(mirror)))
            % counter(),
    decreases nodes, 0int,
{
    let ghost all = nodes@;
    let ghost m = opt_view(mirror);
    let ghost start = *walk;
    if cancel() {
        return None;
    }
    walk.enter_dir(on_progress);
    let mut kids: Vec<Entry> = Vec::new();
    let mut keys: Vec<u64> = Vec::new();
    let mut i: usize = 0;
    assert(keys@ =~= sizes(kids@));
    while i < nodes.len()
        invariant
            forall|p: UsageProgress| call_requires(*on_progress, (p,)),
            call_requires(*cancel, ()),
            all == nodes@,
            m == opt_view(mirror),
            i <= all.len(),
            start.bytes + kids_size(path@, all, m) <= u64::MAX,
            walk.bytes == start.bytes + kids_size(path@, all.take(i as int), m),
            walk.dirs == (start.dirs + 1 + kids_dirs(path@, all.take(i as int), m)) % counter(),
            kids_built(kids@, path@, all.take(i as int), m),
            keys@ == sizes(kids@),
        decreases all.len() - i,
    {
        proof {
            lemma_kids_prefix(path@, all, m, i as int);
            assert(all.take(i + 1).drop_last() =~= all.take(i as int));
            lemma_counter(
                start.dirs + 1,
                kids_dirs(path@, all.take(i as int), m) as int,
                kid_dirs(path@, all[i as int], m) as int,
            );
            assert(decreases_to!(nodes => nodes@));
            assert(decreases_to!(nodes@ => nodes@[i as int]));
        }
        let ghost before = kids@;
        match build_kid(path, &nodes[i], mirror, walk, on_progress, cancel) {
            Built::Dropped => {},
            Built::Kept(entry) => {
                keys.push(entry.size_bytes);
                kids.push(entry);
                assert(kids@.drop_last() =~= before);
                assert(keys@ =~= sizes(kids@));
            },
            Built::Stopped => {
                return None;
            },
        }
        i += 1;
    }
    assert(all.take(i as int) =~= all);
    let ghost listed = kids@;
    let order = order::order_larger_first(&keys);
    proof {
        lemma_kids_built(listed, path@, all, m);
        lemma_sum_reordered(keys@, order@, larger_first(keys@));
        order::lemma_ordered_distinct(order@, keys@.len() as int, larger_first(keys@));
    }
    let children = order::reorder(kids, &order);
    assert(sizes(children@) =~= reordered(keys@, order@));
    let size: u64 = total(&children);
    Some(Entry { name, size_bytes: size, is_dir: true, is_mount: false, children })
}

proof fn lemma_distinct_kid(entry: Entry, dir: Seq<char>, node: DiskNode, mirror: Option<Seq<char>>)
    requires
        kid_built(entry, dir, node, mirror),
        distinct_names(node.children@),
    ensures
        entry.name@ == node.name@,
        distinct_entries(entry.children@),
    decreases node, 2int,
{
    if node.kind == FileKind::Dir {
        match planned(dir, node.name@, mirror, node.mounted, node.own, node.mirror) {
            PlanView::Descend(below) => {
                distinct_names_stay_distinct(entry, joined(dir, node.name@), node.children@, below);
            },
            _ => {},
        }
    }
}

/// Where no directory lists a name twice, no folder of the tree holds one
/// twice.
pub proof fn distinct_names_stay_distinct(entry: Entry, path: Seq<char>, nodes: Seq<DiskNode>, mirror: Option<Seq<char>>)
    requires
        dir_built(entry, path, nodes, mirror),
        distinct_names(nodes),
    ensures
        distinct_entries(entry.children@),
    decreases nodes, 1int,
{
    let (kids, order) = choose|kids: Seq<Entry>, order: Seq<usize>|
        {
            &&& kids_built(kids, path, nodes, mirror)
            &&& ordered(order, 0, kids.len() as int, larger_first(sizes(kids)))
            &&& entry.children@ == #[trigger] reordered(kids, order)
        };
    lemma_distinct_kids(kids, path, nodes, mirror);
    let listed = entry.children@;
    assert(listed.len() == kids.len());
    assert(entry.children.len() <= usize::MAX);
    order::lemma_ordered_distinct(order, kids.len() as int, larger_first(sizes(kids)));
    assert forall|i: int, j: int| 0 <= i < j < listed.len() implies (#[trigger] listed[i]).name@ != (
    #[trigger] listed[j]).name@ by {
        let (a, b) = (order[i] as int, order[j] as int);
        assert(listed[i] == kids[a] && listed[j] == kids[b]);
        if a < b {
            assert(kids[a].name@ != kids[b].name@);
        } else {
            assert(kids[b].name@ != kids[a].name@);
        }
    }
    assert forall|i: int| 0 <= i < listed.len() implies distinct_entries((#[trigger] listed[i]).children@) by {
        assert(listed[i] == kids[order[i] as int]);
    }
}

proof fn lemma_distinct_kids(kids: Seq<Entry>, dir: Seq<char>, nodes: Seq<DiskNode>, mirror: Option<Seq<char>>)
    requires
        kids_built(kids, dir, nodes, mirror),
        distinct_names(nodes),
    ensures
        distinct_entries(kids),
        forall|k: int| 0 <= k < kids.len() ==> names_one_of(#[trigger] kids[k], nodes),
    decreases nodes, 0int,
{
    if nodes.len() > 0 {
        let front = nodes.drop_last();
        assert(distinct_names(front));
        let held = if dropped(dir, nodes.last(), mirror) {
            kids
        } else {
            kids.drop_last()
        };
        lemma_distinct_kids(held, dir, front, mirror);
        assert forall|k: int| 0 <= k < held.len() implies names_one_of(#[trigger] kids[k], nodes) by {
            assert(held[k] == kids[k]);
            let m = choose|m: int| 0 <= m < front.len() && (#[trigger] front[m]).name@ == kids[k].name@;
            assert(nodes[m].name@ == kids[k].name@);
        }
        if !dropped(dir, nodes.last(), mirror) {
            let n = nodes.len() - 1;
            assert(distinct_names(nodes[n].children@));
            lemma_distinct_kid(kids.last(), dir, nodes.last(), mirror);
            assert(nodes[n].name@ == kids.last().name@);
            assert forall|i: int, j: int| 0 <= i < j < kids.len() implies (#[trigger] kids[i]).name@ != (
            #[trigger] kids[j]).name@ by {
                assert(held[i] == kids[i]);
                if j < held.len() {
                    assert(held[j] == kids[j]);
                } else {
                    assert(names_one_of(held[i], front));
                    let m = choose|m: int| 0 <= m < front.len() && (#[trigger] front[m]).name@ == kids[i].name@;
                    assert(nodes[m].name@ != nodes[n].name@);
                }
            }
            assert forall|i: int| 0 <= i < kids.len() implies distinct_entries((#[trigger] kids[i]).children@) by {
                if i < held.len() {
                    assert(held[i] == kids[i]);
                }
            }
        }
    }
}

/// The sizes of a list of entries, added up.
fn total(entries: &Vec<Entry>) -> (r: u64)
    requires
        sum(sizes(entries@)) <= u64::MAX,
    ensures
        r == sum(sizes(entries@)),
{
    let mut r: u64 = 0;
    let mut i: usize = 0;
    while i < entries.len()
        invariant
            i <= entries@.len(),
            sum(sizes(entries@)) <= u64::MAX,
            r == sum(sizes(entries@).take(i as int)),
        decreases entries@.len() - i,
    {
        proof {
            lemma_sum_take(sizes(entries@), i as int);
            lemma_sum_take(sizes(entries@), i + 1);
        }
        r = r + entries[i].size_bytes;
        i += 1;
    }
    assert(sizes(entries@).take(i as int) =~= sizes(entries@));
    r
}

/// A complete walk, kept so that it can be browsed without measuring again.
#[derive(Debug)]
pub struct UsageSnapshot {
    root: FsPath,
    entry: Entry,
}

/// `entry` is what the walk keeps of the place it starts at.
pub open spec fn root_built(entry: Entry, root: Seq<char>, disk: DiskRoot) -> bool {
    if disk.is_dir {
        entry.name@ == root_name(root) && dir_built(entry, root, disk.children@, None)
    } else {
        entry.is_leaf(root_name(root), len_or_zero(disk.len))
    }
}

/// What the place a walk starts at weighs.
pub open spec fn root_size(root: Seq<char>, disk: DiskRoot) -> nat {
    if disk.is_dir {
        kids_size(root, disk.children@, None)
    } else {
        len_or_zero(disk.len)
    }
}

/// How many directories a walk enters.
pub open spec fn root_dirs(root: Seq<char>, disk: DiskRoot) -> nat {
    if disk.is_dir {
        1 + kids_dirs(root, disk.children@, None)
    } else {
        0
    }
}

/// What a path is called: its last name, or its text where it has none.
pub open spec fn root_name(path: Seq<char>) -> Seq<char> {
    match last_name(path) {
        Some(name) => name,
        None => path,
    }
}

/// What a path is called.
pub fn node_name(path: &FsPath) -> (r: String)
    ensures
        r@ == root_name(path@),
{
    match path.file_name() {
        Some(name) => name,
        None => path.text.clone(),
    }
}

/// What the walk recorded about one path.
#[derive(Debug, Clone, Copy)]
pub struct UsageInfo {
    pub size_bytes: u64,
    pub is_dir: bool,
}

/// How a view is bounded.
#[derive(Debug, Clone, Copy)]
pub struct UsageOptions {
    /// Maximum directory depth to expand (root is depth 0).
    pub max_depth: usize,
    /// Maximum real children to keep per level before folding into "Other".
    pub max_children: usize,
}

impl Default for UsageOptions {
    fn default() -> (r: Self)
        ensures
            r.max_depth == 4,
            r.max_children == 20,
    {
        UsageOptions { max_depth: 4, max_children: 20 }
    }
}

/// The position of the first entry called `name`, or the number of entries.
pub open spec fn position_of(entries: Seq<Entry>, name: Seq<char>) -> nat
    decreases entries.len(),
{
    if entries.len() == 0 || entries[0].name@ == name {
        0
    } else {
        1 + position_of(entries.drop_first(), name)
    }
}

pub proof fn lemma_position(entries: Seq<Entry>, name: Seq<char>)
    requires
        position_of(entries, name) < entries.len(),
    ensures
        entries[position_of(entries, name) as int].name@ == name,
    decreases entries.len(),
{
    if entries[0].name@ != name {
        lemma_position(entries.drop_first(), name);
    }
}

proof fn lemma_no_position(entries: Seq<Entry>, name: Seq<char>)
    requires
        forall|i: int| 0 <= i < entries.len() ==> (#[trigger] entries[i]).name@ != name,
    ensures
        position_of(entries, name) == entries.len(),
    decreases entries.len(),
{
    if entries.len() > 0 {
        let rest = entries.drop_first();
        assert forall|i: int| 0 <= i < rest.len() implies (#[trigger] rest[i]).name@ != name by {
            assert(rest[i] == entries[i + 1]);
        }
        assert(entries[0].name@ != name);
        lemma_no_position(rest, name);
    }
}

proof fn lemma_only_position(entries: Seq<Entry>, name: Seq<char>, at: int)
    requires
        0 <= at < entries.len(),
        entries[at].name@ == name,
        forall|i: int| 0 <= i < entries.len() && i != at ==> (#[trigger] entries[i]).name@ != name,
    ensures
        position_of(entries, name) == at,
    decreases at,
{
    if at > 0 {
        let rest = entries.drop_first();
        assert(entries[0].name@ != name);
        assert forall|i: int| 0 <= i < rest.len() && i != at - 1 implies (#[trigger] rest[i]).name@ != name by {
            assert(rest[i] == entries[i + 1]);
        }
        lemma_only_position(rest, name, at - 1);
    }
}

/// The entry that a list of components leads to. A `.` leads nowhere else; a
/// component that is no name leads nowhere.
pub open spec fn entry_along(entry: Entry, way: Seq<Part>) -> Option<Entry>
    decreases way.len(),
{
    if way.len() == 0 {
        Some(entry)
    } else {
        match way[0] {
            Part::Current => entry_along(entry, way.drop_first()),
            Part::Name(name) => {
                let at = position_of(entry.children@, name);
                if at < entry.children@.len() {
                    entry_along(entry.children@[at as int], way.drop_first())
                } else {
                    None
                }
            },
            _ => None,
        }
    }
}

/// The components that lead from `root` to `path`, where it lies beneath.
pub open spec fn way_from(root: Seq<char>, path: Seq<char>) -> Option<Seq<Part>> {
    if paths::under(path, root) {
        Some(parts(path).skip(parts(root).len() as int))
    } else {
        None
    }
}

/// The first position of an entry called `name`.
fn find_named(entries: &Vec<Entry>, name: &String) -> (r: usize)
    ensures
        r == position_of(entries@, name@),
        r <= entries@.len(),
        r < entries@.len() ==> entries@[r as int].name@ == name@,
{
    let mut i: usize = 0;
    assert(entries@.skip(0) =~= entries@);
    while i < entries.len()
        invariant
            i <= entries@.len(),
            position_of(entries@, name@) == i + position_of(entries@.skip(i as int), name@),
        decreases entries@.len() - i,
    {
        if entries[i].name == *name {
            return i;
        }
        assert(entries@.skip(i as int).drop_first() =~= entries@.skip(i + 1));
        i += 1;
    }
    i
}

/// The components that lead from `root` to `path`.
fn steps_from(root: &FsPath, path: &FsPath) -> (r: Option<Vec<Component>>)
    ensures
        match r {
            Some(steps) => way_from(root@, path@) == Some(parts_view(steps@)),
            None => way_from(root@, path@) is None,
        },
{
    let base = root.components();
    let mut whole = path.components();
    if !paths::is_prefix(&base, &whole) {
        return None;
    }
    assert(parts_view(base@).len() == base@.len());
    assert(parts_view(whole@).len() == whole@.len());
    let ghost before = whole@;
    let steps = whole.split_off(base.len());
    assert(parts_view(steps@) =~= parts_view(before).skip(base@.len() as int));
    Some(steps)
}

impl UsageSnapshot {
    /// The whole tree.
    pub closed spec fn tree(&self) -> Entry {
        self.entry
    }

    /// The folder this walk covers.
    pub closed spec fn covers(&self) -> Seq<char> {
        self.root@
    }

    /// The tree is well formed.
    pub open spec fn inv(&self) -> bool {
        self.tree().well_formed()
    }

    /// The entry that the walk holds for `path`.
    pub open spec fn entry_for(&self, path: Seq<char>) -> Option<Entry> {
        match way_from(self.covers(), path) {
            Some(way) => entry_along(self.tree(), way),
            None => None,
        }
    }

    /// The folder this walk covers.
    pub fn root(&self) -> (r: &FsPath)
        ensures
            r@ == self.covers(),
    {
        &self.root
    }

    /// The entry for a path, found by descending name by name.
    fn entry_at(&self, path: &FsPath) -> (r: Option<&Entry>)
        ensures
            match r {
                Some(entry) => self.entry_for(path@) == Some(*entry),
                None => self.entry_for(path@) is None,
            },
    {
        let steps = match steps_from(&self.root, path) {
            Some(steps) => steps,
            None => {
                return None;
            },
        };
        let ghost way = parts_view(steps@);
        let mut entry: &Entry = &self.entry;
        let mut i: usize = 0;
        assert(way.skip(0) =~= way);
        while i < steps.len()
            invariant
                way == parts_view(steps@),
                way_from(self.covers(), path@) == Some(way),
                i <= steps@.len(),
                entry_along(self.tree(), way) == entry_along(*entry, way.skip(i as int)),
            decreases steps@.len() - i,
        {
            assert(way.skip(i as int)[0] == steps@[i as int]@);
            assert(way.skip(i as int).drop_first() =~= way.skip(i + 1));
            match &steps[i] {
                Component::CurDir => {},
                Component::Normal(name) => {
                    let at: usize = find_named(&entry.children, name);
                    if at >= entry.children.len() {
                        return None;
                    }
                    entry = &entry.children[at];
                },
                _ => {
                    return None;
                },
            }
            i += 1;
        }
        Some(entry)
    }

    /// Size and kind of `path` as the walk recorded them, or `None` when the
    /// walk does not cover it. Another volume counts as never seen.
    pub fn info(&self, path: &FsPath) -> (r: Option<UsageInfo>)
        ensures
            match r {
                Some(info) => self.entry_for(path@) matches Some(entry) && !entry.is_mount && info.size_bytes
                    == entry.size_bytes && info.is_dir == entry.is_dir,
                None => self.entry_for(path@) is None || self.entry_for(path@)->0.is_mount,
            },
    {
        match self.entry_at(path) {
            Some(entry) => if entry.is_mount {
                None
            } else {
                Some(UsageInfo { size_bytes: entry.size_bytes, is_dir: entry.is_dir })
            },
            None => None,
        }
    }
}

/// Walks the place that the filesystem shows as `disk`, reporting progress
/// and stopping when `cancel` says so: `None` then. The last report has the
/// numbers of the finished tree.
pub fn build_usage_snapshot<P: Fn(UsageProgress), C: Fn() -> bool>(
    root: &FsPath,
    disk: &DiskRoot,
    on_progress: &P,
    cancel: &C,
) -> (r: Option<UsageSnapshot>)
    requires
        forall|p: UsageProgress| call_requires(*on_progress, (p,)),
        call_requires(*cancel, ()),
        root_size(root@, *disk) <= u64::MAX,
    ensures
        match r {
            Some(snapshot) => {
                &&& snapshot.inv()
                &&& snapshot.covers() == root@
                &&& root_built(snapshot.tree(), root@, *disk)
                &&& snapshot.tree().size_bytes == root_size(root@, *disk)
                &&& distinct_names(disk.children@) ==> distinct_entries(snapshot.tree().children@)
                &&& exists|p: UsageProgress|
                    {
                        &&& #[trigger] call_ensures(*on_progress, (p,), ())
                        &&& p.dirs_scanned == root_dirs(root@, *disk) as int % counter()
                        &&& p.bytes_seen == root_size(root@, *disk)
                    }
            },
            None => call_ensures(*cancel, (), true),
        },
        always(*cancel) ==> r is None,
{
    let mut walk = Walk { dirs: 0, bytes: 0 };
    let entry = match measure(root, disk, &mut walk, on_progress, cancel) {
        Some(entry) => entry,
        None => {
            return None;
        },
    };
    if cancel() {
        return None;
    }
    let done = walk.progress();
    on_progress(done);
    assert(call_ensures(*on_progress, (done,), ()));
    proof {
        if disk.is_dir && distinct_names(disk.children@) {
            distinct_names_stay_distinct(entry, root@, disk.children@, None);
        }
    }
    Some(UsageSnapshot { root: root.clone(), entry })
}

/// Measures the place a walk starts at. When it is done the counters say how
/// many directories were entered and how many bytes were seen.
pub fn measure<P: Fn(UsageProgress), C: Fn() -> bool>(
    root: &FsPath,
    disk: &DiskRoot,
    walk: &mut Walk,
    on_progress: &P,
    cancel: &C,
) -> (r: Option<Entry>)
    requires
        forall|p: UsageProgress| call_requires(*on_progress, (p,)),
        call_requires(*cancel, ()),
        old(walk).bytes + root_size(root@, *disk) <= u64::MAX,
    ensures
        match r {
            Some(entry) => {
                &&& entry.well_formed()
                &&& root_built(entry, root@, *disk)
                &&& entry.size_bytes == root_size(root@, *disk)
                &&& final(walk).bytes == old(walk).bytes + root_size(root@, *disk)
                &&& final(walk).dirs == (old(walk).dirs + root_dirs(root@, *disk)) % counter()
            },
            None => call_ensures(*cancel, (), true),
        },
        always(*cancel) ==> r is None,
{
    let name = node_name(root);
    if disk.is_dir {
        let r = build_dir(root, name, &disk.children, None, walk, on_progress, cancel);
        proof {
            if r is Some {
                lemma_dir_built(r->0, root@, disk.children@, None);
            }
        }
        r
    } else {
        if cancel() {
            return None;
        }
        let size: u64 = match disk.len {
            Some(n) => n,
            None => 0,
        };
        walk.add_bytes(size);
        Some(Entry::leaf(name, size, false))
    }
}

/// A node in a view of the tree.
#[derive(Debug)]
pub struct UsageNode {
    /// Display name (file or directory name, or "Other" for the remainder).
    pub name: String,
    /// Absolute path. Empty for the "Other" node.
    pub path: FsPath,
    /// Total size of this subtree in bytes.
    pub size_bytes: u64,
    pub is_dir: bool,
    /// Another volume mounted inside the walk, not measured.
    pub is_mount: bool,
    /// Child nodes, largest first.
    pub children: Vec<UsageNode>,
}

/// How many children are kept at one level.
pub open spec fn kept(n: nat, opts: UsageOptions) -> nat {
    if n <= opts.max_children {
        n
    } else {
        opts.max_children as nat
    }
}

/// The volumes among the entries that do not fit.
pub open spec fn markers(rest: Seq<Entry>) -> Seq<Entry> {
    rest.filter(|e: Entry| e.is_mount)
}

/// The entries that do not fit and are folded.
pub open spec fn folded(rest: Seq<Entry>) -> Seq<Entry> {
    rest.filter(|e: Entry| !e.is_mount)
}

/// `node` is the node of the entry itself, without its children.
pub open spec fn heads(node: UsageNode, entry: Entry, path: Seq<char>) -> bool {
    &&& node.name@ == entry.name@
    &&& node.path@ == path
    &&& node.size_bytes == entry.size_bytes
    &&& node.is_dir == entry.is_dir
    &&& node.is_mount == entry.is_mount
}

/// `node` is the node of the entry of the directory `dir`, without children.
pub open spec fn bare(node: UsageNode, entry: Entry, dir: Seq<char>) -> bool {
    heads(node, entry, joined(dir, entry.name@)) && node.children@.len() == 0
}

/// `node` stands for `n` folded entries that weigh `size` together.
pub open spec fn is_fold(node: UsageNode, n: nat, size: nat) -> bool {
    &&& node.name@ == "Other ("@ + digits(n) + " items)"@
    &&& node.path@.len() == 0
    &&& node.size_bytes == size
    &&& !node.is_dir
    &&& !node.is_mount
    &&& node.children@.len() == 0
}

/// `node` is the view of `entry` at `path` that `opts` allows: at the depth
/// limit a sized leaf; above it the largest children, then every volume that
/// did not fit, then one node for the rest if it weighs anything.
pub open spec fn shows(node: UsageNode, entry: Entry, path: Seq<char>, depth: int, opts: UsageOptions) -> bool
    decreases entry,
{
    &&& heads(node, entry, path)
    &&& if entry.is_dir && depth < opts.max_depth {
        let keep = kept(entry.children@.len(), opts) as int;
        let rest = entry.children@.skip(keep);
        let fold = sum(sizes(folded(rest)));
        &&& node.children@.len() == keep + markers(rest).len() + if fold > 0 {
            1int
        } else {
            0int
        }
        &&& forall|i: int|
            0 <= i < keep ==> shows(
                #[trigger] node.children@[i],
                entry.children@[i],
                joined(path, entry.children@[i].name@),
                depth + 1,
                opts,
            )
        &&& forall|i: int|
            keep <= i < keep + markers(rest).len() ==> bare(#[trigger] node.children@[i], markers(rest)[i - keep], path)
        &&& fold > 0 ==> is_fold(node.children@.last(), folded(rest).len(), fold)
    } else {
        node.children@.len() == 0
    }
}

proof fn lemma_folded_size(rest: Seq<Entry>)
    requires
        forall|i: int| 0 <= i < rest.len() ==> (#[trigger] rest[i]).well_formed(),
    ensures
        sum(sizes(folded(rest))) == sum(sizes(rest)),
        forall|i: int|
            0 <= i < markers(rest).len() ==> (#[trigger] markers(rest)[i]).is_mount && markers(rest)[i].well_formed(),
    decreases rest.len(),
{
    reveal(Seq::filter);
    if rest.len() > 0 {
        let front = rest.drop_last();
        assert forall|i: int| 0 <= i < front.len() implies (#[trigger] front[i]).well_formed() by {
            assert(front[i] == rest[i]);
        }
        lemma_folded_size(front);
        let last = rest.last();
        assert(rest[rest.len() - 1] == last);
        assert(sizes(rest).drop_last() =~= sizes(front));
        if !last.is_mount {
            assert(folded(rest) =~= folded(front).push(last));
            assert(sizes(folded(rest)).drop_last() =~= sizes(folded(front)));
            assert(markers(rest) == markers(front));
        } else {
            assert(folded(rest) == folded(front));
            assert(markers(rest) =~= markers(front).push(last));
        }
    } else {
        assert(sizes(folded(rest)) =~= sizes(rest));
    }
}

proof fn lemma_sum_split(keys: Seq<u64>, i: int)
    requires
        0 <= i <= keys.len(),
    ensures
        sum(keys) == sum(keys.take(i)) + sum(keys.skip(i)),
    decreases keys.len() - i,
{
    if i == keys.len() {
        assert(keys.take(i) =~= keys);
        assert(keys.skip(i) =~= Seq::<u64>::empty());
    } else {
        lemma_sum_split(keys.drop_last(), i);
        assert(keys.drop_last().take(i) =~= keys.take(i));
        assert(keys.drop_last().skip(i) =~= keys.skip(i).drop_last());
    }
}

/// The nodes of the volumes among the entries from `keep` on.
fn marker_nodes(entries: &Vec<Entry>, keep: usize, path: &FsPath) -> (r: Vec<UsageNode>)
    requires
        keep <= entries@.len(),
    ensures
        r@.len() == markers(entries@.skip(keep as int)).len(),
        forall|k: int| 0 <= k < r@.len() ==> bare(#[trigger] r@[k], markers(entries@.skip(keep as int))[k], path@),
{
    let ghost rest = entries@.skip(keep as int);
    let mut r: Vec<UsageNode> = Vec::new();
    let mut j: usize = keep;
    proof {
        reveal(Seq::filter);
        assert(rest.take(0) =~= Seq::<Entry>::empty());
    }
    while j < entries.len()
        invariant
            keep <= j <= entries@.len(),
            rest == entries@.skip(keep as int),
            r@.len() == markers(rest.take(j - keep)).len(),
            forall|k: int| 0 <= k < r@.len() ==> bare(#[trigger] r@[k], markers(rest.take(j - keep))[k], path@),
        decreases entries@.len() - j,
    {
        let child: &Entry = &entries[j];
        let ghost before = markers(rest.take(j - keep));
        let ghost now = markers(rest.take(j + 1 - keep));
        proof {
            reveal(Seq::filter);
            assert(rest.take(j + 1 - keep).drop_last() =~= rest.take(j - keep));
            assert(rest[j - keep] == entries@[j as int]);
        }
        if child.is_mount {
            assert(now =~= before.push(*child));
            let ghost had = r@;
            r.push(
                UsageNode {
                    name: child.name.clone(),
                    path: path.join(child.name.as_str()),
                    size_bytes: child.size_bytes,
                    is_dir: child.is_dir,
                    is_mount: true,
                    children: Vec::new(),
                },
            );
            assert forall|k: int| 0 <= k < r@.len() implies bare(#[trigger] r@[k], now[k], path@) by {
                if k < had.len() {
                    assert(r@[k] == had[k]);
                    assert(now[k] == before[k]);
                }
            }
        } else {
            assert(now == before);
        }
        j += 1;
    }
    assert(rest.take(j - keep) =~= rest);
    r
}

/// How many of the entries from `keep` on are folded, and what they weigh.
fn fold_rest(entries: &Vec<Entry>, keep: usize) -> (r: (u64, u64))
    requires
        keep <= entries@.len(),
        sum(sizes(folded(entries@.skip(keep as int)))) <= u64::MAX,
    ensures
        r.0 == folded(entries@.skip(keep as int)).len(),
        r.1 == sum(sizes(folded(entries@.skip(keep as int)))),
{
    let ghost rest = entries@.skip(keep as int);
    let mut count: u64 = 0;
    let mut size: u64 = 0;
    let mut j: usize = keep;
    proof {
        reveal(Seq::filter);
        assert(rest.take(0) =~= Seq::<Entry>::empty());
        assert(sizes(folded(rest.take(0))) =~= Seq::<u64>::empty());
    }
    while j < entries.len()
        invariant
            keep <= j <= entries@.len(),
            rest == entries@.skip(keep as int),
            sum(sizes(folded(rest))) <= u64::MAX,
            count == folded(rest.take(j - keep)).len(),
            count <= j - keep,
            size == sum(sizes(folded(rest.take(j - keep)))),
        decreases entries@.len() - j,
    {
        let child: &Entry = &entries[j];
        let ghost before = folded(rest.take(j - keep));
        let ghost now = folded(rest.take(j + 1 - keep));
        proof {
            reveal(Seq::filter);
            assert(rest.take(j + 1 - keep).drop_last() =~= rest.take(j - keep));
            assert(rest[j - keep] == entries@[j as int]);
            lemma_folded_prefix(rest, j + 1 - keep);
        }
        if !child.is_mount {
            assert(now =~= before.push(*child));
            assert(sizes(now).drop_last() =~= sizes(before));
            count = count + 1;
            size = size + child.size_bytes;
        } else {
            assert(now == before);
        }
        j += 1;
    }
    assert(rest.take(j - keep) =~= rest);
    (count, size)
}

/// Cuts a bounded view out of a retained subtree.
fn to_node(entry: &Entry, path: &FsPath, depth: usize, opts: UsageOptions) -> (r: UsageNode)
    requires
        entry.well_formed(),
    ensures
        shows(r, *entry, path@, depth as int, opts),
    decreases entry,
{
    let mut children: Vec<UsageNode> = Vec::new();
    if entry.is_dir && depth < opts.max_depth {
        let ghost all = entry.children@;
        let keep: usize = if entry.children.len() <= opts.max_children {
            entry.children.len()
        } else {
            opts.max_children
        };
        let ghost rest = all.skip(keep as int);
        let mut i: usize = 0;
        while i < keep
            invariant
                entry.well_formed(),
                all == entry.children@,
                i <= keep <= all.len(),
                depth < opts.max_depth,
                children@.len() == i,
                forall|j: int|
                    0 <= j < i ==> shows(
                        #[trigger] children@[j],
                        all[j],
                        joined(path@, all[j].name@),
                        depth + 1,
                        opts,
                    ),
            decreases keep - i,
        {
            let child: &Entry = &entry.children[i];
            assert(all[i as int].well_formed());
            assert(decreases_to!(entry => entry.children));
            assert(decreases_to!(entry.children => entry.children@));
            assert(decreases_to!(entry.children@ => entry.children@[i as int]));
            let below = path.join(child.name.as_str());
            let node = to_node(child, &below, depth + 1, opts);
            children.push(node);
            i += 1;
        }
        let ghost shown = children@;
        let mut volumes = marker_nodes(&entry.children, keep, path);
        let ghost extra = volumes@;
        children.append(&mut volumes);
        proof {
            lemma_sum_split(sizes(all), keep as int);
            assert(sizes(all).skip(keep as int) =~= sizes(rest));
            assert forall|k: int| 0 <= k < rest.len() implies (#[trigger] rest[k]).well_formed() by {
                assert(rest[k] == all[keep + k]);
            }
            lemma_folded_size(rest);
        }
        let ghost listed = children@;
        assert(listed == shown + extra);
        let (count, size) = fold_rest(&entry.children, keep);
        if size > 0 {
            let mut name = "Other (".to_owned();
            name.append(text::decimal(count).as_str());
            name.append(" items)");
            children.push(
                UsageNode {
                    name,
                    path: FsPath { text: String::new() },
                    size_bytes: size,
                    is_dir: false,
                    is_mount: false,
                    children: Vec::new(),
                },
            );
        }
        assert(forall|k: int| 0 <= k < keep ==> #[trigger] children@[k] == shown[k]);
        assert(forall|k: int| keep <= k < keep + extra.len() ==> #[trigger] children@[k] == extra[k - keep]);
    }
    UsageNode {
        name: entry.name.clone(),
        path: path.clone(),
        size_bytes: entry.size_bytes,
        is_dir: entry.is_dir,
        is_mount: entry.is_mount,
        children,
    }
}

proof fn lemma_folded_prefix(rest: Seq<Entry>, i: int)
    requires
        0 <= i <= rest.len(),
    ensures
        sum(sizes(folded(rest.take(i)))) <= sum(sizes(folded(rest))),
    decreases rest.len() - i,
{
    reveal(Seq::filter);
    if i < rest.len() {
        lemma_folded_prefix(rest, i + 1);
        assert(rest.take(i + 1).drop_last() =~= rest.take(i));
        let a = folded(rest.take(i));
        let b = folded(rest.take(i + 1));
        if !rest[i].is_mount {
            assert(b =~= a.push(rest[i]));
            assert(sizes(b).drop_last() =~= sizes(a));
        } else {
            assert(b == a);
        }
    } else {
        assert(rest.take(i) =~= rest);
    }
}

/// The names among a list of components.
pub open spec fn names_in(way: Seq<Part>) -> Seq<Seq<char>>
    decreases way.len(),
{
    if way.len() == 0 {
        Seq::empty()
    } else {
        match way.last() {
            Part::Name(name) => names_in(way.drop_last()).push(name),
            _ => names_in(way.drop_last()),
        }
    }
}

/// The entry that a list of names leads to.
pub open spec fn entry_named(entry: Entry, names: Seq<Seq<char>>) -> Option<Entry>
    decreases names.len(),
{
    if names.len() == 0 {
        Some(entry)
    } else {
        let at = position_of(entry.children@, names[0]);
        if at < entry.children@.len() {
            entry_named(entry.children@[at as int], names.drop_first())
        } else {
            None
        }
    }
}

/// Every component is a name or a `.`.
pub open spec fn straight(way: Seq<Part>) -> bool {
    forall|i: int| 0 <= i < way.len() ==> (#[trigger] way[i]) is Name || way[i] is Current
}

proof fn lemma_names_in_first(way: Seq<Part>)
    requires
        way.len() > 0,
    ensures
        names_in(way) == (match way[0] {
            Part::Name(name) => seq![name] + names_in(way.drop_first()),
            _ => names_in(way.drop_first()),
        }),
    decreases way.len(),
{
    let rest = way.drop_first();
    if rest.len() == 0 {
        assert(way.drop_last() =~= rest);
        assert(names_in(way) =~= match way[0] {
            Part::Name(name) => seq![name] + names_in(rest),
            _ => names_in(rest),
        });
    } else {
        let front = way.drop_last();
        lemma_names_in_first(front);
        assert(front.drop_first() =~= rest.drop_last());
        assert(front[0] == way[0]);
        assert(rest.last() == way.last());
        assert(names_in(way) =~= match way[0] {
            Part::Name(name) => seq![name] + names_in(rest),
            _ => names_in(rest),
        });
    }
}

/// Components lead to an entry only where each is a name or a `.`, and then
/// the names alone lead there.
proof fn lemma_names_lead(entry: Entry, way: Seq<Part>)
    ensures
        entry_along(entry, way) == (if straight(way) {
            entry_named(entry, names_in(way))
        } else {
            None
        }),
    decreases way.len(),
{
    if way.len() > 0 {
        let rest = way.drop_first();
        lemma_names_in_first(way);
        assert(straight(way) == (straight(rest) && (way[0] is Name || way[0] is Current))) by {
            if straight(rest) && (way[0] is Name || way[0] is Current) {
                assert forall|i: int| 0 <= i < way.len() implies (#[trigger] way[i]) is Name || way[i] is Current by {
                    if i > 0 {
                        assert(way[i] == rest[i - 1]);
                    }
                }
            }
            if straight(way) {
                assert forall|i: int| 0 <= i < rest.len() implies (#[trigger] rest[i]) is Name || rest[i] is Current by {
                    assert(rest[i] == way[i + 1]);
                }
            }
        }
        match way[0] {
            Part::Current => {
                lemma_names_lead(entry, rest);
            },
            Part::Name(name) => {
                let at = position_of(entry.children@, name);
                let names = names_in(way);
                assert(names[0] == name);
                assert(names.drop_first() =~= names_in(rest));
                if at < entry.children@.len() {
                    lemma_names_lead(entry.children@[at as int], rest);
                }
            },
            _ => {},
        }
    }
}

/// `after` is `before` with the entry that `names` leads to forgotten, and
/// its size taken off every folder above it. Each folder above stands where
/// its new size puts it.
pub open spec fn forgot(before: Entry, after: Entry, names: Seq<Seq<char>>, freed: u64) -> bool
    decreases names.len(),
{
    let at = position_of(before.children@, names[0]) as int;
    &&& names.len() > 0
    &&& at < before.children@.len()
    &&& after.name == before.name
    &&& after.is_dir == before.is_dir
    &&& after.is_mount == before.is_mount
    &&& after.size_bytes == before.size_bytes - freed
    &&& if names.len() == 1 {
        &&& freed == before.children@[at].size_bytes
        &&& after.children@ == before.children@.remove(at)
    } else {
        exists|child: Entry, to: int|
            {
                &&& 0 <= to < before.children@.len()
                &&& after.children@ == #[trigger] before.children@.remove(at).insert(to, child)
                &&& forgot(before.children@[at], child, names.drop_first(), freed)
            }
    }
}

/// Whether a list of names leads to an entry.
fn leads_to_entry(entry: &Entry, names: &Vec<String>, from: usize) -> (r: bool)
    requires
        from <= names@.len(),
    ensures
        r == (entry_named(*entry, strings(names@).skip(from as int)) is Some),
    decreases names@.len() - from,
{
    let ghost all = strings(names@);
    if from == names.len() {
        return true;
    }
    assert(all.skip(from as int)[0] == names@[from as int]@);
    assert(all.skip(from as int).drop_first() =~= all.skip(from + 1));
    let at: usize = find_named(&entry.children, &names[from]);
    at < entry.children.len() && leads_to_entry(&entry.children[at], names, from + 1)
}

proof fn lemma_sum_insert(keys: Seq<u64>, i: int, x: u64)
    requires
        0 <= i <= keys.len(),
    ensures
        sum(keys.insert(i, x)) == sum(keys) + x as nat,
{
    lemma_sum_remove(keys.insert(i, x), i);
    assert(keys.insert(i, x).remove(i) =~= keys);
}

/// Drops the entry that the names lead to and takes its bytes off every
/// folder above it.
fn remove_in(entry: &mut Entry, names: &Vec<String>, from: usize) -> (freed: u64)
    requires
        old(entry).well_formed(),
        from < names@.len(),
        entry_named(*old(entry), strings(names@).skip(from as int)) is Some,
    ensures
        final(entry).well_formed(),
        forgot(*old(entry), *final(entry), strings(names@).skip(from as int), freed),
        entry_named(*old(entry), strings(names@).skip(from as int))->0.size_bytes == freed,
    decreases names@.len() - from,
{
    let ghost way = strings(names@).skip(from as int);
    let ghost before = *entry;
    assert(way[0] == names@[from as int]@);
    assert(way.drop_first() =~= strings(names@).skip(from + 1));
    let at: usize = find_named(&entry.children, &names[from]);
    let ghost kids = entry.children@;
    assert(kids[at as int].well_formed());
    assert(before.is_dir);
    proof {
        lemma_sum_remove(sizes(kids), at as int);
        assert(sizes(kids).remove(at as int) =~= sizes(kids.remove(at as int)));
    }
    let mut child = entry.children.remove(at);
    let ghost rest = entry.children@;
    assert(rest =~= kids.remove(at as int));
    assert forall|i: int| 0 <= i < rest.len() implies (#[trigger] rest[i]).well_formed() by {
        assert(rest[i] == kids[if i < at {
            i
        } else {
            i + 1
        }]);
    }
    let last: usize = names.len() - 1;
    if from == last {
        proof {
            reveal_with_fuel(entry_named, 2);
        }
        let freed: u64 = child.size_bytes;
        entry.size_bytes = entry.size_bytes - freed;
        assert(entry.well_formed()) by {
            assert forall|i: int, j: int| 0 <= i < j < sizes(rest).len() implies #[trigger] sizes(rest)[i]
                >= #[trigger] sizes(rest)[j] by {
                assert(sizes(rest)[i] == sizes(kids)[if i < at {
                    i
                } else {
                    i + 1
                }]);
                assert(sizes(rest)[j] == sizes(kids)[if j < at {
                    j
                } else {
                    j + 1
                }]);
            }
        }
        return freed;
    }
    let freed: u64 = remove_in(&mut child, names, from + 1);
    let ghost shrunk = child;
    let mut to: usize = at;
    let n: usize = entry.children.len();
    while to < n && entry.children[to].size_bytes > child.size_bytes
        invariant
            entry.children@ == rest,
            n == rest.len(),
            at <= to <= n,
            forall|k: int| at <= k < to ==> sizes(rest)[k] > child.size_bytes,
        decreases n - to,
    {
        to += 1;
    }
    entry.children.insert(to, child);
    entry.size_bytes = entry.size_bytes - freed;
    proof {
        let now = entry.children@;
        assert(now =~= rest.insert(to as int, shrunk));
        assert(sizes(now) =~= sizes(rest).insert(to as int, shrunk.size_bytes));
        lemma_sum_insert(sizes(rest), to as int, shrunk.size_bytes);
        assert(sizes(kids)[at as int] == kids[at as int].size_bytes);
        assert forall|i: int| 0 <= i < rest.len() implies #[trigger] sizes(rest)[i] == sizes(kids)[if i < at {
            i
        } else {
            i + 1
        }] by {}
        if to < n {
            assert(sizes(rest)[to as int] <= shrunk.size_bytes);
        }
        assert forall|i: int, j: int| 0 <= i < j < sizes(now).len() implies #[trigger] sizes(now)[i]
            >= #[trigger] sizes(now)[j] by {
            if i < to && j == to {
                if i < at {
                    assert(sizes(rest)[i] >= sizes(kids)[at as int]);
                }
            } else if i == to {
                assert(sizes(now)[j] == sizes(rest)[j - 1]);
                assert(sizes(rest)[to as int] >= sizes(rest)[j - 1]);
            } else {
                let a = if i < to {
                    i
                } else {
                    i - 1
                };
                let b = if j < to {
                    j
                } else {
                    j - 1
                };
                assert(sizes(now)[i] == sizes(rest)[a]);
                assert(sizes(now)[j] == sizes(rest)[b]);
            }
        }
        assert forall|i: int| 0 <= i < now.len() implies (#[trigger] now[i]).well_formed() by {
            if i < to {
                assert(now[i] == rest[i]);
            } else if i > to {
                assert(now[i] == rest[i - 1]);
            }
        }
        assert(now == kids.remove(at as int).insert(to as int, shrunk));
    }
    freed
}

impl UsageSnapshot {
    /// The names that lead from the root to `path`.
    pub open spec fn names_to(&self, path: Seq<char>) -> Option<Seq<Seq<char>>> {
        match way_from(self.covers(), path) {
            Some(way) => Some(names_in(way)),
            None => None,
        }
    }

    /// A bounded view of `path`, or `None` when the walk does not cover it.
    pub fn view(&self, path: &FsPath, opts: UsageOptions) -> (r: Option<UsageNode>)
        requires
            self.inv(),
        ensures
            match r {
                Some(node) => self.entry_for(path@) matches Some(entry) && shows(node, entry, path@, 0, opts),
                None => self.entry_for(path@) is None,
            },
    {
        match self.entry_at(path) {
            Some(entry) => {
                proof {
                    lemma_entry_along(self.tree(), way_from(self.covers(), path@)->0);
                }
                Some(to_node(entry, path, 0, opts))
            },
            None => None,
        }
    }

    /// Forgets `path`, as if the walk had never seen it, and returns the size
    /// that went with it. The root itself cannot be forgotten, and neither can
    /// what the walk does not hold.
    pub fn remove(&mut self, path: &FsPath) -> (r: Option<u64>)
        requires
            old(self).inv(),
        ensures
            final(self).inv(),
            final(self).covers() == old(self).covers(),
            r is Some <==> old(self).entry_for(path@) is Some && old(self).names_to(path@)->0.len() > 0,
            match r {
                Some(freed) => {
                    &&& freed == old(self).entry_for(path@)->0.size_bytes
                    &&& forgot(old(self).tree(), final(self).tree(), old(self).names_to(path@)->0, freed)
                    &&& distinct_entries(old(self).tree().children@) ==> final(self).entry_for(path@) is None
                        && distinct_entries(final(self).tree().children@)
                },
                None => *final(self) == *old(self),
            },
    {
        let steps = match steps_from(&self.root, path) {
            Some(steps) => steps,
            None => {
                return None;
            },
        };
        let ghost way = parts_view(steps@);
        let ghost whole = self.entry;
        let mut names: Vec<String> = Vec::new();
        let mut i: usize = 0;
        assert(strings(names@) =~= names_in(way.take(0)));
        proof {
            lemma_names_lead(whole, way);
        }
        while i < steps.len()
            invariant
                *self == *old(self),
                self.inv(),
                whole == self.entry,
                way == parts_view(steps@),
                way_from(self.covers(), path@) == Some(way),
                entry_along(whole, way) == (if straight(way) {
                    entry_named(whole, names_in(way))
                } else {
                    None
                }),
                i <= steps@.len(),
                forall|k: int| 0 <= k < i ==> (#[trigger] way[k]) is Name || way[k] is Current,
                strings(names@) == names_in(way.take(i as int)),
            decreases steps@.len() - i,
        {
            let ghost had = strings(names@);
            assert(way.take(i + 1).drop_last() =~= way.take(i as int));
            assert(way[i as int] == steps@[i as int]@);
            match &steps[i] {
                Component::Normal(name) => {
                    names.push(name.clone());
                    assert(strings(names@) =~= had.push(name@));
                },
                Component::CurDir => {},
                _ => {
                    assert(!straight(way));
                    return None;
                },
            }
            i += 1;
        }
        assert(way.take(i as int) =~= way);
        assert(straight(way));
        assert(strings(names@).skip(0) =~= names_in(way));
        assert(strings(names@).len() == names@.len());
        if names.len() == 0 || !leads_to_entry(&self.entry, &names, 0) {
            return None;
        }
        let freed: u64 = remove_in(&mut self.entry, &names, 0);
        proof {
            lemma_names_lead(self.entry, way);
            if distinct_entries(whole.children@) {
                what_is_forgotten_is_gone(whole, self.entry, names_in(way), freed);
            }
        }
        Some(freed)
    }
}

/// What was forgotten is no longer there, where names beside each other are
/// distinct; and they stay distinct.
pub proof fn what_is_forgotten_is_gone(before: Entry, after: Entry, names: Seq<Seq<char>>, freed: u64)
    requires
        forgot(before, after, names, freed),
        distinct_entries(before.children@),
    ensures
        entry_named(after, names) is None,
        distinct_entries(after.children@),
    decreases names.len(),
{
    let had = before.children@;
    let now = after.children@;
    let name = names[0];
    let at = position_of(had, name) as int;
    lemma_position(had, name);
    let rest = had.remove(at);
    assert forall|i: int| 0 <= i < rest.len() implies (#[trigger] rest[i]).name@ != name && distinct_entries(
        rest[i].children@,
    ) by {
        if i < at {
            assert(rest[i] == had[i]);
            assert(had[i].name@ != had[at].name@);
        } else {
            assert(rest[i] == had[i + 1]);
            assert(had[at].name@ != had[i + 1].name@);
        }
    }
    assert forall|i: int, j: int| 0 <= i < j < rest.len() implies (#[trigger] rest[i]).name@ != (
    #[trigger] rest[j]).name@ by {
        let a = if i < at {
            i
        } else {
            i + 1
        };
        let b = if j < at {
            j
        } else {
            j + 1
        };
        assert(rest[i] == had[a] && rest[j] == had[b]);
    }
    if names.len() == 1 {
        lemma_no_position(now, name);
    } else {
        let (child, to) = choose|child: Entry, to: int|
            {
                &&& 0 <= to < had.len()
                &&& now == #[trigger] had.remove(at).insert(to, child)
                &&& forgot(had[at], child, names.drop_first(), freed)
            };
        assert(distinct_entries(had[at].children@));
        what_is_forgotten_is_gone(had[at], child, names.drop_first(), freed);
        assert(now[to] == child);
        assert forall|i: int| 0 <= i < now.len() && i != to implies (#[trigger] now[i]).name@ != name
            && distinct_entries(now[i].children@) by {
            assert(now[i] == rest[if i < to {
                i
            } else {
                i - 1
            }]);
        }
        assert forall|i: int, j: int| 0 <= i < j < now.len() implies (#[trigger] now[i]).name@ != (
        #[trigger] now[j]).name@ by {
            if i != to && j != to {
                let a = if i < to {
                    i
                } else {
                    i - 1
                };
                let b = if j < to {
                    j
                } else {
                    j - 1
                };
                assert(now[i] == rest[a] && now[j] == rest[b]);
            }
        }
        lemma_only_position(now, name, to);
    }
}

proof fn lemma_entry_along(entry: Entry, way: Seq<Part>)
    requires
        entry.well_formed(),
    ensures
        entry_along(entry, way) matches Some(e) ==> e.well_formed(),
    decreases way.len(),
{
    if way.len() > 0 {
        match way[0] {
            Part::Current => {
                lemma_entry_along(entry, way.drop_first());
            },
            Part::Name(name) => {
                let at = position_of(entry.children@, name);
                if at < entry.children@.len() {
                    assert(entry.children@[at as int].well_formed());
                    lemma_entry_along(entry.children@[at as int], way.drop_first());
                }
            },
            _ => {},
        }
    }
}

/// Builds a usage tree of the place that the filesystem shows as `disk`.
pub fn build_usage_tree(root: &FsPath, disk: &DiskRoot, opts: UsageOptions) -> (r: UsageNode)
    requires
        root_size(root@, *disk) <= u64::MAX,
    ensures
        exists|entry: Entry| root_built(entry, root@, *disk) && #[trigger] shows(r, entry, root@, 0, opts),
        r.size_bytes == root_size(root@, *disk),
{
    let quiet = |_p: UsageProgress| {  };
    let cancel = || -> (r: bool)
        ensures
            !r,
        { false };
    let mut walk = Walk { dirs: 0, bytes: 0 };
    match measure(root, disk, &mut walk, &quiet, &cancel) {
        Some(entry) => to_node(&entry, root, 0, opts),
        None => {
            assert(false);
            UsageNode {
                name: String::new(),
                path: root.clone(),
                size_bytes: 0,
                is_dir: false,
                is_mount: false,
                children: Vec::new(),
            }
        },
    }
}

/// The sizes of a list of nodes.
pub open spec fn node_sizes(nodes: Seq<UsageNode>) -> Seq<u64> {
    nodes.map_values(|n: UsageNode| n.size_bytes)
}

proof fn lemma_sum_concat(a: Seq<u64>, b: Seq<u64>)
    ensures
        sum(a + b) == sum(a) + sum(b),
    decreases b.len(),
{
    if b.len() == 0 {
        assert(a + b =~= a);
    } else {
        assert((a + b).drop_last() =~= a + b.drop_last());
        lemma_sum_concat(a, b.drop_last());
    }
}

proof fn lemma_sum_zero(keys: Seq<u64>)
    requires
        forall|i: int| 0 <= i < keys.len() ==> #[trigger] keys[i] == 0,
    ensures
        sum(keys) == 0,
    decreases keys.len(),
{
    if keys.len() > 0 {
        assert(keys[keys.len() - 1] == 0);
        assert forall|i: int| 0 <= i < keys.drop_last().len() implies #[trigger] keys.drop_last()[i] == 0 by {
            assert(keys.drop_last()[i] == keys[i]);
        }
        lemma_sum_zero(keys.drop_last());
    }
}

/// A view weighs what the tree weighs, and folding takes nothing away: the
/// children of an expanded folder add up to the folder.
pub proof fn folding_keeps_the_total(node: UsageNode, entry: Entry, path: Seq<char>, depth: int, opts: UsageOptions)
    requires
        entry.well_formed(),
        shows(node, entry, path, depth, opts),
    ensures
        node.size_bytes == entry.size_bytes,
        entry.is_dir && depth < opts.max_depth ==> sum(node_sizes(node.children@)) == node.size_bytes,
{
    if entry.is_dir && depth < opts.max_depth {
        let keep = kept(entry.children@.len(), opts) as int;
        let all = entry.children@;
        let rest = all.skip(keep);
        let volumes = markers(rest).len() as int;
        let fold = sum(sizes(folded(rest)));
        assert forall|k: int| 0 <= k < rest.len() implies (#[trigger] rest[k]).well_formed() by {
            assert(rest[k] == all[keep + k]);
        }
        lemma_folded_size(rest);
        lemma_sum_split(sizes(all), keep);
        assert(sizes(all).skip(keep) =~= sizes(rest));
        let keys = node_sizes(node.children@);
        let first = keys.take(keep);
        let second = keys.subrange(keep, keep + volumes);
        let third = keys.skip(keep + volumes);
        assert(keys =~= (first + second) + third);
        lemma_sum_concat(first + second, third);
        lemma_sum_concat(first, second);
        assert(first =~= sizes(all).take(keep)) by {
            assert forall|i: int| 0 <= i < keep implies first[i] == sizes(all).take(keep)[i] by {
                assert(shows(
                    node.children@[i],
                    entry.children@[i],
                    joined(path, entry.children@[i].name@),
                    depth + 1,
                    opts,
                ));
            }
        }
        assert forall|i: int| 0 <= i < second.len() implies #[trigger] second[i] == 0 by {
            assert(bare(node.children@[keep + i], markers(rest)[i], path));
            assert(markers(rest)[i].well_formed());
        }
        lemma_sum_zero(second);
        if fold > 0 {
            assert(third =~= seq![node.children@.last().size_bytes]);
            assert(third.drop_last() =~= Seq::<u64>::empty());
            reveal_with_fuel(sum, 2);
            assert(sum(third) == fold);
        } else {
            assert(third =~= Seq::<u64>::empty());
        }
    }
}

/// Another volume survives the fold: every marker of an expanded folder has a
/// node of its own, and it weighs nothing.
pub proof fn volumes_survive_the_fold(
    node: UsageNode,
    entry: Entry,
    path: Seq<char>,
    depth: int,
    opts: UsageOptions,
    i: int,
)
    requires
        entry.well_formed(),
        shows(node, entry, path, depth, opts),
        entry.is_dir,
        depth < opts.max_depth,
        0 <= i < entry.children@.len(),
        entry.children@[i].is_mount,
    ensures
        exists|k: int|
            0 <= k < node.children@.len() && (#[trigger] node.children@[k]).is_mount && node.children@[k].name@
                == entry.children@[i].name@ && node.children@[k].size_bytes == 0,
{
    let keep = kept(entry.children@.len(), opts) as int;
    let all = entry.children@;
    assert(all[i].well_formed());
    if i < keep {
        assert(shows(node.children@[i], all[i], joined(path, all[i].name@), depth + 1, opts));
        assert(node.children@[i].is_mount);
    } else {
        let rest = all.skip(keep);
        let is_volume = |e: Entry| e.is_mount;
        assert(rest[i - keep] == all[i]);
        rest.lemma_filter_contains(is_volume, i - keep);
        let k = choose|k: int| 0 <= k < markers(rest).len() && markers(rest)[k] == all[i];
        assert(bare(node.children@[keep + k], markers(rest)[k], path));
        assert(node.children@[keep + k].is_mount);
    }
}

/// Forgetting an entry takes its size off the whole, and off nothing else: a
/// sibling elsewhere keeps what it weighs.
pub proof fn forgetting_shrinks_what_is_above(before: Entry, after: Entry, names: Seq<Seq<char>>, freed: u64)
    requires
        forgot(before, after, names, freed),
    ensures
        after.size_bytes + freed == before.size_bytes,
        after.name@ == before.name@,
        names.len() > 1 ==> after.children@.len() == before.children@.len(),
        names.len() == 1 ==> after.children@.len() == before.children@.len() - 1,
        forall|i: int|
            0 <= i < before.children@.len() && i != position_of(before.children@, names[0])
                ==> after.children@.contains(#[trigger] before.children@[i]),
{
    let at = position_of(before.children@, names[0]) as int;
    let rest = before.children@.remove(at);
    assert forall|i: int| 0 <= i < before.children@.len() && i != at implies after.children@.contains(
        #[trigger] before.children@[i],
    ) by {
        let k = if i < at {
            i
        } else {
            i - 1
        };
        assert(rest[k] == before.children@[i]);
        if names.len() == 1 {
            assert(after.children@[k] == before.children@[i]);
        } else {
            let (child, to) = choose|child: Entry, to: int|
                {
                    &&& 0 <= to < before.children@.len()
                    &&& after.children@ == #[trigger] before.children@.remove(at).insert(to, child)
                    &&& forgot(before.children@[at], child, names.drop_first(), freed)
                };
            let l = if k < to {
                k
            } else {
                k + 1
            };
            assert(rest.insert(to, child)[l] == before.children@[i]);
            assert(after.children@[l] == before.children@[i]);
        }
    }
}

/// The root leads to itself: a walk always holds the place it started at, and
/// never lets go of it.
pub proof fn the_root_is_always_held(snapshot: UsageSnapshot)
    ensures
        snapshot.entry_for(snapshot.covers()) == Some(snapshot.tree()),
        snapshot.names_to(snapshot.covers()) == Some(Seq::<Seq<char>>::empty()),
{
    let root = parts(snapshot.covers());
    assert(root.subrange(0, root.len() as int) =~= root);
    assert(root.skip(root.len() as int) =~= Seq::<Part>::empty());
}

/// Where a walk goes. What is not mounted is entered; of other volumes only
/// the data volume is, and its folders are then looked up under `/` too. A
/// folder that is the same there is left out, and where there is none of that
/// name nothing beneath is looked up any more.
pub proof fn where_a_walk_goes(
    dir: Seq<char>,
    name: Seq<char>,
    mirror: Seq<char>,
    mounted: bool,
    own: Option<Fingerprint>,
    other: Option<Fingerprint>,
)
    ensures
        planned(dir, name, None, false, own, other) == PlanView::Descend(None),
        mounted && !same_path(joined(dir, name), "/System/Volumes/Data"@) ==> planned(dir, name, None, mounted, own, other)
            == PlanView::Marker,
        same_path(joined(dir, name), "/System/Volumes/Data"@) ==> planned(dir, name, None, true, own, other)
            == PlanView::Descend(Some("/"@)),
        own is Some && own == other ==> planned(dir, name, Some(mirror), mounted, own, other) == PlanView::Drop,
        own != other && other is Some ==> planned(dir, name, Some(mirror), false, own, other) == PlanView::Descend(
            Some(joined(mirror, name)),
        ),
        other is None ==> planned(dir, name, Some(mirror), false, own, other) == PlanView::Descend(None),
        own != other && mounted && !same_path(joined(dir, name), "/System/Volumes/Data"@) ==> planned(
            dir,
            name,
            Some(mirror),
            mounted,
            own,
            other,
        ) == PlanView::Marker,
{
}

/// What an entry weighs: a file its length, a link nothing, another volume
/// nothing, and a folder what its entries weigh, each of them once.
pub proof fn what_entries_weigh(dir: Seq<char>, nodes: Seq<DiskNode>, node: DiskNode, mirror: Option<Seq<char>>)
    ensures
        kids_size(dir, nodes.push(node), mirror) == kids_size(dir, nodes, mirror) + kid_size(dir, node, mirror),
        kids_size(dir, Seq::empty(), mirror) == 0,
        node.kind == FileKind::File ==> kid_size(dir, node, mirror) == (match node.len {
            Some(n) => n as nat,
            None => 0,
        }),
        node.kind == FileKind::Symlink ==> kid_size(dir, node, mirror) == 0,
        node.kind == FileKind::Dir && mirror is None && !node.mounted ==> kid_size(dir, node, mirror) == kids_size(
            joined(dir, node.name@),
            node.children@,
            None,
        ),
        node.kind == FileKind::Dir && mirror is None && node.mounted && !same_path(
            joined(dir, node.name@),
            "/System/Volumes/Data"@,
        ) ==> kid_size(dir, node, mirror) == 0,
{
    assert(nodes.push(node).drop_last() =~= nodes);
}

proof fn lemma_each_kid(kids: Seq<Entry>, dir: Seq<char>, nodes: Seq<DiskNode>, mirror: Option<Seq<char>>, k: int) -> (i: int)
    requires
        kids_built(kids, dir, nodes, mirror),
        0 <= k < nodes.len(),
        !dropped(dir, nodes[k], mirror),
    ensures
        0 <= i < kids.len(),
        kid_built(kids[i], dir, nodes[k], mirror),
    decreases nodes.len(),
{
    let front = nodes.drop_last();
    if k == nodes.len() - 1 {
        kids.len() - 1
    } else {
        assert(front[k] == nodes[k]);
        if dropped(dir, nodes.last(), mirror) {
            lemma_each_kid(kids, dir, front, mirror, k)
        } else {
            let i = lemma_each_kid(kids.drop_last(), dir, front, mirror, k);
            assert(kids.drop_last()[i] == kids[i]);
            i
        }
    }
}

/// A walk keeps every entry of a folder that it does not leave out, under its
/// name and with its weight.
pub proof fn every_entry_is_kept(
    entry: Entry,
    path: Seq<char>,
    nodes: Seq<DiskNode>,
    mirror: Option<Seq<char>>,
    k: int,
)
    requires
        dir_built(entry, path, nodes, mirror),
        0 <= k < nodes.len(),
        !dropped(path, nodes[k], mirror),
    ensures
        exists|i: int|
            0 <= i < entry.children@.len() && (#[trigger] entry.children@[i]).name@ == nodes[k].name@
                && entry.children@[i].size_bytes == kid_size(path, nodes[k], mirror) && (entry.children@[i].is_dir
                ==> nodes[k].kind == FileKind::Dir),
{
    let (kids, order) = choose|kids: Seq<Entry>, order: Seq<usize>|
        {
            &&& kids_built(kids, path, nodes, mirror)
            &&& ordered(order, 0, kids.len() as int, larger_first(sizes(kids)))
            &&& entry.children@ == #[trigger] reordered(kids, order)
        };
    let i = lemma_each_kid(kids, path, nodes, mirror, k);
    lemma_kid_built(kids[i], path, nodes[k], mirror);
    assert(entry.children@.len() == kids.len());
    assert(entry.children.len() <= usize::MAX);
    order::lemma_ordered_complete(order, kids.len() as int, larger_first(sizes(kids)), i);
    let p = choose|p: int| 0 <= p < order.len() && #[trigger] order[p] == i;
    assert(entry.children@[p] == kids[i]);
}

/// A view shows of a folder the largest entries, as many as it may, each with
/// its name, its place and its size; all of them where there are no more; and
/// nothing inside what is as deep as it may show.
pub proof fn the_largest_are_shown(node: UsageNode, entry: Entry, path: Seq<char>, depth: int, opts: UsageOptions, i: int, j: int)
    requires
        entry.well_formed(),
        shows(node, entry, path, depth, opts),
    ensures
        node.name@ == entry.name@,
        node.size_bytes == entry.size_bytes,
        node.path@ == path,
        depth >= opts.max_depth || !entry.is_dir ==> node.children@.len() == 0,
        entry.is_dir && depth < opts.max_depth && 0 <= i < entry.children@.len() && i < opts.max_children ==> i
            < node.children@.len() && node.children@[i].name@ == entry.children@[i].name@ && node.children@[i].size_bytes
            == entry.children@[i].size_bytes && node.children@[i].path@ == joined(path, entry.children@[i].name@),
        0 <= i < j < entry.children@.len() ==> entry.children@[i].size_bytes >= entry.children@[j].size_bytes,
        entry.is_dir && depth < opts.max_depth && entry.children@.len() <= opts.max_children ==> node.children@.len()
            == entry.children@.len(),
{
    let all = entry.children@;
    let keep = kept(all.len(), opts) as int;
    if entry.is_dir && depth < opts.max_depth {
        if 0 <= i < keep {
            assert(shows(node.children@[i], all[i], joined(path, all[i].name@), depth + 1, opts));
        }
        if all.len() <= opts.max_children {
            let rest = all.skip(keep);
            assert(rest =~= Seq::<Entry>::empty());
            reveal(Seq::filter);
            assert(markers(rest) =~= Seq::<Entry>::empty());
            assert(folded(rest) =~= Seq::<Entry>::empty());
            assert(sizes(folded(rest)) =~= Seq::<u64>::empty());
        }
    }
    if 0 <= i < j < all.len() {
        assert(sizes(all)[i] >= sizes(all)[j]);
    }
}

proof fn lemma_named_child(entries: Seq<Entry>, name: Seq<char>, i: int)
    requires
        0 <= i < entries.len(),
        entries[i].name@ == name,
    ensures
        position_of(entries, name) <= i,
    decreases entries.len(),
{
    if entries[0].name@ != name {
        assert(entries.drop_first()[i - 1] == entries[i]);
        lemma_named_child(entries.drop_first(), name, i - 1);
    }
}

/// One step further down a way leads to an entry of that name in the folder
/// reached so far, where there is one, and nowhere else; a `.` leads nowhere
/// else, and a step up nowhere at all.
pub proof fn one_step_further(entry: Entry, way: Seq<Part>, name: Seq<char>, i: int)
    ensures
        entry_along(entry, way) matches Some(at) ==> {
            &&& entry_along(entry, way.push(Part::Current)) == Some(at)
            &&& entry_along(entry, way.push(Part::Parent)) is None
            &&& 0 <= i < at.children@.len() && at.children@[i].name@ == name ==> entry_along(
                entry,
                way.push(Part::Name(name)),
            ) is Some
            &&& entry_along(entry, way.push(Part::Name(name))) matches Some(found) ==> found.name@ == name
                && at.children@.contains(found)
        },
        entry_along(entry, way) is None ==> entry_along(entry, way.push(Part::Name(name))) is None,
        entry_along(entry, Seq::empty()) == Some(entry),
    decreases way.len(),
{
    let (a, b, c) = (way.push(Part::Name(name)), way.push(Part::Current), way.push(Part::Parent));
    if way.len() == 0 {
        assert(a.drop_first() =~= Seq::<Part>::empty());
        assert(b.drop_first() =~= Seq::<Part>::empty());
        assert(c.drop_first() =~= Seq::<Part>::empty());
        reveal_with_fuel(entry_along, 2);
        let kids = entry.children@;
        if 0 <= i < kids.len() && kids[i].name@ == name {
            lemma_named_child(kids, name, i);
        }
        if position_of(kids, name) < kids.len() {
            lemma_position(kids, name);
        }
    } else {
        let rest = way.drop_first();
        assert(a.drop_first() =~= rest.push(Part::Name(name)));
        assert(b.drop_first() =~= rest.push(Part::Current));
        assert(c.drop_first() =~= rest.push(Part::Parent));
        assert(a[0] == way[0] && b[0] == way[0] && c[0] == way[0]);
        match way[0] {
            Part::Current => {
                one_step_further(entry, rest, name, i);
            },
            Part::Name(first) => {
                let at = position_of(entry.children@, first);
                if at < entry.children@.len() {
                    one_step_further(entry.children@[at as int], rest, name, i);
                }
            },
            _ => {},
        }
    }
}

/// A tree is called by the last name of its place, or by the place where that
/// has none; a file is a tree of its own length, and a folder one of what is
/// in it.
pub proof fn what_a_tree_is_of(root: Seq<char>, name: Seq<char>, disk: DiskRoot)
    requires
        paths::is_name(name),
    ensures
        root_name(joined(root, name)) == name,
        root_name("/"@) == "/"@,
        !disk.is_dir ==> root_dirs(root, disk) == 0 && root_size(root, disk) == (match disk.len {
            Some(n) => n as nat,
            None => 0,
        }),
        disk.is_dir ==> root_size(root, disk) == kids_size(root, disk.children@, None),
        disk.is_dir && disk.children@.len() == 0 ==> root_dirs(root, disk) == 1 && root_size(root, disk) == 0,
{
    paths::lemma_parts_joined_name(root, name);
    reveal_strlit("/");
    assert("/"@ =~= seq!['/']);
    paths::how_a_path_is_cut(seq!['/'], name);
}

/// Every folder that is entered counts as one, with those inside it; one that
/// is not entered, and anything that is no folder, counts for none.
pub proof fn folders_are_counted(dir: Seq<char>, nodes: Seq<DiskNode>, node: DiskNode, mirror: Option<Seq<char>>)
    ensures
        kids_dirs(dir, Seq::empty(), mirror) == 0,
        kids_dirs(dir, nodes.push(node), mirror) == kids_dirs(dir, nodes, mirror) + kid_dirs(dir, node, mirror),
        node.kind != FileKind::Dir ==> kid_dirs(dir, node, mirror) == 0,
        node.kind == FileKind::Dir && mirror is None && !node.mounted ==> kid_dirs(dir, node, mirror) == 1 + kids_dirs(
            joined(dir, node.name@),
            node.children@,
            None,
        ),
        node.kind == FileKind::Dir && node.mounted && !same_path(joined(dir, node.name@), "/System/Volumes/Data"@)
            ==> kid_dirs(dir, node, mirror) == 0,
{
    assert(nodes.push(node).drop_last() =~= nodes);
}

/// What is left over is folded, however small, but for other volumes, which
/// are shown by themselves.
pub proof fn what_is_folded(rest: Seq<Entry>, entry: Entry)
    ensures
        entry.is_mount ==> markers(rest.push(entry)) == markers(rest).push(entry) && folded(rest.push(entry)) == folded(rest),
        !entry.is_mount ==> folded(rest.push(entry)) == folded(rest).push(entry) && markers(rest.push(entry)) == markers(rest),
        folded(Seq::empty()).len() == 0 && markers(Seq::empty()).len() == 0,
{
    reveal(Seq::filter);
    assert(rest.push(entry).drop_last() =~= rest);
}

/// So many entries are kept as are asked for, and all where there are no more.
pub proof fn how_many_are_kept(n: nat, opts: UsageOptions)
    ensures
        n < opts.max_children ==> kept(n, opts) == n,
        n >= opts.max_children ==> kept(n, opts) == opts.max_children,
{
}

} // verus!
