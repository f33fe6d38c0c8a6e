//! What a walk of the filesystem shows: the plain values that measuring works
//! on.

use vstd::prelude::*;

use crate::paths::{joined, same_path, texts, FsPath};

verus! {

/// What a directory entry is, without following links.
#[derive(Debug, Clone, Copy, PartialEq, Eq, Structural)]
pub enum FileKind {
    File,
    Dir,
    Symlink,
    Other,
}

/// One entry that a walk meets: a node, or the message of the error that came
/// in its place.
#[derive(Debug)]
pub enum WalkEntry {
    Node(FileNode),
    Failed(String),
}

/// A file or a directory with everything beneath it, in the order in which
/// the filesystem lists it.
#[derive(Debug)]
pub struct FileNode {
    /// The last component of the path.
    pub name: String,
    pub kind: FileKind,
    /// The length that the metadata gives, where it can be read.
    pub len: Option<u64>,
    /// What listing the directory gave; not looked at unless `kind` is `Dir`.
    pub children: Vec<WalkEntry>,
}

/// One path as the filesystem shows it.
#[derive(Debug)]
pub struct Probe {
    /// Whether the path, its links followed, is a regular file.
    pub is_file: bool,
    /// Whether the path, its links followed, is a directory.
    pub is_dir: bool,
    /// The length that the metadata gives, links followed.
    pub len: Option<u64>,
    /// What a walk from the path meets.
    pub walk: WalkEntry,
}

/// One entry of a directory listing, or the message of the error that came in
/// its place.
#[derive(Debug)]
pub enum ListedChild {
    Child(String, Probe),
    Failed(String),
}

/// A path that exists.
#[derive(Debug)]
pub struct Present {
    pub probe: Probe,
    /// What listing the path as a directory gave.
    pub children: Result<Vec<ListedChild>, String>,
}

/// `path` is one of `places`.
pub open spec fn one_of(path: Seq<char>, places: Seq<Seq<char>>) -> bool {
    exists|i: int| 0 <= i < places.len() && same_path(#[trigger] places[i], path)
}

/// Whether `path` is one of `places`.
pub fn is_one_of(path: &FsPath, places: &Vec<FsPath>) -> (r: bool)
    ensures
        r == one_of(path@, texts(places@)),
{
    let mut i: usize = 0;
    while i < places.len()
        invariant
            i <= places@.len(),
            forall|j: int| 0 <= j < i ==> !same_path(#[trigger] texts(places@)[j], path@),
        decreases places@.len() - i,
    {
        if places[i].same(path) {
            assert(same_path(texts(places@)[i as int], path@));
            return true;
        }
        i += 1;
    }
    false
}

/// A length, or nothing where it could not be read.
pub open spec fn len_or_zero(len: Option<u64>) -> nat {
    match len {
        Some(n) => n as nat,
        None => 0,
    }
}

/// What the entry itself weighs: only regular files weigh anything.
pub open spec fn own_size(node: FileNode) -> nat {
    if node.kind == FileKind::File {
        len_or_zero(node.len)
    } else {
        0
    }
}

/// The bytes of the files at and beneath `path`, leaving out everything at or
/// beneath one of `excluded`.
pub open spec fn entry_size(path: Seq<char>, entry: WalkEntry, excluded: Seq<Seq<char>>) -> nat
    decreases entry,
{
    match entry {
        WalkEntry::Failed(_) => 0,
        WalkEntry::Node(node) => if one_of(path, excluded) {
            0
        } else if node.kind == FileKind::Dir {
            children_size(path, node.children@, excluded)
        } else {
            own_size(node)
        },
    }
}

/// The bytes beneath a directory.
pub open spec fn children_size(path: Seq<char>, children: Seq<WalkEntry>, excluded: Seq<Seq<char>>) -> nat
    decreases children,
{
    if children.len() == 0 {
        0
    } else {
        children_size(path, children.drop_last(), excluded) + entry_size(
            child_path(path, children.last()),
            children.last(),
            excluded,
        )
    }
}

/// The path of an entry of the directory `path`.
pub open spec fn child_path(path: Seq<char>, entry: WalkEntry) -> Seq<char> {
    match entry {
        WalkEntry::Node(node) => joined(path, node.name@),
        WalkEntry::Failed(_) => path,
    }
}

/// The warnings that a walk from `path` gives, in the order in which it meets
/// them.
pub open spec fn entry_warnings(path: Seq<char>, entry: WalkEntry, excluded: Seq<Seq<char>>) -> Seq<Seq<char>>
    decreases entry,
{
    match entry {
        WalkEntry::Failed(message) => seq!["walk error: "@ + message@],
        WalkEntry::Node(node) => if one_of(path, excluded) || node.kind != FileKind::Dir {
            Seq::empty()
        } else {
            children_warnings(path, node.children@, excluded)
        },
    }
}

/// The warnings from beneath a directory.
pub open spec fn children_warnings(path: Seq<char>, children: Seq<WalkEntry>, excluded: Seq<Seq<char>>) -> Seq<Seq<char>>
    decreases children,
{
    if children.len() == 0 {
        Seq::empty()
    } else {
        children_warnings(path, children.drop_last(), excluded) + entry_warnings(
            child_path(path, children.last()),
            children.last(),
            excluded,
        )
    }
}

/// The size of a path: a file weighs what its metadata says, anything else
/// what a walk from it adds up to.
pub open spec fn probe_size(path: Seq<char>, probe: Probe, excluded: Seq<Seq<char>>) -> nat {
    if probe.is_file {
        len_or_zero(probe.len)
    } else {
        entry_size(path, probe.walk, excluded)
    }
}

/// The warnings that sizing a path gives.
pub open spec fn probe_warnings(path: Seq<char>, probe: Probe, excluded: Seq<Seq<char>>) -> Seq<Seq<char>> {
    if probe.is_file {
        Seq::empty()
    } else {
        entry_warnings(path, probe.walk, excluded)
    }
}

/// What the metadata of a path says, its links followed.
#[derive(Debug, Clone, Copy)]
pub struct Stat {
    pub is_file: bool,
    pub is_dir: bool,
    pub len: u64,
    /// When it was last modified, in seconds since 1970.
    pub modified_secs: Option<u64>,
}

/// One entry of a directory listing.
#[derive(Debug)]
pub struct DirItem {
    pub name: String,
    /// Whether the entry, links not followed, is a directory.
    pub is_dir: bool,
}

/// The questions that a search asks of the filesystem on its way.
pub trait Disk {
    /// What the metadata of `path` says; nothing where it does not exist.
    fn stat(&self, path: &FsPath) -> (r: Option<Stat>);

    /// What a walk from `path` meets.
    fn probe(&self, path: &FsPath) -> (r: Probe);

    /// What the directory `path` lists, where it can be read.
    fn list(&self, path: &FsPath) -> (r: Option<Vec<DirItem>>);

    /// What the file at `path` holds, where it can be read.
    fn read(&self, path: &FsPath) -> (r: Option<Vec<u8>>);
}

/// A filesystem that stands still: one answer to every question.
pub struct StillDisk {
    pub stat: spec_fn(Seq<char>) -> Option<Stat>,
    pub size: spec_fn(Seq<char>) -> nat,
    pub list: spec_fn(Seq<char>) -> Option<Seq<(Seq<char>, bool)>>,
    pub bytes: spec_fn(Seq<char>) -> Option<Seq<u8>>,
}

/// What a listing shows.
pub open spec fn entries_view(entries: Seq<DirItem>) -> Seq<(Seq<char>, bool)> {
    entries.map_values(|e: DirItem| (e.name@, e.is_dir))
}

/// What a file holds.
pub open spec fn bytes_view(bytes: Option<Vec<u8>>) -> Option<Seq<u8>> {
    match bytes {
        Some(b) => Some(b@),
        None => None,
    }
}

/// Every answer that `disk` can give is that of `still`.
pub open spec fn stands_still<D: Disk>(disk: &D, still: StillDisk) -> bool {
    &&& forall|p: FsPath, r: Option<Stat>| #[trigger] call_ensures(D::stat, (disk, &p), r) ==> r == (still.stat)(p@)
    &&& forall|p: FsPath, r: Probe| #[trigger]
        call_ensures(D::probe, (disk, &p), r) ==> probe_size(p@, r, Seq::empty()) == (still.size)(p@)
    &&& forall|p: FsPath, r: Option<Vec<DirItem>>| #[trigger]
        call_ensures(D::list, (disk, &p), r) ==> match r {
            Some(entries) => (still.list)(p@) == Some(entries_view(entries@)),
            None => (still.list)(p@) is None,
        }
    &&& forall|p: FsPath, r: Option<Vec<u8>>| #[trigger]
        call_ensures(D::read, (disk, &p), r) ==> bytes_view(r) == (still.bytes)(p@)
}

/// Every size that `disk` can show fits a counter.
pub open spec fn sizes_fit<D: Disk>(disk: &D) -> bool {
    forall|p: FsPath, r: Probe| #[trigger]
        call_ensures(D::probe, (disk, &p), r) ==> probe_size(p@, r, Seq::empty()) <= u64::MAX
}

/// What a walk adds up: a file its length, links and other things nothing, a
/// folder what its entries add up to; and nothing at a place that is left out.
pub proof fn what_a_walk_adds_up(
    path: Seq<char>,
    node: FileNode,
    children: Seq<WalkEntry>,
    child: WalkEntry,
    excluded: Seq<Seq<char>>,
)
    ensures
        children_size(path, children.push(child), excluded) == children_size(path, children, excluded) + (match child {
            WalkEntry::Node(inner) => entry_size(joined(path, inner.name@), child, excluded),
            WalkEntry::Failed(_) => 0,
        }),
        children_size(path, Seq::empty(), excluded) == 0,
        entry_size(path, WalkEntry::Node(node), Seq::empty()) == (match node.kind {
            FileKind::File => match node.len {
                Some(n) => n as nat,
                None => 0,
            },
            FileKind::Dir => children_size(path, node.children@, Seq::empty()),
            _ => 0,
        }),
        one_of(path, excluded) ==> entry_size(path, WalkEntry::Node(node), excluded) == 0,
        excluded.contains(path) ==> one_of(path, excluded),
{
    assert(children.push(child).drop_last() =~= children);
    assert(children.push(child).last() == child);
    if child is Failed {
        assert(entry_size(path, child, excluded) == 0);
    }
    if excluded.contains(path) {
        let i = choose|i: int| 0 <= i < excluded.len() && excluded[i] == path;
        assert(same_path(excluded[i], path));
    }
    assert(!one_of(path, Seq::empty()));
}

/// A place is sized by its length where it is a regular file, its links
/// followed, and else by what a walk adds up.
pub proof fn how_a_place_is_sized(path: Seq<char>, probe: Probe, excluded: Seq<Seq<char>>)
    ensures
        probe.is_file && probe.len is Some ==> probe_size(path, probe, excluded) == probe.len->0,
        probe.is_file && probe.len is None ==> probe_size(path, probe, excluded) == 0,
        !probe.is_file ==> probe_size(path, probe, excluded) == entry_size(path, probe.walk, excluded),
        probe.is_file ==> probe_warnings(path, probe, excluded).len() == 0,
{
}

/// Every entry that could not be walked is warned of, wherever it is, unless
/// it lies where nothing is looked at; nothing else is warned of.
pub proof fn what_a_walk_warns_of(
    path: Seq<char>,
    node: FileNode,
    children: Seq<WalkEntry>,
    message: String,
    excluded: Seq<Seq<char>>,
)
    ensures
        children_warnings(path, Seq::empty(), excluded).len() == 0,
        children_warnings(path, children.push(WalkEntry::Failed(message)), excluded) == children_warnings(
            path,
            children,
            excluded,
        ).push("walk error: "@ + message@),
        children_warnings(path, children.push(WalkEntry::Node(node)), excluded) == children_warnings(
            path,
            children,
            excluded,
        ) + entry_warnings(joined(path, node.name@), WalkEntry::Node(node), excluded),
        node.kind == FileKind::Dir && !one_of(path, excluded) ==> entry_warnings(path, WalkEntry::Node(node), excluded)
            == children_warnings(path, node.children@, excluded),
        node.kind != FileKind::Dir || one_of(path, excluded) ==> entry_warnings(
            path,
            WalkEntry::Node(node),
            excluded,
        ).len() == 0,
{
    let failed = children.push(WalkEntry::Failed(message));
    assert(failed.drop_last() =~= children);
    assert(children.push(WalkEntry::Node(node)).drop_last() =~= children);
    assert(entry_warnings(path, failed.last(), excluded) == seq!["walk error: "@ + message@]);
    assert(children_warnings(path, failed, excluded) =~= children_warnings(path, children, excluded).push(
        "walk error: "@ + message@,
    ));
}

} // verus!
