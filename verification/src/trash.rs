//! The Trash: accounting for what was put there, and emptying it.
//!
//! What the cleaner removes goes to the Trash, so space is not returned until
//! the Trash is emptied. Emptying deletes for good, and is never part of a
//! clean.

use vstd::prelude::*;

use crate::disk::{entries_view, sizes_fit, stands_still, DirItem, Disk, StillDisk};
use crate::model::capped;
use crate::paths::{joined, opt_view, texts, FsPath};
use crate::scanner;
use crate::text::{self, digits};

verus! {

/// What is sitting in the Trash.
#[derive(Debug)]
pub struct TrashSummary {
    /// Total bytes across every trash directory.
    pub bytes: u64,
    /// Number of top-level entries, not files.
    pub items: usize,
}

impl Default for TrashSummary {
    fn default() -> (r: Self)
        ensures
            r.bytes == 0,
            r.items == 0,
    {
        TrashSummary { bytes: 0, items: 0 }
    }
}

/// The outcome of emptying.
#[derive(Debug)]
pub struct EmptyReport {
    /// Top-level entries that were removed.
    pub removed: usize,
    /// Entries that could not be removed, with the reason.
    pub failed: Vec<(String, String)>,
    /// Bytes freed, measured before removal.
    pub bytes_reclaimed: u64,
}

impl Default for EmptyReport {
    fn default() -> (r: Self)
        ensures
            r.removed == 0,
            r.failed@.len() == 0,
            r.bytes_reclaimed == 0,
    {
        EmptyReport { removed: 0, failed: Vec::new(), bytes_reclaimed: 0 }
    }
}

/// `path` is a directory of the filesystem.
pub open spec fn is_dir_in(still: StillDisk, path: Seq<char>) -> bool {
    (still.stat)(path) is Some && (still.stat)(path)->0.is_dir
}

/// The Trash of user `uid` on a volume.
pub open spec fn volume_trash(volume: Seq<char>, uid: u32) -> Seq<char> {
    joined(joined(joined("/Volumes"@, volume), ".Trashes"@), digits(uid as nat))
}

/// The trash directories among those of the listed volumes.
pub open spec fn volume_trashes(still: StillDisk, volumes: Seq<(Seq<char>, bool)>, uid: u32) -> Seq<Seq<char>>
    decreases volumes.len(),
{
    if volumes.len() == 0 {
        Seq::empty()
    } else {
        let before = volume_trashes(still, volumes.drop_last(), uid);
        let place = volume_trash(volumes.last().0, uid);
        if is_dir_in(still, place) {
            before.push(place)
        } else {
            before
        }
    }
}

/// The trash directory of the home.
pub open spec fn home_trash(still: StillDisk, home: Option<Seq<char>>) -> Seq<Seq<char>> {
    match home {
        Some(home) => if is_dir_in(still, joined(home, ".Trash"@)) {
            seq![joined(home, ".Trash"@)]
        } else {
            Seq::empty()
        },
        None => Seq::empty(),
    }
}

/// Every trash directory of the user: that of the home, and one on each
/// volume.
pub open spec fn trashes(still: StillDisk, home: Option<Seq<char>>, uid: u32) -> Seq<Seq<char>> {
    home_trash(still, home) + match (still.list)("/Volumes"@) {
        Some(volumes) => volume_trashes(still, volumes, uid),
        None => Seq::empty(),
    }
}

fn is_dir<D: Disk>(path: &FsPath, disk: &D) -> (r: bool)
    ensures
        forall|still: StillDisk| #[trigger] stands_still(disk, still) ==> r == is_dir_in(still, path@),
{
    let stat = disk.stat(path);
    assert(call_ensures(D::stat, (disk, path), stat));
    match stat {
        Some(stat) => stat.is_dir,
        None => false,
    }
}

/// Every trash directory of the user: that of the home, and one on each
/// volume.
pub fn trash_dirs<D: Disk>(home: Option<&FsPath>, uid: u32, disk: &D) -> (r: Vec<FsPath>)
    ensures
        forall|i: int| 0 <= i < r@.len() ==> is_trash((#[trigger] r@[i])@, opt_view(home), uid),
        forall|still: StillDisk| #[trigger] stands_still(disk, still) ==> texts(r@) == trashes(still, opt_view(home), uid),
{
    let mut dirs: Vec<FsPath> = Vec::new();
    if let Some(home) = home {
        let place = home.join(".Trash");
        if is_dir(&place, disk) {
            dirs.push(place);
        }
    }
    let ghost start = texts(dirs@);
    assert forall|still: StillDisk| #[trigger] stands_still(disk, still) implies start == home_trash(
        still,
        opt_view(home),
    ) by {
        assert(start =~= home_trash(still, opt_view(home)));
    }
    let root = FsPath::new("/Volumes");
    let listing = disk.list(&root);
    assert(call_ensures(D::list, (disk, &root), listing));
    if let Some(volumes) = listing {
        let ghost all = entries_view(volumes@);
        let user = text::decimal(uid as u64);
        let mut i: usize = 0;
        assert forall|still: StillDisk| #[trigger] stands_still(disk, still) implies texts(dirs@) == start
            + volume_trashes(still, all.take(0), uid) by {
            assert(texts(dirs@) =~= start + volume_trashes(still, all.take(0), uid));
        }
        while i < volumes.len()
            invariant
                forall|k: int| 0 <= k < dirs@.len() ==> is_trash((#[trigger] dirs@[k])@, opt_view(home), uid),
                root@ == "/Volumes"@,
                user@ == digits(uid as nat),
                all == entries_view(volumes@),
                i <= volumes@.len(),
                forall|still: StillDisk| #[trigger]
                    stands_still(disk, still) ==> texts(dirs@) == start + volume_trashes(still, all.take(i as int), uid),
            decreases volumes@.len() - i,
        {
            let ghost before = texts(dirs@);
            assert(all.take(i + 1).drop_last() =~= all.take(i as int));
            let place = root.join(volumes[i].name.as_str()).join(".Trashes").join(user.as_str());
            assert(all.take(i + 1).last().0 == volumes@[i as int].name@);
            if is_dir(&place, disk) {
                let ghost shown = place@;
                dirs.push(place);
                assert(shown == volume_trash(volumes@[i as int].name@, uid));
                assert(texts(dirs@) =~= before.push(shown));
                assert forall|still: StillDisk| #[trigger] stands_still(disk, still) implies texts(dirs@) == start
                    + volume_trashes(still, all.take(i + 1), uid) by {
                    assert(texts(dirs@) =~= start + volume_trashes(still, all.take(i + 1), uid));
                }
            }
            i += 1;
        }
        assert(all.take(i as int) =~= all);
    } else {
        assert forall|still: StillDisk| #[trigger] stands_still(disk, still) implies texts(dirs@) == trashes(
            still,
            opt_view(home),
            uid,
        ) by {
            assert(texts(dirs@) =~= trashes(still, opt_view(home), uid));
        }
    }
    dirs
}

/// What is in a listed trash directory: all but Finder's own `.DS_Store`.
pub open spec fn trashed_among(still: StillDisk, dir: Seq<char>, listed: Seq<(Seq<char>, bool)>) -> Seq<(Seq<char>, nat)>
    decreases listed.len(),
{
    if listed.len() == 0 {
        Seq::empty()
    } else {
        let before = trashed_among(still, dir, listed.drop_last());
        let name = listed.last().0;
        if name == ".DS_Store"@ {
            before
        } else {
            before.push((joined(dir, name), (still.size)(joined(dir, name))))
        }
    }
}

/// What is in the trash directories, with sizes.
pub open spec fn trashed_in(still: StillDisk, dirs: Seq<Seq<char>>) -> Seq<(Seq<char>, nat)>
    decreases dirs.len(),
{
    if dirs.len() == 0 {
        Seq::empty()
    } else {
        trashed_in(still, dirs.drop_last()) + match (still.list)(dirs.last()) {
            Some(listed) => trashed_among(still, dirs.last(), listed),
            None => Seq::empty(),
        }
    }
}

/// The path is that of an entry of the directory.
pub open spec fn entry_of(path: Seq<char>, dir: Seq<char>) -> bool {
    exists|name: Seq<char>| path == #[trigger] joined(dir, name)
}

/// The path is that of an entry of a trash directory of the user.
pub open spec fn in_trash(path: Seq<char>, home: Option<Seq<char>>, uid: u32) -> bool {
    exists|dir: Seq<char>| is_trash(dir, home, uid) && #[trigger] entry_of(path, dir)
}

/// The directory is where the Trash of the user is, at home or on a volume.
pub open spec fn is_trash(dir: Seq<char>, home: Option<Seq<char>>, uid: u32) -> bool {
    ||| home is Some && dir == joined(home->0, ".Trash"@)
    ||| exists|volume: Seq<char>| dir == #[trigger] volume_trash(volume, uid)
}

/// Paths with their sizes.
pub open spec fn sized_view(entries: Seq<(FsPath, u64)>) -> Seq<(Seq<char>, nat)> {
    entries.map_values(|e: (FsPath, u64)| (e.0@, e.1 as nat))
}

fn add_entries<D: Disk>(dir: &FsPath, listed: &Vec<DirItem>, disk: &D, out: &mut Vec<(FsPath, u64)>)
    requires
        sizes_fit(disk),
    ensures
        forall|k: int| 0 <= k < old(out)@.len() ==> k < final(out)@.len() && #[trigger] final(out)@[k] == old(out)@[k],
        forall|k: int|
            old(out)@.len() <= k < final(out)@.len() ==> entry_of((#[trigger] final(out)@[k]).0@, dir@),
        forall|still: StillDisk| #[trigger]
            stands_still(disk, still) ==> sized_view(final(out)@) == sized_view(old(out)@) + trashed_among(
                still,
                dir@,
                entries_view(listed@),
            ),
{
    let ghost had = out@;
    let ghost start = sized_view(out@);
    let ghost all = entries_view(listed@);
    let mut i: usize = 0;
    assert forall|still: StillDisk| #[trigger] stands_still(disk, still) implies sized_view(out@) == start
        + trashed_among(still, dir@, all.take(0)) by {
        assert(sized_view(out@) =~= start + trashed_among(still, dir@, all.take(0)));
    }
    while i < listed.len()
        invariant
            sizes_fit(disk),
            had.len() <= out@.len(),
            forall|k: int| 0 <= k < had.len() ==> #[trigger] out@[k] == had[k],
            forall|k: int| had.len() <= k < out@.len() ==> entry_of((#[trigger] out@[k]).0@, dir@),
            all == entries_view(listed@),
            i <= listed@.len(),
            forall|still: StillDisk| #[trigger]
                stands_still(disk, still) ==> sized_view(out@) == start + trashed_among(still, dir@, all.take(i as int)),
        decreases listed@.len() - i,
    {
        let ghost before = sized_view(out@);
        assert(all.take(i + 1).drop_last() =~= all.take(i as int));
        let name: &String = &listed[i].name;
        assert(all.take(i + 1).last().0 == name@);
        if !text::same_text(name.as_str(), ".DS_Store") {
            let path = dir.join(name.as_str());
            let probe = disk.probe(&path);
            assert(call_ensures(D::probe, (disk, &path), probe));
            let mut warnings: Vec<String> = Vec::new();
            let size = scanner::dir_size(&path, &probe, &mut warnings);
            let ghost shown = (path@, size as nat);
            assert(path@ == joined(dir@, name@));
            out.push((path, size));
            assert(sized_view(out@) =~= before.push(shown));
            assert forall|still: StillDisk| #[trigger] stands_still(disk, still) implies sized_view(out@) == start
                + trashed_among(still, dir@, all.take(i + 1)) by {
                assert(sized_view(out@) =~= start + trashed_among(still, dir@, all.take(i + 1)));
            }
        }
        i += 1;
    }
    assert(all.take(i as int) =~= all);
}

/// What is in the Trash, with sizes: the top-level entries of every trash
/// directory.
pub fn entries<D: Disk>(home: Option<&FsPath>, uid: u32, disk: &D) -> (r: Vec<(FsPath, u64)>)
    requires
        sizes_fit(disk),
    ensures
        forall|i: int| 0 <= i < r@.len() ==> in_trash((#[trigger] r@[i]).0@, opt_view(home), uid),
        forall|still: StillDisk| #[trigger]
            stands_still(disk, still) ==> sized_view(r@) == trashed_in(still, trashes(still, opt_view(home), uid)),
{
    let dirs = trash_dirs(home, uid, disk);
    let ghost all = texts(dirs@);
    let mut out: Vec<(FsPath, u64)> = Vec::new();
    let mut i: usize = 0;
    assert(sized_view(out@) =~= Seq::<(Seq<char>, nat)>::empty());
    while i < dirs.len()
        invariant
            sizes_fit(disk),
            forall|k: int| 0 <= k < dirs@.len() ==> is_trash((#[trigger] dirs@[k])@, opt_view(home), uid),
            forall|k: int| 0 <= k < out@.len() ==> in_trash((#[trigger] out@[k]).0@, opt_view(home), uid),
            all == texts(dirs@),
            i <= dirs@.len(),
            forall|still: StillDisk| #[trigger]
                stands_still(disk, still) ==> sized_view(out@) == trashed_in(still, all.take(i as int)),
        decreases dirs@.len() - i,
    {
        let ghost before = sized_view(out@);
        assert(all.take(i + 1).drop_last() =~= all.take(i as int));
        assert(all.take(i + 1).last() == dirs@[i as int]@);
        let listing = disk.list(&dirs[i]);
        assert(call_ensures(D::list, (disk, &dirs@[i as int]), listing));
        match listing {
            Some(listed) => {
                let ghost had = out@;
                add_entries(&dirs[i], &listed, disk, &mut out);
                assert forall|k: int| 0 <= k < out@.len() implies in_trash(
                    (#[trigger] out@[k]).0@,
                    opt_view(home),
                    uid,
                ) by {
                    if k < had.len() {
                        assert(out@[k] == had[k]);
                    } else {
                        assert(is_trash(dirs@[i as int]@, opt_view(home), uid));
                        assert(entry_of(out@[k].0@, dirs@[i as int]@));
                    }
                }
            },
            None => {
                assert forall|still: StillDisk| #[trigger] stands_still(disk, still) implies sized_view(out@)
                    == trashed_in(still, all.take(i + 1)) by {
                    assert(trashed_in(still, all.take(i + 1)) =~= before);
                }
            },
        }
        i += 1;
    }
    assert(all.take(i as int) =~= all);
    out
}

/// The sizes of a list of entries, added up.
pub open spec fn sizes_of(entries: Seq<(Seq<char>, nat)>) -> nat
    decreases entries.len(),
{
    if entries.len() == 0 {
        0
    } else {
        sizes_of(entries.drop_last()) + entries.last().1
    }
}

/// What a list of entries comes to.
pub fn summarize(entries: &Vec<(FsPath, u64)>) -> (r: TrashSummary)
    ensures
        r.items == entries@.len(),
        r.bytes == capped(sizes_of(sized_view(entries@))),
{
    let ghost all = sized_view(entries@);
    let mut bytes: u64 = 0;
    let mut i: usize = 0;
    while i < entries.len()
        invariant
            all == sized_view(entries@),
            i <= entries@.len(),
            bytes == capped(sizes_of(all.take(i as int))),
        decreases entries@.len() - i,
    {
        assert(all.take(i + 1).drop_last() =~= all.take(i as int));
        bytes = bytes.saturating_add(entries[i].1);
        i += 1;
    }
    assert(all.take(i as int) =~= all);
    TrashSummary { bytes, items: entries.len() }
}

/// Measures what the Trash holds.
pub fn summary<D: Disk>(home: Option<&FsPath>, uid: u32, disk: &D) -> (r: TrashSummary)
    requires
        sizes_fit(disk),
    ensures
        forall|still: StillDisk| #[trigger]
            stands_still(disk, still) ==> {
                let held = trashed_in(still, trashes(still, opt_view(home), uid));
                r.items == held.len() && r.bytes == capped(sizes_of(held))
            },
{
    let held = entries(home, uid, disk);
    summarize(&held)
}

/// What became of the entries, as the report tells it.
pub open spec fn emptied(
    r: EmptyReport,
    entries: Seq<(FsPath, u64)>,
    outcomes: Seq<Result<(), String>>,
) -> bool {
    &&& r.removed == gone(entries, outcomes).len()
    &&& r.bytes_reclaimed == capped(sizes_of(gone(entries, outcomes)))
    &&& r.failed@.len() == left(entries, outcomes).len()
    &&& forall|i: int|
        0 <= i < r.failed@.len() ==> ((#[trigger] r.failed@[i]).0@, r.failed@[i].1@) == left(entries, outcomes)[i]
}

/// The entries that were removed.
pub open spec fn gone(entries: Seq<(FsPath, u64)>, outcomes: Seq<Result<(), String>>) -> Seq<(Seq<char>, nat)>
    decreases outcomes.len(),
{
    if outcomes.len() == 0 {
        Seq::empty()
    } else {
        let before = gone(entries, outcomes.drop_last());
        let entry = entries[outcomes.len() - 1];
        match outcomes.last() {
            Ok(_) => before.push((entry.0@, entry.1 as nat)),
            Err(_) => before,
        }
    }
}

/// The entries that could not be removed, each with the reason.
pub open spec fn left(entries: Seq<(FsPath, u64)>, outcomes: Seq<Result<(), String>>) -> Seq<(Seq<char>, Seq<char>)>
    decreases outcomes.len(),
{
    if outcomes.len() == 0 {
        Seq::empty()
    } else {
        let before = left(entries, outcomes.drop_last());
        match outcomes.last() {
            Ok(_) => before,
            Err(why) => before.push((entries[outcomes.len() - 1].0@, why@)),
        }
    }
}

/// `outcomes` are what `remove` can say of each of the entries.
pub open spec fn each_removed<R: Fn(&FsPath) -> Result<(), String>>(
    remove: R,
    entries: Seq<(FsPath, u64)>,
    outcomes: Seq<Result<(), String>>,
) -> bool {
    &&& outcomes.len() == entries.len()
    &&& forall|i: int| 0 <= i < entries.len() ==> call_ensures(remove, (&entries[i].0,), #[trigger] outcomes[i])
}

/// Removes every one of the entries. A failure on one is recorded and the
/// rest still go.
pub fn empty_entries<R: Fn(&FsPath) -> Result<(), String>>(entries: &Vec<(FsPath, u64)>, remove: &R) -> (r: EmptyReport)
    requires
        forall|i: int| 0 <= i < entries@.len() ==> call_requires(*remove, (&(#[trigger] entries@[i]).0,)),
    ensures
        exists|outcomes: Seq<Result<(), String>>| #[trigger]
            each_removed(*remove, entries@, outcomes) && emptied(r, entries@, outcomes),
{
    let mut report = EmptyReport::default();
    let ghost mut outcomes: Seq<Result<(), String>> = Seq::empty();
    let mut i: usize = 0;
    while i < entries.len()
        invariant
            forall|k: int| 0 <= k < entries@.len() ==> call_requires(*remove, (&(#[trigger] entries@[k]).0,)),
            i <= entries@.len(),
            outcomes.len() == i,
            report.removed <= i,
            forall|k: int| 0 <= k < i ==> call_ensures(*remove, (&entries@[k].0,), #[trigger] outcomes[k]),
            emptied(report, entries@, outcomes),
        decreases entries@.len() - i,
    {
        let path: &FsPath = &entries[i].0;
        let outcome = remove(path);
        let ghost before = outcomes;
        proof {
            outcomes = outcomes.push(outcome);
            assert(outcomes.drop_last() =~= before);
        }
        match outcome {
            Ok(()) => {
                report.removed = report.removed + 1;
                report.bytes_reclaimed = report.bytes_reclaimed.saturating_add(entries[i].1);
                assert(gone(entries@, outcomes).drop_last() =~= gone(entries@, before));
            },
            Err(why) => {
                report.failed.push((path.as_str().to_owned(), why));
            },
        }
        i += 1;
    }
    assert(each_removed(*remove, entries@, outcomes));
    report
}

/// Permanently deletes everything in the Trash. Nothing but its entries is
/// handed to `remove`.
pub fn empty<D: Disk, R: Fn(&FsPath) -> Result<(), String>>(
    home: Option<&FsPath>,
    uid: u32,
    disk: &D,
    remove: &R,
) -> (r: EmptyReport)
    requires
        sizes_fit(disk),
        forall|p: &FsPath| in_trash(p@, opt_view(home), uid) ==> #[trigger] call_requires(*remove, (p,)),
    ensures
        exists|held: Seq<(FsPath, u64)>, outcomes: Seq<Result<(), String>>|
            (forall|still: StillDisk| #[trigger]
                stands_still(disk, still) ==> sized_view(held) == trashed_in(
                    still,
                    trashes(still, opt_view(home), uid),
                )) && #[trigger] each_removed(*remove, held, outcomes) && emptied(r, held, outcomes),
{
    let held = entries(home, uid, disk);
    empty_entries(&held, remove)
}

/// Removes one entry of the Trash. `is_dir` looks at the entry itself and not
/// at what a link points to, so that a link is unlinked and what it points to
/// is not walked into.
pub fn remove<L, T, U>(path: &FsPath, is_dir: &L, remove_tree: &T, unlink: &U) -> (r: Result<(), String>) where
    L: Fn(&FsPath) -> Result<bool, String>,
    T: Fn(&FsPath) -> Result<(), String>,
    U: Fn(&FsPath) -> Result<(), String>,

    requires
        call_requires(*is_dir, (path,)),
        call_requires(*remove_tree, (path,)),
        call_requires(*unlink, (path,)),
    ensures
        exists|kind: Result<bool, String>| #[trigger]
            call_ensures(*is_dir, (path,), kind) && match kind {
                Err(why) => r == Err::<(), String>(why),
                Ok(true) => call_ensures(*remove_tree, (path,), r),
                Ok(false) => call_ensures(*unlink, (path,), r),
            },
{
    match is_dir(path) {
        Err(why) => Err(why),
        Ok(true) => remove_tree(path),
        Ok(false) => unlink(path),
    }
}

/// Every entry is either removed or reported as left, with nothing counted
/// twice.
pub proof fn every_entry_is_accounted_for(entries: Seq<(FsPath, u64)>, outcomes: Seq<Result<(), String>>)
    requires
        outcomes.len() <= entries.len(),
    ensures
        gone(entries, outcomes).len() + left(entries, outcomes).len() == outcomes.len(),
        sizes_of(gone(entries, outcomes)) <= sizes_of(sized_view(entries.take(outcomes.len() as int))),
    decreases outcomes.len(),
{
    if outcomes.len() > 0 {
        let n = outcomes.len() as int;
        let front = outcomes.drop_last();
        every_entry_is_accounted_for(entries, front);
        assert(sized_view(entries.take(n)).drop_last() =~= sized_view(entries.take(n - 1)));
        if outcomes.last() is Ok {
            assert(gone(entries, outcomes).drop_last() =~= gone(entries, front));
        }
    }
}

proof fn lemma_volume_trashes(still: StillDisk, volumes: Seq<(Seq<char>, bool)>, uid: u32)
    ensures
        forall|k: int|
            0 <= k < volumes.len() && is_dir_in(
                still,
                joined(joined(joined("/Volumes"@, (#[trigger] volumes[k]).0), ".Trashes"@), digits(uid as nat)),
            ) ==> volume_trashes(still, volumes, uid).contains(
                joined(joined(joined("/Volumes"@, volumes[k].0), ".Trashes"@), digits(uid as nat)),
            ),
        forall|i: int|
            0 <= i < volume_trashes(still, volumes, uid).len() ==> is_dir_in(
                still,
                #[trigger] volume_trashes(still, volumes, uid)[i],
            ),
    decreases volumes.len(),
{
    if volumes.len() > 0 {
        let front = volumes.drop_last();
        lemma_volume_trashes(still, front, uid);
        let (before, all) = (volume_trashes(still, front, uid), volume_trashes(still, volumes, uid));
        assert forall|k: int|
            0 <= k < volumes.len() && is_dir_in(
                still,
                joined(joined(joined("/Volumes"@, (#[trigger] volumes[k]).0), ".Trashes"@), digits(uid as nat)),
            ) implies all.contains(joined(joined(joined("/Volumes"@, volumes[k].0), ".Trashes"@), digits(uid as nat))) by {
            let place = joined(joined(joined("/Volumes"@, volumes[k].0), ".Trashes"@), digits(uid as nat));
            if k < front.len() {
                assert(front[k] == volumes[k]);
                let i = choose|i: int| 0 <= i < before.len() && before[i] == place;
                assert(all[i] == place);
            } else {
                assert(all[all.len() - 1] == place);
            }
        }
        assert forall|i: int| 0 <= i < all.len() implies is_dir_in(still, #[trigger] all[i]) by {
            if i < before.len() {
                assert(all[i] == before[i]);
            }
        }
    }
}

/// Every Trash of the user is looked at: the one in the home, and one on each
/// volume.
pub proof fn every_trash_is_looked_at(
    still: StillDisk,
    home: Option<Seq<char>>,
    uid: u32,
    volumes: Seq<(Seq<char>, bool)>,
    k: int,
)
    ensures
        home is Some && is_dir_in(still, joined(home->0, ".Trash"@)) ==> trashes(still, home, uid).contains(
            joined(home->0, ".Trash"@),
        ),
        (still.list)("/Volumes"@) == Some(volumes) && 0 <= k < volumes.len() && is_dir_in(
            still,
            joined(joined(joined("/Volumes"@, volumes[k].0), ".Trashes"@), digits(uid as nat)),
        ) ==> trashes(still, home, uid).contains(
            joined(joined(joined("/Volumes"@, volumes[k].0), ".Trashes"@), digits(uid as nat)),
        ),
{
    let all = trashes(still, home, uid);
    let own = home_trash(still, home);
    if home is Some && is_dir_in(still, joined(home->0, ".Trash"@)) {
        assert(all[0] == joined(home->0, ".Trash"@));
    }
    if (still.list)("/Volumes"@) == Some(volumes) && 0 <= k < volumes.len() {
        lemma_volume_trashes(still, volumes, uid);
        let place = joined(joined(joined("/Volumes"@, volumes[k].0), ".Trashes"@), digits(uid as nat));
        let rest = volume_trashes(still, volumes, uid);
        if is_dir_in(still, place) {
            let i = choose|i: int| 0 <= i < rest.len() && rest[i] == place;
            assert(all[own.len() + i] == place);
        }
    }
}

proof fn lemma_trashed_among(still: StillDisk, dir: Seq<char>, listed: Seq<(Seq<char>, bool)>)
    ensures
        forall|k: int|
            0 <= k < listed.len() && (#[trigger] listed[k]).0 != ".DS_Store"@ ==> trashed_among(still, dir, listed).contains(
                (joined(dir, listed[k].0), (still.size)(joined(dir, listed[k].0))),
            ),
        forall|i: int|
            0 <= i < trashed_among(still, dir, listed).len() ==> listed_in_trash(
                #[trigger] trashed_among(still, dir, listed)[i],
                still,
                dir,
                listed,
            ),
        (forall|k: int| 0 <= k < listed.len() ==> (#[trigger] listed[k]).0 != ".DS_Store"@) ==> trashed_among(
            still,
            dir,
            listed,
        ).len() == listed.len(),
        trashed_among(still, dir, listed).len() <= listed.len(),
    decreases listed.len(),
{
    if listed.len() > 0 {
        let front = listed.drop_last();
        lemma_trashed_among(still, dir, front);
        let (before, all) = (trashed_among(still, dir, front), trashed_among(still, dir, listed));
        assert(forall|k: int| 0 <= k < front.len() ==> #[trigger] front[k] == listed[k]);
        assert forall|k: int| 0 <= k < listed.len() && (#[trigger] listed[k]).0 != ".DS_Store"@ implies all.contains(
            (joined(dir, listed[k].0), (still.size)(joined(dir, listed[k].0))),
        ) by {
            let entry = (joined(dir, listed[k].0), (still.size)(joined(dir, listed[k].0)));
            if k < front.len() {
                assert(front[k] == listed[k]);
                let i = choose|i: int| 0 <= i < before.len() && before[i] == entry;
                assert(all[i] == entry);
            } else {
                assert(all[all.len() - 1] == entry);
            }
        }
        assert forall|i: int| 0 <= i < all.len() implies listed_in_trash(#[trigger] all[i], still, dir, listed) by {
            if i < before.len() {
                assert(all[i] == before[i]);
                let k = choose|k: int|
                    0 <= k < front.len() && (#[trigger] front[k]).0 != ".DS_Store"@ && before[i] == (
                        joined(dir, front[k].0),
                        (still.size)(joined(dir, front[k].0)),
                    );
                assert(listed[k] == front[k]);
            } else {
                assert(listed[listed.len() - 1].0 != ".DS_Store"@);
            }
        }
        if forall|k: int| 0 <= k < listed.len() ==> (#[trigger] listed[k]).0 != ".DS_Store"@ {
            assert(listed[listed.len() - 1].0 != ".DS_Store"@);
        }
    }
}

/// The entry is one that the Trash lists, with its size, and not Finder's own
/// bookkeeping.
pub open spec fn listed_in_trash(
    entry: (Seq<char>, nat),
    still: StillDisk,
    dir: Seq<char>,
    listed: Seq<(Seq<char>, bool)>,
) -> bool {
    exists|k: int|
        0 <= k < listed.len() && (#[trigger] listed[k]).0 != ".DS_Store"@ && entry == (
            joined(dir, listed[k].0),
            (still.size)(joined(dir, listed[k].0)),
        )
}

/// What is in the Trash: every entry of every Trash directory, with its size,
/// but for Finder's own bookkeeping.
pub proof fn everything_in_the_trash_counts(still: StillDisk, dirs: Seq<Seq<char>>, d: int, listed: Seq<(Seq<char>, bool)>, k: int)
    requires
        0 <= d < dirs.len(),
        (still.list)(dirs[d]) == Some(listed),
        0 <= k < listed.len(),
    ensures
        listed[k].0 != ".DS_Store"@ ==> trashed_in(still, dirs).contains(
            (joined(dirs[d], listed[k].0), (still.size)(joined(dirs[d], listed[k].0))),
        ),
    decreases dirs.len(),
{
    let front = dirs.drop_last();
    let (before, all) = (trashed_in(still, front), trashed_in(still, dirs));
    let entry = (joined(dirs[d], listed[k].0), (still.size)(joined(dirs[d], listed[k].0)));
    if listed[k].0 != ".DS_Store"@ {
        if d < front.len() {
            assert(front[d] == dirs[d]);
            everything_in_the_trash_counts(still, front, d, listed, k);
            let i = choose|i: int| 0 <= i < before.len() && before[i] == entry;
            assert(all[i] == entry);
        } else {
            lemma_trashed_among(still, dirs[d], listed);
            let here = trashed_among(still, dirs[d], listed);
            let i = choose|i: int| 0 <= i < here.len() && here[i] == entry;
            assert(all[before.len() + i] == entry);
        }
    }
}

/// One entry more: where it went its size is freed, and where it did not the
/// reason is told.
pub proof fn an_entry_is_freed_or_told(entries: Seq<(FsPath, u64)>, outcomes: Seq<Result<(), String>>, outcome: Result<(), String>)
    requires
        outcomes.len() < entries.len(),
    ensures
        ({
            let entry = entries[outcomes.len() as int];
            let after = outcomes.push(outcome);
            match outcome {
                Ok(_) => {
                    &&& gone(entries, after) == gone(entries, outcomes).push((entry.0@, entry.1 as nat))
                    &&& left(entries, after) == left(entries, outcomes)
                    &&& sizes_of(gone(entries, after)) == sizes_of(gone(entries, outcomes)) + entry.1
                },
                Err(why) => {
                    &&& gone(entries, after) == gone(entries, outcomes)
                    &&& left(entries, after) == left(entries, outcomes).push((entry.0@, why@))
                    &&& sizes_of(gone(entries, after)) == sizes_of(gone(entries, outcomes))
                },
            }
        }),
        sizes_of(gone(entries, Seq::empty())) == 0,
{
    let after = outcomes.push(outcome);
    assert(after.drop_last() =~= outcomes);
    let entry = entries[outcomes.len() as int];
    let before = gone(entries, outcomes);
    assert(before.push((entry.0@, entry.1 as nat)).drop_last() =~= before);
}

} // verus!
