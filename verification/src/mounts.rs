//! The mount table, so that a walk can tell another volume from another
//! folder.
//!
//! The boot disk is a volume group: a read-only system volume mounted at `/`
//! and a writable data volume mounted at [`DATA_VOLUME`]. `/Users` and its
//! like are firmlinks into the data volume: real directories that a walk
//! descends without noticing. So a walk from `/` would reach the data volume
//! twice, and the device numbers do not tell.

use vstd::prelude::*;

use crate::disk::{is_one_of, one_of};
use crate::paths::{same_path, texts, FsPath};

verus! {

/// Where the boot volume group's writable half is mounted.
pub const DATA_VOLUME: &'static str = "/System/Volumes/Data";

/// The filesystems mounted right now, by mount point.
#[derive(Debug)]
pub struct Mounts {
    points: Vec<FsPath>,
}

impl Mounts {
    /// The mount points.
    pub closed spec fn table(&self) -> Seq<Seq<char>> {
        texts(self.points@)
    }

    /// No mount point is listed twice.
    pub open spec fn distinct(&self) -> bool {
        forall|i: int, j: int|
            0 <= i < j < self.table().len() ==> !same_path(#[trigger] self.table()[i], #[trigger] self.table()[j])
    }

    /// The table of the given mount points; empty where the system gave none.
    pub fn from_points(points: &Vec<FsPath>) -> (r: Self)
        ensures
            r.distinct(),
            forall|p: Seq<char>| one_of(p, r.table()) <==> #[trigger] one_of(p, texts(points@)),
    {
        let mut kept: Vec<FsPath> = Vec::new();
        let mut i: usize = 0;
        while i < points.len()
            invariant
                i <= points@.len(),
                forall|a: int, b: int|
                    0 <= a < b < kept@.len() ==> !same_path(#[trigger] texts(kept@)[a], #[trigger] texts(kept@)[b]),
                forall|p: Seq<char>| one_of(p, texts(kept@)) <==> #[trigger] one_of(p, texts(points@).take(i as int)),
            decreases points@.len() - i,
        {
            let ghost before = texts(kept@);
            let ghost seen = texts(points@).take(i as int);
            let ghost more = texts(points@).take(i + 1);
            let ghost here = points@[i as int]@;
            assert(more =~= seen.push(here));
            if !is_one_of(&points[i], &kept) {
                kept.push(points[i].clone());
                let ghost after = texts(kept@);
                proof {
                    assert(after =~= before.push(here));
                    assert forall|a: int, b: int| 0 <= a < b < after.len() implies !same_path(
                        #[trigger] after[a],
                        #[trigger] after[b],
                    ) by {
                        assert(after[a] == before[a]);
                        if b < before.len() {
                            assert(after[b] == before[b]);
                        }
                    }
                    assert forall|p: Seq<char>| one_of(p, after) <==> #[trigger] one_of(p, more) by {
                        lemma_one_of_push(p, before, here);
                        lemma_one_of_push(p, seen, here);
                        assert(one_of(p, before) <==> one_of(p, seen));
                    }
                }
            } else {
                assert forall|p: Seq<char>| one_of(p, before) <==> #[trigger] one_of(p, more) by {
                    lemma_one_of_push(p, seen, here);
                    assert(one_of(p, before) <==> one_of(p, seen));
                    let k = choose|k: int| 0 <= k < before.len() && same_path(#[trigger] before[k], here);
                    if same_path(here, p) {
                        assert(same_path(before[k], p));
                    }
                }
            }
            i += 1;
        }
        assert(texts(points@).take(i as int) =~= texts(points@));
        Mounts { points: kept }
    }

    /// Whether `path` is itself where a filesystem is mounted. Without a
    /// table, `mounted_at` is asked about this one path.
    pub fn is_mount_point<F: Fn(&FsPath) -> bool>(&self, path: &FsPath, mounted_at: &F) -> (r: bool)
        requires
            call_requires(*mounted_at, (path,)),
        ensures
            self.table().len() > 0 ==> r == one_of(path@, self.table()),
            self.table().len() == 0 ==> call_ensures(*mounted_at, (path,), r),
    {
        if self.is_empty() {
            return mounted_at(path);
        }
        is_one_of(path, &self.points)
    }

    /// How many filesystems were found. Zero means there is no table.
    pub fn len(&self) -> (r: usize)
        ensures
            r == self.table().len(),
    {
        self.points.len()
    }

    /// Whether there is no table.
    pub fn is_empty(&self) -> (r: bool)
        ensures
            r == (self.table().len() == 0),
    {
        self.points.len() == 0
    }
}

proof fn lemma_one_of_push(p: Seq<char>, places: Seq<Seq<char>>, more: Seq<char>)
    ensures
        one_of(p, places.push(more)) <==> one_of(p, places) || same_path(more, p),
{
    let all = places.push(more);
    if one_of(p, places) {
        let k = choose|k: int| 0 <= k < places.len() && same_path(#[trigger] places[k], p);
        assert(same_path(all[k], p));
    }
    if same_path(more, p) {
        assert(same_path(all[places.len() as int], p));
    }
}

/// Identity of a directory: its device and its inode.
pub type Fingerprint = (u64, u64);

/// How a directory inside [`DATA_VOLUME`] relates to the path of the same
/// name under `/`: its mirror, where a firmlink would make it appear.
#[derive(Debug, Clone, Copy, PartialEq, Eq, Structural)]
pub enum Mirrored {
    /// The same directory under a second name.
    Same,
    /// A different directory that happens to share a name.
    Different,
    /// Nothing at that path.
    Absent,
}

/// How two places relate, by what could be read of each.
pub open spec fn relation(own: Option<Fingerprint>, mirror: Option<Fingerprint>) -> Mirrored {
    if mirror is None {
        Mirrored::Absent
    } else if own == mirror {
        Mirrored::Same
    } else {
        Mirrored::Different
    }
}

/// Compares a directory with the path it would occupy at `/`, by their
/// fingerprints.
pub fn mirrored(own: Option<Fingerprint>, mirror: Option<Fingerprint>) -> (r: Mirrored)
    ensures
        r == relation(own, mirror),
{
    match mirror {
        None => Mirrored::Absent,
        Some((dev, ino)) => match own {
            None => Mirrored::Different,
            Some((own_dev, own_ino)) => if own_dev == dev && own_ino == ino {
                Mirrored::Same
            } else {
                Mirrored::Different
            },
        },
    }
}

/// A folder that has the same fingerprint under a second name is the same
/// folder; with another it is another; and where there is none there is none.
pub proof fn fingerprints_tell_folders_apart(a: Fingerprint, b: Fingerprint)
    ensures
        relation(Some(a), Some(a)) == Mirrored::Same,
        a != b ==> relation(Some(a), Some(b)) == Mirrored::Different,
        relation(None, Some(b)) == Mirrored::Different,
        relation(Some(a), None) == Mirrored::Absent,
        relation(None, None) == Mirrored::Absent,
        DATA_VOLUME@ == "/System/Volumes/Data"@,
{
}

} // verus!
