//! Finds build and dependency directories in project folders.
//!
//! These are scattered throughout a developer's projects, so they are found
//! by name, and an ambiguous name is validated against a marker file: a
//! random folder called `target` is never mistaken for a build directory.
//!
//! - A matched directory is recorded and not descended into, so nested
//!   artifacts are never counted twice.
//! - Matching is name-exact; the set of removable names is small and explicit
//!   and every one is regenerable.

use vstd::prelude::*;

use crate::disk::{entries_view, probe_size, sizes_fit, stands_still, DirItem, Disk, Probe, Stat, StillDisk};
use crate::model::SafetyTier;
use crate::order;
use crate::order::{larger_first, ordered, reordered, sum};
pub use crate::patterns::{known_patterns, patterns, DevPattern, Marker};
use crate::paths::{
    has_parent, is_name, joined, last_name, lemma_parts_joined_name, lemma_under_self, lemma_under_trans, parent_text, parts,
    same_path, texts, under, FsPath,
};
use crate::scanner;
use crate::scanner::{always, never};
use crate::text;
use crate::usage::counter;

verus! {

/// Where the file that validates a match must stand.
pub open spec fn marker_place(dir: Seq<char>, marker: Marker) -> Option<Seq<char>> {
    match marker {
        Marker::Sibling(file) => if has_parent(dir) {
            Some(joined(parent_text(dir), file@))
        } else {
            None
        },
        Marker::Inside(file) => Some(joined(dir, file@)),
    }
}

/// The marker of a pattern holds for `dir`.
pub open spec fn marker_holds(dir: Seq<char>, marker: Option<Marker>, stat: spec_fn(Seq<char>) -> Option<Stat>) -> bool {
    match marker {
        None => true,
        Some(m) => marker_place(dir, m) is Some && stat(marker_place(dir, m)->0) is Some,
    }
}

/// The first pattern of a list that `dir` matches.
pub open spec fn first_match(
    list: Seq<DevPattern>,
    dir: Seq<char>,
    stat: spec_fn(Seq<char>) -> Option<Stat>,
) -> Option<DevPattern>
    decreases list.len(),
{
    if list.len() == 0 {
        None
    } else if last_name(dir) == Some(list[0].dir_name@) && marker_holds(dir, list[0].marker, stat) {
        Some(list[0])
    } else {
        first_match(list.drop_first(), dir, stat)
    }
}

/// The pattern that `dir` matches: the first with its name whose marker holds.
pub open spec fn matching(dir: Seq<char>, stat: spec_fn(Seq<char>) -> Option<Stat>) -> Option<DevPattern> {
    first_match(known_patterns(), dir, stat)
}

/// `name` is the name of some pattern.
pub open spec fn artifact_name(name: Seq<char>) -> bool {
    exists|i: int| 0 <= i < known_patterns().len() && #[trigger] known_patterns()[i].dir_name@ == name
}

/// Whether `name` is an exact recognized artifact directory name. A weak
/// check for the ambiguous patterns: cleaning is gated on
/// [`is_artifact_path`] instead.
pub fn is_artifact_dir_name(name: &str) -> (r: bool)
    ensures
        r == artifact_name(name@),
{
    let all = patterns();
    let mut i: usize = 0;
    while i < all.len()
        invariant
            i <= all@.len(),
            all@ == known_patterns(),
            forall|j: int| 0 <= j < i ==> #[trigger] known_patterns()[j].dir_name@ != name@,
        decreases all@.len() - i,
    {
        if text::same_text(all[i].dir_name, name) {
            assert(known_patterns()[i as int].dir_name@ == name@);
            return true;
        }
        i += 1;
    }
    false
}

/// The filesystem has confirmed the marker of a pattern.
pub open spec fn confirmed<D: Disk>(disk: &D, dir: Seq<char>, marker: Option<Marker>) -> bool {
    match marker {
        None => true,
        Some(m) => marker_place(dir, m) is Some && exists|p: FsPath, found: Stat|
            p@ == marker_place(dir, m)->0 && #[trigger] call_ensures(D::stat, (disk, &p), Some(found)),
    }
}

/// Whether there is anything at `path`.
pub fn is_there<D: Disk>(disk: &D, path: &FsPath) -> (r: bool)
    ensures
        r ==> exists|found: Stat| #[trigger] call_ensures(D::stat, (disk, path), Some(found)),
        !r ==> call_ensures(D::stat, (disk, path), None),
{
    match disk.stat(path) {
        Some(found) => {
            assert(call_ensures(D::stat, (disk, path), Some(found)));
            true
        },
        None => false,
    }
}

/// Whether the marker of a pattern holds for `dir`.
pub fn marker_ok<D: Disk>(dir: &FsPath, marker: Option<Marker>, disk: &D) -> (r: bool)
    ensures
        r ==> confirmed(disk, dir@, marker),
        forall|still: StillDisk| #[trigger]
            stands_still(disk, still) ==> r == marker_holds(dir@, marker, still.stat),
{
    match marker {
        None => true,
        Some(Marker::Sibling(file)) => match dir.parent() {
            Some(parent) => {
                let place = parent.join(file);
                is_there(disk, &place)
            },
            None => false,
        },
        Some(Marker::Inside(file)) => {
            let place = dir.join(file);
            is_there(disk, &place)
        },
    }
}

/// The pattern that `dir` matches right now, if any.
pub fn match_pattern<D: Disk>(dir: &FsPath, disk: &D) -> (r: Option<DevPattern>)
    ensures
        r is Some ==> recognized(disk, dir@, r->0),
        last_name(dir@) is None || !artifact_name(last_name(dir@)->0) ==> r is None,
        forall|still: StillDisk| #[trigger] stands_still(disk, still) ==> r == matching(dir@, still.stat),
{
    let name = match dir.file_name() {
        Some(name) => name,
        None => {
            assert forall|still: StillDisk| #[trigger] stands_still(disk, still) implies matching(
                dir@,
                still.stat,
            ) is None by {
                lemma_no_name_no_match(known_patterns(), dir@, still.stat);
            }
            return None;
        },
    };
    let all = patterns();
    let mut i: usize = 0;
    assert(all@.skip(0) =~= all@);
    while i < all.len()
        invariant
            i <= all@.len(),
            all@ == known_patterns(),
            last_name(dir@) == Some(name@),
            forall|still: StillDisk| #[trigger]
                stands_still(disk, still) ==> matching(dir@, still.stat) == first_match(
                    all@.skip(i as int),
                    dir@,
                    still.stat,
                ),
        decreases all@.len() - i,
    {
        let pattern: DevPattern = all[i];
        assert(all@.skip(i as int).drop_first() =~= all@.skip(i + 1));
        assert(all@.skip(i as int)[0] == pattern);
        if text::same_text(pattern.dir_name, name.as_str()) {
            assert(known_patterns()[i as int].dir_name@ == name@);
            if marker_ok(dir, pattern.marker, disk) {
                return Some(pattern);
            }
        }
        i += 1;
    }
    None
}

proof fn lemma_no_name_no_match(list: Seq<DevPattern>, dir: Seq<char>, stat: spec_fn(Seq<char>) -> Option<Stat>)
    requires
        last_name(dir) is None,
    ensures
        first_match(list, dir, stat) is None,
    decreases list.len(),
{
    if list.len() > 0 {
        lemma_no_name_no_match(list.drop_first(), dir, stat);
    }
}

/// `pattern` is one of the patterns, `dir` has its name, and the filesystem
/// has confirmed its marker.
pub open spec fn recognized<D: Disk>(disk: &D, dir: Seq<char>, pattern: DevPattern) -> bool {
    &&& known_patterns().contains(pattern)
    &&& last_name(dir) == Some(pattern.dir_name@)
    &&& confirmed(disk, dir, pattern.marker)
}

/// Whether `path` is a recognized artifact directory right now: its name
/// matches a pattern and that pattern's marker holds on disk. This is what
/// gates developer cleaning.
pub fn is_artifact_path<D: Disk>(path: &FsPath, disk: &D) -> (r: bool)
    ensures
        r ==> exists|pattern: DevPattern| #[trigger] recognized(disk, path@, pattern),
        last_name(path@) is None || !artifact_name(last_name(path@)->0) ==> !r,
        forall|still: StillDisk| #[trigger] stands_still(disk, still) ==> r == (matching(path@, still.stat) is Some),
{
    match_pattern(path, disk).is_some()
}

/// A discovered developer artifact.
#[derive(Debug)]
pub struct DevArtifact {
    pub tool: String,
    pub name: String,
    pub path: FsPath,
    pub size_bytes: u64,
    pub modified_secs: Option<u64>,
    pub safety: SafetyTier,
    pub description: String,
}

impl Clone for DevArtifact {
    fn clone(&self) -> (r: Self)
        ensures
            r == *self,
    {
        DevArtifact {
            tool: self.tool.clone(),
            name: self.name.clone(),
            path: self.path.clone(),
            size_bytes: self.size_bytes,
            modified_secs: self.modified_secs,
            safety: self.safety,
            description: self.description.clone(),
        }
    }
}

/// A developer artifact, as a mathematical value.
pub struct ArtifactView {
    pub tool: Seq<char>,
    pub name: Seq<char>,
    pub path: Seq<char>,
    pub size: nat,
    pub modified: Option<u64>,
    pub safety: SafetyTier,
    pub description: Seq<char>,
}

impl View for DevArtifact {
    type V = ArtifactView;

    open spec fn view(&self) -> ArtifactView {
        ArtifactView {
            tool: self.tool@,
            name: self.name@,
            path: self.path@,
            size: self.size_bytes as nat,
            modified: self.modified_secs,
            safety: self.safety,
            description: self.description@,
        }
    }
}

/// What a list of artifacts stands for.
pub open spec fn artifacts_view(v: Seq<DevArtifact>) -> Seq<ArtifactView> {
    v.map_values(|a: DevArtifact| a@)
}

/// Options bounding the developer scan.
#[derive(Debug, Clone, Copy)]
pub struct DevScanOptions {
    /// Maximum directory depth to descend while searching (root is depth 0).
    pub max_depth: usize,
}

impl Default for DevScanOptions {
    fn default() -> (r: Self)
        ensures
            r.max_depth == 7,
    {
        DevScanOptions { max_depth: 7 }
    }
}

/// Live counters for a running developer scan.
#[derive(Debug)]
pub struct DevProgress {
    /// Directories descended into so far.
    pub dirs_scanned: u64,
    /// Artifacts found so far.
    pub found: u64,
    /// Bytes across those artifacts.
    pub bytes_found: u64,
    /// The folder being walked when this tick was emitted.
    pub current: String,
}

/// How often a progress tick is emitted, in directories descended.
pub const PROGRESS_EVERY: u64 = 64;

/// `dir` is the iCloud container, `Library/Mobile Documents`, whatever the
/// home directory.
pub open spec fn icloud_container(dir: Seq<char>) -> bool {
    &&& last_name(dir) == Some("Mobile Documents"@)
    &&& has_parent(dir)
    &&& last_name(parent_text(dir)) == Some("Library"@)
}

/// Whether `dir` is the iCloud container. Reading it can block for as long as
/// the network takes, so a scan does not descend into it.
pub fn is_icloud_container(dir: &FsPath) -> (r: bool)
    ensures
        r == icloud_container(dir@),
{
    match dir.file_name() {
        Some(name) => if text::same_text(name.as_str(), "Mobile Documents") {
            match dir.parent() {
                Some(parent) => match parent.file_name() {
                    Some(above) => text::same_text(above.as_str(), "Library"),
                    None => false,
                },
                None => false,
            }
        } else {
            false
        },
        None => false,
    }
}

/// When a place was last modified, where its metadata says.
pub open spec fn modified_at(stat: Option<Stat>) -> Option<u64> {
    match stat {
        Some(s) => s.modified_secs,
        None => None,
    }
}

/// When a place was last modified, where its metadata says.
pub fn modified_of(stat: Option<Stat>) -> (r: Option<u64>)
    ensures
        r == modified_at(stat),
{
    match stat {
        Some(s) => s.modified_secs,
        None => None,
    }
}

/// The artifact that a matched directory becomes.
pub open spec fn artifact_at(pattern: DevPattern, dir: Seq<char>, size: nat, modified: Option<u64>) -> ArtifactView {
    ArtifactView {
        tool: pattern.tool@,
        name: pattern.dir_name@,
        path: dir,
        size,
        modified,
        safety: pattern.safety,
        description: pattern.description@,
    }
}

/// What a scan finds at and beneath `dir` on a filesystem that stands still,
/// in the order in which the walk meets it. A match ends the descent there;
/// so does the depth limit; the root itself is never a match.
pub open spec fn found(still: StillDisk, dir: Seq<char>, depth: nat, max_depth: nat) -> Seq<ArtifactView>
    decreases max_depth - depth, 1int, 0int,
{
    let hit = matching(dir, still.stat);
    if depth > 0 && hit is Some {
        seq![artifact_at(hit->0, dir, (still.size)(dir), modified_at((still.stat)(dir)))]
    } else if depth >= max_depth {
        Seq::empty()
    } else {
        match (still.list)(dir) {
            Some(entries) => found_in(still, dir, entries, depth, max_depth),
            None => Seq::empty(),
        }
    }
}

/// What a scan finds beneath the entries of a listing. Only real directories
/// are descended into, and the iCloud container is not.
pub open spec fn found_in(
    still: StillDisk,
    dir: Seq<char>,
    entries: Seq<(Seq<char>, bool)>,
    depth: nat,
    max_depth: nat,
) -> Seq<ArtifactView>
    decreases max_depth - depth, 0int, entries.len(),
{
    if entries.len() == 0 || depth >= max_depth {
        Seq::empty()
    } else {
        let (name, is_dir) = entries.last();
        let path = joined(dir, name);
        found_in(still, dir, entries.drop_last(), depth, max_depth) + if is_dir && !icloud_container(path) {
            found(still, path, depth + 1, max_depth)
        } else {
            Seq::empty()
        }
    }
}

/// How many directories a scan lists at and beneath `dir` on a filesystem
/// that stands still.
pub open spec fn listed(still: StillDisk, dir: Seq<char>, depth: nat, max_depth: nat) -> nat
    decreases max_depth - depth, 1int, 0int,
{
    if (depth > 0 && matching(dir, still.stat) is Some) || depth >= max_depth {
        0
    } else {
        match (still.list)(dir) {
            Some(entries) => 1 + listed_in(still, dir, entries, depth, max_depth),
            None => 0,
        }
    }
}

/// How many directories a scan lists beneath the entries of a listing.
pub open spec fn listed_in(
    still: StillDisk,
    dir: Seq<char>,
    entries: Seq<(Seq<char>, bool)>,
    depth: nat,
    max_depth: nat,
) -> nat
    decreases max_depth - depth, 0int, entries.len(),
{
    if entries.len() == 0 || depth >= max_depth {
        0
    } else {
        let (name, is_dir) = entries.last();
        let path = joined(dir, name);
        listed_in(still, dir, entries.drop_last(), depth, max_depth) + if is_dir && !icloud_container(path) {
            listed(still, path, depth + 1, max_depth)
        } else {
            0
        }
    }
}

/// A report came that counts `c` directories, as far as the counter can count.
pub open spec fn counted_at<P: Fn(DevProgress)>(on_progress: P, c: int) -> bool {
    exists|p: DevProgress| #[trigger] call_ensures(on_progress, (p,), ()) && p.dirs_scanned as int == c % counter()
}

/// Of the `n` directories that were listed after the first `before`, every
/// one that made the count a multiple of [`PROGRESS_EVERY`] was reported.
pub open spec fn kept_posted<P: Fn(DevProgress)>(on_progress: P, before: u64, n: nat) -> bool {
    forall|c: int| before < c <= before + n && c % PROGRESS_EVERY as int == 0 ==> #[trigger] counted_at(on_progress, c)
}

proof fn lemma_posted_on<P: Fn(DevProgress)>(on_progress: P, before: u64, n: nat, middle: u64, m: nat)
    requires
        kept_posted(on_progress, before, n),
        middle as int == (before + n) % counter(),
        kept_posted(on_progress, middle, m),
    ensures
        kept_posted(on_progress, before, n + m),
        (middle + m) % counter() == (before + n + m) % counter(),
{
    let k = (before + n) / counter();
    assert(before + n == k * counter() + middle) by (nonlinear_arith)
        requires
            k == (before + n) / counter(),
            middle as int == (before + n) % counter(),
            counter() > 0,
    ;
    assert forall|c: int| before < c <= before + n + m && c % PROGRESS_EVERY as int == 0 implies #[trigger] counted_at(
        on_progress,
        c,
    ) by {
        if c > before + n {
            let d = c - k * counter();
            assert(d % 64 == 0) by {
                let e = c / 64;
                assert(d == 64 * (e - k * 0x400_0000_0000_0000));
            }
            assert(counted_at(on_progress, d));
            lemma_turned(d, k);
            let p = choose|p: DevProgress| #[trigger]
                call_ensures(on_progress, (p,), ()) && p.dirs_scanned as int == d % counter();
            assert(call_ensures(on_progress, (p,), ()) && p.dirs_scanned as int == c % counter());
        }
    }
    lemma_turned(middle + m, k);
}

proof fn lemma_turned(x: int, k: int)
    ensures
        (x + k * counter()) % counter() == x % counter(),
{
    vstd::arithmetic::div_mod::lemma_mod_multiples_vanish(k, x, counter());
    assert(counter() * k + x == x + k * counter()) by (nonlinear_arith);
}

/// A report came from `path`.
pub open spec fn announced<P: Fn(DevProgress)>(on_progress: P, path: Seq<char>) -> bool {
    exists|p: DevProgress| #[trigger] call_ensures(on_progress, (p,), ()) && p.current@ == path
}

/// Each of the artifacts was reported when it was found.
pub open spec fn all_announced<P: Fn(DevProgress)>(on_progress: P, artifacts: Seq<DevArtifact>) -> bool {
    forall|i: int| 0 <= i < artifacts.len() ==> announced(on_progress, (#[trigger] artifacts[i]).path@)
}

/// `artifact` is a directory that the filesystem confirmed as an artifact,
/// with the size and the time that it showed.
pub open spec fn genuine<D: Disk>(disk: &D, artifact: DevArtifact) -> bool {
    &&& exists|q: FsPath, stat: Option<Stat>|
        {
            &&& q@ == artifact.path@
            &&& #[trigger] call_ensures(D::stat, (disk, &q), stat)
            &&& artifact.modified_secs == modified_at(stat)
        }
    &&& exists|pattern: DevPattern, p: FsPath, shown: Probe|
        {
            &&& #[trigger] recognized(disk, artifact.path@, pattern)
            &&& p@ == artifact.path@
            &&& #[trigger] call_ensures(D::probe, (disk, &p), shown)
            &&& artifact@ == artifact_at(
                pattern,
                artifact.path@,
                probe_size(p@, shown, Seq::empty()),
                artifact.modified_secs,
            )
        }
}

/// Every artifact of a list is genuine.
pub open spec fn all_genuine<D: Disk>(disk: &D, artifacts: Seq<DevArtifact>) -> bool {
    forall|i: int| 0 <= i < artifacts.len() ==> genuine(disk, #[trigger] artifacts[i])
}

/// One developer scan in progress: its counters and what it has found.
#[derive(Debug)]
pub struct DevWalk {
    pub opts: DevScanOptions,
    pub dirs: u64,
    pub bytes: u64,
    pub out: Vec<DevArtifact>,
}

impl DevWalk {
    /// The counters, with the folder being looked at.
    pub fn progress(&self, current: &FsPath) -> (r: DevProgress)
        ensures
            r.dirs_scanned == self.dirs,
            r.found == self.out@.len(),
            r.bytes_found == self.bytes,
            r.current@ == current@,
    {
        DevProgress {
            dirs_scanned: self.dirs,
            found: self.out.len() as u64,
            bytes_found: self.bytes,
            current: current.text.clone(),
        }
    }

    /// Reports the counters.
    pub fn tick<P: Fn(DevProgress)>(&self, current: &FsPath, on_progress: &P)
        requires
            forall|p: DevProgress| call_requires(*on_progress, (p,)),
        ensures
            self.ticked(current@, *on_progress),
    {
        let progress = self.progress(current);
        on_progress(progress);
        assert(call_ensures(*on_progress, (progress,), ()));
    }

    /// The counters were reported.
    pub open spec fn ticked<P: Fn(DevProgress)>(&self, current: Seq<char>, on_progress: P) -> bool {
        exists|p: DevProgress|
            {
                &&& #[trigger] call_ensures(on_progress, (p,), ())
                &&& p.dirs_scanned == self.dirs
                &&& p.found == self.out@.len()
                &&& p.bytes_found == self.bytes
                &&& p.current@ == current
            }
    }

    /// The byte counter is what has been found, added up as far as it can
    /// count.
    pub open spec fn tallied(&self) -> bool {
        self.bytes as int == sum(artifact_sizes(artifacts_view(self.out@))) as int % counter()
    }

    /// Looks at `dir` and what lies beneath it.
    pub fn descend<D: Disk, A: Fn(&DevArtifact), P: Fn(DevProgress), C: Fn() -> bool>(
        &mut self,
        dir: &FsPath,
        depth: usize,
        disk: &D,
        on_artifact: &A,
        on_progress: &P,
        cancel: &C,
    )
        requires
            sizes_fit(disk),
            depth <= old(self).opts.max_depth,
            forall|a: &DevArtifact| call_requires(*on_artifact, (a,)),
            forall|p: DevProgress| call_requires(*on_progress, (p,)),
            call_requires(*cancel, ()),
        ensures
            final(self).opts == old(self).opts,
            always(*cancel) ==> *final(self) == *old(self),
            old(self).tallied() ==> final(self).tallied(),
            all_genuine(disk, old(self).out@) ==> all_genuine(disk, final(self).out@),
            streamed(*on_artifact, old(self).out@) ==> streamed(*on_artifact, final(self).out@),
            all_announced(*on_progress, old(self).out@) ==> all_announced(*on_progress, final(self).out@),
            exists|n: nat|
                {
                    &&& #[trigger] kept_posted(*on_progress, old(self).dirs, n)
                    &&& final(self).dirs as int == (old(self).dirs + n) % counter()
                    &&& never(*cancel) ==> forall|still: StillDisk| #[trigger]
                        stands_still(disk, still) ==> n == listed(
                            still,
                            dir@,
                            depth as nat,
                            old(self).opts.max_depth as nat,
                        )
                },
            never(*cancel) ==> forall|still: StillDisk| #[trigger]
                stands_still(disk, still) ==> artifacts_view(final(self).out@) == artifacts_view(old(self).out@)
                    + found(still, dir@, depth as nat, old(self).opts.max_depth as nat),
        decreases old(self).opts.max_depth - depth,
    {
        let ghost max = self.opts.max_depth as nat;
        let ghost had = artifacts_view(self.out@);
        let ghost start = self.dirs;
        assert(kept_posted(*on_progress, start, 0));
        if cancel() {
            return ;
        }
        if depth > 0 {
            if let Some(pattern) = match_pattern(dir, disk) {
                let mut warnings: Vec<String> = Vec::new();
                let none: Vec<FsPath> = Vec::new();
                assert(texts(none@) =~= Seq::<Seq<char>>::empty());
                let probe = disk.probe(dir);
                let (size, stopped) = scanner::size_excluding(dir, &probe, &none, &mut warnings, cancel);
                if stopped {
                    return ;
                }
                if cancel() {
                    return ;
                }
                let stat = disk.stat(dir);
                let modified_secs = modified_of(stat);
                let artifact = DevArtifact {
                    tool: pattern.tool.to_owned(),
                    name: pattern.dir_name.to_owned(),
                    path: dir.clone(),
                    size_bytes: size,
                    modified_secs,
                    safety: pattern.safety,
                    description: pattern.description.to_owned(),
                };
                assert(genuine(disk, artifact)) by {
                    assert(recognized(disk, artifact.path@, pattern));
                    assert(call_ensures(D::probe, (disk, dir), probe));
                    assert(call_ensures(D::stat, (disk, dir), stat));
                }
                proof {
                    lemma_tally(self.out@, artifact, self.bytes);
                }
                self.bytes = self.bytes.wrapping_add(size);
                on_artifact(&artifact);
                self.out.push(artifact);
                self.tick(dir, on_progress);
                assert forall|still: StillDisk| #[trigger] stands_still(disk, still) implies artifacts_view(self.out@)
                    == had + found(still, dir@, depth as nat, max) by {
                    assert(call_ensures(D::probe, (disk, dir), probe));
                    assert(call_ensures(D::stat, (disk, dir), stat));
                    assert(artifacts_view(self.out@) =~= had + found(still, dir@, depth as nat, max));
                }
                return ;
            }
        }
        if depth >= self.opts.max_depth {
            assert forall|still: StillDisk| #[trigger] stands_still(disk, still) implies artifacts_view(self.out@)
                == had + found(still, dir@, depth as nat, max) by {
                assert(artifacts_view(self.out@) =~= had + found(still, dir@, depth as nat, max));
            }
            return ;
        }
        let entries = match disk.list(dir) {
            Some(entries) => entries,
            None => {
                assert forall|still: StillDisk| #[trigger] stands_still(disk, still) implies artifacts_view(self.out@)
                    == had + found(still, dir@, depth as nat, max) by {
                    assert(call_ensures(D::list, (disk, dir), None));
                    assert(listed(still, dir@, depth as nat, max) == 0);
                    assert(artifacts_view(self.out@) =~= had + found(still, dir@, depth as nat, max));
                }
                return ;
            },
        };
        self.dirs = self.dirs.wrapping_add(1);
        if self.dirs % PROGRESS_EVERY == 0 {
            self.tick(dir, on_progress);
        }
        let ghost mut n: nat = 1;
        proof {
            assert forall|c: int| start < c <= start + 1 && c % PROGRESS_EVERY as int == 0 implies #[trigger] counted_at(
                *on_progress,
                c,
            ) by {
                assert(c % counter() == self.dirs as int);
                assert(self.dirs % PROGRESS_EVERY == 0);
                assert(self.ticked(dir@, *on_progress));
            }
        }
        let ghost all = entries_view(entries@);
        let mut i: usize = 0;
        assert forall|still: StillDisk| #[trigger] stands_still(disk, still) implies artifacts_view(self.out@) == had
            + found_in(still, dir@, all.take(0), depth as nat, max) by {
            assert(artifacts_view(self.out@) =~= had + found_in(still, dir@, all.take(0), depth as nat, max));
        }
        while i < entries.len()
            invariant
                sizes_fit(disk),
                forall|a: &DevArtifact| call_requires(*on_artifact, (a,)),
                forall|p: DevProgress| call_requires(*on_progress, (p,)),
                call_requires(*cancel, ()),
                self.opts == old(self).opts,
                !always(*cancel),
                start == old(self).dirs,
                kept_posted(*on_progress, start, n),
                self.dirs as int == (start + n) % counter(),
                never(*cancel) ==> forall|still: StillDisk| #[trigger]
                    stands_still(disk, still) ==> n == 1 + listed_in(
                        still,
                        dir@,
                        all.take(i as int),
                        depth as nat,
                        max,
                    ),
                all_announced(*on_progress, old(self).out@) ==> all_announced(*on_progress, self.out@),
                old(self).tallied() ==> self.tallied(),
                max == self.opts.max_depth,
                depth < max,
                all == entries_view(entries@),
                i <= entries@.len(),
                all_genuine(disk, old(self).out@) ==> all_genuine(disk, self.out@),
                streamed(*on_artifact, old(self).out@) ==> streamed(*on_artifact, self.out@),
                never(*cancel) ==> forall|still: StillDisk| #[trigger]
                    stands_still(disk, still) ==> artifacts_view(self.out@) == had + found_in(
                        still,
                        dir@,
                        all.take(i as int),
                        depth as nat,
                        max,
                    ),
            decreases entries@.len() - i,
        {
            let entry: &DirItem = &entries[i];
            let path = dir.join(entry.name.as_str());
            let ghost before = artifacts_view(self.out@);
            let ghost part = all.take(i + 1);
            assert(part.drop_last() =~= all.take(i as int));
            assert(part.last() == (entry.name@, entry.is_dir));
            if entry.is_dir && !is_icloud_container(&path) {
                let ghost middle = self.dirs;
                self.descend(&path, depth + 1, disk, on_artifact, on_progress, cancel);
                proof {
                    let m = choose|m: nat|
                        {
                            &&& #[trigger] kept_posted(*on_progress, middle, m)
                            &&& self.dirs as int == (middle + m) % counter()
                            &&& never(*cancel) ==> forall|still: StillDisk| #[trigger]
                                stands_still(disk, still) ==> m == listed(still, path@, (depth + 1) as nat, max)
                        };
                    lemma_posted_on(*on_progress, start, n, middle, m);
                    n = n + m;
                }
                if cancel() {
                    return ;
                }
                assert forall|still: StillDisk|
                    never(*cancel) && #[trigger] stands_still(disk, still) implies artifacts_view(self.out@) == had
                    + found_in(still, dir@, part, depth as nat, max) by {
                    assert(artifacts_view(self.out@) == before + found(still, path@, (depth + 1) as nat, max));
                    assert(artifacts_view(self.out@) =~= had + found_in(still, dir@, part, depth as nat, max));
                }
            } else {
                assert forall|still: StillDisk|
                    never(*cancel) && #[trigger] stands_still(disk, still) implies artifacts_view(self.out@) == had
                    + found_in(still, dir@, part, depth as nat, max) by {
                    assert(artifacts_view(self.out@) =~= had + found_in(still, dir@, part, depth as nat, max));
                }
            }
            i += 1;
        }
        assert(all.take(i as int) =~= all);
        assert forall|still: StillDisk|
            never(*cancel) && #[trigger] stands_still(disk, still) implies artifacts_view(self.out@) == had + found(
            still,
            dir@,
            depth as nat,
            max,
        ) by {
            assert(call_ensures(D::list, (disk, dir), Some(entries)));
        }
        assert forall|still: StillDisk| never(*cancel) && #[trigger] stands_still(disk, still) implies n == listed(
            still,
            dir@,
            depth as nat,
            max,
        ) by {
            assert(call_ensures(D::list, (disk, dir), Some(entries)));
        }
    }
}

proof fn lemma_tally(out: Seq<DevArtifact>, artifact: DevArtifact, bytes: u64)
    ensures
        bytes as int == sum(artifact_sizes(artifacts_view(out))) as int % counter() ==> (bytes + artifact.size_bytes)
            % counter() == sum(artifact_sizes(artifacts_view(out.push(artifact)))) as int % counter(),
{
    let before = artifact_sizes(artifacts_view(out));
    let after = artifact_sizes(artifacts_view(out.push(artifact)));
    assert(after.drop_last() =~= before);
    assert(after.last() == artifact.size_bytes);
    vstd::arithmetic::div_mod::lemma_add_mod_noop(sum(before) as int, artifact.size_bytes as int, counter());
    vstd::arithmetic::div_mod::lemma_add_mod_noop(bytes as int, artifact.size_bytes as int, counter());
    vstd::arithmetic::div_mod::lemma_mod_twice(sum(before) as int, counter());
}

/// The counters of a finished scan were reported: how many directories and
/// artifacts, and the sizes of these, added up as far as a counter can count.
pub open spec fn summed_up<P: Fn(DevProgress)>(
    on_progress: P,
    root: Seq<char>,
    artifacts: Seq<DevArtifact>,
    dirs: nat,
) -> bool {
    exists|p: DevProgress|
        {
            &&& #[trigger] call_ensures(on_progress, (p,), ())
            &&& p.dirs_scanned as int == dirs as int % counter()
            &&& p.found == artifacts.len()
            &&& p.bytes_found as int == sum(artifact_sizes(artifacts_view(artifacts))) as int % counter()
            &&& p.current@ == root
        }
}

/// Each of the artifacts was handed over.
pub open spec fn streamed<A: Fn(&DevArtifact)>(on_artifact: A, artifacts: Seq<DevArtifact>) -> bool {
    forall|i: int| 0 <= i < artifacts.len() ==> call_ensures(on_artifact, (&#[trigger] artifacts[i],), ())
}

/// The sizes of a list of artifacts.
pub open spec fn artifact_sizes(v: Seq<ArtifactView>) -> Seq<u64> {
    v.map_values(|a: ArtifactView| a.size as u64)
}

/// `sorted` is `v` with the largest first; equal sizes keep their order.
pub open spec fn largest_first(sorted: Seq<ArtifactView>, v: Seq<ArtifactView>) -> bool {
    exists|order: Seq<usize>|
        ordered(order, 0, v.len() as int, larger_first(artifact_sizes(v))) && sorted == #[trigger] reordered(v, order)
}

/// Scans `root`, handing each artifact to `on_artifact` as it is found and
/// ticking `on_progress` as the walk moves and once more when it is done,
/// stopping when `cancel` says so. The artifacts come back largest first. A cancelled walk returns what it
/// had found: those are whole artifacts, correctly measured.
pub fn scan_dev_artifacts_with<D: Disk, A: Fn(&DevArtifact), P: Fn(DevProgress), C: Fn() -> bool>(
    root: &FsPath,
    opts: DevScanOptions,
    disk: &D,
    on_artifact: &A,
    on_progress: &P,
    cancel: &C,
) -> (r: Vec<DevArtifact>)
    requires
        sizes_fit(disk),
        forall|a: &DevArtifact| call_requires(*on_artifact, (a,)),
        forall|p: DevProgress| call_requires(*on_progress, (p,)),
        call_requires(*cancel, ()),
    ensures
        all_genuine(disk, r@),
        streamed(*on_artifact, r@),
        all_announced(*on_progress, r@),
        exists|n: nat|
            {
                &&& #[trigger] kept_posted(*on_progress, 0, n)
                &&& summed_up(*on_progress, root@, r@, n)
                &&& never(*cancel) ==> forall|still: StillDisk| #[trigger]
                    stands_still(disk, still) ==> n == listed(still, root@, 0, opts.max_depth as nat)
            },
        always(*cancel) ==> r@.len() == 0,
        forall|i: int, j: int| 0 <= i < j < r@.len() ==> #[trigger] r@[i].size_bytes >= #[trigger] r@[j].size_bytes,
        never(*cancel) ==> forall|still: StillDisk| #[trigger]
            stands_still(disk, still) ==> largest_first(
                artifacts_view(r@),
                found(still, root@, 0, opts.max_depth as nat),
            ),
{
    let mut walk = DevWalk { opts, dirs: 0, bytes: 0, out: Vec::new() };
    assert(artifacts_view(walk.out@) =~= Seq::<ArtifactView>::empty());
    assert(artifact_sizes(artifacts_view(walk.out@)) =~= Seq::<u64>::empty());
    walk.descend(root, 0, disk, on_artifact, on_progress, cancel);
    let ghost n = choose|n: nat|
        {
            &&& #[trigger] kept_posted(*on_progress, 0, n)
            &&& walk.dirs as int == n as int % counter()
            &&& never(*cancel) ==> forall|still: StillDisk| #[trigger]
                stands_still(disk, still) ==> n == listed(still, root@, 0, opts.max_depth as nat)
        };
    walk.tick(root, on_progress);
    let out = walk.out;
    let ghost met = out@;
    let mut keys: Vec<u64> = Vec::new();
    let mut i: usize = 0;
    while i < out.len()
        invariant
            i <= out@.len(),
            keys@ =~= artifact_sizes(artifacts_view(out@)).take(i as int),
        decreases out@.len() - i,
    {
        keys.push(out[i].size_bytes);
        i += 1;
    }
    let ghost views = artifacts_view(met);
    assert(keys@ =~= artifact_sizes(views));
    let order = order::order_larger_first(&keys);
    proof {
        order::lemma_ordered_distinct(order@, keys@.len() as int, larger_first(keys@));
        order::lemma_sum_reordered(keys@, order@, larger_first(keys@));
    }
    let r = order::reorder(out, &order);
    assert(artifact_sizes(artifacts_view(r@)) =~= reordered(keys@, order@));
    assert(artifacts_view(r@) =~= reordered(views, order@));
    assert forall|i: int| 0 <= i < r@.len() implies genuine(disk, #[trigger] r@[i]) by {
        assert(r@[i] == met[order@[i] as int]);
    }
    assert forall|i: int| 0 <= i < r@.len() implies announced(*on_progress, (#[trigger] r@[i]).path@) by {
        assert(r@[i] == met[order@[i] as int]);
    }
    assert(summed_up(*on_progress, root@, r@, n));
    assert forall|i: int| 0 <= i < r@.len() implies call_ensures(*on_artifact, (&#[trigger] r@[i],), ()) by {
        assert(r@[i] == met[order@[i] as int]);
    }
    assert forall|i: int, j: int| 0 <= i < j < r@.len() implies #[trigger] r@[i].size_bytes
        >= #[trigger] r@[j].size_bytes by {
        assert(larger_first(keys@)(order@[i] as int, order@[j] as int));
        assert(keys@[order@[i] as int] == met[order@[i] as int].size_bytes);
        assert(keys@[order@[j] as int] == met[order@[j] as int].size_bytes);
    }
    assert forall|still: StillDisk| never(*cancel) && #[trigger] stands_still(disk, still) implies largest_first(
        artifacts_view(r@),
        found(still, root@, 0, opts.max_depth as nat),
    ) by {
        assert(views =~= found(still, root@, 0, opts.max_depth as nat));
    }
    r
}

/// Scans `root` for developer artifacts, largest first.
pub fn scan_dev_artifacts<D: Disk>(root: &FsPath, opts: DevScanOptions, disk: &D) -> (r: Vec<DevArtifact>)
    requires
        sizes_fit(disk),
    ensures
        all_genuine(disk, r@),
        forall|i: int, j: int| 0 <= i < j < r@.len() ==> #[trigger] r@[i].size_bytes >= #[trigger] r@[j].size_bytes,
        forall|still: StillDisk| #[trigger]
            stands_still(disk, still) ==> largest_first(
                artifacts_view(r@),
                found(still, root@, 0, opts.max_depth as nat),
            ),
{
    let on_artifact = |_a: &DevArtifact| {  };
    let on_progress = |_p: DevProgress| {  };
    let cancel = || -> (r: bool)
        ensures
            !r,
        { false };
    scan_dev_artifacts_with(root, opts, disk, &on_artifact, &on_progress, &cancel)
}

/// Every listing holds proper names, and none twice.
pub open spec fn proper_listings(still: StillDisk) -> bool {
    forall|dir: Seq<char>| #[trigger]
        (still.list)(dir) is Some ==> {
            let entries = (still.list)(dir)->0;
            &&& forall|i: int| 0 <= i < entries.len() ==> is_name((#[trigger] entries[i]).0)
            &&& forall|i: int, j: int|
                0 <= i < j < entries.len() ==> (#[trigger] entries[i]).0 != (#[trigger] entries[j]).0
        }
}

/// `path` lies at or beneath one of the entries of `dir`.
pub open spec fn beneath_entry(path: Seq<char>, dir: Seq<char>, entries: Seq<(Seq<char>, bool)>) -> bool {
    exists|i: int| 0 <= i < entries.len() && under(path, joined(dir, (#[trigger] entries[i]).0))
}

/// Two paths of which neither lies at or beneath the other.
pub open spec fn apart(a: Seq<char>, b: Seq<char>) -> bool {
    !under(a, b) && !under(b, a)
}

proof fn lemma_found_below(still: StillDisk, dir: Seq<char>, depth: nat, max_depth: nat)
    requires
        proper_listings(still),
    ensures
        forall|i: int|
            0 <= i < found(still, dir, depth, max_depth).len() ==> under(
                #[trigger] found(still, dir, depth, max_depth)[i].path,
                dir,
            ),
    decreases max_depth - depth, 1int, 0int,
{
    lemma_under_self(dir);
    let hit = matching(dir, still.stat);
    if !(depth > 0 && hit is Some) && depth < max_depth && (still.list)(dir) is Some {
        let entries = (still.list)(dir)->0;
        lemma_found_in_below(still, dir, entries, depth, max_depth);
        let all = found_in(still, dir, entries, depth, max_depth);
        assert forall|i: int| 0 <= i < all.len() implies under(#[trigger] all[i].path, dir) by {
            let k = choose|k: int|
                0 <= k < entries.len() && under(all[i].path, joined(dir, (#[trigger] entries[k]).0));
            lemma_child_below(dir, entries[k].0);
            lemma_under_trans(all[i].path, joined(dir, entries[k].0), dir);
        }
    }
}

proof fn lemma_found_in_below(
    still: StillDisk,
    dir: Seq<char>,
    entries: Seq<(Seq<char>, bool)>,
    depth: nat,
    max_depth: nat,
)
    requires
        proper_listings(still),
        depth < max_depth,
        forall|i: int| 0 <= i < entries.len() ==> is_name((#[trigger] entries[i]).0),
    ensures
        forall|i: int|
            0 <= i < found_in(still, dir, entries, depth, max_depth).len() ==> beneath_entry(
                #[trigger] found_in(still, dir, entries, depth, max_depth)[i].path,
                dir,
                entries,
            ),
    decreases max_depth - depth, 0int, entries.len(),
{
    if entries.len() > 0 {
        let front = entries.drop_last();
        assert forall|i: int| 0 <= i < front.len() implies is_name((#[trigger] front[i]).0) by {
            assert(front[i] == entries[i]);
        }
        lemma_found_in_below(still, dir, front, depth, max_depth);
        let (name, is_dir) = entries.last();
        let path = joined(dir, name);
        let a = found_in(still, dir, front, depth, max_depth);
        let b = if is_dir && !icloud_container(path) {
            found(still, path, depth + 1, max_depth)
        } else {
            Seq::empty()
        };
        lemma_found_below(still, path, depth + 1, max_depth);
        assert(found_in(still, dir, entries, depth, max_depth) == a + b);
        assert forall|i: int| 0 <= i < (a + b).len() implies beneath_entry(#[trigger] (a + b)[i].path, dir, entries) by {
            if i < a.len() {
                assert((a + b)[i] == a[i]);
                let k = choose|k: int|
                    0 <= k < front.len() && under(a[i].path, joined(dir, (#[trigger] front[k]).0));
                assert(entries[k] == front[k]);
                assert(under(a[i].path, joined(dir, entries[k].0)));
            } else {
                assert((a + b)[i] == b[i - a.len()]);
                assert(entries[entries.len() - 1].0 == name);
                assert(under(b[i - a.len()].path, joined(dir, entries[entries.len() - 1].0)));
            }
        }
    }
}

proof fn lemma_child_below(dir: Seq<char>, name: Seq<char>)
    requires
        is_name(name),
    ensures
        under(joined(dir, name), dir),
{
    lemma_parts_joined_name(dir, name);
    assert(parts(joined(dir, name)).subrange(0, parts(dir).len() as int) =~= parts(dir));
}

proof fn lemma_siblings_apart(dir: Seq<char>, x: Seq<char>, y: Seq<char>, a: Seq<char>, b: Seq<char>)
    requires
        is_name(x),
        is_name(y),
        x != y,
        under(a, joined(dir, x)),
        under(b, joined(dir, y)),
    ensures
        apart(a, b),
{
    lemma_parts_joined_name(dir, x);
    lemma_parts_joined_name(dir, y);
    let n = parts(dir).len() as int;
    let px = parts(joined(dir, x));
    let py = parts(joined(dir, y));
    assert(px =~= parts(a).subrange(0, px.len() as int));
    assert(py =~= parts(b).subrange(0, py.len() as int));
    assert(parts(a)[n] == px[n]);
    assert(parts(b)[n] == py[n]);
    if under(a, b) {
        assert(parts(b) =~= parts(a).subrange(0, parts(b).len() as int));
        assert(parts(b)[n] == parts(a)[n]);
    }
    if under(b, a) {
        assert(parts(a) =~= parts(b).subrange(0, parts(a).len() as int));
        assert(parts(b)[n] == parts(a)[n]);
    }
}

/// No artifact lies inside another: nothing is reported, or counted, twice.
pub proof fn artifacts_do_not_nest(still: StillDisk, dir: Seq<char>, depth: nat, max_depth: nat)
    requires
        proper_listings(still),
    ensures
        forall|i: int, j: int|
            0 <= i < j < found(still, dir, depth, max_depth).len() ==> apart(
                #[trigger] found(still, dir, depth, max_depth)[i].path,
                #[trigger] found(still, dir, depth, max_depth)[j].path,
            ),
    decreases max_depth - depth, 1int, 0int,
{
    let hit = matching(dir, still.stat);
    if !(depth > 0 && hit is Some) && depth < max_depth && (still.list)(dir) is Some {
        lemma_found_in_apart(still, dir, (still.list)(dir)->0, depth, max_depth);
    }
}

proof fn lemma_found_in_apart(
    still: StillDisk,
    dir: Seq<char>,
    entries: Seq<(Seq<char>, bool)>,
    depth: nat,
    max_depth: nat,
)
    requires
        proper_listings(still),
        depth < max_depth,
        forall|i: int| 0 <= i < entries.len() ==> is_name((#[trigger] entries[i]).0),
        forall|i: int, j: int| 0 <= i < j < entries.len() ==> (#[trigger] entries[i]).0 != (#[trigger] entries[j]).0,
    ensures
        forall|i: int, j: int|
            0 <= i < j < found_in(still, dir, entries, depth, max_depth).len() ==> apart(
                #[trigger] found_in(still, dir, entries, depth, max_depth)[i].path,
                #[trigger] found_in(still, dir, entries, depth, max_depth)[j].path,
            ),
    decreases max_depth - depth, 0int, entries.len(),
{
    if entries.len() > 0 {
        let front = entries.drop_last();
        assert forall|i: int| 0 <= i < front.len() implies is_name((#[trigger] front[i]).0) by {
            assert(front[i] == entries[i]);
        }
        assert forall|i: int, j: int| 0 <= i < j < front.len() implies (#[trigger] front[i]).0
            != (#[trigger] front[j]).0 by {
            assert(front[i] == entries[i]);
            assert(front[j] == entries[j]);
        }
        lemma_found_in_apart(still, dir, front, depth, max_depth);
        lemma_found_in_below(still, dir, front, depth, max_depth);
        let (name, is_dir) = entries.last();
        let path = joined(dir, name);
        artifacts_do_not_nest(still, path, depth + 1, max_depth);
        lemma_found_below(still, path, depth + 1, max_depth);
        let a = found_in(still, dir, front, depth, max_depth);
        let b = if is_dir && !icloud_container(path) {
            found(still, path, depth + 1, max_depth)
        } else {
            Seq::empty()
        };
        assert(found_in(still, dir, entries, depth, max_depth) == a + b);
        assert forall|i: int, j: int| 0 <= i < j < (a + b).len() implies apart(
            #[trigger] (a + b)[i].path,
            #[trigger] (a + b)[j].path,
        ) by {
            if j < a.len() {
                assert((a + b)[i] == a[i] && (a + b)[j] == a[j]);
            } else if i >= a.len() {
                assert((a + b)[i] == b[i - a.len()] && (a + b)[j] == b[j - a.len()]);
            } else {
                assert((a + b)[i] == a[i] && (a + b)[j] == b[j - a.len()]);
                let k = choose|k: int|
                    0 <= k < front.len() && under(a[i].path, joined(dir, (#[trigger] front[k]).0));
                assert(front[k] == entries[k]);
                assert(entries[k].0 != entries[entries.len() - 1].0);
                lemma_siblings_apart(dir, front[k].0, name, a[i].path, b[j - a.len()].path);
            }
        }
    }
}

/// The iCloud container is never entered: nothing is found at or beneath one
/// that lies inside the folder scanned. Scanning the container itself works.
pub proof fn icloud_is_not_entered(still: StillDisk, dir: Seq<char>, depth: nat, max_depth: nat, container: Seq<char>)
    requires
        proper_listings(still),
        icloud_container(container),
        under(container, dir),
        !same_path(container, dir),
    ensures
        forall|i: int|
            0 <= i < found(still, dir, depth, max_depth).len() ==> !under(
                #[trigger] found(still, dir, depth, max_depth)[i].path,
                container,
            ),
    decreases max_depth - depth, 1int, 0int,
{
    let hit = matching(dir, still.stat);
    if depth > 0 && hit is Some {
        assert(parts(dir) =~= parts(container).subrange(0, parts(dir).len() as int));
        if under(dir, container) {
            assert(parts(container) =~= parts(dir));
        }
    } else if depth < max_depth && (still.list)(dir) is Some {
        lemma_found_in_not_icloud(still, dir, (still.list)(dir)->0, depth, max_depth, container);
    }
}

proof fn lemma_found_in_not_icloud(
    still: StillDisk,
    dir: Seq<char>,
    entries: Seq<(Seq<char>, bool)>,
    depth: nat,
    max_depth: nat,
    container: Seq<char>,
)
    requires
        proper_listings(still),
        depth < max_depth,
        forall|i: int| 0 <= i < entries.len() ==> is_name((#[trigger] entries[i]).0),
        icloud_container(container),
        under(container, dir),
        !same_path(container, dir),
    ensures
        forall|i: int|
            0 <= i < found_in(still, dir, entries, depth, max_depth).len() ==> !under(
                #[trigger] found_in(still, dir, entries, depth, max_depth)[i].path,
                container,
            ),
    decreases max_depth - depth, 0int, entries.len(),
{
    if entries.len() > 0 {
        let front = entries.drop_last();
        assert forall|i: int| 0 <= i < front.len() implies is_name((#[trigger] front[i]).0) by {
            assert(front[i] == entries[i]);
        }
        lemma_found_in_not_icloud(still, dir, front, depth, max_depth, container);
        let (name, is_dir) = entries.last();
        let path = joined(dir, name);
        let a = found_in(still, dir, front, depth, max_depth);
        let b = if is_dir && !icloud_container(path) {
            found(still, path, depth + 1, max_depth)
        } else {
            Seq::empty()
        };
        assert(found_in(still, dir, entries, depth, max_depth) == a + b);
        lemma_found_below(still, path, depth + 1, max_depth);
        lemma_parts_joined_name(dir, name);
        if b.len() > 0 && under(container, path) {
            assert(!same_path(container, path));
            icloud_is_not_entered(still, path, depth + 1, max_depth, container);
        }
        assert forall|i: int| 0 <= i < (a + b).len() implies !under(#[trigger] (a + b)[i].path, container) by {
            if i < a.len() {
                assert((a + b)[i] == a[i]);
            } else {
                let hit = b[i - a.len()].path;
                assert((a + b)[i] == b[i - a.len()]);
                assert(under(hit, path));
                if under(hit, container) && !under(container, path) {
                    let pc = parts(container);
                    let pp = parts(path);
                    assert(pc =~= parts(hit).subrange(0, pc.len() as int));
                    assert(pp =~= parts(hit).subrange(0, pp.len() as int));
                    assert(parts(dir) =~= pc.subrange(0, parts(dir).len() as int));
                    if pc.len() == parts(dir).len() {
                        assert(pc =~= parts(dir));
                    }
                    assert(pp =~= pc.subrange(0, pp.len() as int));
                }
            }
        }
    }
}

proof fn lemma_first_match(list: Seq<DevPattern>, dir: Seq<char>, stat: spec_fn(Seq<char>) -> Option<Stat>)
    ensures
        forall|k: int|
            0 <= k < list.len() && last_name(dir) == Some((#[trigger] list[k]).dir_name@) && marker_holds(
                dir,
                list[k].marker,
                stat,
            ) ==> first_match(list, dir, stat) is Some,
        first_match(list, dir, stat) matches Some(p) ==> list.contains(p) && last_name(dir) == Some(p.dir_name@)
            && marker_holds(dir, p.marker, stat),
    decreases list.len(),
{
    if list.len() > 0 {
        let rest = list.drop_first();
        lemma_first_match(rest, dir, stat);
        assert forall|k: int|
            0 <= k < list.len() && last_name(dir) == Some((#[trigger] list[k]).dir_name@) && marker_holds(
                dir,
                list[k].marker,
                stat,
            ) implies first_match(list, dir, stat) is Some by {
            if k > 0 {
                assert(rest[k - 1] == list[k]);
            }
        }
        if let Some(p) = first_match(list, dir, stat) {
            if last_name(dir) == Some(list[0].dir_name@) && marker_holds(dir, list[0].marker, stat) {
                assert(list[0] == p);
            } else {
                let k = choose|k: int| 0 <= k < rest.len() && rest[k] == p;
                assert(list[k + 1] == p);
            }
        }
    }
}

/// A directory is an artifact by its name, and where the name does not tell
/// by the file that belongs to it: one beside it, or one in it. Without that
/// file it is none of that kind.
pub proof fn what_makes_an_artifact(
    parent: Seq<char>,
    tool: Seq<char>,
    name: Seq<char>,
    file: Seq<char>,
    tier: SafetyTier,
    stat: spec_fn(Seq<char>) -> Option<Stat>,
)
    requires
        is_name(name),
    ensures
        crate::patterns::known_by_name(tool, name, tier) ==> matching(joined(parent, name), stat) is Some,
        crate::patterns::known_by_content(tool, name, file, tier) && stat(joined(joined(parent, name), file)) is Some ==> matching(
            joined(parent, name),
            stat,
        ) is Some,
        crate::patterns::known_by_neighbour(tool, name, file, tier) && stat(joined(parent_text(joined(parent, name)), file)) is Some
            ==> matching(joined(parent, name), stat) is Some,
        matching(joined(parent, name), stat) matches Some(p) ==> {
            &&& p.dir_name@ == name
            &&& crate::patterns::is_known(p)
            &&& match p.marker {
                None => true,
                Some(Marker::Sibling(f)) => stat(joined(parent_text(joined(parent, name)), f@)) is Some,
                Some(Marker::Inside(f)) => stat(joined(joined(parent, name), f@)) is Some,
            }
        },
        same_path(parent_text(joined(parent, name)), parent),
{
    let dir = joined(parent, name);
    crate::paths::lemma_parent_of_child(parent, name);
    let list = known_patterns();
    lemma_first_match(list, dir, stat);
    crate::patterns::the_table_holds_what_is_known(tool, name, file, tier, 0);
    if crate::patterns::known_by_name(tool, name, tier) {
        let p = choose|p: DevPattern| #[trigger]
            list.contains(p) && p.tool@ == tool && p.dir_name@ == name && p.safety == tier && p.marker is None;
        let k = choose|k: int| 0 <= k < list.len() && list[k] == p;
        assert(marker_holds(dir, list[k].marker, stat));
    }
    if crate::patterns::known_by_neighbour(tool, name, file, tier) && stat(joined(parent_text(dir), file)) is Some {
        let p = choose|p: DevPattern| #[trigger]
            list.contains(p) && p.tool@ == tool && p.dir_name@ == name && p.safety == tier && crate::patterns::told_by_neighbour(p, file);
        let k = choose|k: int| 0 <= k < list.len() && list[k] == p;
        assert(marker_holds(dir, list[k].marker, stat));
    }
    if crate::patterns::known_by_content(tool, name, file, tier) && stat(joined(dir, file)) is Some {
        let p = choose|p: DevPattern| #[trigger]
            list.contains(p) && p.tool@ == tool && p.dir_name@ == name && p.safety == tier && crate::patterns::told_by_content(p, file);
        let k = choose|k: int| 0 <= k < list.len() && list[k] == p;
        assert(marker_holds(dir, list[k].marker, stat));
    }
    if let Some(p) = matching(dir, stat) {
        let k = choose|k: int| 0 <= k < list.len() && list[k] == p;
        crate::patterns::the_table_holds_what_is_known(tool, name, file, tier, k);
    }
}

/// The iCloud container is the folder `Mobile Documents` of a `Library`.
pub proof fn what_the_icloud_container_is(dir: Seq<char>, name: Seq<char>)
    requires
        is_name(name),
    ensures
        icloud_container(joined(dir, name)) <==> name == "Mobile Documents"@ && last_name(dir) == Some("Library"@),
{
    crate::paths::lemma_parent_of_child(dir, name);
    assert(parts(parent_text(joined(dir, name))) == parts(dir));
}

/// An artifact is found as such, with what it weighs and when it was touched,
/// and nothing inside it is. Elsewhere what is found in a real directory that
/// is not the iCloud container is found from above, and nothing is found
/// below the deepest level.
pub proof fn what_is_below_is_found_from_above(
    still: StillDisk,
    dir: Seq<char>,
    depth: nat,
    max_depth: nat,
    entries: Seq<(Seq<char>, bool)>,
    k: int,
)
    ensures
        depth > 0 && matching(dir, still.stat) is Some ==> {
            let all = found(still, dir, depth, max_depth);
            &&& all.len() == 1
            &&& all[0].path == dir
            &&& all[0].size == (still.size)(dir)
            &&& all[0].modified == (match (still.stat)(dir) {
                Some(stat) => stat.modified_secs,
                None => None,
            })
            &&& all[0].tool == matching(dir, still.stat)->0.tool@
            &&& all[0].name == matching(dir, still.stat)->0.dir_name@
            &&& all[0].safety == matching(dir, still.stat)->0.safety
            &&& all[0].description == matching(dir, still.stat)->0.description@
        },
        (depth == 0 || matching(dir, still.stat) is None) && depth < max_depth && (still.list)(dir) == Some(entries) && 0
            <= k < entries.len() && entries[k].1 && !icloud_container(joined(dir, entries[k].0)) ==> forall|i: int|
            0 <= i < found(still, joined(dir, entries[k].0), depth + 1, max_depth).len() ==> found(
                still,
                dir,
                depth,
                max_depth,
            ).contains(#[trigger] found(still, joined(dir, entries[k].0), depth + 1, max_depth)[i]),
        (depth == 0 || matching(dir, still.stat) is None) && (depth >= max_depth || (still.list)(dir) is None) ==> found(
            still,
            dir,
            depth,
            max_depth,
        ).len() == 0,
{
    if (depth == 0 || matching(dir, still.stat) is None) && depth < max_depth && (still.list)(dir) == Some(entries) && 0 <= k
        < entries.len() && entries[k].1 && !icloud_container(joined(dir, entries[k].0)) {
        lemma_found_above(still, dir, entries, depth, max_depth, k);
    }
}

proof fn lemma_found_above(
    still: StillDisk,
    dir: Seq<char>,
    entries: Seq<(Seq<char>, bool)>,
    depth: nat,
    max_depth: nat,
    k: int,
)
    requires
        depth < max_depth,
        0 <= k < entries.len(),
        entries[k].1,
        !icloud_container(joined(dir, entries[k].0)),
    ensures
        forall|i: int|
            0 <= i < found(still, joined(dir, entries[k].0), depth + 1, max_depth).len() ==> found_in(
                still,
                dir,
                entries,
                depth,
                max_depth,
            ).contains(#[trigger] found(still, joined(dir, entries[k].0), depth + 1, max_depth)[i]),
    decreases entries.len(),
{
    let front = entries.drop_last();
    let (before, all) = (found_in(still, dir, front, depth, max_depth), found_in(still, dir, entries, depth, max_depth));
    let here = found(still, joined(dir, entries[k].0), depth + 1, max_depth);
    if k < front.len() {
        assert(front[k] == entries[k]);
        lemma_found_above(still, dir, front, depth, max_depth, k);
    }
    assert forall|i: int| 0 <= i < here.len() implies all.contains(#[trigger] here[i]) by {
        if k < front.len() {
            assert(before.contains(here[i]));
            let j = choose|j: int| 0 <= j < before.len() && before[j] == here[i];
            assert(all[j] == here[i]);
        } else {
            assert(all[before.len() + i] == here[i]);
        }
    }
}

/// The name of an artifact is one that some tool is known to use.
pub proof fn names_of_artifacts(name: Seq<char>, tool: Seq<char>, file: Seq<char>, tier: SafetyTier)
    ensures
        crate::patterns::known_by_name(tool, name, tier) || crate::patterns::known_by_neighbour(tool, name, file, tier)
            || crate::patterns::known_by_content(tool, name, file, tier) ==> artifact_name(name),
        artifact_name(name) ==> exists|p: DevPattern| #[trigger] crate::patterns::is_known(p) && p.dir_name@ == name,
{
    let list = known_patterns();
    crate::patterns::the_table_holds_what_is_known(tool, name, file, tier, 0);
    if crate::patterns::known_by_name(tool, name, tier) || crate::patterns::known_by_neighbour(tool, name, file, tier)
        || crate::patterns::known_by_content(tool, name, file, tier) {
        let p = choose|p: DevPattern| #[trigger] list.contains(p) && p.dir_name@ == name;
        let k = choose|k: int| 0 <= k < list.len() && list[k] == p;
        assert(list[k].dir_name@ == name);
    }
    if artifact_name(name) {
        let i = choose|i: int| 0 <= i < list.len() && #[trigger] list[i].dir_name@ == name;
        crate::patterns::the_table_holds_what_is_known(tool, name, file, tier, i);
        assert(crate::patterns::is_known(list[i]));
    }
}

} // verus!
