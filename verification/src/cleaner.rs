//! The cleaner: removes selected items, but only after the safety layer
//! clears each path.
//!
//! Deletion is abstracted behind the [`RemovalBackend`] trait, so that what
//! would be removed can be decided without touching a file.

use vstd::prelude::*;

use crate::disk::{probe_size, Probe};
use crate::model::{items_size, CleanReport, FailedItem, RefusedItem, ScanItem};
use crate::paths::{opt_view, same_path, texts, FsPath};
use crate::safety::{
    answer_view, approved_exactly_when_safe, approved_with, judged, refusal_text, within, Refusal, RefusalReason,
    SafetyGuard,
};
use crate::scanner;

verus! {

/// Performs the actual removal of a path, preferably by moving it to the
/// Trash.
pub trait RemovalBackend {
    /// The paths that may be handed to it: any, unless it says otherwise.
    /// What is allowed here bounds what can ever be removed.
    open spec fn accepts(&self, path: Seq<char>) -> bool {
        true
    }

    /// Removes `path`. Returns an error message on failure.
    fn remove(&self, path: &FsPath) -> (r: Result<(), String>)
        requires
            self.accepts(path@),
    ;
}

/// The backend takes every item that the guard lets through, and need not
/// take any other. In a dry run it need not take anything.
pub open spec fn takes_approved<B: RemovalBackend, C: Fn(&FsPath) -> Option<FsPath>>(
    backend: &B,
    items: Seq<ScanItem>,
    guard: &SafetyGuard,
    home: Option<Seq<char>>,
    canonicalize: C,
    dry_run: bool,
) -> bool {
    forall|i: int, place: Option<FsPath>|
        !dry_run && 0 <= i < items.len() && #[trigger] call_ensures(canonicalize, (&items[i].path,), place)
            && guard.rules_on(items[i].path@, place_view(place), home) is Ok ==> backend.accepts(items[i].path@)
}

/// The backend takes every item that lies outside what `guard` denies, and
/// need not take any other. In a dry run it need not take anything.
pub open spec fn takes_undenied<B: RemovalBackend, C: Fn(&FsPath) -> Option<FsPath>>(
    backend: &B,
    items: Seq<ScanItem>,
    guard: SafetyGuard,
    canonicalize: C,
    dry_run: bool,
) -> bool {
    forall|i: int, place: Option<FsPath>|
        !dry_run && 0 <= i < items.len() && #[trigger] call_ensures(canonicalize, (&items[i].path,), place)
            && !denied(guard, judged(items[i].path@, place_view(place))) ==> backend.accepts(items[i].path@)
}

/// A denied root of the guard holds the place.
pub open spec fn denied(guard: SafetyGuard, place: Seq<char>) -> bool {
    exists|i: int| 0 <= i < guard.denies().len() && within(place, #[trigger] guard.denies()[i])
}

/// What became of one item.
pub enum Outcome {
    /// The safety layer refused it.
    Refused(RefusalReason),
    /// It was removed, or would be.
    Removed,
    /// The backend failed to remove it, with its message.
    Failed(String),
}

/// What became of one item, as a mathematical value.
pub enum Fate {
    Refused(Refusal),
    Removed,
    Failed(Seq<char>),
}

impl View for Outcome {
    type V = Fate;

    open spec fn view(&self) -> Fate {
        match self {
            Outcome::Refused(reason) => Fate::Refused(reason@),
            Outcome::Removed => Fate::Removed,
            Outcome::Failed(message) => Fate::Failed(message@),
        }
    }
}

/// The paths that were removed.
pub open spec fn removed_paths(items: Seq<ScanItem>, fates: Seq<Fate>) -> Seq<Seq<char>>
    decreases fates.len(),
{
    if fates.len() == 0 {
        Seq::empty()
    } else {
        let before = removed_paths(items, fates.drop_last());
        match fates.last() {
            Fate::Removed => before.push(items[fates.len() - 1].path@),
            _ => before,
        }
    }
}

/// The paths that were refused, with the reason in words.
pub open spec fn refused_paths(items: Seq<ScanItem>, fates: Seq<Fate>) -> Seq<(Seq<char>, Seq<char>)>
    decreases fates.len(),
{
    if fates.len() == 0 {
        Seq::empty()
    } else {
        let before = refused_paths(items, fates.drop_last());
        match fates.last() {
            Fate::Refused(reason) => before.push((items[fates.len() - 1].path@, refusal_text(reason))),
            _ => before,
        }
    }
}

/// The paths that could not be removed, with the backend's message.
pub open spec fn failed_paths(items: Seq<ScanItem>, fates: Seq<Fate>) -> Seq<(Seq<char>, Seq<char>)>
    decreases fates.len(),
{
    if fates.len() == 0 {
        Seq::empty()
    } else {
        let before = failed_paths(items, fates.drop_last());
        match fates.last() {
            Fate::Failed(message) => before.push((items[fates.len() - 1].path@, message)),
            _ => before,
        }
    }
}

/// The sizes of the items that were removed, added up.
pub open spec fn reclaimed(items: Seq<ScanItem>, fates: Seq<Fate>) -> nat
    decreases fates.len(),
{
    if fates.len() == 0 {
        0
    } else {
        reclaimed(items, fates.drop_last()) + match fates.last() {
            Fate::Removed => items[fates.len() - 1].size_bytes as nat,
            _ => 0,
        }
    }
}

/// What a list of refused items stands for.
pub open spec fn refused_view(v: Seq<RefusedItem>) -> Seq<(Seq<char>, Seq<char>)> {
    v.map_values(|i: RefusedItem| (i.path@, i.reason@))
}

/// What a list of failed items stands for.
pub open spec fn failed_view(v: Seq<FailedItem>) -> Seq<(Seq<char>, Seq<char>)> {
    v.map_values(|i: FailedItem| (i.path@, i.error@))
}

/// `report` says that the first items had the given fates.
pub open spec fn reports(report: CleanReport, items: Seq<ScanItem>, fates: Seq<Fate>) -> bool {
    &&& texts(report.removed@) == removed_paths(items, fates)
    &&& refused_view(report.refused@) == refused_paths(items, fates)
    &&& failed_view(report.failed@) == failed_paths(items, fates)
    &&& report.bytes_reclaimed == reclaimed(items, fates)
}

/// The fate of an item that the guard judges so: `removal` is what the
/// backend answers, where it is asked.
pub open spec fn fate_of(answer: Result<Seq<char>, Refusal>, dry_run: bool, removal: Result<(), String>) -> Fate {
    match answer {
        Err(reason) => Fate::Refused(reason),
        Ok(_) => if dry_run {
            Fate::Removed
        } else {
            match removal {
                Ok(_) => Fate::Removed,
                Err(message) => Fate::Failed(message@),
            }
        },
    }
}

/// `fate` is a fate that `item` can have: judged by where the filesystem
/// resolves it to, and handed to the backend only if it is not a dry run and
/// the guard lets it through.
pub open spec fn possible_fate<B: RemovalBackend, C: Fn(&FsPath) -> Option<FsPath>>(
    item: ScanItem,
    guard: &SafetyGuard,
    home: Option<Seq<char>>,
    canonicalize: C,
    backend: &B,
    dry_run: bool,
    fate: Fate,
) -> bool {
    exists|place: Option<FsPath>, removal: Result<(), String>|
        #![trigger call_ensures(canonicalize, (&item.path,), place), fate_of(guard.rules_on(item.path@, place_view(place), home), dry_run, removal)]
        {
            let answer = guard.rules_on(item.path@, place_view(place), home);
            &&& call_ensures(canonicalize, (&item.path,), place)
            &&& answer is Ok && !dry_run ==> call_ensures(B::remove, (backend, &item.path), removal)
            &&& fate == fate_of(answer, dry_run, removal)
        }
}

/// The view of an optional path.
pub open spec fn place_view(p: Option<FsPath>) -> Option<Seq<char>> {
    match p {
        Some(path) => Some(path@),
        None => None,
    }
}

/// `fates` are fates that the first items can have.
pub open spec fn possible_fates<B: RemovalBackend, C: Fn(&FsPath) -> Option<FsPath>>(
    items: Seq<ScanItem>,
    guard: &SafetyGuard,
    home: Option<Seq<char>>,
    canonicalize: C,
    backend: &B,
    dry_run: bool,
    fates: Seq<Fate>,
) -> bool {
    &&& fates.len() <= items.len()
    &&& forall|i: int|
        0 <= i < fates.len() ==> possible_fate(
            items[i],
            guard,
            home,
            canonicalize,
            backend,
            dry_run,
            #[trigger] fates[i],
        )
}

proof fn lemma_items_size_prefix(items: Seq<ScanItem>, i: int)
    requires
        0 <= i < items.len(),
    ensures
        items_size(items.take(i + 1)) == items_size(items.take(i)) + items[i].size_bytes as nat,
        items_size(items.take(i + 1)) <= items_size(items),
    decreases items.len() - i,
{
    assert(items.take(i + 1).drop_last() =~= items.take(i));
    if i + 1 < items.len() {
        lemma_items_size_prefix(items, i + 1);
    } else {
        assert(items.take(i + 1) =~= items);
    }
}

/// Enters what became of one item into the report.
pub fn record(report: &mut CleanReport, item: &ScanItem, outcome: Outcome)
    requires
        outcome is Removed ==> old(report).bytes_reclaimed + item.size_bytes <= u64::MAX,
    ensures
        final(report).dry_run == old(report).dry_run,
        texts(final(report).removed@) == if outcome is Removed {
            texts(old(report).removed@).push(item.path@)
        } else {
            texts(old(report).removed@)
        },
        refused_view(final(report).refused@) == match outcome@ {
            Fate::Refused(reason) => refused_view(old(report).refused@).push((item.path@, refusal_text(reason))),
            _ => refused_view(old(report).refused@),
        },
        failed_view(final(report).failed@) == match outcome@ {
            Fate::Failed(message) => failed_view(old(report).failed@).push((item.path@, message)),
            _ => failed_view(old(report).failed@),
        },
        final(report).bytes_reclaimed == old(report).bytes_reclaimed + if outcome is Removed {
            item.size_bytes
        } else {
            0
        },
{
    match outcome {
        Outcome::Refused(reason) => {
            report.refused.push(RefusedItem { path: item.path.clone(), reason: reason.message() });
            assert(refused_view(report.refused@) =~= refused_view(old(report).refused@).push(
                (item.path@, refusal_text(reason@)),
            ));
        },
        Outcome::Removed => {
            report.removed.push(item.path.clone());
            report.bytes_reclaimed = report.bytes_reclaimed + item.size_bytes;
            assert(texts(report.removed@) =~= texts(old(report).removed@).push(item.path@));
        },
        Outcome::Failed(message) => {
            let ghost said = message@;
            report.failed.push(FailedItem { path: item.path.clone(), error: message });
            assert(failed_view(report.failed@) =~= failed_view(old(report).failed@).push((item.path@, said)));
        },
    }
}

/// Cleans a set of scanned items.
///
/// Every path is validated by `guard` immediately before it is removed: the
/// scan result is not trusted. When `dry_run` is set nothing is removed, and
/// the report lists what would have been.
pub fn clean_items<B: RemovalBackend, C: Fn(&FsPath) -> Option<FsPath>>(
    items: &Vec<ScanItem>,
    guard: &SafetyGuard,
    home: Option<&FsPath>,
    canonicalize: &C,
    backend: &B,
    dry_run: bool,
) -> (r: CleanReport)
    requires
        forall|p: &FsPath| call_requires(*canonicalize, (p,)),
        items_size(items@) <= u64::MAX,
        takes_approved(backend, items@, guard, opt_view(home), *canonicalize, dry_run),
    ensures
        r.dry_run == dry_run,
        exists|fates: Seq<Fate>|
            fates.len() == items@.len() && #[trigger] possible_fates(
                items@,
                guard,
                opt_view(home),
                *canonicalize,
                backend,
                dry_run,
                fates,
            ) && reports(r, items@, fates),
{
    let ghost all = items@;
    let ghost h = opt_view(home);
    let mut report = CleanReport {
        removed: Vec::new(),
        refused: Vec::new(),
        failed: Vec::new(),
        bytes_reclaimed: 0,
        dry_run,
    };
    let ghost mut fates: Seq<Fate> = Seq::empty();
    let mut i: usize = 0;
    proof {
        assert(texts(report.removed@) =~= removed_paths(all, fates));
        assert(refused_view(report.refused@) =~= refused_paths(all, fates));
        assert(failed_view(report.failed@) =~= failed_paths(all, fates));
        assert(all.take(0) =~= Seq::<ScanItem>::empty());
    }
    while i < items.len()
        invariant
            all == items@,
            h == opt_view(home),
            forall|p: &FsPath| call_requires(*canonicalize, (p,)),
            items_size(all) <= u64::MAX,
            takes_approved(backend, all, guard, h, *canonicalize, dry_run),
            i <= all.len(),
            report.dry_run == dry_run,
            fates.len() == i,
            possible_fates(all, guard, h, *canonicalize, backend, dry_run, fates),
            reports(report, all, fates),
            report.bytes_reclaimed <= items_size(all.take(i as int)),
        decreases all.len() - i,
    {
        let item: &ScanItem = &items[i];
        proof {
            lemma_items_size_prefix(all, i as int);
        }
        let place = canonicalize(&item.path);
        assert(call_ensures(*canonicalize, (&all[i as int].path,), place));
        let answer = guard.validate(&item.path, place.as_ref(), home);
        let ghost judged = answer_view(answer);
        assert(judged == guard.rules_on(item.path@, place_view(place), h));
        let ghost mut removal: Result<(), String> = Ok(());
        let outcome = match answer {
            Err(reason) => Outcome::Refused(reason),
            Ok(_) => {
                if dry_run {
                    Outcome::Removed
                } else {
                    let done = backend.remove(&item.path);
                    proof {
                        removal = done;
                    }
                    match done {
                        Ok(_) => Outcome::Removed,
                        Err(message) => Outcome::Failed(message),
                    }
                }
            },
        };
        let ghost fate = outcome@;
        let ghost next = fates.push(fate);
        proof {
            assert(call_ensures(*canonicalize, (&all[i as int].path,), place));
            assert(fate == fate_of(guard.rules_on(item.path@, place_view(place), h), dry_run, removal));
            assert(possible_fate(all[i as int], guard, h, *canonicalize, backend, dry_run, fate));
            assert forall|j: int| 0 <= j < next.len() implies possible_fate(
                all[j],
                guard,
                h,
                *canonicalize,
                backend,
                dry_run,
                #[trigger] next[j],
            ) by {
                if j < i {
                    assert(next[j] == fates[j]);
                }
            }
            assert(next.drop_last() =~= fates);
        }
        record(&mut report, item, outcome);
        proof {
            fates = next;
        }
        i += 1;
    }
    report
}

/// The size of a path just before cleaning, so that the bytes reported
/// reflect what is on disk rather than a stale scan.
pub fn fresh_size(path: &FsPath, probe: &Probe) -> (r: u64)
    requires
        probe_size(path@, *probe, Seq::empty()) <= u64::MAX,
    ensures
        r == probe_size(path@, *probe, Seq::empty()),
{
    let mut warnings: Vec<String> = Vec::new();
    scanner::dir_size(path, probe, &mut warnings)
}

/// Every item is removed, refused or failed, and none is two of these.
pub proof fn every_item_has_one_fate(items: Seq<ScanItem>, fates: Seq<Fate>)
    requires
        fates.len() <= items.len(),
    ensures
        removed_paths(items, fates).len() + refused_paths(items, fates).len() + failed_paths(items, fates).len()
            == fates.len(),
        reclaimed(items, fates) <= items_size(items.take(fates.len() as int)),
    decreases fates.len(),
{
    if fates.len() > 0 {
        every_item_has_one_fate(items, fates.drop_last());
        lemma_items_size_prefix(items, fates.len() - 1);
    }
}

/// The dry run is the plan: a real run, on a filesystem that resolves an item
/// to the same place, refuses what the plan refuses, and tries to remove
/// exactly what the plan lists.
pub proof fn the_dry_run_is_the_plan(answer: Result<Seq<char>, Refusal>, plan: Result<(), String>, removal: Result<(), String>)
    ensures
        fate_of(answer, true, plan) is Refused <==> fate_of(answer, false, removal) is Refused,
        fate_of(answer, true, plan) is Refused ==> fate_of(answer, true, plan) == fate_of(answer, false, removal),
        fate_of(answer, true, plan) !is Failed,
        fate_of(answer, false, removal) is Removed <==> fate_of(answer, true, plan) is Removed && removal is Ok,
{
}

/// Answers that `canonicalize` can give for the paths.
pub open spec fn placed<C: Fn(&FsPath) -> Option<FsPath>>(
    canonicalize: C,
    paths: Seq<FsPath>,
    places: Seq<Option<FsPath>>,
) -> bool {
    &&& places.len() == paths.len()
    &&& forall|i: int| 0 <= i < paths.len() ==> call_ensures(canonicalize, (&paths[i],), #[trigger] places[i])
}

/// What is approved once each of the paths is, on top of what was before.
pub open spec fn approving(
    had: Seq<Seq<char>>,
    paths: Seq<Seq<char>>,
    places: Seq<Option<FsPath>>,
) -> Seq<Seq<char>>
    decreases paths.len(),
{
    if paths.len() == 0 {
        had
    } else {
        approved_with(
            approving(had, paths.drop_last(), places),
            judged(paths.last(), place_view(places[paths.len() - 1])),
        )
    }
}

/// `guard` approves the paths besides what it approved before, and denies
/// what it denied.
pub open spec fn approves_also<C: Fn(&FsPath) -> Option<FsPath>>(
    guard: SafetyGuard,
    before: SafetyGuard,
    paths: Seq<FsPath>,
    canonicalize: C,
) -> bool {
    &&& guard.denies() == before.denies()
    &&& exists|places: Seq<Option<FsPath>>| #[trigger]
        placed(canonicalize, paths, places) && guard.approves() == approving(before.approves(), texts(paths), places)
}

proof fn lemma_approving_prefix(
    had: Seq<Seq<char>>,
    paths: Seq<Seq<char>>,
    a: Seq<Option<FsPath>>,
    b: Seq<Option<FsPath>>,
)
    requires
        forall|i: int| 0 <= i < paths.len() ==> a[i] == b[i],
    ensures
        approving(had, paths, a) == approving(had, paths, b),
    decreases paths.len(),
{
    if paths.len() > 0 {
        lemma_approving_prefix(had, paths.drop_last(), a, b);
    }
}

/// Approves each of the paths.
pub fn approve_all<C: Fn(&FsPath) -> Option<FsPath>>(guard: SafetyGuard, paths: &Vec<FsPath>, canonicalize: &C) -> (r:
    SafetyGuard)
    requires
        forall|p: &FsPath| call_requires(*canonicalize, (p,)),
    ensures
        approves_also(r, guard, paths@, *canonicalize),
{
    let ghost all = texts(paths@);
    let ghost had = guard.approves();
    let ghost denied = guard.denies();
    let mut used = guard;
    let ghost mut places: Seq<Option<FsPath>> = Seq::empty();
    let mut i: usize = 0;
    assert(all.take(0) =~= Seq::<Seq<char>>::empty());
    while i < paths.len()
        invariant
            forall|p: &FsPath| call_requires(*canonicalize, (p,)),
            all == texts(paths@),
            i <= paths@.len(),
            places.len() == i,
            forall|k: int| 0 <= k < i ==> call_ensures(*canonicalize, (&paths@[k],), #[trigger] places[k]),
            used.denies() == denied,
            used.approves() == approving(had, all.take(i as int), places),
        decreases paths@.len() - i,
    {
        let path: &FsPath = &paths[i];
        let place = canonicalize(path);
        used.approve_root(path, place.as_ref());
        proof {
            let before = places;
            places = places.push(place);
            assert(all.take(i + 1).drop_last() =~= all.take(i as int));
            lemma_approving_prefix(had, all.take(i as int), before, places);
        }
        i += 1;
    }
    assert(all.take(i as int) =~= all);
    assert(placed(*canonicalize, paths@, places));
    used
}

/// The paths of the items.
pub open spec fn item_paths(items: Seq<ScanItem>) -> Seq<FsPath> {
    items.map_values(|item: ScanItem| item.path)
}

/// Cleans items that are each approved on their own account: apart from what
/// `guard` approves already, nothing but the items themselves is removable,
/// and what it denies stays denied.
pub fn clean_approved<B: RemovalBackend, C: Fn(&FsPath) -> Option<FsPath>>(
    items: &Vec<ScanItem>,
    guard: SafetyGuard,
    home: Option<&FsPath>,
    canonicalize: &C,
    backend: &B,
    dry_run: bool,
) -> (r: CleanReport)
    requires
        forall|p: &FsPath| call_requires(*canonicalize, (p,)),
        items_size(items@) <= u64::MAX,
        takes_undenied(backend, items@, guard, *canonicalize, dry_run),
    ensures
        r.dry_run == dry_run,
        exists|used: SafetyGuard, fates: Seq<Fate>|
            approves_also(used, guard, item_paths(items@), *canonicalize) && fates.len() == items@.len()
                && #[trigger] possible_fates(
                items@,
                &used,
                opt_view(home),
                *canonicalize,
                backend,
                dry_run,
                fates,
            ) && reports(r, items@, fates),
{
    let mut paths: Vec<FsPath> = Vec::new();
    let mut i: usize = 0;
    while i < items.len()
        invariant
            i <= items@.len(),
            paths@ == item_paths(items@).take(i as int),
        decreases items@.len() - i,
    {
        paths.push(items[i].path.clone());
        assert(paths@ =~= item_paths(items@).take(i + 1));
        i += 1;
    }
    assert(paths@ =~= item_paths(items@));
    let used = approve_all(guard, &paths, canonicalize);
    assert forall|i: int, place: Option<FsPath>|
        !dry_run && 0 <= i < items@.len() && #[trigger] call_ensures(*canonicalize, (&items@[i].path,), place)
            && used.rules_on(items@[i].path@, place_view(place), opt_view(home)) is Ok implies backend.accepts(
        items@[i].path@,
    ) by {
        approved_exactly_when_safe(used, items@[i].path@, place_view(place), opt_view(home));
        assert(!denied(guard, judged(items@[i].path@, place_view(place))));
    }
    clean_items(items, &used, home, canonicalize, backend, dry_run)
}

/// One item more: only a removal adds to what was reclaimed, the size of the
/// item removed; and the item is listed once, where its fate puts it, with
/// the reason.
pub proof fn each_item_is_listed_by_its_fate(items: Seq<ScanItem>, fates: Seq<Fate>, fate: Fate)
    requires
        fates.len() < items.len(),
    ensures
        ({
            let item = items[fates.len() as int];
            let after = fates.push(fate);
            match fate {
                Fate::Removed => {
                    &&& reclaimed(items, after) == reclaimed(items, fates) + item.size_bytes
                    &&& removed_paths(items, after) == removed_paths(items, fates).push(item.path@)
                    &&& refused_paths(items, after) == refused_paths(items, fates)
                    &&& failed_paths(items, after) == failed_paths(items, fates)
                },
                Fate::Refused(reason) => {
                    &&& reclaimed(items, after) == reclaimed(items, fates)
                    &&& removed_paths(items, after) == removed_paths(items, fates)
                    &&& refused_paths(items, after) == refused_paths(items, fates).push((item.path@, refusal_text(reason)))
                    &&& failed_paths(items, after) == failed_paths(items, fates)
                },
                Fate::Failed(message) => {
                    &&& reclaimed(items, after) == reclaimed(items, fates)
                    &&& removed_paths(items, after) == removed_paths(items, fates)
                    &&& refused_paths(items, after) == refused_paths(items, fates)
                    &&& failed_paths(items, after) == failed_paths(items, fates).push((item.path@, message))
                },
            }
        }),
        reclaimed(items, Seq::empty()) == 0,
{
    assert(fates.push(fate).drop_last() =~= fates);
}

/// Where everything is removed, all that the items weigh is reclaimed; where
/// nothing is, nothing.
pub proof fn all_or_nothing_is_reclaimed(items: Seq<ScanItem>, fates: Seq<Fate>)
    requires
        fates.len() <= items.len(),
    ensures
        (forall|i: int| 0 <= i < fates.len() ==> #[trigger] fates[i] is Removed) ==> reclaimed(items, fates) == items_size(
            items.take(fates.len() as int),
        ),
        (forall|i: int| 0 <= i < fates.len() ==> #[trigger] fates[i] !is Removed) ==> reclaimed(items, fates) == 0
            && removed_paths(items, fates).len() == 0,
    decreases fates.len(),
{
    if fates.len() > 0 {
        let front = fates.drop_last();
        let n = fates.len() as int;
        all_or_nothing_is_reclaimed(items, front);
        assert(forall|i: int| 0 <= i < front.len() ==> #[trigger] front[i] == fates[i]);
        assert(items.take(n).drop_last() =~= items.take(n - 1));
        assert(fates[n - 1] == fates.last());
    } else {
        assert(items.take(0) =~= Seq::<ScanItem>::empty());
    }
}

/// What the guard refuses is refused for the guard's reason, whatever a
/// removal would have done; what it lets through is removed, or fails with
/// what the removal said; and in a dry run it counts as removed.
pub proof fn the_guard_decides(place: Seq<char>, reason: Refusal, said: String, dry_run: bool, removal: Result<(), String>)
    ensures
        fate_of(Err(reason), dry_run, removal) == Fate::Refused(reason),
        fate_of(Ok(place), false, Ok(())) == Fate::Removed,
        fate_of(Ok(place), false, Err(said)) == Fate::Failed(said@),
        fate_of(Ok(place), true, removal) == Fate::Removed,
{
}

/// To approve further paths approves each of them, at the place it stands for,
/// and takes back nothing; and nothing but these is approved besides.
pub proof fn what_is_approved_also(
    had: Seq<Seq<char>>,
    paths: Seq<Seq<char>>,
    places: Seq<Option<FsPath>>,
    k: int,
)
    ensures
        had.is_prefix_of(approving(had, paths, places)),
        0 <= k < paths.len() ==> exists|i: int|
            0 <= i < approving(had, paths, places).len() && same_path(
                #[trigger] approving(had, paths, places)[i],
                judged(paths[k], place_view(places[k])),
            ),
        had.len() <= k < approving(had, paths, places).len() ==> exists|i: int|
            0 <= i < paths.len() && approving(had, paths, places)[k] == judged(
                #[trigger] paths[i],
                place_view(places[i]),
            ),
    decreases paths.len(),
{
    if paths.len() > 0 {
        let front = paths.drop_last();
        let before = approving(had, front, places);
        let all = approving(had, paths, places);
        let place = judged(paths.last(), place_view(places[paths.len() - 1]));
        what_is_approved_also(had, front, places, k);
        assert(before.is_prefix_of(all));
        if 0 <= k < front.len() {
            assert(front[k] == paths[k]);
            let i = choose|i: int| 0 <= i < before.len() && same_path(#[trigger] before[i], judged(paths[k], place_view(places[k])));
            assert(all[i] == before[i]);
            assert(same_path(all[i], judged(paths[k], place_view(places[k]))));
        } else if k == front.len() {
            if exists|i: int| 0 <= i < before.len() && same_path(#[trigger] before[i], place) {
                let i = choose|i: int| 0 <= i < before.len() && same_path(#[trigger] before[i], place);
                assert(same_path(all[i], place));
            } else {
                assert(all[before.len() as int] == place);
                assert(same_path(all[before.len() as int], place));
            }
        }
        if had.len() <= k < before.len() {
            let i = choose|i: int| 0 <= i < front.len() && before[k] == judged(#[trigger] front[i], place_view(places[i]));
            assert(paths[i] == front[i]);
            assert(all[k] == before[k]);
        } else if had.len() <= k < all.len() {
            assert(all[k] == place);
            assert(paths[paths.len() - 1] == paths.last());
        }
    }
}

} // verus!
