//! Developer junk: what a search for build artifacts shows and removes.

use vstd::prelude::*;

use crate::cleaner::{
    self, approves_also, failed_paths, failed_view, item_paths, possible_fates, reclaimed, refused_paths, refused_view,
    removed_paths, reports, Fate, RemovalBackend,
};
use crate::cli::DevArgs;
use crate::devscan::{self, matching, recognized, DevArtifact, DevProgress};
use crate::disk::{stands_still, Disk, StillDisk};
use crate::model::{capped, items_size, CleanReport, RefusedItem, ScanItem};
use crate::paths::{opt_view, shown_below, texts, FsPath};
use crate::patterns::DevPattern;
use crate::report::{self, push_line};
use crate::safety::{refusal_text, system_deny, Refusal, RefusalReason, SafetyGuard};
use crate::scanner::{items_view, ItemView};
use crate::text::{
    self, ascii_lowercase_of, digits, is_ascii, lemma_lowercase_word, lemma_occurs_in_itself, lowercase_of, occurs,
    stands_at, strings,
};
use crate::ui::{
    self, counted, in_bold, in_cyan, in_dim, in_green, left_aligned, right_aligned, shown_bar, shown_bytes, truncated,
};

verus! {

/// The seconds of a day.
pub const DAY: u64 = 86_400;

/// The moment so many days before `now`, or the first one there is.
pub open spec fn days_before(now: u64, days: u64) -> nat {
    if now >= days * DAY {
        (now - days * DAY) as nat
    } else {
        0
    }
}

/// The names that a toolchain is asked for by, where that is not the name it
/// goes by itself: its package manager's.
pub const TOOLCHAINS: [(&'static str, &'static str); 2] = [("Rust", "cargo"), ("Node.js", "npm")];

/// What is asked for is the tool's own name or part of it, or the whole name
/// of its package manager, whatever the case.
pub open spec fn is_of(tool: Seq<char>, asked: Seq<char>) -> bool {
    ||| occurs(lowercase_of(tool), lowercase_of(asked))
    ||| exists|i: int|
        0 <= i < TOOLCHAINS@.len() && #[trigger] TOOLCHAINS@[i].0@ == tool && TOOLCHAINS@[i].1@ == lowercase_of(asked)
}

/// Whether a tool is the one that is asked for.
pub fn is_toolchain(tool: &str, asked: &str) -> (r: bool)
    ensures
        r == is_of(tool@, asked@),
{
    let own = text::to_lowercase(tool);
    let sought = text::to_lowercase(asked);
    if text::contains(own.as_str(), sought.as_str()) {
        return true;
    }
    let table = TOOLCHAINS;
    let mut i: usize = 0;
    while i < 2
        invariant
            table@ == TOOLCHAINS@,
            sought@ == lowercase_of(asked@),
            i <= 2,
            forall|k: int|
                0 <= k < i ==> !(#[trigger] TOOLCHAINS@[k].0@ == tool@ && TOOLCHAINS@[k].1@ == lowercase_of(asked@)),
        decreases 2 - i,
    {
        if text::same_text(table[i].0, tool) && text::same_text(table[i].1, sought.as_str()) {
            assert(TOOLCHAINS@[i as int].0@ == tool@);
            return true;
        }
        i += 1;
    }
    false
}

proof fn lemma_cargo()
    ensures
        lowercase_of("cargo"@) == "cargo"@,
{
    reveal_strlit("cargo");
    lemma_lowercase_word("cargo"@);
}

proof fn lemma_npm()
    ensures
        lowercase_of("npm"@) == "npm"@,
{
    reveal_strlit("npm");
    lemma_lowercase_word("npm"@);
}

proof fn lemma_xcode()
    ensures
        lowercase_of("xcode"@) == "xcode"@,
        lowercase_of("Xcode"@) == "xcode"@,
{
    reveal_strlit("xcode");
    reveal_strlit("Xcode");
    lemma_lowercase_word("xcode"@);
    assert(ascii_lowercase_of("Xcode"@) =~= "xcode"@);
    assert(is_ascii("Xcode"@));
}

proof fn lemma_rust_is_not_go()
    ensures
        !is_of("Rust"@, "go"@),
{
    reveal_strlit("Rust");
    reveal_strlit("go");
    reveal_strlit("cargo");
    reveal_strlit("npm");
    lemma_lowercase_word("go"@);
    assert(is_ascii("Rust"@));
    let lower = lowercase_of("Rust"@);
    assert(lower.len() == 4);
    assert(forall|i: int| 0 <= i < 4 ==> #[trigger] lower[i] != 'g');
    if occurs(lower, "go"@) {
        let at = choose|at: int| #[trigger] stands_at(lower, "go"@, at);
        assert(lower.subrange(at, at + 2)[0] == lower[at]);
    }
    assert(TOOLCHAINS@[0].1@.len() == 5);
    assert(TOOLCHAINS@[1].1@.len() == 3);
}

/// Asked for by the names of their package managers, Rust and Node.js are
/// found, and Xcode by its own. Part of a package manager's name does not
/// ask for it: Go is not Rust.
pub proof fn toolchains_go_by_their_package_managers()
    ensures
        is_of("Rust"@, "cargo"@),
        is_of("Node.js"@, "npm"@),
        is_of("Xcode"@, "xcode"@),
        !is_of("Rust"@, "go"@),
{
    lemma_rust_is_not_go();
    lemma_cargo();
    lemma_npm();
    lemma_xcode();
    lemma_occurs_in_itself("xcode"@);
    assert(TOOLCHAINS@[0].0@ == "Rust"@);
    assert(TOOLCHAINS@[1].0@ == "Node.js"@);
}

/// The artifact passes the filters for size, toolchain and age. One whose age
/// is not known passes the last: that is no evidence that it is new.
pub open spec fn passes(args: DevArgs, now: u64) -> spec_fn(DevArtifact) -> bool {
    |a: DevArtifact|
        {
            &&& args.min_size is None || a.size_bytes >= args.min_size->0
            &&& args.tool is None || is_of(a.tool@, args.tool->0@)
            &&& args.older_than is None || a.modified_secs is None || a.modified_secs->0 <= days_before(
                now,
                args.older_than->0,
            )
        }
}

/// The moment that artifacts must not have been touched since.
pub fn cutoff(now: u64, older_than: Option<u64>) -> (r: Option<u64>)
    requires
        older_than is Some ==> older_than->0 * DAY <= u64::MAX,
    ensures
        match older_than {
            Some(days) => r is Some && r->0 == days_before(now, days),
            None => r is None,
        },
{
    match older_than {
        Some(days) => {
            let back: u64 = days * DAY;
            Some(if now >= back {
                now - back
            } else {
                0
            })
        },
        None => None,
    }
}

/// The artifacts that pass the filters for size, toolchain and age.
pub fn filter(artifacts: &Vec<DevArtifact>, args: &DevArgs, now: u64) -> (r: Vec<DevArtifact>)
    requires
        args.older_than is Some ==> args.older_than->0 * DAY <= u64::MAX,
    ensures
        r@ == artifacts@.filter(passes(*args, now)),
{
    let limit = cutoff(now, args.older_than);
    let ghost keep = passes(*args, now);
    let mut r: Vec<DevArtifact> = Vec::new();
    let mut i: usize = 0;
    reveal(Seq::filter);
    assert(r@ =~= artifacts@.take(0).filter(keep));
    while i < artifacts.len()
        invariant
            keep == passes(*args, now),
            args.older_than is Some <==> limit is Some,
            args.older_than is Some ==> limit->0 == days_before(now, args.older_than->0),
            i <= artifacts@.len(),
            r@ == artifacts@.take(i as int).filter(keep),
        decreases artifacts@.len() - i,
    {
        let a: &DevArtifact = &artifacts[i];
        proof {
            reveal(Seq::filter);
            assert(artifacts@.take(i + 1).drop_last() =~= artifacts@.take(i as int));
        }
        let large: bool = match args.min_size {
            Some(min) => a.size_bytes >= min,
            None => true,
        };
        let wanted: bool = match &args.tool {
            Some(tool) => is_toolchain(a.tool.as_str(), tool.as_str()),
            None => true,
        };
        let old: bool = match (limit, a.modified_secs) {
            (Some(limit), Some(modified)) => modified <= limit,
            _ => true,
        };
        if large && wanted && old {
            r.push(a.clone());
        }
        i += 1;
    }
    assert(artifacts@.take(i as int) =~= artifacts@);
    r
}

/// The sizes of the artifacts, added up.
pub open spec fn artifacts_size(artifacts: Seq<DevArtifact>) -> nat
    decreases artifacts.len(),
{
    if artifacts.len() == 0 {
        0
    } else {
        artifacts_size(artifacts.drop_last()) + artifacts.last().size_bytes as nat
    }
}

/// The sizes of the artifacts, added up as far as they fit.
pub fn total_size(artifacts: &Vec<DevArtifact>) -> (r: u64)
    ensures
        r == capped(artifacts_size(artifacts@)),
{
    let mut total: u64 = 0;
    let mut i: usize = 0;
    assert(artifacts@.take(0).len() == 0);
    while i < artifacts.len()
        invariant
            i <= artifacts@.len(),
            total == capped(artifacts_size(artifacts@.take(i as int))),
        decreases artifacts@.len() - i,
    {
        assert(artifacts@.take(i + 1).drop_last() =~= artifacts@.take(i as int));
        total = total.saturating_add(artifacts[i].size_bytes);
        i += 1;
    }
    assert(artifacts@.take(i as int) =~= artifacts@);
    total
}

/// The row of one artifact. Paths are shown below the folder that was
/// searched: what they share carries no information.
pub open spec fn artifact_row(color: bool, a: DevArtifact, largest: nat, root: Seq<char>) -> Seq<char> {
    "  "@ + right_aligned(in_bold(color, shown_bytes(a.size_bytes as nat)), 9) + "  "@ + left_aligned(
        in_cyan(color, a.tool@),
        10,
    ) + "  "@ + in_dim(color, shown_bar(a.size_bytes as nat, largest, 8)) + "  "@ + truncated(
        shown_below(a.path@, root),
        56,
    )
}

/// The size of the first artifact, which is the largest.
pub open spec fn first_size(artifacts: Seq<DevArtifact>) -> nat {
    if artifacts.len() > 0 {
        artifacts[0].size_bytes as nat
    } else {
        0
    }
}

/// The smaller of the two.
pub open spec fn at_most(n: nat, limit: nat) -> nat {
    if n < limit {
        n
    } else {
        limit
    }
}

/// The table of artifacts.
pub open spec fn table(color: bool, artifacts: Seq<DevArtifact>, limit: nat, root: Seq<char>) -> Seq<Seq<char>> {
    let head = "  "@ + right_aligned(in_dim(color, "SIZE"@), 9) + "  "@ + left_aligned(in_dim(color, "TOOL"@), 10)
        + "  "@ + left_aligned(in_dim(color, ""@), 8) + "  "@ + in_dim(color, "PATH"@);
    let rows = artifacts.take(at_most(artifacts.len(), limit) as int).map_values(
        |a: DevArtifact| artifact_row(color, a, first_size(artifacts), root),
    );
    let more = if artifacts.len() > limit {
        seq![
            "  "@ + in_dim(
                color,
                "… and "@ + digits((artifacts.len() - limit) as nat) + " more (--limit to show them)"@,
            ),
        ]
    } else {
        Seq::empty()
    };
    let sum = "  "@ + in_bold(color, shown_bytes(capped(artifacts_size(artifacts)))) + " across "@ + counted(
        artifacts.len(),
        "artifact"@,
        "artifacts"@,
    );
    seq![""@, head] + rows + more + seq![""@, sum, ""@]
}

fn row_line(color: bool, a: &DevArtifact, largest: u64, root: &FsPath) -> (r: String)
    ensures
        r@ == artifact_row(color, *a, largest as nat, root@),
{
    let mut r = "  ".to_owned();
    let size = ui::bytes(a.size_bytes);
    let size = ui::bold(color, size.as_str());
    let size = ui::rpad(size.as_str(), 9);
    r.append(size.as_str());
    r.append("  ");
    let tool = ui::cyan(color, a.tool.as_str());
    let tool = ui::lpad(tool.as_str(), 10);
    r.append(tool.as_str());
    r.append("  ");
    let bar = ui::bar(a.size_bytes, largest, 8);
    let bar = ui::dim(color, bar.as_str());
    r.append(bar.as_str());
    r.append("  ");
    let shown = a.path.below(root);
    let shown = ui::truncate_path(shown.as_str(), 56);
    r.append(shown.as_str());
    r
}

fn head_line(color: bool) -> (r: String)
    ensures
        r@ == "  "@ + right_aligned(in_dim(color, "SIZE"@), 9) + "  "@ + left_aligned(in_dim(color, "TOOL"@), 10)
            + "  "@ + left_aligned(in_dim(color, ""@), 8) + "  "@ + in_dim(color, "PATH"@),
{
    let mut r = "  ".to_owned();
    let size = ui::dim(color, "SIZE");
    let size = ui::rpad(size.as_str(), 9);
    r.append(size.as_str());
    r.append("  ");
    let tool = ui::dim(color, "TOOL");
    let tool = ui::lpad(tool.as_str(), 10);
    r.append(tool.as_str());
    r.append("  ");
    let bar = ui::dim(color, "");
    let bar = ui::lpad(bar.as_str(), 8);
    r.append(bar.as_str());
    r.append("  ");
    let path = ui::dim(color, "PATH");
    r.append(path.as_str());
    r
}

/// The table of artifacts, as lines.
pub fn table_lines(color: bool, artifacts: &Vec<DevArtifact>, limit: usize, root: &FsPath) -> (r: Vec<String>)
    ensures
        strings(r@) == table(color, artifacts@, limit as nat, root@),
{
    let largest: u64 = if artifacts.len() > 0 {
        artifacts[0].size_bytes
    } else {
        0
    };
    let n: usize = artifacts.len();
    let shown: usize = if n < limit {
        n
    } else {
        limit
    };
    let ghost row = |a: DevArtifact| artifact_row(color, a, first_size(artifacts@), root@);
    let mut lines = report::no_lines();
    push_line(&mut lines, "".to_owned());
    push_line(&mut lines, head_line(color));
    let ghost head = strings(lines@);
    let mut i: usize = 0;
    assert(strings(lines@) =~= head + artifacts@.take(0).map_values(row));
    while i < shown
        invariant
            row == (|a: DevArtifact| artifact_row(color, a, first_size(artifacts@), root@)),
            largest == first_size(artifacts@),
            i <= shown <= artifacts@.len(),
            strings(lines@) == head + artifacts@.take(i as int).map_values(row),
        decreases shown - i,
    {
        push_line(&mut lines, row_line(color, &artifacts[i], largest, root));
        assert(strings(lines@) =~= head + artifacts@.take(i + 1).map_values(row));
        i += 1;
    }
    if n > limit {
        let mut words = "… and ".to_owned();
        let rest = text::decimal((n - limit) as u64);
        words.append(rest.as_str());
        words.append(" more (--limit to show them)");
        let words = ui::dim(color, words.as_str());
        let mut line = "  ".to_owned();
        line.append(words.as_str());
        push_line(&mut lines, line);
    }
    push_line(&mut lines, "".to_owned());
    let mut sum = "  ".to_owned();
    let size = ui::bytes(total_size(artifacts));
    let size = ui::bold(color, size.as_str());
    sum.append(size.as_str());
    sum.append(" across ");
    let what = ui::count(n, "artifact", "artifacts");
    sum.append(what.as_str());
    push_line(&mut lines, sum);
    push_line(&mut lines, "".to_owned());
    assert(strings(lines@) =~= table(color, artifacts@, limit as nat, root@));
    lines
}

/// The line that stands while a search goes on, over the one before it.
pub fn progress_line(progress: &DevProgress) -> (r: String)
    ensures
        r@ == "\r\x1b[2K"@ + digits(progress.dirs_scanned as nat) + " folders · "@ + digits(progress.found as nat)
            + " found · "@ + shown_bytes(progress.bytes_found as nat) + " — "@ + truncated(progress.current@, 40),
{
    let mut r = "\r\x1b[2K".to_owned();
    let n = text::decimal(progress.dirs_scanned);
    r.append(n.as_str());
    r.append(" folders · ");
    let n = text::decimal(progress.found);
    r.append(n.as_str());
    r.append(" found · ");
    let n = ui::bytes(progress.bytes_found);
    r.append(n.as_str());
    r.append(" — ");
    let current = ui::truncate_path(progress.current.as_str(), 40);
    r.append(current.as_str());
    r
}

/// The items to remove: of the artifacts, those that still are one.
pub open spec fn removable(artifacts: Seq<DevArtifact>, still_are: Seq<bool>) -> Seq<ItemView>
    decreases artifacts.len(),
{
    if artifacts.len() == 0 {
        Seq::empty()
    } else {
        let before = removable(artifacts.drop_last(), still_are);
        let a = artifacts.last();
        if still_are[artifacts.len() - 1] {
            before.push(
                ItemView { target_id: "developer"@, path: a.path@, size: a.size_bytes as nat, is_dir: true },
            )
        } else {
            before
        }
    }
}

/// The paths that are no artifacts any more.
pub open spec fn strays(artifacts: Seq<DevArtifact>, still_are: Seq<bool>) -> Seq<Seq<char>>
    decreases artifacts.len(),
{
    if artifacts.len() == 0 {
        Seq::empty()
    } else {
        let before = strays(artifacts.drop_last(), still_are);
        if still_are[artifacts.len() - 1] {
            before
        } else {
            before.push(artifacts.last().path@)
        }
    }
}

/// `still_are` can have come from asking of each artifact whether it still is
/// one.
pub open spec fn rechecked<D: Disk>(disk: &D, artifacts: Seq<DevArtifact>, still_are: Seq<bool>) -> bool {
    &&& still_are.len() == artifacts.len()
    &&& forall|i: int|
        0 <= i < artifacts.len() && #[trigger] still_are[i] ==> exists|pattern: DevPattern| #[trigger]
            recognized(disk, artifacts[i].path@, pattern)
    &&& forall|still: StillDisk, i: int|
        #![trigger stands_still(disk, still), still_are[i]]
        stands_still(disk, still) && 0 <= i < artifacts.len() ==> still_are[i] == (matching(
            artifacts[i].path@,
            still.stat,
        ) is Some)
}

proof fn lemma_removable_prefix(artifacts: Seq<DevArtifact>, a: Seq<bool>, b: Seq<bool>)
    requires
        forall|i: int| 0 <= i < artifacts.len() ==> a[i] == b[i],
    ensures
        removable(artifacts, a) == removable(artifacts, b),
        strays(artifacts, a) == strays(artifacts, b),
    decreases artifacts.len(),
{
    if artifacts.len() > 0 {
        lemma_removable_prefix(artifacts.drop_last(), a, b);
    }
}

/// The items to remove: of the artifacts, those that still are one; and the
/// paths of those that are not.
pub fn removable_items<D: Disk>(artifacts: &Vec<DevArtifact>, disk: &D) -> (r: (Vec<ScanItem>, Vec<FsPath>))
    ensures
        exists|still_are: Seq<bool>| #[trigger]
            rechecked(disk, artifacts@, still_are) && items_view(r.0@) == removable(artifacts@, still_are) && texts(r.1@)
                == strays(artifacts@, still_are),
        items_size(r.0@) <= artifacts_size(artifacts@),
{
    let mut r: Vec<ScanItem> = Vec::new();
    let mut gone: Vec<FsPath> = Vec::new();
    let ghost mut still_are: Seq<bool> = Seq::empty();
    let mut i: usize = 0;
    assert(artifacts@.take(0).len() == 0);
    assert(items_view(r@) =~= removable(artifacts@.take(0), still_are));
    assert(texts(gone@) =~= strays(artifacts@.take(0), still_are));
    while i < artifacts.len()
        invariant
            i <= artifacts@.len(),
            still_are.len() == i,
            forall|k: int|
                0 <= k < i && #[trigger] still_are[k] ==> exists|pattern: DevPattern| #[trigger]
                    recognized(disk, artifacts@[k].path@, pattern),
            forall|still: StillDisk, k: int|
                #![trigger stands_still(disk, still), still_are[k]]
                stands_still(disk, still) && 0 <= k < i ==> still_are[k] == (matching(
                    artifacts@[k].path@,
                    still.stat,
                ) is Some),
            items_view(r@) == removable(artifacts@.take(i as int), still_are),
            texts(gone@) == strays(artifacts@.take(i as int), still_are),
            items_size(r@) <= artifacts_size(artifacts@.take(i as int)),
        decreases artifacts@.len() - i,
    {
        let ghost before = r@;
        let ghost left = texts(gone@);
        let ghost had = still_are;
        assert(artifacts@.take(i + 1).drop_last() =~= artifacts@.take(i as int));
        let a: &DevArtifact = &artifacts[i];
        let is_one = devscan::is_artifact_path(&a.path, disk);
        proof {
            still_are = still_are.push(is_one);
            lemma_removable_prefix(artifacts@.take(i as int), had, still_are);
        }
        if is_one {
            let item = ScanItem {
                target_id: "developer".to_owned(),
                path: a.path.clone(),
                size_bytes: a.size_bytes,
                is_dir: true,
            };
            r.push(item);
            assert(r@.drop_last() =~= before);
            assert(items_view(r@) =~= items_view(before).push(item@));
        } else {
            gone.push(a.path.clone());
            assert(texts(gone@) =~= left.push(a.path@));
        }
        i += 1;
    }
    assert(artifacts@.take(i as int) =~= artifacts@);
    assert(rechecked(disk, artifacts@, still_are));
    (r, gone)
}

proof fn lemma_removable_is_one(artifacts: Seq<DevArtifact>, still_are: Seq<bool>, i: int) -> (k: int)
    requires
        0 <= i < removable(artifacts, still_are).len(),
        still_are.len() >= artifacts.len(),
    ensures
        0 <= k < artifacts.len(),
        still_are[k],
        removable(artifacts, still_are)[i].path == artifacts[k].path@,
    decreases artifacts.len(),
{
    let before = removable(artifacts.drop_last(), still_are);
    if i < before.len() {
        lemma_removable_is_one(artifacts.drop_last(), still_are, i)
    } else {
        artifacts.len() - 1
    }
}

proof fn lemma_stray(artifacts: Seq<DevArtifact>, still_are: Seq<bool>, k: int)
    requires
        0 <= k < artifacts.len(),
        !still_are[k],
    ensures
        strays(artifacts, still_are).contains(artifacts[k].path@),
    decreases artifacts.len(),
{
    let all = strays(artifacts, still_are);
    if k == artifacts.len() - 1 {
        assert(all[all.len() - 1] == artifacts[k].path@);
    } else {
        lemma_stray(artifacts.drop_last(), still_are, k);
        let before = strays(artifacts.drop_last(), still_are);
        let j = choose|j: int| 0 <= j < before.len() && before[j] == artifacts[k].path@;
        assert(all[j] == before[j]);
    }
}

/// Paths as they are refused for lying outside what is approved.
pub open spec fn refused_as_outside(paths: Seq<Seq<char>>) -> Seq<(Seq<char>, Seq<char>)> {
    paths.map_values(|p: Seq<char>| (p, refusal_text(Refusal::Outside)))
}

/// The report of a clean: the fates of the items, and the strays refused.
pub open spec fn reports_with_strays(
    report: CleanReport,
    items: Seq<ScanItem>,
    fates: Seq<Fate>,
    strays: Seq<Seq<char>>,
) -> bool {
    &&& texts(report.removed@) == removed_paths(items, fates)
    &&& refused_view(report.refused@) == refused_paths(items, fates) + refused_as_outside(strays)
    &&& failed_view(report.failed@) == failed_paths(items, fates)
    &&& report.bytes_reclaimed == reclaimed(items, fates)
}

/// The path is listed among what was refused.
pub open spec fn lists_refused(report: CleanReport, path: Seq<char>) -> bool {
    exists|j: int| 0 <= j < report.refused@.len() && (#[trigger] report.refused@[j]).path@ == path
}

/// Enters paths that were never handed to the guard as refused.
fn refuse(report: CleanReport, paths: &Vec<FsPath>) -> (r: CleanReport)
    ensures
        r.removed == report.removed,
        r.failed == report.failed,
        r.bytes_reclaimed == report.bytes_reclaimed,
        r.dry_run == report.dry_run,
        refused_view(r.refused@) == refused_view(report.refused@) + refused_as_outside(texts(paths@)),
{
    let mut r = report;
    let ghost start = refused_view(r.refused@);
    let ghost all = refused_as_outside(texts(paths@));
    let mut i: usize = 0;
    assert(refused_view(r.refused@) =~= start + all.take(0));
    while i < paths.len()
        invariant
            r.removed == report.removed,
            r.failed == report.failed,
            r.bytes_reclaimed == report.bytes_reclaimed,
            r.dry_run == report.dry_run,
            all == refused_as_outside(texts(paths@)),
            i <= paths@.len(),
            refused_view(r.refused@) == start + all.take(i as int),
        decreases paths@.len() - i,
    {
        let ghost before = refused_view(r.refused@);
        let reason = RefusalReason::OutsideApprovedRoots.message();
        r.refused.push(RefusedItem { path: paths[i].clone(), reason });
        assert(refused_view(r.refused@) =~= before.push(all[i as int]));
        assert(refused_view(r.refused@) =~= start + all.take(i + 1));
        i += 1;
    }
    assert(all.take(i as int) =~= all);
    r
}

/// Removes the artifacts, after a second look at whether each really is build
/// output. The guard approves nothing but the ones that are, and nothing else
/// is handed to the backend. A path that came here some other way is refused.
pub fn clean<D: Disk, B: RemovalBackend, C: Fn(&FsPath) -> Option<FsPath>>(
    artifacts: &Vec<DevArtifact>,
    home: Option<&FsPath>,
    disk: &D,
    canonicalize: &C,
    backend: &B,
) -> (r: CleanReport)
    requires
        forall|p: &FsPath| call_requires(*canonicalize, (p,)),
        artifacts_size(artifacts@) <= u64::MAX,
        forall|p: FsPath, pattern: DevPattern| #[trigger] recognized(disk, p@, pattern) ==> backend.accepts(p@),
    ensures
        !r.dry_run,
        exists|items: Seq<ScanItem>, still_are: Seq<bool>, bare: SafetyGuard, used: SafetyGuard, fates: Seq<Fate>|
            {
                &&& #[trigger] rechecked(disk, artifacts@, still_are)
                &&& items_view(items) == removable(artifacts@, still_are)
                &&& #[trigger] bare.built_from(*canonicalize, system_deny(), Seq::empty())
                &&& approves_also(used, bare, item_paths(items), *canonicalize)
                &&& fates.len() == items.len()
                &&& #[trigger] possible_fates(items, &used, opt_view(home), *canonicalize, backend, false, fates)
                &&& reports_with_strays(r, items, fates, strays(artifacts@, still_are))
                &&& forall|k: int|
                    0 <= k < artifacts@.len() && !still_are[k] ==> lists_refused(r, (#[trigger] artifacts@[k]).path@)
            },
{
    let (items, gone) = removable_items(artifacts, disk);
    let guard = SafetyGuard::system_only(canonicalize);
    let ghost still_are = choose|still_are: Seq<bool>| #[trigger]
        rechecked(disk, artifacts@, still_are) && items_view(items@) == removable(artifacts@, still_are) && texts(gone@)
            == strays(artifacts@, still_are);
    proof {
        assert forall|i: int| 0 <= i < items@.len() implies backend.accepts((#[trigger] items@[i]).path@) by {
            assert(items_view(items@)[i] == items@[i]@);
            let k = lemma_removable_is_one(artifacts@, still_are, i);
            let pattern = choose|pattern: DevPattern| #[trigger] recognized(disk, artifacts@[k].path@, pattern);
            assert(recognized(disk, artifacts@[k].path@, pattern));
        }
    }
    let report = cleaner::clean_approved(&items, guard, home, canonicalize, backend, false);
    let r = refuse(report, &gone);
    proof {
        let (used, fates) = choose|used: SafetyGuard, fates: Seq<Fate>|
            approves_also(used, guard, item_paths(items@), *canonicalize) && fates.len() == items@.len()
                && #[trigger] possible_fates(
                items@,
                &used,
                opt_view(home),
                *canonicalize,
                backend,
                false,
                fates,
            ) && reports(report, items@, fates);
        assert(reports_with_strays(r, items@, fates, strays(artifacts@, still_are)));
        let first = refused_paths(items@, fates);
        let all = refused_as_outside(strays(artifacts@, still_are));
        assert forall|k: int| 0 <= k < artifacts@.len() && !still_are[k] implies lists_refused(
            r,
            (#[trigger] artifacts@[k]).path@,
        ) by {
            lemma_stray(artifacts@, still_are, k);
            let path = artifacts@[k].path@;
            let j = choose|j: int|
                0 <= j < strays(artifacts@, still_are).len() && strays(artifacts@, still_are)[j] == path;
            assert(all[j].0 == path);
            assert((first + all)[first.len() + j] == all[j]);
            assert(refused_view(r.refused@).len() == r.refused@.len());
            assert(refused_view(r.refused@)[first.len() + j].0 == path);
            assert(r.refused@[first.len() + j].path@ == path);
        }
        assert(rechecked(disk, artifacts@, still_are));
    }
    r
}

/// What is said where no artifact was found.
pub fn nothing_line(color: bool, root: &FsPath) -> (r: String)
    ensures
        r@ == in_green(color, "No build artifacts under "@ + root@ + "."@),
{
    let mut words = "No build artifacts under ".to_owned();
    words.append(root.as_str());
    words.append(".");
    ui::green(color, words.as_str())
}

/// What is said below a table that nothing was asked to be done with.
pub fn hint_lines(color: bool) -> (r: Vec<String>)
    ensures
        strings(r@) == seq![
            "  "@ + in_dim(color, "Add --clean to remove these (they rebuild on the next build)."@),
            ""@,
        ],
{
    let mut line = "  ".to_owned();
    let words = ui::dim(color, "Add --clean to remove these (they rebuild on the next build).");
    line.append(words.as_str());
    let mut lines = report::no_lines();
    push_line(&mut lines, line);
    push_line(&mut lines, "".to_owned());
    assert(strings(lines@) =~= seq![
        "  "@ + in_dim(color, "Add --clean to remove these (they rebuild on the next build)."@),
        ""@,
    ]);
    lines
}

/// The question before artifacts are removed.
pub fn question(color: bool, artifacts: &Vec<DevArtifact>) -> (r: String)
    ensures
        r@ == "Move "@ + in_bold(color, shown_bytes(capped(artifacts_size(artifacts@))))
            + " of build artifacts to the Trash?"@,
{
    let mut r = "Move ".to_owned();
    let size = ui::bytes(total_size(artifacts));
    let size = ui::bold(color, size.as_str());
    r.append(size.as_str());
    r.append(" of build artifacts to the Trash?");
    r
}

/// A day has 86,400 seconds: so many days before a moment, and that many
/// seconds on, it is that moment again. Before the first moment there is none.
pub proof fn days_are_days(now: u64, days: u64)
    ensures
        now >= days * 86_400 ==> days_before(now, days) + days * 86_400 == now,
        now < days * 86_400 ==> days_before(now, days) == 0,
{
    assert(DAY == 86_400);
}

/// What was touched within the last days is never taken for old, and what was
/// not touched since is.
pub proof fn what_was_touched_lately_is_not_old(args: DevArgs, now: u64, a: DevArtifact, m: u64, days: u64)
    requires
        args.older_than == Some(days),
        a.modified_secs == Some(m),
        now >= days * 86_400,
    ensures
        m + days * 86_400 > now ==> !passes(args, now)(a),
        m + days * 86_400 <= now && args.min_size is None && args.tool is None ==> passes(args, now)(a),
{
    days_are_days(now, days);
}

/// An artifact of at least the size that is asked for passes, and a smaller
/// one does not; without filters all pass.
pub proof fn the_size_filter_is_a_floor(args: DevArgs, now: u64, a: DevArtifact, floor: u64)
    ensures
        args.min_size == Some(floor) && a.size_bytes < floor ==> !passes(args, now)(a),
        args.min_size == Some(floor) && args.tool is None && args.older_than is None && a.size_bytes >= floor ==> passes(
            args,
            now,
        )(a),
        args.min_size is None && args.tool is None && args.older_than is None ==> passes(args, now)(a),
        args.min_size is None && args.tool is None && a.modified_secs is None ==> passes(args, now)(a),
{
}

/// A tool is found by any part of its own name, whatever the case; besides,
/// Rust by `cargo` and Node.js by `npm`. Nothing else is found.
pub proof fn what_a_tool_is_found_by(tool: Seq<char>, asked: Seq<char>, a: Seq<char>, b: Seq<char>)
    ensures
        lowercase_of(tool) == a + lowercase_of(asked) + b ==> is_of(tool, asked),
        tool == "Rust"@ && lowercase_of(asked) == "cargo"@ ==> is_of(tool, asked),
        tool == "Node.js"@ && lowercase_of(asked) == "npm"@ ==> is_of(tool, asked),
        is_of(tool, asked) ==> occurs(lowercase_of(tool), lowercase_of(asked)) || (tool == "Rust"@ && lowercase_of(asked)
            == "cargo"@) || (tool == "Node.js"@ && lowercase_of(asked) == "npm"@),
{
    text::what_is_put_in_occurs(a, lowercase_of(asked), b);
    assert(TOOLCHAINS@[0].0@ == "Rust"@ && TOOLCHAINS@[0].1@ == "cargo"@);
    assert(TOOLCHAINS@[1].0@ == "Node.js"@ && TOOLCHAINS@[1].1@ == "npm"@);
    assert(TOOLCHAINS@.len() == 2);
}

/// Of the artifacts, those that still are ones are up for removal, each with
/// its path and its size, and the others are strays: each is one or the
/// other.
pub proof fn each_artifact_is_removable_or_a_stray(artifacts: Seq<DevArtifact>, still_are: Seq<bool>)
    requires
        still_are.len() == artifacts.len(),
    ensures
        forall|k: int|
            0 <= k < artifacts.len() && #[trigger] still_are[k] ==> up_for_removal(
                removable(artifacts, still_are),
                artifacts[k],
            ),
        forall|k: int|
            0 <= k < artifacts.len() && !(#[trigger] still_are[k]) ==> strays(artifacts, still_are).contains(
                artifacts[k].path@,
            ),
        removable(artifacts, still_are).len() + strays(artifacts, still_are).len() == artifacts.len(),
    decreases artifacts.len(),
{
    if artifacts.len() > 0 {
        let n = artifacts.len() - 1;
        let front = artifacts.drop_last();
        let some = still_are.take(n);
        each_artifact_is_removable_or_a_stray(front, some);
        lemma_same_flags(front, some, still_are);
        let (before, all) = (removable(front, still_are), removable(artifacts, still_are));
        let (out, outs) = (strays(front, still_are), strays(artifacts, still_are));
        assert forall|k: int| 0 <= k < artifacts.len() && #[trigger] still_are[k] implies up_for_removal(
            all,
            artifacts[k],
        ) by {
            if k < n {
                assert(some[k] == still_are[k] && front[k] == artifacts[k]);
                let i = choose|i: int| 0 <= i < before.len() && is_item_of(#[trigger] before[i], front[k]);
                assert(all[i] == before[i]);
            } else {
                assert(is_item_of(all[all.len() - 1], artifacts[k]));
            }
        }
        assert forall|k: int| 0 <= k < artifacts.len() && !(#[trigger] still_are[k]) implies outs.contains(
            artifacts[k].path@,
        ) by {
            if k < n {
                assert(some[k] == still_are[k] && front[k] == artifacts[k]);
                let i = choose|i: int| 0 <= i < out.len() && out[i] == front[k].path@;
                assert(outs[i] == out[i]);
            } else {
                assert(outs[outs.len() - 1] == artifacts[k].path@);
            }
        }
    }
}

/// The item is the artifact, as a folder.
pub open spec fn is_item_of(item: ItemView, a: DevArtifact) -> bool {
    item.path == a.path@ && item.size == a.size_bytes as nat && item.is_dir
}

/// One of the items is the artifact.
pub open spec fn up_for_removal(items: Seq<ItemView>, a: DevArtifact) -> bool {
    exists|i: int| 0 <= i < items.len() && is_item_of(#[trigger] items[i], a)
}

proof fn lemma_same_flags(artifacts: Seq<DevArtifact>, a: Seq<bool>, b: Seq<bool>)
    requires
        artifacts.len() <= a.len(),
        artifacts.len() <= b.len(),
        forall|i: int| 0 <= i < artifacts.len() ==> a[i] == b[i],
    ensures
        removable(artifacts, a) == removable(artifacts, b),
        strays(artifacts, a) == strays(artifacts, b),
    decreases artifacts.len(),
{
    if artifacts.len() > 0 {
        lemma_same_flags(artifacts.drop_last(), a, b);
    }
}

/// What artifacts weigh together is what each weighs, added up.
pub proof fn each_artifact_adds_its_size(artifacts: Seq<DevArtifact>, a: DevArtifact)
    ensures
        artifacts_size(artifacts.push(a)) == artifacts_size(artifacts) + a.size_bytes,
        artifacts_size(Seq::empty()) == 0,
{
    assert(artifacts.push(a).drop_last() =~= artifacts);
}

} // verus!
