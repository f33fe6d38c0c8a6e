//! Removing what a scan found.
//!
//! Scan, show the plan, ask, and only then remove. A flag can skip the
//! question, never the plan, and never the guard.

use vstd::prelude::*;

use crate::backend::{self, destination, route_of, Route, RoutingBackend};
use crate::cleaner::{self, approves_also, possible_fates, reports, Fate, RemovalBackend};
use crate::model::{items_size, CleanReport, ScanItem, ScanReport, ScanTarget, TargetScan};
use crate::order::{self, largest_order, reordered};
use crate::paths::{self, opt_view, texts, tilde_expanded, FsPath};
use crate::report::{self, failures, push_line, push_lines, reclaimed, skipped};
use crate::safety::{default_approved, system_deny, user_data_deny, SafetyGuard};
use crate::targets::{self, tier_label};
use crate::text::strings;
use crate::ui::{
    self, counted, in_bold, in_dim, in_red, in_yellow, left_aligned, right_aligned, shown_bytes,
};

verus! {

/// Where the targets are.
pub open spec fn roots_of(targets: Seq<ScanTarget>, home: Option<Seq<char>>) -> Seq<Seq<char>> {
    targets.map_values(|t: ScanTarget| tilde_expanded(t.path@, home))
}

/// Where the targets are that can only be deleted.
pub open spec fn permanent_roots(targets: Seq<ScanTarget>, home: Option<Seq<char>>) -> Seq<Seq<char>> {
    roots_of(targets.filter(|t: ScanTarget| t.permanent), home)
}

fn target_roots(selected: &Vec<ScanTarget>, home: Option<&FsPath>) -> (r: Vec<FsPath>)
    ensures
        texts(r@) == roots_of(selected@, opt_view(home)),
{
    let mut roots: Vec<FsPath> = Vec::new();
    let mut i: usize = 0;
    while i < selected.len()
        invariant
            i <= selected@.len(),
            texts(roots@) =~= roots_of(selected@, opt_view(home)).take(i as int),
        decreases selected@.len() - i,
    {
        let ghost before = texts(roots@);
        roots.push(paths::resolve(selected[i].path.as_str(), home));
        assert(texts(roots@) =~= before.push(roots_of(selected@, opt_view(home))[i as int]));
        i += 1;
    }
    assert(texts(roots@) =~= roots_of(selected@, opt_view(home)));
    roots
}

fn undeletable_roots(selected: &Vec<ScanTarget>, home: Option<&FsPath>) -> (r: Vec<FsPath>)
    ensures
        texts(r@) == permanent_roots(selected@, opt_view(home)),
{
    let ghost permanent = |t: ScanTarget| t.permanent;
    let mut roots: Vec<FsPath> = Vec::new();
    let mut i: usize = 0;
    reveal(Seq::filter);
    assert(texts(roots@) =~= roots_of(selected@.take(0).filter(permanent), opt_view(home)));
    while i < selected.len()
        invariant
            permanent == (|t: ScanTarget| t.permanent),
            i <= selected@.len(),
            texts(roots@) == roots_of(selected@.take(i as int).filter(permanent), opt_view(home)),
        decreases selected@.len() - i,
    {
        let ghost before = roots@;
        proof {
            reveal(Seq::filter);
            assert(selected@.take(i + 1).drop_last() =~= selected@.take(i as int));
        }
        if selected[i].permanent {
            roots.push(paths::resolve(selected[i].path.as_str(), home));
            proof {
                let kept = selected@.take(i as int).filter(permanent);
                assert(texts(roots@) =~= texts(before).push(tilde_expanded(selected@[i as int].path@, opt_view(home))));
                assert(roots_of(kept.push(selected@[i as int]), opt_view(home)) =~= roots_of(kept, opt_view(home)).push(
                    tilde_expanded(selected@[i as int].path@, opt_view(home)),
                ));
            }
        }
        i += 1;
    }
    assert(selected@.take(i as int) =~= selected@);
    roots
}

/// `guard` denies and approves by default, and approves the roots of the
/// targets as well.
pub open spec fn guards_targets<C: Fn(&FsPath) -> Option<FsPath>>(
    guard: SafetyGuard,
    selected: Seq<ScanTarget>,
    home: Option<Seq<char>>,
    canonicalize: C,
) -> bool {
    exists|bare: SafetyGuard, roots: Seq<FsPath>|
        texts(roots) == roots_of(selected, home) && #[trigger] bare.built_from(
            canonicalize,
            system_deny() + user_data_deny(home),
            default_approved(home),
        ) && #[trigger] approves_also(guard, bare, roots, canonicalize)
}

/// The guard of a clean: the default one, which approves the root of each
/// target as well. What the rules produced can be cleaned, and anything
/// outside is still refused.
pub fn clean_guard<C: Fn(&FsPath) -> Option<FsPath>>(
    selected: &Vec<ScanTarget>,
    home: Option<&FsPath>,
    canonicalize: &C,
) -> (r: SafetyGuard)
    requires
        forall|p: &FsPath| call_requires(*canonicalize, (p,)),
    ensures
        guards_targets(r, selected@, opt_view(home), *canonicalize),
{
    let bare = SafetyGuard::default(home, canonicalize);
    let roots = target_roots(selected, home);
    cleaner::approve_all(bare, &roots, canonicalize)
}

/// The backend on the way of a path takes it: all go the one way where
/// deleting was asked for, and only what cannot be trashed where it was not.
pub open spec fn takes<T: RemovalBackend, D: RemovalBackend>(
    permanent: bool,
    roots: Seq<Seq<char>>,
    trash: &T,
    delete: &D,
    path: Seq<char>,
) -> bool {
    if permanent || route_of(path, roots) == Route::Delete {
        delete.accepts(path)
    } else {
        trash.accepts(path)
    }
}

/// Cleans `items`, which must have come from scanning `selected`. Items of a
/// target that has nowhere to move to are deleted outright, and all of them
/// are where `permanent` asks for it.
pub fn execute<C: Fn(&FsPath) -> Option<FsPath>, T: RemovalBackend, D: RemovalBackend>(
    selected: &Vec<ScanTarget>,
    items: &Vec<ScanItem>,
    permanent: bool,
    dry_run: bool,
    home: Option<&FsPath>,
    canonicalize: &C,
    trash: &T,
    delete: &D,
) -> (r: CleanReport)
    requires
        forall|p: &FsPath| call_requires(*canonicalize, (p,)),
        items_size(items@) <= u64::MAX,
        forall|i: int|
            0 <= i < items@.len() && !dry_run ==> takes(
                permanent,
                permanent_roots(selected@, opt_view(home)),
                trash,
                delete,
                (#[trigger] items@[i]).path@,
            ),
    ensures
        r.dry_run == dry_run,
        permanent ==> exists|guard: SafetyGuard, fates: Seq<Fate>|
            guards_targets(guard, selected@, opt_view(home), *canonicalize) && fates.len() == items@.len()
                && #[trigger] possible_fates(
                items@,
                &guard,
                opt_view(home),
                *canonicalize,
                delete,
                dry_run,
                fates,
            ) && reports(r, items@, fates),
        !permanent ==> exists|guard: SafetyGuard, fates: Seq<Fate>, routing: RoutingBackend<T, D>|
            guards_targets(guard, selected@, opt_view(home), *canonicalize) && fates.len() == items@.len()
                && texts(routing.permanent_roots@) == permanent_roots(selected@, opt_view(home)) && routing.trash == trash
                && routing.delete == delete && #[trigger] possible_fates(
                items@,
                &guard,
                opt_view(home),
                *canonicalize,
                &routing,
                dry_run,
                fates,
            ) && reports(r, items@, fates),
{
    let guard = clean_guard(selected, home, canonicalize);
    if permanent {
        cleaner::clean_items(items, &guard, home, canonicalize, delete, dry_run)
    } else {
        let routing = RoutingBackend { permanent_roots: undeletable_roots(selected, home), trash, delete };
        cleaner::clean_items(items, &guard, home, canonicalize, &routing, dry_run)
    }
}

/// All items of the targets, in their order.
pub open spec fn all_items(targets: Seq<TargetScan>) -> Seq<ScanItem>
    decreases targets.len(),
{
    if targets.len() == 0 {
        Seq::empty()
    } else {
        all_items(targets.drop_last()) + targets.last().items@
    }
}

/// All items of a report, in their order.
pub fn items_of(report: &ScanReport) -> (r: Vec<ScanItem>)
    ensures
        r@ == all_items(report.targets@),
{
    let mut items: Vec<ScanItem> = Vec::new();
    let mut i: usize = 0;
    assert(items@ =~= all_items(report.targets@.take(0)));
    while i < report.targets.len()
        invariant
            i <= report.targets@.len(),
            items@ == all_items(report.targets@.take(i as int)),
        decreases report.targets@.len() - i,
    {
        assert(report.targets@.take(i + 1).drop_last() =~= report.targets@.take(i as int));
        let ghost before = items@;
        let mut more = report.targets[i].items.clone();
        assert(more@ =~= report.targets@[i as int].items@);
        items.append(&mut more);
        i += 1;
    }
    assert(report.targets@.take(i as int) =~= report.targets@);
    items
}

/// The targets that hold anything.
pub open spec fn found(targets: Seq<TargetScan>) -> Seq<TargetScan> {
    targets.filter(|t: TargetScan| t.total_bytes > 0)
}

/// The sizes of the targets.
pub open spec fn sizes(targets: Seq<TargetScan>) -> Seq<u64> {
    targets.map_values(|t: TargetScan| t.total_bytes)
}

/// The targets that hold anything, largest first.
pub open spec fn largest_first(targets: Seq<TargetScan>) -> Seq<TargetScan> {
    reordered(found(targets), largest_order(sizes(found(targets))))
}

/// Where in `targets` those stand that hold anything, largest first.
pub fn rows_of(targets: &Vec<TargetScan>) -> (r: Vec<usize>)
    ensures
        forall|i: int| 0 <= i < r@.len() ==> #[trigger] r@[i] < targets@.len(),
        reordered(targets@, r@) == largest_first(targets@),
        r@.len() == found(targets@).len(),
{
    let ghost some = |t: TargetScan| t.total_bytes > 0;
    let mut places: Vec<usize> = Vec::new();
    let mut keys: Vec<u64> = Vec::new();
    let mut i: usize = 0;
    reveal(Seq::filter);
    assert(reordered(targets@, places@) =~= targets@.take(0).filter(some));
    assert(keys@ =~= sizes(targets@.take(0).filter(some)));
    while i < targets.len()
        invariant
            some == (|t: TargetScan| t.total_bytes > 0),
            i <= targets@.len(),
            keys@.len() == places@.len(),
            forall|k: int| 0 <= k < places@.len() ==> #[trigger] places@[k] < i,
            reordered(targets@, places@) == targets@.take(i as int).filter(some),
            keys@ == sizes(targets@.take(i as int).filter(some)),
        decreases targets@.len() - i,
    {
        let ghost (before, had) = (places@, keys@);
        proof {
            reveal(Seq::filter);
            assert(targets@.take(i + 1).drop_last() =~= targets@.take(i as int));
        }
        if targets[i].total_bytes > 0 {
            places.push(i);
            keys.push(targets[i].total_bytes);
            proof {
                let kept = targets@.take(i as int).filter(some);
                assert(reordered(targets@, places@) =~= kept.push(targets@[i as int]));
                assert(sizes(kept.push(targets@[i as int])) =~= sizes(kept).push(targets@[i as int].total_bytes));
            }
        }
        i += 1;
    }
    assert(targets@.take(i as int) =~= targets@);
    let by_size = order::order_larger_first(&keys);
    proof {
        order::lemma_largest_order(by_size@, keys@);
    }
    let mut r: Vec<usize> = Vec::new();
    let mut i: usize = 0;
    while i < by_size.len()
        invariant
            i <= by_size@.len(),
            by_size@.len() == places@.len(),
            forall|k: int| 0 <= k < by_size@.len() ==> #[trigger] by_size@[k] < places@.len(),
            forall|k: int| 0 <= k < places@.len() ==> #[trigger] places@[k] < targets@.len(),
            r@.len() == i,
            forall|k: int| 0 <= k < i ==> #[trigger] r@[k] == places@[by_size@[k] as int],
        decreases by_size@.len() - i,
    {
        r.push(places[by_size[i]]);
        i += 1;
    }
    assert(reordered(targets@, r@) =~= reordered(found(targets@), by_size@)) by {
        assert(found(targets@) == reordered(targets@, places@));
    }
    r
}

/// What a plan says of one target.
pub open spec fn plan_row(color: bool, permanent: bool, scan: TargetScan) -> Seq<Seq<char>> {
    let irreversible = if scan.target.permanent && !permanent {
        in_red(color, " (deleted permanently)"@)
    } else {
        Seq::empty()
    };
    let line = "  "@ + right_aligned(in_bold(color, shown_bytes(scan.total_bytes as nat)), 9) + "  "@ + left_aligned(
        tier_label(color, scan.target.safety),
        8,
    ) + "  "@ + scan.target.name@ + irreversible;
    if scan.target.description@.len() > 0 {
        seq![line, "             "@ + in_dim(color, scan.target.description@)]
    } else {
        seq![line]
    }
}

/// What a plan says of each target.
pub open spec fn plan_rows(color: bool, permanent: bool, rows: Seq<TargetScan>) -> Seq<Seq<char>>
    decreases rows.len(),
{
    if rows.len() == 0 {
        Seq::empty()
    } else {
        plan_rows(color, permanent, rows.drop_last()) + plan_row(color, permanent, rows.last())
    }
}

/// What a clean would do: each target, the sum, and what is irreversible or
/// refused.
pub open spec fn plan_text(color: bool, permanent: bool, rows: Seq<TargetScan>, plan: CleanReport) -> Seq<Seq<char>> {
    let sum = "  "@ + in_bold(color, shown_bytes(plan.bytes_reclaimed as nat)) + " in "@ + counted(
        plan.removed@.len(),
        "item"@,
        "items"@,
    ) + ", "@ + destination(permanent);
    let warning = if permanent {
        seq!["  "@ + in_red(color, "Permanent delete: these files will not be recoverable."@)]
    } else if exists|i: int| 0 <= i < rows.len() && (#[trigger] rows[i]).target.permanent {
        seq![
            "  "@ + in_red(
                color,
                "The rows marked above have no Trash to move to and are deleted outright."@,
            ),
        ]
    } else {
        Seq::empty()
    };
    let refusals = if plan.refused@.len() > 0 {
        seq![
            "  "@ + in_yellow(
                color,
                counted(plan.refused@.len(), "path"@, "paths"@)
                    + " refused by the safety guard and will be skipped"@,
            ),
        ]
    } else {
        Seq::empty()
    };
    seq![""@] + plan_rows(color, permanent, rows) + seq![""@, sum] + warning + refusals + seq![""@]
}

fn plan_row_lines(color: bool, permanent: bool, scan: &TargetScan) -> (r: Vec<String>)
    ensures
        strings(r@) == plan_row(color, permanent, *scan),
{
    let mut line = "  ".to_owned();
    let size = ui::bytes(scan.total_bytes);
    let size = ui::bold(color, size.as_str());
    let size = ui::rpad(size.as_str(), 9);
    line.append(size.as_str());
    line.append("  ");
    let label = targets::safety_label(color, scan.target.safety);
    let label = ui::lpad(label.as_str(), 8);
    line.append(label.as_str());
    line.append("  ");
    line.append(scan.target.name.as_str());
    if scan.target.permanent && !permanent {
        let mark = ui::red(color, " (deleted permanently)");
        line.append(mark.as_str());
    } else {
        assert(line@ + Seq::<char>::empty() =~= line@);
    }
    let mut lines = report::no_lines();
    push_line(&mut lines, line);
    if crate::text::chars_of(scan.target.description.as_str()).len() > 0 {
        let mut line = "             ".to_owned();
        let about = ui::dim(color, scan.target.description.as_str());
        line.append(about.as_str());
        push_line(&mut lines, line);
    }
    assert(strings(lines@) =~= plan_row(color, permanent, *scan));
    lines
}

/// What a clean would do, before anything is removed.
///
/// A few targets have nowhere to move to and are deleted outright whatever
/// was asked for. The sums do not show that, so each such row is marked and
/// the summary says so again.
pub fn plan_lines(color: bool, report: &ScanReport, plan: &CleanReport, permanent: bool) -> (r: Vec<String>)
    ensures
        strings(r@) == plan_text(color, permanent, largest_first(report.targets@), *plan),
{
    let places = rows_of(&report.targets);
    let ghost rows = reordered(report.targets@, places@);
    let mut lines = report::no_lines();
    push_line(&mut lines, "".to_owned());
    let mut marked = false;
    let mut i: usize = 0;
    assert(strings(lines@) =~= seq![""@] + plan_rows(color, permanent, rows.take(0)));
    while i < places.len()
        invariant
            rows == reordered(report.targets@, places@),
            forall|k: int| 0 <= k < places@.len() ==> #[trigger] places@[k] < report.targets@.len(),
            i <= places@.len(),
            strings(lines@) == seq![""@] + plan_rows(color, permanent, rows.take(i as int)),
            marked <==> exists|k: int| 0 <= k < i && (#[trigger] rows[k]).target.permanent,
        decreases places@.len() - i,
    {
        assert(rows.take(i + 1).drop_last() =~= rows.take(i as int));
        let scan: &TargetScan = &report.targets[places[i]];
        assert(rows[i as int] == *scan);
        let ghost before = strings(lines@);
        push_lines(&mut lines, plan_row_lines(color, permanent, scan));
        assert(strings(lines@) =~= seq![""@] + plan_rows(color, permanent, rows.take(i + 1)));
        if scan.target.permanent {
            marked = true;
        }
        i += 1;
    }
    assert(rows.take(i as int) =~= rows);
    push_line(&mut lines, "".to_owned());
    let mut sum = "  ".to_owned();
    let size = ui::bytes(plan.bytes_reclaimed);
    let size = ui::bold(color, size.as_str());
    sum.append(size.as_str());
    sum.append(" in ");
    let what = ui::count(plan.removed.len(), "item", "items");
    sum.append(what.as_str());
    sum.append(", ");
    sum.append(backend::describes_trash(permanent));
    push_line(&mut lines, sum);
    if permanent {
        let mut line = "  ".to_owned();
        let words = ui::red(color, "Permanent delete: these files will not be recoverable.");
        line.append(words.as_str());
        push_line(&mut lines, line);
    } else if marked {
        let mut line = "  ".to_owned();
        let words = ui::red(
            color,
            "The rows marked above have no Trash to move to and are deleted outright.",
        );
        line.append(words.as_str());
        push_line(&mut lines, line);
    }
    if plan.refused.len() > 0 {
        let mut line = "  ".to_owned();
        let mut words = ui::count(plan.refused.len(), "path", "paths");
        words.append(" refused by the safety guard and will be skipped");
        let words = ui::yellow(color, words.as_str());
        line.append(words.as_str());
        push_line(&mut lines, line);
    }
    push_line(&mut lines, "".to_owned());
    assert(strings(lines@) =~= plan_text(color, permanent, rows, *plan));
    lines
}

/// What a clean did.
pub open spec fn result_text(color: bool, permanent: bool, done: CleanReport) -> Seq<Seq<char>> {
    seq![
        reclaimed(
            color,
            done.bytes_reclaimed as nat,
            counted(done.removed@.len(), "item"@, "items"@),
            destination(permanent),
        ),
    ] + skipped(color, done.refused@) + failures(color, done.failed@) + if !permanent && done.bytes_reclaimed > 0 {
        seq![
            "  "@ + in_dim(
                color,
                "The space returns when the Trash is emptied: `spotless trash --empty`."@,
            ),
        ]
    } else {
        Seq::empty()
    }
}

/// What a clean did.
pub fn result_lines(color: bool, done: &CleanReport, permanent: bool) -> (r: Vec<String>)
    ensures
        strings(r@) == result_text(color, permanent, *done),
{
    let what = ui::count(done.removed.len(), "item", "items");
    let mut lines = report::no_lines();
    push_line(
        &mut lines,
        report::reclaimed_line(color, done.bytes_reclaimed, what.as_str(), backend::describes_trash(permanent)),
    );
    push_lines(&mut lines, report::skipped_lines(color, &done.refused));
    push_lines(&mut lines, report::failed_lines(color, &done.failed));
    if !permanent && done.bytes_reclaimed > 0 {
        let mut line = "  ".to_owned();
        let hint = ui::dim(color, "The space returns when the Trash is emptied: `spotless trash --empty`.");
        line.append(hint.as_str());
        push_line(&mut lines, line);
    }
    assert(strings(lines@) =~= result_text(color, permanent, *done));
    lines
}

/// Some of the targets are deleted outright though that was not asked for.
pub open spec fn is_mixed(selected: Seq<ScanTarget>, permanent: bool) -> bool {
    !permanent && exists|i: int| 0 <= i < selected.len() && (#[trigger] selected[i]).permanent
}

/// The question before a clean.
pub fn clean_question(color: bool, plan: &CleanReport, permanent: bool, selected: &Vec<ScanTarget>) -> (r: String)
    ensures
        r@ == "Remove "@ + in_bold(color, shown_bytes(plan.bytes_reclaimed as nat)) + " — "@ + destination(permanent) + (
        if is_mixed(selected@, permanent) {
            ", some deleted outright"@
        } else {
            Seq::empty()
        }) + "?"@,
{
    let mut r = "Remove ".to_owned();
    let size = ui::bytes(plan.bytes_reclaimed);
    let size = ui::bold(color, size.as_str());
    r.append(size.as_str());
    r.append(" — ");
    r.append(backend::describes_trash(permanent));
    let mut some = false;
    let mut i: usize = 0;
    while i < selected.len()
        invariant
            i <= selected@.len(),
            some <==> exists|k: int| 0 <= k < i && (#[trigger] selected@[k]).permanent,
        decreases selected@.len() - i,
    {
        if selected[i].permanent {
            some = true;
        }
        i += 1;
    }
    if !permanent && some {
        r.append(", some deleted outright");
    } else {
        assert(r@ + Seq::<char>::empty() =~= r@);
    }
    r.append("?");
    r
}

/// Where deleting was not asked for, a path goes to the Trash unless it lies
/// under a selected target that is marked as permanent, and only those are
/// deleted outright.
pub proof fn only_permanent_targets_are_deleted(path: Seq<char>, selected: Seq<ScanTarget>, home: Option<Seq<char>>)
    ensures
        crate::backend::route_of(path, permanent_roots(selected, home)) == crate::backend::Route::Delete <==> exists|i: int|
            0 <= i < selected.len() && (#[trigger] selected[i]).permanent && paths::under(
                path,
                tilde_expanded(selected[i].path@, home),
            ),
{
    let mark = |t: ScanTarget| t.permanent;
    let kept = selected.filter(mark);
    let roots = permanent_roots(selected, home);
    if crate::backend::route_of(path, roots) == crate::backend::Route::Delete {
        let k = choose|k: int| 0 <= k < roots.len() && paths::under(path, #[trigger] roots[k]);
        selected.lemma_filter_pred(mark, k);
        assert(kept.contains(kept[k]));
        selected.lemma_filter_contains_rev(mark, kept[k]);
        let i = choose|i: int| 0 <= i < selected.len() && selected[i] == kept[k];
        assert(selected[i].permanent && paths::under(path, tilde_expanded(selected[i].path@, home)));
    }
    if exists|i: int|
        0 <= i < selected.len() && (#[trigger] selected[i]).permanent && paths::under(
            path,
            tilde_expanded(selected[i].path@, home),
        ) {
        let i = choose|i: int|
            0 <= i < selected.len() && (#[trigger] selected[i]).permanent && paths::under(
                path,
                tilde_expanded(selected[i].path@, home),
            );
        selected.lemma_filter_contains(mark, i);
        let k = choose|k: int| 0 <= k < kept.len() && kept[k] == selected[i];
        assert(paths::under(path, roots[k]));
    }
}

/// Everything that was found is up for removal, target by target, and nothing
/// else is.
pub proof fn every_item_is_up_for_removal(targets: Seq<TargetScan>, i: int, k: int)
    ensures
        0 <= i < targets.len() && 0 <= k < targets[i].items@.len() ==> all_items(targets).contains(targets[i].items@[k]),
        forall|item: ScanItem| #[trigger]
            all_items(targets).contains(item) ==> exists|t: int|
                0 <= t < targets.len() && (#[trigger] targets[t]).items@.contains(item),
        crate::model::items_size(all_items(targets)) == sum_of_items(targets),
    decreases targets.len(),
{
    if targets.len() > 0 {
        let front = targets.drop_last();
        let (before, last) = (all_items(front), targets.last().items@);
        let all = all_items(targets);
        every_item_is_up_for_removal(front, i, k);
        lemma_items_size_concat(before, last);
        if 0 <= i < targets.len() && 0 <= k < targets[i].items@.len() {
            if i < front.len() {
                assert(front[i] == targets[i]);
                let j = choose|j: int| 0 <= j < before.len() && before[j] == targets[i].items@[k];
                assert(all[j] == before[j]);
            } else {
                assert(all[before.len() + k] == last[k]);
            }
        }
        assert forall|item: ScanItem| #[trigger] all.contains(item) implies exists|t: int|
            0 <= t < targets.len() && (#[trigger] targets[t]).items@.contains(item) by {
            let j = choose|j: int| 0 <= j < all.len() && all[j] == item;
            if j < before.len() {
                assert(before[j] == item);
                assert(before.contains(item));
                let t = choose|t: int| 0 <= t < front.len() && (#[trigger] front[t]).items@.contains(item);
                assert(targets[t].items@.contains(item));
            } else {
                assert(last[j - before.len()] == item);
                assert(targets[targets.len() - 1].items@.contains(item));
            }
        }
    }
}

/// What the items of all targets weigh.
pub open spec fn sum_of_items(targets: Seq<TargetScan>) -> nat
    decreases targets.len(),
{
    if targets.len() == 0 {
        0
    } else {
        sum_of_items(targets.drop_last()) + crate::model::items_size(targets.last().items@)
    }
}

proof fn lemma_items_size_concat(a: Seq<ScanItem>, b: Seq<ScanItem>)
    ensures
        crate::model::items_size(a + b) == crate::model::items_size(a) + crate::model::items_size(b),
    decreases b.len(),
{
    if b.len() == 0 {
        assert(a + b =~= a);
    } else {
        assert((a + b).drop_last() =~= a + b.drop_last());
        lemma_items_size_concat(a, b.drop_last());
    }
}

/// The plan lists every target that holds something, the largest first, and
/// no target that holds nothing.
pub proof fn the_plan_lists_what_holds_something(targets: Seq<TargetScan>, i: int)
    requires
        targets.len() <= usize::MAX,
    ensures
        0 <= i < targets.len() && targets[i].total_bytes > 0 ==> largest_first(targets).contains(targets[i]),
        forall|k: int|
            0 <= k < largest_first(targets).len() ==> (#[trigger] largest_first(targets)[k]).total_bytes > 0
                && targets.contains(largest_first(targets)[k]),
        forall|a: int, b: int|
            0 <= a < b < largest_first(targets).len() ==> (#[trigger] largest_first(targets)[a]).total_bytes >= (
            #[trigger] largest_first(targets)[b]).total_bytes,
{
    let holds = |t: TargetScan| t.total_bytes > 0;
    let some = targets.filter(holds);
    let keys = sizes(some);
    let by = largest_order(keys);
    lemma_few(targets, holds);
    order::keys_can_be_ordered(keys);
    let rows = largest_first(targets);
    if 0 <= i < targets.len() && targets[i].total_bytes > 0 {
        targets.lemma_filter_contains(holds, i);
        let j = choose|j: int| 0 <= j < some.len() && some[j] == targets[i];
        order::lemma_ordered_complete(by, keys.len() as int, order::larger_first(keys), j);
        let p = choose|p: int| 0 <= p < by.len() && #[trigger] by[p] == j;
        assert(rows[p] == targets[i]);
    }
    assert forall|k: int| 0 <= k < rows.len() implies (#[trigger] rows[k]).total_bytes > 0 && targets.contains(rows[k]) by {
        let j = by[k] as int;
        assert(rows[k] == some[j]);
        targets.lemma_filter_pred(holds, j);
        assert(some.contains(some[j]));
        targets.lemma_filter_contains_rev(holds, some[j]);
    }
    assert forall|a: int, b: int| 0 <= a < b < rows.len() implies (#[trigger] rows[a]).total_bytes >= (
    #[trigger] rows[b]).total_bytes by {
        assert(order::larger_first(keys)(by[a] as int, by[b] as int));
        assert(rows[a] == some[by[a] as int] && rows[b] == some[by[b] as int]);
    }
}

proof fn lemma_few(targets: Seq<TargetScan>, keep: spec_fn(TargetScan) -> bool)
    ensures
        targets.filter(keep).len() <= targets.len(),
    decreases targets.len(),
{
    reveal(Seq::filter);
    if targets.len() > 0 {
        lemma_few(targets.drop_last(), keep);
    }
}

/// The plan says where things go: what was asked for, and else row by row
/// what cannot be undone.
pub proof fn the_plan_says_what_cannot_be_undone(scan: TargetScan, rows: Seq<TargetScan>, plan: CleanReport, i: int)
    ensures
        scan.target.permanent && scan.target.description@.len() == 0 ==> crate::text::finishes_with(
            plan_row(false, false, scan)[0],
            " (deleted permanently)"@,
        ),
        0 <= i < rows.len() && rows[i].target.permanent ==> plan_text(false, false, rows, plan).contains(
            "  The rows marked above have no Trash to move to and are deleted outright."@,
        ),
        plan_text(false, true, rows, plan).contains("  Permanent delete: these files will not be recoverable."@),
{
    let row = plan_row(false, false, scan)[0];
    let mark = " (deleted permanently)"@;
    if scan.target.permanent && scan.target.description@.len() == 0 {
        assert(row.skip(row.len() - mark.len()) =~= mark);
    }
    let n = plan_rows(false, false, rows).len() as int;
    let m = plan_rows(false, true, rows).len() as int;
    reveal_strlit("  ");
    reveal_strlit("  The rows marked above have no Trash to move to and are deleted outright.");
    reveal_strlit("The rows marked above have no Trash to move to and are deleted outright.");
    reveal_strlit("  Permanent delete: these files will not be recoverable.");
    reveal_strlit("Permanent delete: these files will not be recoverable.");
    if 0 <= i < rows.len() && rows[i].target.permanent {
        let all = plan_text(false, false, rows, plan);
        assert("  "@ + "The rows marked above have no Trash to move to and are deleted outright."@
            =~= "  The rows marked above have no Trash to move to and are deleted outright."@);
        assert(all[n + 3] == "  The rows marked above have no Trash to move to and are deleted outright."@);
    }
    let all = plan_text(false, true, rows, plan);
    assert("  "@ + "Permanent delete: these files will not be recoverable."@
        =~= "  Permanent delete: these files will not be recoverable."@);
    assert(all[m + 3] == "  Permanent delete: these files will not be recoverable."@);
}

/// One permanent target among those that go to the Trash makes a mixture;
/// where all are deleted, or none is, there is no mixture.
pub proof fn one_permanent_target_makes_a_mixture(selected: Seq<ScanTarget>, target: ScanTarget)
    ensures
        target.permanent ==> is_mixed(selected.push(target), false),
        !target.permanent ==> (is_mixed(selected.push(target), false) <==> is_mixed(selected, false)),
        !is_mixed(selected, true),
        !is_mixed(Seq::empty(), false),
{
    let all = selected.push(target);
    assert(all[selected.len() as int] == target);
    assert(forall|i: int| 0 <= i < selected.len() ==> #[trigger] selected[i] == all[i]);
    if is_mixed(selected, false) {
        let i = choose|i: int| 0 <= i < selected.len() && (#[trigger] selected[i]).permanent;
        assert(all[i].permanent);
    }
    if !target.permanent && is_mixed(all, false) {
        let i = choose|i: int| 0 <= i < all.len() && (#[trigger] all[i]).permanent;
        assert(selected[i].permanent);
    }
}

/// What was done is told in a line, with a line for each item that was skipped
/// and for each that failed. Where something went to the Trash, a last line
/// says when the space returns.
pub proof fn every_item_left_is_told(color: bool, permanent: bool, done: CleanReport)
    ensures
        result_text(color, permanent, done).len() == 1 + done.refused@.len() + done.failed@.len() + (if !permanent
            && done.bytes_reclaimed > 0 {
            1nat
        } else {
            0nat
        }),
        forall|i: int|
            0 <= i < done.refused@.len() ==> result_text(color, permanent, done)[1 + i] == "  "@ + in_yellow(
                color,
                "skipped"@,
            ) + " "@ + ui::truncated((#[trigger] done.refused@[i]).path@, 52) + " — "@ + done.refused@[i].reason@,
        forall|i: int|
            0 <= i < done.failed@.len() ==> result_text(color, permanent, done)[1 + done.refused@.len() + i] == "  "@
                + in_red(color, "failed"@) + " "@ + ui::truncated((#[trigger] done.failed@[i]).path@, 52) + " — "@
                + done.failed@[i].error@,
{
}

} // verus!
