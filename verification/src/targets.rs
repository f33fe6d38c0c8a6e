//! Turning a [`Selection`] into the targets that a command acts on.

use vstd::prelude::*;

use crate::cli::Selection;
use crate::model::{SafetyTier, ScanReport, ScanTarget, TargetScan};
use crate::text::{self, digits, strings};
use crate::ui::{self, in_green, in_red, in_yellow, truncated};

verus! {

/// The ids of the targets.
pub open spec fn ids(targets: Seq<ScanTarget>) -> Seq<Seq<char>> {
    targets.map_values(|t: ScanTarget| t.id@)
}

/// The first of the wanted ids that no target has.
pub open spec fn first_unknown(targets: Seq<ScanTarget>, wanted: Seq<Seq<char>>) -> Option<Seq<char>>
    decreases wanted.len(),
{
    if wanted.len() == 0 {
        None
    } else if first_unknown(targets, wanted.drop_last()) is Some {
        first_unknown(targets, wanted.drop_last())
    } else if !ids(targets).contains(wanted.last()) {
        Some(wanted.last())
    } else {
        None
    }
}

/// The target is selected: it is one of those wanted, where any are, and safe
/// where only safe ones are wanted.
pub open spec fn is_selected(selection: Selection) -> spec_fn(ScanTarget) -> bool {
    |t: ScanTarget|
        {
            &&& selection.targets@.len() == 0 || strings(selection.targets@).contains(t.id@)
            &&& !selection.safe_only || t.safety == SafetyTier::Safe
        }
}

/// The error for an id that no target has.
pub open spec fn unknown_target(id: Seq<char>) -> Seq<char> {
    "no target with id `"@ + id + "` — run `spotless rules` to list them"@
}

fn has_id(targets: &Vec<ScanTarget>, id: &str) -> (r: bool)
    ensures
        r == ids(targets@).contains(id@),
{
    let mut i: usize = 0;
    while i < targets.len()
        invariant
            i <= targets@.len(),
            forall|k: int| 0 <= k < i ==> #[trigger] ids(targets@)[k] != id@,
        decreases targets@.len() - i,
    {
        if text::same_text(targets[i].id.as_str(), id) {
            assert(ids(targets@)[i as int] == id@);
            return true;
        }
        i += 1;
    }
    false
}

fn is_wanted(wanted: &Vec<String>, id: &str) -> (r: bool)
    ensures
        r == strings(wanted@).contains(id@),
{
    let mut i: usize = 0;
    while i < wanted.len()
        invariant
            i <= wanted@.len(),
            forall|k: int| 0 <= k < i ==> #[trigger] strings(wanted@)[k] != id@,
        decreases wanted@.len() - i,
    {
        if text::same_text(wanted[i].as_str(), id) {
            assert(strings(wanted@)[i as int] == id@);
            return true;
        }
        i += 1;
    }
    false
}

proof fn lemma_unknown_stays(targets: Seq<ScanTarget>, wanted: Seq<Seq<char>>, n: int)
    requires
        0 <= n <= wanted.len(),
        first_unknown(targets, wanted.take(n)) is Some,
    ensures
        first_unknown(targets, wanted) == first_unknown(targets, wanted.take(n)),
    decreases wanted.len(),
{
    if n == wanted.len() {
        assert(wanted.take(n) =~= wanted);
    } else {
        assert(wanted.drop_last().take(n) =~= wanted.take(n));
        lemma_unknown_stays(targets, wanted.drop_last(), n);
    }
}

/// The targets that a selection picks out. An id that no target has is an
/// error: a typing error that cleans nothing looks just like a clean that
/// found nothing to do.
pub fn resolve(selection: &Selection, targets: &Vec<ScanTarget>) -> (r: Result<Vec<ScanTarget>, String>)
    ensures
        match r {
            Ok(picked) => first_unknown(targets@, strings(selection.targets@)) is None && picked@
                == targets@.filter(is_selected(*selection)),
            Err(why) => first_unknown(targets@, strings(selection.targets@)) is Some && why@ == unknown_target(
                first_unknown(targets@, strings(selection.targets@))->0,
            ),
        },
{
    let ghost wanted = strings(selection.targets@);
    let mut i: usize = 0;
    assert(wanted.take(0).len() == 0);
    while i < selection.targets.len()
        invariant
            wanted == strings(selection.targets@),
            i <= selection.targets@.len(),
            first_unknown(targets@, wanted.take(i as int)) is None,
        decreases selection.targets@.len() - i,
    {
        assert(wanted.take(i + 1).drop_last() =~= wanted.take(i as int));
        let id: &String = &selection.targets[i];
        assert(wanted.take(i + 1).last() == id@);
        if !has_id(targets, id.as_str()) {
            proof {
                lemma_unknown_stays(targets@, wanted, i + 1);
            }
            let mut why = "no target with id `".to_owned();
            why.append(id.as_str());
            why.append("` — run `spotless rules` to list them");
            return Err(why);
        }
        i += 1;
    }
    assert(wanted.take(i as int) =~= wanted);
    let ghost chosen = is_selected(*selection);
    let mut picked: Vec<ScanTarget> = Vec::new();
    let mut i: usize = 0;
    reveal(Seq::filter);
    assert(picked@ =~= targets@.take(0).filter(chosen));
    while i < targets.len()
        invariant
            wanted == strings(selection.targets@),
            chosen == is_selected(*selection),
            i <= targets@.len(),
            picked@ == targets@.take(i as int).filter(chosen),
        decreases targets@.len() - i,
    {
        let target: &ScanTarget = &targets[i];
        proof {
            reveal(Seq::filter);
            assert(targets@.take(i + 1).drop_last() =~= targets@.take(i as int));
        }
        let named = selection.targets.len() == 0 || is_wanted(&selection.targets, target.id.as_str());
        if named && (!selection.safe_only || target.safety == SafetyTier::Safe) {
            picked.push(target.clone());
        }
        i += 1;
    }
    assert(targets@.take(i as int) =~= targets@);
    Ok(picked)
}

/// The bytes of the targets, added up.
pub open spec fn bytes_of(targets: Seq<TargetScan>) -> nat
    decreases targets.len(),
{
    if targets.len() == 0 {
        0
    } else {
        bytes_of(targets.drop_last()) + targets.last().total_bytes as nat
    }
}

/// At least `min` bytes.
pub open spec fn at_least(min: u64) -> spec_fn(TargetScan) -> bool {
    |t: TargetScan| t.total_bytes >= min
}

proof fn lemma_filter_bytes(targets: Seq<TargetScan>, min: u64)
    ensures
        bytes_of(targets.filter(at_least(min))) <= bytes_of(targets),
    decreases targets.len(),
{
    reveal(Seq::filter);
    if targets.len() > 0 {
        let front = targets.drop_last();
        lemma_filter_bytes(front, min);
        if at_least(min)(targets.last()) {
            assert(targets.filter(at_least(min)).drop_last() =~= front.filter(at_least(min)));
        }
    }
}

/// The bytes of the targets, added up.
pub fn total_bytes(targets: &Vec<TargetScan>) -> (r: u64)
    requires
        bytes_of(targets@) <= u64::MAX,
    ensures
        r == bytes_of(targets@),
{
    let mut total: u64 = 0;
    let mut i: usize = 0;
    assert(targets@.take(0).len() == 0);
    while i < targets.len()
        invariant
            bytes_of(targets@) <= u64::MAX,
            i <= targets@.len(),
            total == bytes_of(targets@.take(i as int)),
        decreases targets@.len() - i,
    {
        assert(targets@.take(i + 1).drop_last() =~= targets@.take(i as int));
        proof {
            lemma_bytes_grow(targets@, i + 1);
        }
        total = total + targets[i].total_bytes;
        i += 1;
    }
    assert(targets@.take(i as int) =~= targets@);
    total
}

proof fn lemma_bytes_grow(targets: Seq<TargetScan>, n: int)
    requires
        0 <= n <= targets.len(),
    ensures
        bytes_of(targets.take(n)) <= bytes_of(targets),
    decreases targets.len(),
{
    if n == targets.len() {
        assert(targets.take(n) =~= targets);
    } else {
        assert(targets.drop_last().take(n) =~= targets.take(n));
        lemma_bytes_grow(targets.drop_last(), n);
    }
}

/// Drops targets that came back smaller than the floor, where there is one.
pub fn apply_min_size(report: &mut ScanReport, min_size: Option<u64>)
    requires
        bytes_of(old(report).targets@) <= u64::MAX,
    ensures
        match min_size {
            None => *final(report) == *old(report),
            Some(min) => final(report).targets@ == old(report).targets@.filter(at_least(min))
                && final(report).total_bytes == bytes_of(final(report).targets@),
        },
{
    let min: u64 = match min_size {
        None => {
            return;
        },
        Some(min) => min,
    };
    let ghost all = report.targets@;
    let ghost keep = at_least(min);
    let ghost mut j: int = 0;
    let mut i: usize = 0;
    reveal(Seq::filter);
    assert(report.targets@.take(0) =~= all.take(0).filter(keep));
    assert(report.targets@.skip(0) =~= all.skip(0));
    while i < report.targets.len()
        invariant
            keep == at_least(min),
            0 <= i <= report.targets@.len(),
            0 <= j <= all.len(),
            report.targets@.take(i as int) == all.take(j).filter(keep),
            report.targets@.skip(i as int) == all.skip(j),
        decreases all.len() - j,
    {
        let ghost before = report.targets@;
        proof {
            reveal(Seq::filter);
            assert(before.skip(i as int).len() == all.skip(j).len());
            assert(all.take(j + 1).drop_last() =~= all.take(j));
            assert(before[i as int] == before.skip(i as int)[0]);
            assert(all[j] == all.skip(j)[0]);
            j = j + 1;
        }
        if report.targets[i].total_bytes >= min {
            i += 1;
            assert(report.targets@.take(i as int) =~= before.take(i - 1).push(all[j - 1]));
            assert(report.targets@.skip(i as int) =~= before.skip(i - 1).skip(1));
            assert(all.skip(j) =~= all.skip(j - 1).skip(1));
        } else {
            report.targets.remove(i);
            assert(report.targets@.take(i as int) =~= before.take(i as int));
            assert(report.targets@.skip(i as int) =~= before.skip(i as int).skip(1));
            assert(all.skip(j) =~= all.skip(j - 1).skip(1));
        }
    }
    proof {
        assert(all.skip(j).len() == 0);
        assert(all.take(j) =~= all);
        assert(report.targets@.take(i as int) =~= report.targets@);
        lemma_filter_bytes(all, min);
    }
    report.total_bytes = total_bytes(&report.targets);
}

/// The word in the safety column.
pub open spec fn tier_label(color: bool, tier: SafetyTier) -> Seq<char> {
    match tier {
        SafetyTier::Safe => in_green(color, "safe"@),
        SafetyTier::Caution => in_yellow(color, "caution"@),
        SafetyTier::Expert => in_red(color, "expert"@),
    }
}

/// The word in the safety column, coloured by tier.
pub fn safety_label(color: bool, tier: SafetyTier) -> (r: String)
    ensures
        r@ == tier_label(color, tier),
{
    match tier {
        SafetyTier::Safe => ui::green(color, "safe"),
        SafetyTier::Caution => ui::yellow(color, "caution"),
        SafetyTier::Expert => ui::red(color, "expert"),
    }
}

/// The line that stands while targets are scanned, over the one before it.
pub fn progress_line(done: usize, total: usize, name: &str) -> (r: String)
    ensures
        r@ == "\r\x1b[2Kscanning "@ + digits(done as nat) + "/"@ + digits(total as nat) + " — "@ + truncated(name@, 48),
{
    let mut r = "\r\x1b[2Kscanning ".to_owned();
    let n = text::decimal(done as u64);
    r.append(n.as_str());
    r.append("/");
    let n = text::decimal(total as u64);
    r.append(n.as_str());
    r.append(" — ");
    let name = ui::truncate_path(name, 48);
    r.append(name.as_str());
    r
}

/// Every target that is picked was offered and wanted, and each that was
/// wanted by its id is among them unless it is not safe and only safe ones
/// were.
pub proof fn a_selection_picks_what_it_names(targets: Seq<ScanTarget>, selection: Selection, target: ScanTarget)
    requires
        first_unknown(targets, strings(selection.targets@)) is None,
    ensures
        targets.filter(is_selected(selection)).contains(target) <==> targets.contains(target) && is_selected(selection)(
            target,
        ),
{
    let picked = targets.filter(is_selected(selection));
    if picked.contains(target) {
        let i = choose|i: int| 0 <= i < picked.len() && picked[i] == target;
        targets.lemma_filter_contains_rev(is_selected(selection), target);
        targets.lemma_filter_pred(is_selected(selection), i);
    }
    if targets.contains(target) && is_selected(selection)(target) {
        let i = choose|i: int| 0 <= i < targets.len() && targets[i] == target;
        targets.lemma_filter_contains(is_selected(selection), i);
    }
}

/// What a selection means: without ids, every target; with ids, those named
/// and no others; and with `safe_only`, of these only the safe ones.
pub proof fn what_a_selection_means(selection: Selection, t: ScanTarget)
    ensures
        selection.targets@.len() == 0 && !selection.safe_only ==> is_selected(selection)(t),
        selection.targets@.len() == 0 && selection.safe_only ==> (is_selected(selection)(t) <==> t.safety
            == SafetyTier::Safe),
        selection.targets@.len() > 0 && !selection.safe_only ==> (is_selected(selection)(t) <==> exists|i: int|
            0 <= i < selection.targets@.len() && (#[trigger] selection.targets@[i])@ == t.id@),
        is_selected(selection)(t) && selection.safe_only ==> t.safety == SafetyTier::Safe,
{
    let wanted = strings(selection.targets@);
    if wanted.contains(t.id@) {
        let i = choose|i: int| 0 <= i < wanted.len() && wanted[i] == t.id@;
        assert(selection.targets@[i]@ == t.id@);
    }
    if exists|i: int| 0 <= i < selection.targets@.len() && (#[trigger] selection.targets@[i])@ == t.id@ {
        let i = choose|i: int| 0 <= i < selection.targets@.len() && (#[trigger] selection.targets@[i])@ == t.id@;
        assert(wanted[i] == t.id@);
    }
}

/// An id that no target has is told, the first such; and where every id is
/// that of a target, none is.
pub proof fn an_unknown_id_is_told(targets: Seq<ScanTarget>, wanted: Seq<Seq<char>>, k: int)
    ensures
        0 <= k < wanted.len() && (forall|i: int| 0 <= i < targets.len() ==> (#[trigger] targets[i]).id@ != wanted[k])
            ==> first_unknown(targets, wanted) is Some,
        first_unknown(targets, wanted) matches Some(id) ==> wanted.contains(id) && forall|i: int|
            0 <= i < targets.len() ==> (#[trigger] targets[i]).id@ != id,
        forall|id: Seq<char>| unknown_target(id) == "no target with id `"@ + id + "` — run `spotless rules` to list them"@,
    decreases wanted.len(),
{
    if wanted.len() > 0 {
        let front = wanted.drop_last();
        an_unknown_id_is_told(targets, front, k);
        if 0 <= k < front.len() {
            assert(front[k] == wanted[k]);
        }
        let known = ids(targets);
        if !known.contains(wanted.last()) {
            assert forall|i: int| 0 <= i < targets.len() implies (#[trigger] targets[i]).id@ != wanted.last() by {
                assert(known[i] == targets[i].id@);
            }
            assert(wanted[wanted.len() - 1] == wanted.last());
        } else {
            let i = choose|i: int| 0 <= i < known.len() && known[i] == wanted.last();
            assert(targets[i].id@ == wanted.last());
        }
        if first_unknown(targets, front) is Some {
            let id = first_unknown(targets, front)->0;
            let j = choose|j: int| 0 <= j < front.len() && front[j] == id;
            assert(wanted[j] == id);
        }
    }
}

/// A floor drops what is below it and keeps what is at it or above; the sum
/// is that of what is kept.
pub proof fn a_floor_keeps_what_reaches_it(targets: Seq<TargetScan>, min: u64, i: int)
    ensures
        0 <= i < targets.len() && targets[i].total_bytes >= min ==> targets.filter(at_least(min)).contains(targets[i]),
        forall|k: int|
            0 <= k < targets.filter(at_least(min)).len() ==> (#[trigger] targets.filter(at_least(min))[k]).total_bytes
                >= min,
        bytes_of(targets.filter(at_least(0))) == bytes_of(targets),
        bytes_of(targets.filter(at_least(min))) <= bytes_of(targets),
    decreases targets.len(),
{
    if 0 <= i < targets.len() && targets[i].total_bytes >= min {
        targets.lemma_filter_contains(at_least(min), i);
    }
    assert forall|k: int| 0 <= k < targets.filter(at_least(min)).len() implies (#[trigger] targets.filter(
        at_least(min),
    )[k]).total_bytes >= min by {
        targets.lemma_filter_pred(at_least(min), k);
    }
    reveal(Seq::filter);
    if targets.len() > 0 {
        let front = targets.drop_last();
        a_floor_keeps_what_reaches_it(front, min, 0);
        assert(front.filter(at_least(min)).push(targets.last()).drop_last() =~= front.filter(at_least(min)));
        assert(front.filter(at_least(0)).push(targets.last()).drop_last() =~= front.filter(at_least(0)));
    }
}

/// Each tier is shown by its own word, in green, yellow or red: the more
/// care it takes, the nearer to red.
pub proof fn tiers_are_shown_in_their_colours()
    ensures
        forall|color: bool| #[trigger] tier_label(color, SafetyTier::Safe) == crate::ui::painted(color, "32"@, "safe"@),
        forall|color: bool| #[trigger]
            tier_label(color, SafetyTier::Caution) == crate::ui::painted(color, "33"@, "caution"@),
        forall|color: bool| #[trigger]
            tier_label(color, SafetyTier::Expert) == crate::ui::painted(color, "31"@, "expert"@),
{
}

} // verus!
