//! How the outcome of a clean is put into words.

use vstd::prelude::*;

use crate::model::{CleanReport, FailedItem, RefusedItem};
use crate::text::strings;
use crate::ui::{self, counted, in_bold, in_green, in_red, in_yellow, shown_bytes, truncated};

verus! {

/// Adds a line.
pub fn push_line(lines: &mut Vec<String>, line: String)
    ensures
        strings(final(lines)@) == strings(old(lines)@).push(line@),
{
    let ghost before = strings(lines@);
    let ghost shown = line@;
    lines.push(line);
    assert(strings(lines@) =~= before.push(shown));
}

/// Adds lines.
pub fn push_lines(lines: &mut Vec<String>, more: Vec<String>)
    ensures
        strings(final(lines)@) == strings(old(lines)@) + strings(more@),
{
    let ghost before = strings(lines@);
    let ghost added = strings(more@);
    let mut more = more;
    lines.append(&mut more);
    assert(strings(lines@) =~= before + added);
}

/// No lines yet.
pub fn no_lines() -> (r: Vec<String>)
    ensures
        strings(r@) == Seq::<Seq<char>>::empty(),
{
    let r: Vec<String> = Vec::new();
    assert(strings(r@) =~= Seq::<Seq<char>>::empty());
    r
}

/// What was reclaimed, and where it went.
pub open spec fn reclaimed(color: bool, bytes: nat, what: Seq<char>, destination: Seq<char>) -> Seq<char> {
    in_green(color, "✓"@) + " "@ + in_bold(color, shown_bytes(bytes)) + " reclaimed from "@ + what + ", "@ + destination
        + "."@
}

/// What was reclaimed, and where it went.
pub fn reclaimed_line(color: bool, bytes: u64, what: &str, destination: &str) -> (r: String)
    ensures
        r@ == reclaimed(color, bytes as nat, what@, destination@),
{
    let mut r = ui::green(color, "✓");
    r.append(" ");
    let size = ui::bytes(bytes);
    let size = ui::bold(color, size.as_str());
    r.append(size.as_str());
    r.append(" reclaimed from ");
    r.append(what);
    r.append(", ");
    r.append(destination);
    r.append(".");
    r
}

/// A path that something kept from being removed, and what.
pub open spec fn kept_line(label: Seq<char>, path: Seq<char>, why: Seq<char>) -> Seq<char> {
    "  "@ + label + " "@ + truncated(path, 52) + " — "@ + why
}

fn kept(label: &str, path: &str, why: &str) -> (r: String)
    ensures
        r@ == kept_line(label@, path@, why@),
{
    let mut r = "  ".to_owned();
    r.append(label);
    r.append(" ");
    let shown = ui::truncate_path(path, 52);
    r.append(shown.as_str());
    r.append(" — ");
    r.append(why);
    r
}

/// A line for each path that the guard refused.
pub open spec fn skipped(color: bool, refused: Seq<RefusedItem>) -> Seq<Seq<char>> {
    refused.map_values(|item: RefusedItem| kept_line(in_yellow(color, "skipped"@), item.path@, item.reason@))
}

/// A line for each path that could not be removed.
pub open spec fn failures(color: bool, failed: Seq<FailedItem>) -> Seq<Seq<char>> {
    failed.map_values(|item: FailedItem| kept_line(in_red(color, "failed"@), item.path@, item.error@))
}

/// A line for each path that the guard refused.
pub fn skipped_lines(color: bool, refused: &Vec<RefusedItem>) -> (r: Vec<String>)
    ensures
        strings(r@) == skipped(color, refused@),
{
    let label = ui::yellow(color, "skipped");
    let mut lines: Vec<String> = Vec::new();
    let mut i: usize = 0;
    while i < refused.len()
        invariant
            label@ == in_yellow(color, "skipped"@),
            i <= refused@.len(),
            strings(lines@) =~= skipped(color, refused@).take(i as int),
        decreases refused@.len() - i,
    {
        let line = kept(label.as_str(), refused[i].path.as_str(), refused[i].reason.as_str());
        push_line(&mut lines, line);
        i += 1;
    }
    assert(strings(lines@) =~= skipped(color, refused@));
    lines
}

/// A line for each path that could not be removed.
pub fn failed_lines(color: bool, failed: &Vec<FailedItem>) -> (r: Vec<String>)
    ensures
        strings(r@) == failures(color, failed@),
{
    let label = ui::red(color, "failed");
    let mut lines: Vec<String> = Vec::new();
    let mut i: usize = 0;
    while i < failed.len()
        invariant
            label@ == in_red(color, "failed"@),
            i <= failed@.len(),
            strings(lines@) =~= failures(color, failed@).take(i as int),
        decreases failed@.len() - i,
    {
        let line = kept(label.as_str(), failed[i].path.as_str(), failed[i].error.as_str());
        push_line(&mut lines, line);
        i += 1;
    }
    assert(strings(lines@) =~= failures(color, failed@));
    lines
}

/// What follows a removal to the Trash, for each command: how much went, and
/// what was skipped or failed as far as the command tells it.
pub open spec fn outcome(
    color: bool,
    report: CleanReport,
    singular: Seq<char>,
    plural: Seq<char>,
    tell_skipped: bool,
    tell_failed: bool,
) -> Seq<Seq<char>> {
    seq![
        reclaimed(
            color,
            report.bytes_reclaimed as nat,
            counted(report.removed@.len(), singular, plural),
            "moved to the Trash"@,
        ),
    ] + (if tell_skipped {
        skipped(color, report.refused@)
    } else {
        Seq::empty()
    }) + (if tell_failed {
        failures(color, report.failed@)
    } else {
        Seq::empty()
    })
}

/// What follows a removal to the Trash.
pub fn outcome_lines(
    color: bool,
    report: &CleanReport,
    singular: &str,
    plural: &str,
    tell_skipped: bool,
    tell_failed: bool,
) -> (r: Vec<String>)
    ensures
        strings(r@) == outcome(color, *report, singular@, plural@, tell_skipped, tell_failed),
{
    let what = ui::count(report.removed.len(), singular, plural);
    let mut lines = no_lines();
    push_line(&mut lines, reclaimed_line(color, report.bytes_reclaimed, what.as_str(), "moved to the Trash"));
    if tell_skipped {
        push_lines(&mut lines, skipped_lines(color, &report.refused));
    }
    if tell_failed {
        push_lines(&mut lines, failed_lines(color, &report.failed));
    }
    assert(strings(lines@) =~= outcome(color, *report, singular@, plural@, tell_skipped, tell_failed));
    lines
}

/// The outcome is one line for what was reclaimed, and one for each item that
/// was skipped and each that failed, where these are to be told.
pub proof fn what_an_outcome_tells(
    color: bool,
    report: CleanReport,
    singular: Seq<char>,
    plural: Seq<char>,
)
    ensures
        outcome(color, report, singular, plural, true, true).len() == 1 + report.refused@.len() + report.failed@.len(),
        outcome(color, report, singular, plural, true, false).len() == 1 + report.refused@.len(),
        outcome(color, report, singular, plural, false, true).len() == 1 + report.failed@.len(),
        outcome(color, report, singular, plural, false, false).len() == 1,
        forall|i: int|
            0 <= i < report.failed@.len() ==> outcome(color, report, singular, plural, false, true)[1 + i] == "  "@
                + in_red(color, "failed"@) + " "@ + truncated((#[trigger] report.failed@[i]).path@, 52) + " — "@
                + report.failed@[i].error@,
        forall|i: int|
            0 <= i < report.refused@.len() ==> outcome(color, report, singular, plural, true, false)[1 + i] == "  "@
                + in_yellow(color, "skipped"@) + " "@ + truncated((#[trigger] report.refused@[i]).path@, 52) + " — "@
                + report.refused@[i].reason@,
        outcome(color, report, singular, plural, true, true)[0] == in_green(color, "✓"@) + " "@ + in_bold(
            color,
            shown_bytes(report.bytes_reclaimed as nat),
        ) + " reclaimed from "@ + counted(report.removed@.len(), singular, plural) + ", "@ + "moved to the Trash"@ + "."@,
{
}

} // verus!
