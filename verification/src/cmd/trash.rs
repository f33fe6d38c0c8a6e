//! What is said of the Trash, and of emptying it.

use vstd::prelude::*;

use crate::report::{self, push_line};
use crate::text::strings;
use crate::trash::{EmptyReport, TrashSummary};
use crate::ui::{self, counted, in_bold, in_dim, in_green, in_red, shown_bytes};

verus! {

/// What is said of the Trash.
pub open spec fn summary_text(color: bool, summary: TrashSummary) -> Seq<Seq<char>> {
    if summary.items == 0 {
        seq![in_green(color, "The Trash is empty."@)]
    } else {
        seq![
            "  "@ + in_bold(color, shown_bytes(summary.bytes as nat)) + " in "@ + counted(
                summary.items as nat,
                "item"@,
                "items"@,
            ) + "."@,
            "  "@ + in_dim(color, "`spotless trash --empty` deletes them permanently."@),
        ]
    }
}

/// What is said of the Trash, in lines.
pub fn summary_lines(color: bool, summary: &TrashSummary) -> (r: Vec<String>)
    ensures
        strings(r@) == summary_text(color, *summary),
{
    let mut lines = report::no_lines();
    if summary.items == 0 {
        push_line(&mut lines, ui::green(color, "The Trash is empty."));
    } else {
        let mut line = "  ".to_owned();
        let size = ui::bytes(summary.bytes);
        let size = ui::bold(color, size.as_str());
        line.append(size.as_str());
        line.append(" in ");
        let what = ui::count(summary.items, "item", "items");
        line.append(what.as_str());
        line.append(".");
        push_line(&mut lines, line);
        let mut hint = "  ".to_owned();
        let words = ui::dim(color, "`spotless trash --empty` deletes them permanently.");
        hint.append(words.as_str());
        push_line(&mut lines, hint);
    }
    assert(strings(lines@) =~= summary_text(color, *summary));
    lines
}

/// What is shown before the Trash is emptied. The question says how much is
/// in it; where none is asked, the plan does.
pub open spec fn plan_text(color: bool, summary: TrashSummary, asked: bool) -> Seq<Seq<char>> {
    seq!["  "@ + in_red(color, "Permanent:"@) + " emptying the Trash cannot be undone."@] + if asked {
        Seq::empty()
    } else {
        seq![summary_text(color, summary)[0]]
    }
}

/// What is shown before the Trash is emptied, in lines.
pub fn plan_lines(color: bool, summary: &TrashSummary, asked: bool) -> (r: Vec<String>)
    ensures
        strings(r@) == plan_text(color, *summary, asked),
{
    let mut first = "  ".to_owned();
    let label = ui::red(color, "Permanent:");
    first.append(label.as_str());
    first.append(" emptying the Trash cannot be undone.");
    let mut lines = report::no_lines();
    push_line(&mut lines, first);
    if !asked {
        let told = summary_lines(color, summary);
        assert(strings(told@).len() == told@.len());
        assert(strings(told@)[0] == told@[0]@);
        push_line(&mut lines, told[0].clone());
    }
    assert(strings(lines@) =~= plan_text(color, *summary, asked));
    lines
}

/// The question before the Trash is emptied.
pub fn empty_question(color: bool, summary: &TrashSummary) -> (r: String)
    ensures
        r@ == "Delete "@ + in_bold(color, shown_bytes(summary.bytes as nat)) + " in "@ + counted(
            summary.items as nat,
            "item"@,
            "items"@,
        ) + "?"@,
{
    let mut r = "Delete ".to_owned();
    let size = ui::bytes(summary.bytes);
    let size = ui::bold(color, size.as_str());
    r.append(size.as_str());
    r.append(" in ");
    let what = ui::count(summary.items, "item", "items");
    r.append(what.as_str());
    r.append("?");
    r
}

/// The line of an entry that could not be removed.
pub open spec fn failed_row(color: bool, entry: (String, String)) -> Seq<char> {
    "  "@ + in_red(color, "failed"@) + " "@ + entry.0@ + " — "@ + entry.1@
}

/// What emptying the Trash came to.
pub open spec fn emptied_text(color: bool, report: EmptyReport) -> Seq<Seq<char>> {
    seq![
        in_green(color, "✓"@) + " "@ + in_bold(color, shown_bytes(report.bytes_reclaimed as nat)) + " freed from "@
            + counted(report.removed as nat, "item"@, "items"@) + "."@,
    ] + report.failed@.map_values(|e: (String, String)| failed_row(color, e))
}

/// What emptying the Trash came to, in lines.
pub fn emptied_lines(color: bool, report: &EmptyReport) -> (r: Vec<String>)
    ensures
        strings(r@) == emptied_text(color, *report),
{
    let mut first = ui::green(color, "✓");
    first.append(" ");
    let size = ui::bytes(report.bytes_reclaimed);
    let size = ui::bold(color, size.as_str());
    first.append(size.as_str());
    first.append(" freed from ");
    let what = ui::count(report.removed, "item", "items");
    first.append(what.as_str());
    first.append(".");
    let mut lines = report::no_lines();
    push_line(&mut lines, first);
    let ghost head = strings(lines@);
    let ghost row = |e: (String, String)| failed_row(color, e);
    let label = ui::red(color, "failed");
    let mut i: usize = 0;
    assert(strings(lines@) =~= head + report.failed@.take(0).map_values(row));
    while i < report.failed.len()
        invariant
            row == (|e: (String, String)| failed_row(color, e)),
            label@ == in_red(color, "failed"@),
            i <= report.failed@.len(),
            strings(lines@) == head + report.failed@.take(i as int).map_values(row),
        decreases report.failed@.len() - i,
    {
        let mut line = "  ".to_owned();
        line.append(label.as_str());
        line.append(" ");
        line.append(report.failed[i].0.as_str());
        line.append(" — ");
        line.append(report.failed[i].1.as_str());
        push_line(&mut lines, line);
        assert(strings(lines@) =~= head + report.failed@.take(i + 1).map_values(row));
        i += 1;
    }
    assert(strings(lines@) =~= emptied_text(color, *report));
    lines
}

/// The Trash is called empty exactly where nothing is in it; and what could
/// not be removed from it is told, each in a line.
pub proof fn what_is_said_of_the_trash(color: bool, summary: TrashSummary, report: EmptyReport)
    ensures
        summary.items == 0 ==> summary_text(color, summary) == seq![in_green(color, "The Trash is empty."@)],
        summary.items > 0 ==> summary_text(color, summary).len() == 2 && summary_text(color, summary)[0] == "  "@ + in_bold(
            color,
            shown_bytes(summary.bytes as nat),
        ) + " in "@ + counted(summary.items as nat, "item"@, "items"@) + "."@,
        emptied_text(color, report).len() == 1 + report.failed@.len(),
        forall|i: int|
            0 <= i < report.failed@.len() ==> emptied_text(color, report)[1 + i] == "  "@ + in_red(color, "failed"@) + " "@
                + (#[trigger] report.failed@[i]).0@ + " — "@ + report.failed@[i].1@,
{
}

} // verus!
