//! The rules, as they are shown: all that will ever be removed.

use vstd::prelude::*;

use crate::model::ScanTarget;
use crate::report::{self, push_line, push_lines};
use crate::targets::{self, tier_label};
use crate::text::{self, digits, strings};
use crate::ui::{self, in_bold, in_dim, in_yellow, left_aligned};

verus! {

/// The lines of one target.
pub open spec fn rule_rows(color: bool, target: ScanTarget) -> Seq<Seq<char>> {
    let head = "  "@ + left_aligned(tier_label(color, target.safety), 8) + " "@ + in_bold(color, target.name@) + "  "@
        + in_dim(color, target.id@);
    seq![head, "           "@ + in_dim(color, target.path@)] + (if target.description@.len() > 0 {
        seq!["           "@ + target.description@]
    } else {
        Seq::empty()
    }) + if target.permanent {
        seq![
            "           "@ + in_yellow(
                color,
                "removed permanently — there is no Trash to move this to"@,
            ),
        ]
    } else {
        Seq::empty()
    }
}

/// The lines of the targets.
pub open spec fn all_rule_rows(color: bool, targets: Seq<ScanTarget>) -> Seq<Seq<char>>
    decreases targets.len(),
{
    if targets.len() == 0 {
        Seq::empty()
    } else {
        all_rule_rows(color, targets.drop_last()) + rule_rows(color, targets.last())
    }
}

/// The rules, as they are shown.
pub open spec fn rules_text(color: bool, targets: Seq<ScanTarget>) -> Seq<Seq<char>> {
    seq![
        ""@,
        "  "@ + in_bold(color, digits(targets.len())) + " targets — everything Spotless will ever remove."@,
        ""@,
    ] + all_rule_rows(color, targets) + seq![
        ""@,
        "  "@ + in_dim(color, "`spotless rules --toml` prints the source these came from."@),
        ""@,
    ]
}

fn rule_lines(color: bool, target: &ScanTarget) -> (r: Vec<String>)
    ensures
        strings(r@) == rule_rows(color, *target),
{
    let mut head = "  ".to_owned();
    let label = targets::safety_label(color, target.safety);
    let label = ui::lpad(label.as_str(), 8);
    head.append(label.as_str());
    head.append(" ");
    let name = ui::bold(color, target.name.as_str());
    head.append(name.as_str());
    head.append("  ");
    let id = ui::dim(color, target.id.as_str());
    head.append(id.as_str());
    let mut lines = report::no_lines();
    push_line(&mut lines, head);
    let mut path = "           ".to_owned();
    let shown = ui::dim(color, target.path.as_str());
    path.append(shown.as_str());
    push_line(&mut lines, path);
    if text::chars_of(target.description.as_str()).len() > 0 {
        let mut about = "           ".to_owned();
        about.append(target.description.as_str());
        push_line(&mut lines, about);
    }
    if target.permanent {
        let mut line = "           ".to_owned();
        let words = ui::yellow(color, "removed permanently — there is no Trash to move this to");
        line.append(words.as_str());
        push_line(&mut lines, line);
    }
    assert(strings(lines@) =~= rule_rows(color, *target));
    lines
}

/// The rules, as they are shown, in lines.
pub fn rules_lines(color: bool, targets: &Vec<ScanTarget>) -> (r: Vec<String>)
    ensures
        strings(r@) == rules_text(color, targets@),
{
    let mut lines = report::no_lines();
    push_line(&mut lines, "".to_owned());
    let mut head = "  ".to_owned();
    let n = text::decimal(targets.len() as u64);
    let n = ui::bold(color, n.as_str());
    head.append(n.as_str());
    head.append(" targets — everything Spotless will ever remove.");
    push_line(&mut lines, head);
    push_line(&mut lines, "".to_owned());
    let ghost first = strings(lines@);
    let mut i: usize = 0;
    assert(strings(lines@) =~= first + all_rule_rows(color, targets@.take(0)));
    while i < targets.len()
        invariant
            i <= targets@.len(),
            strings(lines@) == first + all_rule_rows(color, targets@.take(i as int)),
        decreases targets@.len() - i,
    {
        assert(targets@.take(i + 1).drop_last() =~= targets@.take(i as int));
        push_lines(&mut lines, rule_lines(color, &targets[i]));
        assert(strings(lines@) =~= first + all_rule_rows(color, targets@.take(i + 1)));
        i += 1;
    }
    assert(targets@.take(i as int) =~= targets@);
    push_line(&mut lines, "".to_owned());
    let mut last = "  ".to_owned();
    let words = ui::dim(color, "`spotless rules --toml` prints the source these came from.");
    last.append(words.as_str());
    push_line(&mut lines, last);
    push_line(&mut lines, "".to_owned());
    assert(strings(lines@) =~= rules_text(color, targets@));
    lines
}

/// Every target is listed: by its name and its path, by its description where
/// it has one, and by a warning where it is removed permanently.
pub proof fn every_rule_is_listed(color: bool, targets: Seq<ScanTarget>, target: ScanTarget)
    ensures
        all_rule_rows(color, targets.push(target)) == all_rule_rows(color, targets) + rule_rows(color, target),
        all_rule_rows(color, Seq::empty()).len() == 0,
        rule_rows(color, target).len() == 2 + (if target.description@.len() > 0 {
            1nat
        } else {
            0nat
        }) + (if target.permanent {
            1nat
        } else {
            0nat
        }),
        target.permanent ==> rule_rows(color, target).last() == "           "@ + in_yellow(
            color,
            "removed permanently — there is no Trash to move this to"@,
        ),
        target.description@.len() > 0 ==> rule_rows(color, target)[2] == "           "@ + target.description@,
{
    assert(targets.push(target).drop_last() =~= targets);
}

} // verus!
