//! What a scan shows.

use vstd::prelude::*;

use super::clean::{largest_first, rows_of};
use crate::model::{ScanItem, ScanReport, TargetScan};
use crate::order::{self, largest_order, reordered};
use crate::report::{self, push_line, push_lines};
use crate::targets::{self, tier_label};
use crate::text::{self, digits, strings};
use crate::ui::{
    self, counted, in_bold, in_dim, in_green, in_yellow, left_aligned, right_aligned, shown_bytes, truncated,
};

verus! {

/// The sizes of the items.
pub open spec fn item_sizes(items: Seq<ScanItem>) -> Seq<u64> {
    items.map_values(|i: ScanItem| i.size_bytes)
}

/// The items, largest first.
pub open spec fn largest_items(items: Seq<ScanItem>) -> Seq<ScanItem> {
    reordered(items, largest_order(item_sizes(items)))
}

/// The line of one item.
pub open spec fn item_row(color: bool, item: ScanItem) -> Seq<char> {
    "  "@ + right_aligned(in_dim(color, shown_bytes(item.size_bytes as nat)), 9) + "  "@ + in_dim(
        color,
        truncated(item.path@, 60),
    )
}

/// The lines of the items of a target: the ten largest, and how many more
/// there are.
pub open spec fn item_rows(color: bool, items: Seq<ScanItem>) -> Seq<Seq<char>> {
    let shown = if items.len() < 10 {
        items.len() as int
    } else {
        10
    };
    largest_items(items).take(shown).map_values(|i: ScanItem| item_row(color, i)) + if items.len() > 10 {
        seq!["  "@ + in_dim(color, "  … and "@ + digits((items.len() - 10) as nat) + " more"@)]
    } else {
        Seq::empty()
    }
}

/// The line of one target.
pub open spec fn target_row(color: bool, scan: TargetScan) -> Seq<char> {
    "  "@ + right_aligned(in_bold(color, shown_bytes(scan.total_bytes as nat)), 9) + "  "@ + left_aligned(
        tier_label(color, scan.target.safety),
        8,
    ) + "  "@ + left_aligned(truncated(scan.target.name@, 36), 36) + "  "@ + in_dim(color, scan.target.id@)
}

/// The lines of the targets.
pub open spec fn target_rows(color: bool, rows: Seq<TargetScan>, items: bool) -> Seq<Seq<char>>
    decreases rows.len(),
{
    if rows.len() == 0 {
        Seq::empty()
    } else {
        target_rows(color, rows.drop_last(), items) + seq![target_row(color, rows.last())] + if items {
            item_rows(color, rows.last().items@)
        } else {
            Seq::empty()
        }
    }
}

/// How many warnings there were.
pub open spec fn warnings_in(targets: Seq<TargetScan>) -> nat
    decreases targets.len(),
{
    if targets.len() == 0 {
        0
    } else {
        warnings_in(targets.drop_last()) + targets.last().warnings@.len()
    }
}

/// What a scan shows: the targets that hold anything, largest first.
pub open spec fn scan_text(color: bool, report: ScanReport, items: bool) -> Seq<Seq<char>> {
    let rows = largest_first(report.targets@);
    let head = "  "@ + right_aligned(in_dim(color, "SIZE"@), 9) + "  "@ + left_aligned(in_dim(color, "SAFETY"@), 8)
        + "  "@ + left_aligned(in_dim(color, "TARGET"@), 36) + "  "@ + in_dim(color, "ID"@);
    let sum = "  "@ + in_bold(color, shown_bytes(report.total_bytes as nat)) + " reclaimable across "@ + counted(
        rows.len(),
        "target"@,
        "targets"@,
    );
    let unread = if warnings_in(report.targets@) > 0 {
        seq![
            "  "@ + in_yellow(
                color,
                counted(warnings_in(report.targets@), "path"@, "paths"@)
                    + " could not be read — grant Full Disk Access for a complete figure"@,
            ),
        ]
    } else {
        Seq::empty()
    };
    if rows.len() == 0 {
        seq![in_green(color, "Nothing to reclaim — already spotless."@)]
    } else {
        seq![""@, head] + target_rows(color, rows, items) + seq![""@, sum] + unread + seq![
            ""@,
            "  "@ + in_dim(color, "Next: `spotless clean --safe-only` to preview a clean."@),
            ""@,
        ]
    }
}

fn item_line(color: bool, item: &ScanItem) -> (r: String)
    ensures
        r@ == item_row(color, *item),
{
    let mut r = "  ".to_owned();
    let size = ui::bytes(item.size_bytes);
    let size = ui::dim(color, size.as_str());
    let size = ui::rpad(size.as_str(), 9);
    r.append(size.as_str());
    r.append("  ");
    let path = ui::truncate_path(item.path.as_str(), 60);
    let path = ui::dim(color, path.as_str());
    r.append(path.as_str());
    r
}

fn item_lines(color: bool, items: &Vec<ScanItem>) -> (r: Vec<String>)
    ensures
        strings(r@) == item_rows(color, items@),
{
    let mut keys: Vec<u64> = Vec::new();
    let mut i: usize = 0;
    while i < items.len()
        invariant
            i <= items@.len(),
            keys@ =~= item_sizes(items@).take(i as int),
        decreases items@.len() - i,
    {
        keys.push(items[i].size_bytes);
        i += 1;
    }
    assert(keys@ =~= item_sizes(items@));
    let by_size = order::order_larger_first(&keys);
    proof {
        order::lemma_largest_order(by_size@, keys@);
    }
    let ghost sorted = largest_items(items@);
    let n: usize = items.len();
    let shown: usize = if n < 10 {
        n
    } else {
        10
    };
    let ghost row = |i: ScanItem| item_row(color, i);
    let mut lines = report::no_lines();
    let mut i: usize = 0;
    assert(strings(lines@) =~= sorted.take(0).map_values(row));
    while i < shown
        invariant
            row == (|i: ScanItem| item_row(color, i)),
            by_size@.len() == items@.len(),
            forall|k: int| 0 <= k < by_size@.len() ==> #[trigger] by_size@[k] < items@.len(),
            sorted == reordered(items@, by_size@),
            i <= shown <= items@.len(),
            strings(lines@) == sorted.take(i as int).map_values(row),
        decreases shown - i,
    {
        push_line(&mut lines, item_line(color, &items[by_size[i]]));
        assert(strings(lines@) =~= sorted.take(i + 1).map_values(row));
        i += 1;
    }
    if n > 10 {
        let mut words = "  … and ".to_owned();
        let rest = text::decimal((n - 10) as u64);
        words.append(rest.as_str());
        words.append(" more");
        let words = ui::dim(color, words.as_str());
        let mut line = "  ".to_owned();
        line.append(words.as_str());
        push_line(&mut lines, line);
    }
    assert(strings(lines@) =~= item_rows(color, items@));
    lines
}

fn target_line(color: bool, scan: &TargetScan) -> (r: String)
    ensures
        r@ == target_row(color, *scan),
{
    let mut r = "  ".to_owned();
    let size = ui::bytes(scan.total_bytes);
    let size = ui::bold(color, size.as_str());
    let size = ui::rpad(size.as_str(), 9);
    r.append(size.as_str());
    r.append("  ");
    let label = targets::safety_label(color, scan.target.safety);
    let label = ui::lpad(label.as_str(), 8);
    r.append(label.as_str());
    r.append("  ");
    let name = ui::truncate_path(scan.target.name.as_str(), 36);
    let name = ui::lpad(name.as_str(), 36);
    r.append(name.as_str());
    r.append("  ");
    let id = ui::dim(color, scan.target.id.as_str());
    r.append(id.as_str());
    r
}

fn head_line(color: bool) -> (r: String)
    ensures
        r@ == "  "@ + right_aligned(in_dim(color, "SIZE"@), 9) + "  "@ + left_aligned(in_dim(color, "SAFETY"@), 8)
            + "  "@ + left_aligned(in_dim(color, "TARGET"@), 36) + "  "@ + in_dim(color, "ID"@),
{
    let mut r = "  ".to_owned();
    let word = ui::dim(color, "SIZE");
    let word = ui::rpad(word.as_str(), 9);
    r.append(word.as_str());
    r.append("  ");
    let word = ui::dim(color, "SAFETY");
    let word = ui::lpad(word.as_str(), 8);
    r.append(word.as_str());
    r.append("  ");
    let word = ui::dim(color, "TARGET");
    let word = ui::lpad(word.as_str(), 36);
    r.append(word.as_str());
    r.append("  ");
    let word = ui::dim(color, "ID");
    r.append(word.as_str());
    r
}

/// How many warnings there were.
pub fn warning_count(targets: &Vec<TargetScan>) -> (r: usize)
    requires
        warnings_in(targets@) <= usize::MAX,
    ensures
        r == warnings_in(targets@),
{
    let mut total: usize = 0;
    let mut i: usize = 0;
    assert(targets@.take(0).len() == 0);
    while i < targets.len()
        invariant
            warnings_in(targets@) <= usize::MAX,
            i <= targets@.len(),
            total == warnings_in(targets@.take(i as int)),
        decreases targets@.len() - i,
    {
        assert(targets@.take(i + 1).drop_last() =~= targets@.take(i as int));
        proof {
            lemma_warnings_grow(targets@, i + 1);
        }
        total = total + targets[i].warnings.len();
        i += 1;
    }
    assert(targets@.take(i as int) =~= targets@);
    total
}

proof fn lemma_warnings_grow(targets: Seq<TargetScan>, n: int)
    requires
        0 <= n <= targets.len(),
    ensures
        warnings_in(targets.take(n)) <= warnings_in(targets),
    decreases targets.len(),
{
    if n == targets.len() {
        assert(targets.take(n) =~= targets);
    } else {
        assert(targets.drop_last().take(n) =~= targets.take(n));
        lemma_warnings_grow(targets.drop_last(), n);
    }
}

/// What a scan shows, as lines.
pub fn scan_lines(color: bool, report: &ScanReport, items: bool) -> (r: Vec<String>)
    requires
        warnings_in(report.targets@) <= usize::MAX,
    ensures
        strings(r@) == scan_text(color, *report, items),
{
    let places = rows_of(&report.targets);
    let ghost rows = largest_first(report.targets@);
    let mut lines = report::no_lines();
    if places.len() == 0 {
        push_line(&mut lines, ui::green(color, "Nothing to reclaim — already spotless."));
        assert(strings(lines@) =~= scan_text(color, *report, items));
        return lines;
    }
    push_line(&mut lines, "".to_owned());
    push_line(&mut lines, head_line(color));
    let ghost head = strings(lines@);
    let mut i: usize = 0;
    assert(strings(lines@) =~= head + target_rows(color, rows.take(0), items));
    while i < places.len()
        invariant
            rows == reordered(report.targets@, places@),
            forall|k: int| 0 <= k < places@.len() ==> #[trigger] places@[k] < report.targets@.len(),
            i <= places@.len(),
            strings(lines@) == head + target_rows(color, rows.take(i as int), items),
        decreases places@.len() - i,
    {
        assert(rows.take(i + 1).drop_last() =~= rows.take(i as int));
        let scan: &TargetScan = &report.targets[places[i]];
        assert(rows[i as int] == *scan);
        push_line(&mut lines, target_line(color, scan));
        if items {
            push_lines(&mut lines, item_lines(color, &scan.items));
        }
        assert(strings(lines@) =~= head + target_rows(color, rows.take(i + 1), items));
        i += 1;
    }
    assert(rows.take(i as int) =~= rows);
    push_line(&mut lines, "".to_owned());
    let mut sum = "  ".to_owned();
    let size = ui::bytes(report.total_bytes);
    let size = ui::bold(color, size.as_str());
    sum.append(size.as_str());
    sum.append(" reclaimable across ");
    let what = ui::count(places.len(), "target", "targets");
    sum.append(what.as_str());
    push_line(&mut lines, sum);
    let warnings = warning_count(&report.targets);
    if warnings > 0 {
        let mut words = ui::count(warnings, "path", "paths");
        words.append(" could not be read — grant Full Disk Access for a complete figure");
        let words = ui::yellow(color, words.as_str());
        let mut line = "  ".to_owned();
        line.append(words.as_str());
        push_line(&mut lines, line);
    }
    push_line(&mut lines, "".to_owned());
    let mut next = "  ".to_owned();
    let words = ui::dim(color, "Next: `spotless clean --safe-only` to preview a clean.");
    next.append(words.as_str());
    push_line(&mut lines, next);
    push_line(&mut lines, "".to_owned());
    assert(strings(lines@) =~= scan_text(color, *report, items));
    lines
}

/// The items of a target are listed the largest first, each of them among
/// them.
pub proof fn the_largest_items_come_first(items: Seq<ScanItem>, i: int, a: int, b: int)
    requires
        items.len() <= usize::MAX,
    ensures
        largest_items(items).len() == items.len(),
        0 <= i < items.len() ==> largest_items(items).contains(items[i]),
        0 <= a < b < items.len() ==> largest_items(items)[a].size_bytes >= largest_items(items)[b].size_bytes,
{
    let keys = item_sizes(items);
    let by = largest_order(keys);
    order::keys_can_be_ordered(keys);
    let all = largest_items(items);
    if 0 <= i < items.len() {
        order::lemma_ordered_complete(by, keys.len() as int, order::larger_first(keys), i);
        let p = choose|p: int| 0 <= p < by.len() && #[trigger] by[p] == i;
        assert(all[p] == items[i]);
    }
    if 0 <= a < b < items.len() {
        assert(order::larger_first(keys)(by[a] as int, by[b] as int));
        assert(keys[by[a] as int] == all[a].size_bytes && keys[by[b] as int] == all[b].size_bytes);
    }
}

/// Ten items are shown at most, and a line tells of the others. Every target
/// is shown by a line of its own, and its warnings are counted.
pub proof fn how_much_is_listed(color: bool, items: Seq<ScanItem>, rows: Seq<TargetScan>, scan: TargetScan)
    requires
        items.len() <= usize::MAX,
    ensures
        items.len() <= 10 ==> item_rows(color, items).len() == items.len(),
        items.len() > 10 ==> item_rows(color, items).len() == 11 && item_rows(color, items)[10] == "  "@ + in_dim(
            color,
            "  … and "@ + digits((items.len() - 10) as nat) + " more"@,
        ),
        target_rows(color, rows.push(scan), false) == target_rows(color, rows, false).push(target_row(color, scan)),
        target_rows(color, rows.push(scan), true) == target_rows(color, rows, true).push(target_row(color, scan))
            + item_rows(color, scan.items@),
        warnings_in(rows.push(scan)) == warnings_in(rows) + scan.warnings@.len(),
        warnings_in(Seq::empty()) == 0,
{
    the_largest_items_come_first(items, 0, 0, 1);
    assert(rows.push(scan).drop_last() =~= rows);
    assert(target_rows(color, rows.push(scan), false) =~= target_rows(color, rows, false).push(target_row(color, scan)));
    assert(target_rows(color, rows.push(scan), true) =~= target_rows(color, rows, true).push(target_row(color, scan))
        + item_rows(color, scan.items@));
}

} // verus!
