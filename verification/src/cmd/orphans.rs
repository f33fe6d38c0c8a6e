//! Support files whose app is gone: what is shown of them and removed.

use vstd::prelude::*;

use crate::cleaner::{self, approves_also, item_paths, possible_fates, reports, Fate, RemovalBackend};
use crate::disk::{stands_still, Disk, StillDisk};
use crate::model::{capped, items_size, CleanReport, ScanItem};
use crate::orphans::{self, orphan_place, OrphanApp, OrphanItem};
use crate::paths::FsPath;
use crate::report::{self, push_line, push_lines};
use crate::safety::{system_deny, SafetyGuard};
use crate::scanner::{items_view, ItemView};
use crate::text::{self, digits, strings};
use crate::trash::is_dir_in;
use crate::ui::{
    self, counted, in_bold, in_cyan, in_dim, left_aligned, right_aligned, shown_bytes, truncated,
};

verus! {

/// The line of one leftover.
pub open spec fn orphan_row(color: bool, item: OrphanItem) -> Seq<char> {
    "  "@ + right_aligned(in_dim(color, shown_bytes(item.size_bytes as nat)), 9) + "  "@ + left_aligned(
        in_cyan(color, item.kind@),
        20,
    ) + " "@ + in_dim(color, truncated(item.path@, 44))
}

/// The lines of one vanished app.
pub open spec fn app_rows(color: bool, app: OrphanApp) -> Seq<Seq<char>> {
    let head = "  "@ + right_aligned(in_bold(color, shown_bytes(app.total_bytes as nat)), 9) + "  "@ + left_aligned(
        app.display_name@,
        28,
    ) + "  "@ + in_dim(color, app.bundle_id@);
    seq![head] + app.items@.map_values(|i: OrphanItem| orphan_row(color, i))
}

/// The lines of the vanished apps.
pub open spec fn all_app_rows(color: bool, found: Seq<OrphanApp>) -> Seq<Seq<char>>
    decreases found.len(),
{
    if found.len() == 0 {
        Seq::empty()
    } else {
        all_app_rows(color, found.drop_last()) + app_rows(color, found.last())
    }
}

/// The vanished apps as they are shown, up to a limit.
pub open spec fn table(color: bool, found: Seq<OrphanApp>, limit: nat) -> Seq<Seq<char>> {
    let shown = if found.len() < limit {
        found.len()
    } else {
        limit
    };
    seq![""@] + all_app_rows(color, found.take(shown as int)) + (if found.len() > limit {
        seq!["  "@ + in_dim(color, "… and "@ + digits((found.len() - limit) as nat) + " more"@)]
    } else {
        Seq::empty()
    }) + seq![""@]
}

fn orphan_line(color: bool, item: &OrphanItem) -> (r: String)
    ensures
        r@ == orphan_row(color, *item),
{
    let mut r = "  ".to_owned();
    let size = ui::bytes(item.size_bytes);
    let size = ui::dim(color, size.as_str());
    let size = ui::rpad(size.as_str(), 9);
    r.append(size.as_str());
    r.append("  ");
    let kind = ui::cyan(color, item.kind.as_str());
    let kind = ui::lpad(kind.as_str(), 20);
    r.append(kind.as_str());
    r.append(" ");
    let path = ui::truncate_path(item.path.as_str(), 44);
    let path = ui::dim(color, path.as_str());
    r.append(path.as_str());
    r
}

fn app_lines(color: bool, app: &OrphanApp) -> (r: Vec<String>)
    ensures
        strings(r@) == app_rows(color, *app),
{
    let mut head = "  ".to_owned();
    let size = ui::bytes(app.total_bytes);
    let size = ui::bold(color, size.as_str());
    let size = ui::rpad(size.as_str(), 9);
    head.append(size.as_str());
    head.append("  ");
    let name = ui::lpad(app.display_name.as_str(), 28);
    head.append(name.as_str());
    head.append("  ");
    let id = ui::dim(color, app.bundle_id.as_str());
    head.append(id.as_str());
    let mut lines = report::no_lines();
    push_line(&mut lines, head);
    let ghost first = strings(lines@);
    let ghost row = |i: OrphanItem| orphan_row(color, i);
    let mut i: usize = 0;
    assert(strings(lines@) =~= first + app.items@.take(0).map_values(row));
    while i < app.items.len()
        invariant
            row == (|i: OrphanItem| orphan_row(color, i)),
            i <= app.items@.len(),
            strings(lines@) == first + app.items@.take(i as int).map_values(row),
        decreases app.items@.len() - i,
    {
        push_line(&mut lines, orphan_line(color, &app.items[i]));
        assert(strings(lines@) =~= first + app.items@.take(i + 1).map_values(row));
        i += 1;
    }
    assert(strings(lines@) =~= app_rows(color, *app));
    lines
}

/// The vanished apps as they are shown, in lines.
pub fn table_lines(color: bool, found: &Vec<OrphanApp>, limit: usize) -> (r: Vec<String>)
    ensures
        strings(r@) == table(color, found@, limit as nat),
{
    let n: usize = found.len();
    let shown: usize = if n < limit {
        n
    } else {
        limit
    };
    let mut lines = report::no_lines();
    push_line(&mut lines, "".to_owned());
    let mut i: usize = 0;
    assert(strings(lines@) =~= seq![""@] + all_app_rows(color, found@.take(0)));
    while i < shown
        invariant
            i <= shown <= found@.len(),
            strings(lines@) == seq![""@] + all_app_rows(color, found@.take(i as int)),
        decreases shown - i,
    {
        assert(found@.take(i + 1).drop_last() =~= found@.take(i as int));
        push_lines(&mut lines, app_lines(color, &found[i]));
        assert(strings(lines@) =~= seq![""@] + all_app_rows(color, found@.take(i + 1)));
        i += 1;
    }
    if n > limit {
        let mut words = "… and ".to_owned();
        let rest = text::decimal((n - limit) as u64);
        words.append(rest.as_str());
        words.append(" more");
        let words = ui::dim(color, words.as_str());
        let mut line = "  ".to_owned();
        line.append(words.as_str());
        push_line(&mut lines, line);
    }
    push_line(&mut lines, "".to_owned());
    assert(strings(lines@) =~= table(color, found@, limit as nat));
    lines
}

/// The bytes of the vanished apps, added up.
pub open spec fn apps_bytes(found: Seq<OrphanApp>) -> nat
    decreases found.len(),
{
    if found.len() == 0 {
        0
    } else {
        apps_bytes(found.drop_last()) + found.last().total_bytes as nat
    }
}

/// The bytes of the vanished apps, added up as far as they fit.
pub fn total_bytes(found: &Vec<OrphanApp>) -> (r: u64)
    ensures
        r == capped(apps_bytes(found@)),
{
    let mut total: u64 = 0;
    let mut i: usize = 0;
    assert(found@.take(0).len() == 0);
    while i < found.len()
        invariant
            i <= found@.len(),
            total == capped(apps_bytes(found@.take(i as int))),
        decreases found@.len() - i,
    {
        assert(found@.take(i + 1).drop_last() =~= found@.take(i as int));
        total = total.saturating_add(found[i].total_bytes);
        i += 1;
    }
    assert(found@.take(i as int) =~= found@);
    total
}

/// All leftovers of the vanished apps.
pub open spec fn all_items(found: Seq<OrphanApp>) -> Seq<OrphanItem>
    decreases found.len(),
{
    if found.len() == 0 {
        Seq::empty()
    } else {
        all_items(found.drop_last()) + found.last().items@
    }
}

/// The bytes of the leftovers, added up.
pub open spec fn items_bytes(items: Seq<OrphanItem>) -> nat
    decreases items.len(),
{
    if items.len() == 0 {
        0
    } else {
        items_bytes(items.drop_last()) + items.last().size_bytes as nat
    }
}

/// The items to remove: the leftovers that lie where leftovers are looked
/// for.
pub open spec fn removable(items: Seq<OrphanItem>, home: Seq<char>, dirs: Seq<bool>) -> Seq<ItemView>
    decreases items.len(),
{
    if items.len() == 0 {
        Seq::empty()
    } else {
        let before = removable(items.drop_last(), home, dirs);
        let item = items.last();
        if orphan_place(item.path@, home) {
            before.push(
                ItemView {
                    target_id: "orphans"@,
                    path: item.path@,
                    size: item.size_bytes as nat,
                    is_dir: dirs[items.len() - 1],
                },
            )
        } else {
            before
        }
    }
}

/// `dirs` can have come from asking of each leftover whether it is a
/// directory.
pub open spec fn asked_dirs<D: Disk>(disk: &D, items: Seq<OrphanItem>, home: Seq<char>, dirs: Seq<bool>) -> bool {
    &&& dirs.len() == items.len()
    &&& forall|still: StillDisk, i: int|
        #![trigger stands_still(disk, still), dirs[i]]
        stands_still(disk, still) && 0 <= i < items.len() && orphan_place(items[i].path@, home) ==> dirs[i] == is_dir_in(
            still,
            items[i].path@,
        )
}

proof fn lemma_removable_prefix(items: Seq<OrphanItem>, home: Seq<char>, a: Seq<bool>, b: Seq<bool>)
    requires
        forall|i: int| 0 <= i < items.len() ==> a[i] == b[i],
    ensures
        removable(items, home, a) == removable(items, home, b),
    decreases items.len(),
{
    if items.len() > 0 {
        lemma_removable_prefix(items.drop_last(), home, a, b);
    }
}

/// The leftovers in one list.
fn gather(found: &Vec<OrphanApp>) -> (r: Vec<(FsPath, u64)>)
    ensures
        r@ == all_items(found@).map_values(|i: OrphanItem| (i.path, i.size_bytes)),
{
    let ghost pair = |i: OrphanItem| (i.path, i.size_bytes);
    let mut r: Vec<(FsPath, u64)> = Vec::new();
    let mut i: usize = 0;
    assert(r@ =~= all_items(found@.take(0)).map_values(pair));
    while i < found.len()
        invariant
            pair == (|i: OrphanItem| (i.path, i.size_bytes)),
            i <= found@.len(),
            r@ == all_items(found@.take(i as int)).map_values(pair),
        decreases found@.len() - i,
    {
        assert(found@.take(i + 1).drop_last() =~= found@.take(i as int));
        let ghost before = r@;
        let items: &Vec<OrphanItem> = &found[i].items;
        let mut j: usize = 0;
        assert(r@ =~= before + items@.take(0).map_values(pair));
        while j < items.len()
            invariant
                pair == (|i: OrphanItem| (i.path, i.size_bytes)),
                j <= items@.len(),
                r@ == before + items@.take(j as int).map_values(pair),
            decreases items@.len() - j,
        {
            r.push((items[j].path.clone(), items[j].size_bytes));
            assert(r@ =~= before + items@.take(j + 1).map_values(pair));
            j += 1;
        }
        assert(items@.take(j as int) =~= items@);
        assert(r@ =~= all_items(found@.take(i + 1)).map_values(pair));
        i += 1;
    }
    assert(found@.take(i as int) =~= found@);
    r
}

/// The items to remove: the leftovers that lie where leftovers are looked
/// for. The list is not trusted, whatever search it came from.
pub fn items_to_remove<D: Disk>(found: &Vec<OrphanApp>, home: &FsPath, disk: &D) -> (r: Vec<ScanItem>)
    ensures
        exists|dirs: Seq<bool>| #[trigger]
            asked_dirs(disk, all_items(found@), home@, dirs) && items_view(r@) == removable(
                all_items(found@),
                home@,
                dirs,
            ),
        items_size(r@) <= items_bytes(all_items(found@)),
{
    let listed = gather(found);
    let ghost all = all_items(found@);
    let mut r: Vec<ScanItem> = Vec::new();
    let ghost mut dirs: Seq<bool> = Seq::empty();
    let mut i: usize = 0;
    assert(all.take(0).len() == 0);
    assert(items_view(r@) =~= removable(all.take(0), home@, dirs));
    while i < listed.len()
        invariant
            all == all_items(found@),
            listed@ == all.map_values(|i: OrphanItem| (i.path, i.size_bytes)),
            i <= listed@.len(),
            dirs.len() == i,
            forall|still: StillDisk, k: int|
                #![trigger stands_still(disk, still), dirs[k]]
                stands_still(disk, still) && 0 <= k < i && orphan_place(all[k].path@, home@) ==> dirs[k] == is_dir_in(
                    still,
                    all[k].path@,
                ),
            items_view(r@) == removable(all.take(i as int), home@, dirs),
            items_size(r@) <= items_bytes(all.take(i as int)),
        decreases listed@.len() - i,
    {
        let ghost before = r@;
        let ghost had = dirs;
        assert(all.take(i + 1).drop_last() =~= all.take(i as int));
        assert(listed@[i as int] == (all[i as int].path, all[i as int].size_bytes));
        let path: &FsPath = &listed[i].0;
        if orphans::is_orphan_path(path, home) {
            let stat = disk.stat(path);
            assert(call_ensures(D::stat, (disk, path), stat));
            let is_dir = match stat {
                Some(stat) => stat.is_dir,
                None => false,
            };
            proof {
                dirs = dirs.push(is_dir);
                lemma_removable_prefix(all.take(i as int), home@, had, dirs);
            }
            let item = ScanItem {
                target_id: "orphans".to_owned(),
                path: path.clone(),
                size_bytes: listed[i].1,
                is_dir,
            };
            r.push(item);
            assert(r@.drop_last() =~= before);
            assert(items_view(r@) =~= items_view(before).push(item@));
        } else {
            proof {
                dirs = dirs.push(false);
                lemma_removable_prefix(all.take(i as int), home@, had, dirs);
            }
        }
        i += 1;
    }
    assert(all.take(i as int) =~= all);
    assert(asked_dirs(disk, all, home@, dirs));
    r
}

/// What is removed lies where leftovers are looked for, whatever list it came
/// from.
pub proof fn only_orphan_places_are_removable(items: Seq<OrphanItem>, home: Seq<char>, dirs: Seq<bool>, i: int)
    requires
        0 <= i < removable(items, home, dirs).len(),
    ensures
        orphan_place(removable(items, home, dirs)[i].path, home),
    decreases items.len(),
{
    let before = removable(items.drop_last(), home, dirs);
    if i < before.len() {
        only_orphan_places_are_removable(items.drop_last(), home, dirs, i);
    }
}

/// Removes the leftovers, after a second look at where each lies. Nothing
/// else is handed to the backend.
pub fn clean<D: Disk, B: RemovalBackend, C: Fn(&FsPath) -> Option<FsPath>>(
    found: &Vec<OrphanApp>,
    home: &FsPath,
    disk: &D,
    canonicalize: &C,
    backend: &B,
) -> (r: CleanReport)
    requires
        forall|p: &FsPath| call_requires(*canonicalize, (p,)),
        items_bytes(all_items(found@)) <= u64::MAX,
        forall|p: Seq<char>| #[trigger] orphan_place(p, home@) ==> backend.accepts(p),
    ensures
        !r.dry_run,
        exists|items: Seq<ScanItem>, dirs: Seq<bool>, bare: SafetyGuard, used: SafetyGuard, fates: Seq<Fate>|
            {
                &&& #[trigger] asked_dirs(disk, all_items(found@), home@, dirs)
                &&& items_view(items) == removable(all_items(found@), home@, dirs)
                &&& #[trigger] bare.built_from(*canonicalize, system_deny(), Seq::empty())
                &&& approves_also(used, bare, item_paths(items), *canonicalize)
                &&& fates.len() == items.len()
                &&& #[trigger] possible_fates(items, &used, Some(home@), *canonicalize, backend, false, fates)
                &&& reports(r, items, fates)
            },
{
    let items = items_to_remove(found, home, disk);
    proof {
        let dirs = choose|dirs: Seq<bool>| #[trigger]
            asked_dirs(disk, all_items(found@), home@, dirs) && items_view(items@) == removable(
                all_items(found@),
                home@,
                dirs,
            );
        assert forall|i: int| 0 <= i < items@.len() implies backend.accepts((#[trigger] items@[i]).path@) by {
            assert(items_view(items@)[i] == items@[i]@);
            only_orphan_places_are_removable(all_items(found@), home@, dirs, i);
        }
    }
    let guard = SafetyGuard::system_only(canonicalize);
    cleaner::clean_approved(&items, guard, Some(home), canonicalize, backend, false)
}

/// What the vanished apps come to, and below it what could be done with them
/// unless that was asked for.
pub open spec fn sum_text(color: bool, found: Seq<OrphanApp>, cleaning: bool) -> Seq<Seq<char>> {
    seq![
        "  "@ + in_bold(color, shown_bytes(capped(apps_bytes(found)))) + " across "@ + counted(
            found.len(),
            "vanished app"@,
            "vanished apps"@,
        ),
    ] + if cleaning {
        Seq::empty()
    } else {
        seq!["  "@ + in_dim(color, "Add --clean to move these to the Trash."@), ""@]
    }
}

/// What the vanished apps come to, in lines.
pub fn sum_lines(color: bool, found: &Vec<OrphanApp>, cleaning: bool) -> (r: Vec<String>)
    ensures
        strings(r@) == sum_text(color, found@, cleaning),
{
    let mut sum = "  ".to_owned();
    let size = ui::bytes(total_bytes(found));
    let size = ui::bold(color, size.as_str());
    sum.append(size.as_str());
    sum.append(" across ");
    let what = ui::count(found.len(), "vanished app", "vanished apps");
    sum.append(what.as_str());
    let mut lines = report::no_lines();
    push_line(&mut lines, sum);
    if !cleaning {
        let mut line = "  ".to_owned();
        let words = ui::dim(color, "Add --clean to move these to the Trash.");
        line.append(words.as_str());
        push_line(&mut lines, line);
        push_line(&mut lines, "".to_owned());
    }
    assert(strings(lines@) =~= sum_text(color, found@, cleaning));
    lines
}

/// The question before leftovers are removed.
pub fn question(color: bool, found: &Vec<OrphanApp>) -> (r: String)
    ensures
        r@ == "Move "@ + in_bold(color, shown_bytes(capped(apps_bytes(found@)))) + " of leftovers to the Trash?"@,
{
    let mut r = "Move ".to_owned();
    let size = ui::bytes(total_bytes(found));
    let size = ui::bold(color, size.as_str());
    r.append(size.as_str());
    r.append(" of leftovers to the Trash?");
    r
}

/// Every item that lies where orphans may be removed is up for removal, with
/// its size and its nature.
pub proof fn every_orphan_in_place_goes(items: Seq<OrphanItem>, home: Seq<char>, dirs: Seq<bool>, k: int)
    requires
        0 <= k < items.len(),
        orphan_place(items[k].path@, home),
    ensures
        removable(items, home, dirs).contains(
            ItemView {
                target_id: "orphans"@,
                path: items[k].path@,
                size: items[k].size_bytes as nat,
                is_dir: dirs[k],
            },
        ),
    decreases items.len(),
{
    let front = items.drop_last();
    let (before, all) = (removable(front, home, dirs), removable(items, home, dirs));
    let item = ItemView {
        target_id: "orphans"@,
        path: items[k].path@,
        size: items[k].size_bytes as nat,
        is_dir: dirs[k],
    };
    if k < front.len() {
        assert(front[k] == items[k]);
        every_orphan_in_place_goes(front, home, dirs, k);
        let i = choose|i: int| 0 <= i < before.len() && before[i] == item;
        assert(all[i] == item);
    } else {
        assert(all[all.len() - 1] == item);
    }
}

/// What each vanished app left is added to the rest: its items, and its bytes.
pub proof fn each_app_adds_what_it_left(found: Seq<OrphanApp>, app: OrphanApp, items: Seq<OrphanItem>, item: OrphanItem)
    ensures
        all_items(found.push(app)) == all_items(found) + app.items@,
        all_items(Seq::empty()).len() == 0,
        apps_bytes(found.push(app)) == apps_bytes(found) + app.total_bytes,
        apps_bytes(Seq::empty()) == 0,
        items_bytes(items.push(item)) == items_bytes(items) + item.size_bytes,
        items_bytes(Seq::empty()) == 0,
{
    assert(found.push(app).drop_last() =~= found);
    assert(items.push(item).drop_last() =~= items);
}

/// At most so many apps are shown, each with all its items, and where there
/// are more a line says how many.
pub proof fn what_the_table_holds(color: bool, found: Seq<OrphanApp>, app: OrphanApp, limit: nat)
    ensures
        found.len() <= limit ==> table(color, found, limit) == seq![""@] + all_app_rows(color, found) + seq![""@],
        found.len() == limit ==> table(color, found.push(app), limit) == seq![""@] + all_app_rows(color, found) + seq![
            "  "@ + in_dim(color, "… and "@ + digits(1) + " more"@),
            ""@,
        ],
        all_app_rows(color, found.push(app)).len() == all_app_rows(color, found).len() + 1 + app.items@.len(),
{
    assert(found.take(found.len() as int) =~= found);
    assert(found.push(app).drop_last() =~= found);
    if found.len() <= limit {
        assert(table(color, found, limit) =~= seq![""@] + all_app_rows(color, found) + seq![""@]);
    }
    if found.len() == limit {
        assert(found.push(app).take(limit as int) =~= found);
        assert(table(color, found.push(app), limit) =~= seq![""@] + all_app_rows(color, found) + seq![
            "  "@ + in_dim(color, "… and "@ + digits(1) + " more"@),
            ""@,
        ]);
    }
}

} // verus!
