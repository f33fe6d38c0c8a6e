//! Installed applications: what is listed, which one is meant, and how one is
//! removed with its leftovers.

use vstd::prelude::*;

use crate::apps::{self, app_bundle, apps_in, apps_view, by_name, AppInfo, AppView, Leftover, UninstallPlan};
use crate::cleaner::{self, approves_also, item_paths, possible_fates, reports, Fate, RemovalBackend};
use crate::disk::{stands_still, Disk, StillDisk};
use crate::model::{capped, items_size, CleanReport, ScanItem};
use crate::order::{self, largest_order, reordered};
use crate::paths::{has_parent, opt_view, parent_text, same_path, texts, FsPath};
use crate::report::{self, outcome, push_line};
use crate::safety::{uninstall_deny, SafetyGuard};
use crate::scanner::{items_view, ItemView};
use crate::text::{self, ascii_lowercase_of, digits, lowercase_of, occurs, strings};
use crate::trash::is_dir_in;
use crate::ui::{
    self, counted, in_bold, in_cyan, in_dim, in_yellow, left_aligned, right_aligned, shown_bytes, truncated,
};

verus! {

/// The size that was measured at a path, the last one where there are
/// several.
pub open spec fn size_at(sizes: Seq<(FsPath, u64)>, path: Seq<char>) -> Option<u64>
    decreases sizes.len(),
{
    if sizes.len() == 0 {
        None
    } else if same_path(sizes.last().0@, path) {
        Some(sizes.last().1)
    } else {
        size_at(sizes.drop_last(), path)
    }
}

/// An app with its size.
pub open spec fn with_size(app: AppView, sizes: Seq<(FsPath, u64)>) -> AppView {
    AppView { size: size_at(sizes, app.path), ..app }
}

fn look_up(sizes: &Vec<(FsPath, u64)>, path: &FsPath) -> (r: Option<u64>)
    ensures
        r == size_at(sizes@, path@),
{
    let mut i: usize = sizes.len();
    assert(sizes@.take(i as int) =~= sizes@);
    while i > 0
        invariant
            i <= sizes@.len(),
            size_at(sizes@, path@) == size_at(sizes@.take(i as int), path@),
        decreases i,
    {
        i -= 1;
        assert(sizes@.take(i + 1).drop_last() =~= sizes@.take(i as int));
        if sizes[i].0.same(path) {
            return Some(sizes[i].1);
        }
    }
    None
}

/// The apps, each with the size that was measured at its path.
pub fn attach_sizes(installed: &Vec<AppInfo>, sizes: &Vec<(FsPath, u64)>) -> (r: Vec<AppInfo>)
    ensures
        apps_view(r@) == apps_view(installed@).map_values(|a: AppView| with_size(a, sizes@)),
{
    let ghost all = apps_view(installed@).map_values(|a: AppView| with_size(a, sizes@));
    let mut r: Vec<AppInfo> = Vec::new();
    let mut i: usize = 0;
    while i < installed.len()
        invariant
            all == apps_view(installed@).map_values(|a: AppView| with_size(a, sizes@)),
            i <= installed@.len(),
            apps_view(r@) =~= all.take(i as int),
        decreases installed@.len() - i,
    {
        let ghost before = apps_view(r@);
        let mut app = installed[i].clone();
        app.size_bytes = look_up(sizes, &installed[i].path);
        let ghost shown = app@;
        r.push(app);
        assert(apps_view(r@) =~= before.push(shown));
        i += 1;
    }
    assert(apps_view(r@) =~= all);
    r
}

/// The size of an app, none where it was not measured.
pub open spec fn known_size(app: AppInfo) -> u64 {
    match app.size_bytes {
        Some(size) => size,
        None => 0,
    }
}

/// The sizes of the apps, added up.
pub open spec fn known_sizes(apps: Seq<AppInfo>) -> nat
    decreases apps.len(),
{
    if apps.len() == 0 {
        0
    } else {
        known_sizes(apps.drop_last()) + known_size(apps.last()) as nat
    }
}

fn size_or_none(app: &AppInfo) -> (r: u64)
    ensures
        r == known_size(*app),
{
    match app.size_bytes {
        Some(size) => size,
        None => 0,
    }
}

fn total_of(apps: &Vec<AppInfo>) -> (r: u64)
    ensures
        r == capped(known_sizes(apps@)),
{
    let mut total: u64 = 0;
    let mut i: usize = 0;
    assert(apps@.take(0).len() == 0);
    while i < apps.len()
        invariant
            i <= apps@.len(),
            total == capped(known_sizes(apps@.take(i as int))),
        decreases apps@.len() - i,
    {
        assert(apps@.take(i + 1).drop_last() =~= apps@.take(i as int));
        total = total.saturating_add(size_or_none(&apps[i]));
        i += 1;
    }
    assert(apps@.take(i as int) =~= apps@);
    total
}

/// The apps in the order they are listed: largest first, unless the order of
/// names was asked for, which they come in.
pub open spec fn listing_order(apps: Seq<AppInfo>, names: bool) -> Seq<AppInfo> {
    if names {
        apps
    } else {
        reordered(apps, largest_order(apps.map_values(|a: AppInfo| known_size(a))))
    }
}

/// The apps in the order they are listed.
pub fn in_listing_order(installed: Vec<AppInfo>, names: bool) -> (r: Vec<AppInfo>)
    ensures
        r@ == listing_order(installed@, names),
{
    if names {
        return installed;
    }
    let ghost all = installed@.map_values(|a: AppInfo| known_size(a));
    let mut keys: Vec<u64> = Vec::new();
    let mut i: usize = 0;
    while i < installed.len()
        invariant
            all == installed@.map_values(|a: AppInfo| known_size(a)),
            i <= installed@.len(),
            keys@ =~= all.take(i as int),
        decreases installed@.len() - i,
    {
        keys.push(size_or_none(&installed[i]));
        i += 1;
    }
    assert(keys@ =~= all);
    let by_size = order::order_larger_first(&keys);
    proof {
        order::lemma_largest_order(by_size@, keys@);
        order::lemma_ordered_distinct(by_size@, keys@.len() as int, order::larger_first(keys@));
    }
    order::reorder(installed, &by_size)
}

/// The identifier of an app, or nothing.
pub open spec fn id_or_empty(app: AppInfo) -> Seq<char> {
    match app.bundle_id {
        Some(id) => id@,
        None => ""@,
    }
}

/// The line of one app.
pub open spec fn app_row(color: bool, app: AppInfo) -> Seq<char> {
    "  "@ + right_aligned(shown_bytes(known_size(app) as nat), 9) + "  "@ + left_aligned(app.name@, 32) + "  "@ + in_dim(
        color,
        id_or_empty(app),
    )
}

/// The list of apps, up to a limit.
pub open spec fn list_text(color: bool, apps: Seq<AppInfo>, limit: nat) -> Seq<Seq<char>> {
    let shown = if apps.len() < limit {
        apps.len()
    } else {
        limit
    };
    let more = if apps.len() > limit {
        seq!["  "@ + in_dim(color, "… and "@ + digits((apps.len() - limit) as nat) + " more"@)]
    } else {
        Seq::empty()
    };
    seq![""@] + apps.take(shown as int).map_values(|a: AppInfo| app_row(color, a)) + more + seq![
        ""@,
        "  "@ + in_bold(color, shown_bytes(capped(known_sizes(apps)))) + " across "@ + counted(
            apps.len(),
            "application"@,
            "applications"@,
        ),
        "  "@ + in_dim(color, "Next: `spotless uninstall <name>` to remove one with its leftovers."@),
        ""@,
    ]
}

fn app_line(color: bool, app: &AppInfo) -> (r: String)
    ensures
        r@ == app_row(color, *app),
{
    let mut r = "  ".to_owned();
    let size = ui::bytes(size_or_none(app));
    let size = ui::rpad(size.as_str(), 9);
    r.append(size.as_str());
    r.append("  ");
    let name = ui::lpad(app.name.as_str(), 32);
    r.append(name.as_str());
    r.append("  ");
    let id = match &app.bundle_id {
        Some(id) => ui::dim(color, id.as_str()),
        None => ui::dim(color, ""),
    };
    r.append(id.as_str());
    r
}

/// The list of apps, in lines. `installed` stands in listing order.
pub fn list_lines(color: bool, installed: &Vec<AppInfo>, limit: usize) -> (r: Vec<String>)
    ensures
        strings(r@) == list_text(color, installed@, limit as nat),
{
    let n: usize = installed.len();
    let shown: usize = if n < limit {
        n
    } else {
        limit
    };
    let ghost row = |a: AppInfo| app_row(color, a);
    let mut lines = report::no_lines();
    push_line(&mut lines, "".to_owned());
    let ghost head = strings(lines@);
    let mut i: usize = 0;
    assert(strings(lines@) =~= head + installed@.take(0).map_values(row));
    while i < shown
        invariant
            row == (|a: AppInfo| app_row(color, a)),
            i <= shown <= installed@.len(),
            strings(lines@) == head + installed@.take(i as int).map_values(row),
        decreases shown - i,
    {
        push_line(&mut lines, app_line(color, &installed[i]));
        assert(strings(lines@) =~= head + installed@.take(i + 1).map_values(row));
        i += 1;
    }
    if n > limit {
        let mut words = "… and ".to_owned();
        let rest = text::decimal((n - limit) as u64);
        words.append(rest.as_str());
        words.append(" more");
        let words = ui::dim(color, words.as_str());
        let mut line = "  ".to_owned();
        line.append(words.as_str());
        push_line(&mut lines, line);
    }
    push_line(&mut lines, "".to_owned());
    let mut sum = "  ".to_owned();
    let size = ui::bytes(total_of(installed));
    let size = ui::bold(color, size.as_str());
    sum.append(size.as_str());
    sum.append(" across ");
    let what = ui::count(n, "application", "applications");
    sum.append(what.as_str());
    push_line(&mut lines, sum);
    let mut next = "  ".to_owned();
    let words = ui::dim(color, "Next: `spotless uninstall <name>` to remove one with its leftovers.");
    next.append(words.as_str());
    push_line(&mut lines, next);
    push_line(&mut lines, "".to_owned());
    assert(strings(lines@) =~= list_text(color, installed@, limit as nat));
    lines
}

/// The first app of that name, whatever the case of ASCII letters.
pub open spec fn first_named(installed: Seq<AppView>, query: Seq<char>) -> Option<AppView>
    decreases installed.len(),
{
    if installed.len() == 0 {
        None
    } else if first_named(installed.drop_last(), query) is Some {
        first_named(installed.drop_last(), query)
    } else if ascii_lowercase_of(installed.last().name) == ascii_lowercase_of(query) {
        Some(installed.last())
    } else {
        None
    }
}

/// The names of the apps, one after the other.
pub open spec fn names_joined(apps: Seq<AppView>) -> Seq<char>
    decreases apps.len(),
{
    if apps.len() == 0 {
        Seq::empty()
    } else if apps.len() == 1 {
        apps[0].name
    } else {
        names_joined(apps.drop_last()) + ", "@ + apps.last().name
    }
}

/// The name holds what was asked for, whatever the case.
pub open spec fn name_holds(query: Seq<char>) -> spec_fn(AppView) -> bool {
    |a: AppView| occurs(lowercase_of(a.name), lowercase_of(query))
}

/// The app that is meant: the one of exactly that name, else the only one
/// whose name holds it. Where several do, that is an error and not a guess.
pub open spec fn meant(query: Seq<char>, installed: Seq<AppView>) -> Result<AppView, Seq<char>> {
    match first_named(installed, query) {
        Some(app) => Ok(app),
        None => {
            let matches = installed.filter(name_holds(query));
            if matches.len() == 0 {
                Err("no installed application matches `"@ + query + "`"@)
            } else if matches.len() == 1 {
                Ok(matches[0])
            } else {
                Err("`"@ + query + "` matches several apps: "@ + names_joined(matches))
            }
        },
    }
}

/// What was found, or why nothing was.
pub open spec fn told(r: Result<AppInfo, String>) -> Result<AppView, Seq<char>> {
    match r {
        Ok(app) => Ok(app@),
        Err(why) => Err(why@),
    }
}

proof fn lemma_first_named_stays(installed: Seq<AppView>, query: Seq<char>, n: int)
    requires
        0 <= n <= installed.len(),
        first_named(installed.take(n), query) is Some,
    ensures
        first_named(installed, query) == first_named(installed.take(n), query),
    decreases installed.len(),
{
    if n == installed.len() {
        assert(installed.take(n) =~= installed);
    } else {
        assert(installed.drop_last().take(n) =~= installed.take(n));
        lemma_first_named_stays(installed.drop_last(), query, n);
    }
}

fn join_names(apps: &Vec<AppInfo>) -> (r: String)
    ensures
        r@ == names_joined(apps_view(apps@)),
{
    let ghost all = apps_view(apps@);
    let mut r = String::new();
    let mut i: usize = 0;
    assert(r@ =~= names_joined(all.take(0)));
    while i < apps.len()
        invariant
            all == apps_view(apps@),
            i <= apps@.len(),
            r@ == names_joined(all.take(i as int)),
        decreases apps@.len() - i,
    {
        assert(all.take(i + 1).drop_last() =~= all.take(i as int));
        assert(all.take(i + 1).last().name == apps@[i as int].name@);
        if i == 0 {
            r = apps[i].name.clone();
        } else {
            r.append(", ");
            r.append(apps[i].name.as_str());
        }
        i += 1;
    }
    assert(all.take(i as int) =~= all);
    r
}

/// The app among those installed that is meant.
pub fn choose_app(query: &str, installed: &Vec<AppInfo>) -> (r: Result<AppInfo, String>)
    ensures
        told(r) == meant(query@, apps_view(installed@)),
{
    let ghost all = apps_view(installed@);
    let bare = text::to_ascii_lowercase(query);
    let mut i: usize = 0;
    assert(all.take(0).len() == 0);
    while i < installed.len()
        invariant
            all == apps_view(installed@),
            bare@ == ascii_lowercase_of(query@),
            i <= installed@.len(),
            first_named(all.take(i as int), query@) is None,
        decreases installed@.len() - i,
    {
        assert(all.take(i + 1).drop_last() =~= all.take(i as int));
        assert(all.take(i + 1).last() == installed@[i as int]@);
        let name = text::to_ascii_lowercase(installed[i].name.as_str());
        if text::same_text(name.as_str(), bare.as_str()) {
            proof {
                lemma_first_named_stays(all, query@, i + 1);
            }
            return Ok(installed[i].clone());
        }
        i += 1;
    }
    assert(all.take(i as int) =~= all);
    let needle = text::to_lowercase(query);
    let ghost holds = name_holds(query@);
    let mut matches: Vec<AppInfo> = Vec::new();
    let mut i: usize = 0;
    reveal(Seq::filter);
    assert(apps_view(matches@) =~= all.take(0).filter(holds));
    while i < installed.len()
        invariant
            all == apps_view(installed@),
            holds == name_holds(query@),
            needle@ == lowercase_of(query@),
            i <= installed@.len(),
            apps_view(matches@) == all.take(i as int).filter(holds),
        decreases installed@.len() - i,
    {
        let ghost before = apps_view(matches@);
        proof {
            reveal(Seq::filter);
            assert(all.take(i + 1).drop_last() =~= all.take(i as int));
            assert(all.take(i + 1).last() == installed@[i as int]@);
        }
        let name = text::to_lowercase(installed[i].name.as_str());
        if text::contains(name.as_str(), needle.as_str()) {
            matches.push(installed[i].clone());
            assert(apps_view(matches@) =~= before.push(installed@[i as int]@));
        }
        i += 1;
    }
    assert(all.take(i as int) =~= all);
    assert(apps_view(matches@).len() == matches@.len());
    if matches.len() == 0 {
        let mut why = "no installed application matches `".to_owned();
        why.append(query);
        why.append("`");
        Err(why)
    } else if matches.len() == 1 {
        assert(apps_view(matches@)[0] == matches@[0]@);
        Ok(matches[0].clone())
    } else {
        let mut why = "`".to_owned();
        why.append(query);
        why.append("` matches several apps: ");
        let names = join_names(&matches);
        why.append(names.as_str());
        Err(why)
    }
}

/// The first app at a path.
pub open spec fn first_at(apps: Seq<AppView>, path: Seq<char>) -> Option<AppView>
    decreases apps.len(),
{
    if apps.len() == 0 {
        None
    } else if first_at(apps.drop_last(), path) is Some {
        first_at(apps.drop_last(), path)
    } else if same_path(apps.last().path, path) {
        Some(apps.last())
    } else {
        None
    }
}

proof fn lemma_first_at_stays(apps: Seq<AppView>, path: Seq<char>, n: int)
    requires
        0 <= n <= apps.len(),
        first_at(apps.take(n), path) is Some,
    ensures
        first_at(apps, path) == first_at(apps.take(n), path),
    decreases apps.len(),
{
    if n == apps.len() {
        assert(apps.take(n) =~= apps);
    } else {
        assert(apps.drop_last().take(n) =~= apps.take(n));
        lemma_first_at_stays(apps.drop_last(), path, n);
    }
}

/// Where an app lies that is given by its path.
pub open spec fn folder_of(path: Seq<char>) -> Seq<char> {
    if has_parent(path) {
        parent_text(path)
    } else {
        path
    }
}

/// The app at a path that was typed, where there is one.
pub open spec fn literal_in(still: StillDisk, query: Seq<char>, beside: Seq<AppView>) -> Option<AppView> {
    if (still.stat)(query) is Some && app_bundle(query) {
        first_at(beside, query)
    } else {
        None
    }
}

/// What was found, where anything was.
pub open spec fn shown(app: Option<AppInfo>) -> Option<AppView> {
    match app {
        Some(app) => Some(app@),
        None => None,
    }
}

/// The app at a path that was typed, where there is one.
pub fn literal_app<D: Disk>(query: &str, disk: &D) -> (r: Option<AppInfo>)
    ensures
        !app_bundle(query@) ==> r is None,
        r is Some ==> same_path(r->0.path@, query@),
        forall|still: StillDisk| #[trigger]
            stands_still(disk, still) ==> exists|beside: Seq<AppView>| #[trigger]
                by_name(beside, apps_in(still, seq![folder_of(query@)])) && shown(r) == literal_in(
                    still,
                    query@,
                    beside,
                ),
{
    let path = FsPath::new(query);
    let mut dirs: Vec<FsPath> = Vec::new();
    match path.parent() {
        Some(parent) => {
            dirs.push(parent);
        },
        None => {
            dirs.push(path.clone());
        },
    }
    assert(texts(dirs@) =~= seq![folder_of(query@)]);
    let stat = disk.stat(&path);
    assert(call_ensures(D::stat, (disk, &path), stat));
    let beside = apps::list_apps(&dirs, disk);
    let ghost all = apps_view(beside@);
    assert forall|still: StillDisk| #[trigger] stands_still(disk, still) implies by_name(
        all,
        apps_in(still, seq![folder_of(query@)]),
    ) by {}
    if stat.is_none() || !apps::is_app_bundle(&path) {
        return None;
    }
    let mut i: usize = 0;
    assert(all.take(0).len() == 0);
    while i < beside.len()
        invariant
            path@ == query@,
            all == apps_view(beside@),
            i <= beside@.len(),
            first_at(all.take(i as int), query@) is None,
            app_bundle(query@),
            forall|still: StillDisk| #[trigger] stands_still(disk, still) ==> (still.stat)(query@) is Some,
            forall|still: StillDisk| #[trigger]
                stands_still(disk, still) ==> by_name(all, apps_in(still, seq![folder_of(query@)])),
        decreases beside@.len() - i,
    {
        assert(all.take(i + 1).drop_last() =~= all.take(i as int));
        assert(all.take(i + 1).last() == beside@[i as int]@);
        if beside[i].path.same(&path) {
            proof {
                lemma_first_at_stays(all, query@, i + 1);
            }
            let app = beside[i].clone();
            assert forall|still: StillDisk| #[trigger] stands_still(disk, still) implies exists|beside: Seq<AppView>|
                #[trigger] by_name(beside, apps_in(still, seq![folder_of(query@)])) && shown(Some(app)) == literal_in(
                    still,
                    query@,
                    beside,
                ) by {
                assert(by_name(all, apps_in(still, seq![folder_of(query@)])));
            }
            return Some(app);
        }
        i += 1;
    }
    assert(all.take(i as int) =~= all);
    assert forall|still: StillDisk| #[trigger] stands_still(disk, still) implies exists|beside: Seq<AppView>| #[trigger]
        by_name(beside, apps_in(still, seq![folder_of(query@)])) && shown(None) == literal_in(
            still,
            query@,
            beside,
        ) by {
        assert(by_name(all, apps_in(still, seq![folder_of(query@)])));
    }
    None
}

/// The one installed application that was typed. A path is taken literally;
/// anything else is matched against the names.
pub fn find<D: Disk>(query: &str, dirs: &Vec<FsPath>, disk: &D) -> (r: Result<AppInfo, String>)
    ensures
        forall|still: StillDisk| #[trigger]
            stands_still(disk, still) ==> exists|beside: Seq<AppView>, installed: Seq<AppView>| #[trigger]
                by_name(beside, apps_in(still, seq![folder_of(query@)])) && #[trigger] by_name(
                    installed,
                    apps_in(still, texts(dirs@)),
                ) && told(r) == match literal_in(still, query@, beside) {
                    Some(app) => Ok(app),
                    None => meant(query@, installed),
                },
{
    let literal = literal_app(query, disk);
    let installed = apps::list_apps(dirs, disk);
    let r = match literal {
        Some(app) => Ok(app),
        None => choose_app(query, &installed),
    };
    assert forall|still: StillDisk| #[trigger] stands_still(disk, still) implies exists|
        beside: Seq<AppView>,
        installed: Seq<AppView>,
    | #[trigger]
        by_name(beside, apps_in(still, seq![folder_of(query@)])) && #[trigger] by_name(
            installed,
            apps_in(still, texts(dirs@)),
        ) && told(r) == match literal_in(still, query@, beside) {
            Some(app) => Ok(app),
            None => meant(query@, installed),
        } by {
        let beside = choose|beside: Seq<AppView>| #[trigger]
            by_name(beside, apps_in(still, seq![folder_of(query@)])) && shown(literal) == literal_in(
                still,
                query@,
                beside,
            );
        assert(by_name(beside, apps_in(still, seq![folder_of(query@)])));
        assert(by_name(apps_view(installed@), apps_in(still, texts(dirs@))));
    }
    r
}

/// The line of one leftover.
pub open spec fn leftover_row(color: bool, leftover: Leftover) -> Seq<char> {
    "  "@ + right_aligned(shown_bytes(leftover.size_bytes as nat), 9) + "  "@ + left_aligned(
        in_cyan(color, leftover.kind@),
        18,
    ) + " "@ + truncated(leftover.path@, 46) + if leftover.requires_admin {
        in_yellow(color, " needs sudo"@)
    } else {
        Seq::empty()
    }
}

/// What an uninstall would remove.
pub open spec fn plan_text(color: bool, plan: UninstallPlan) -> Seq<Seq<char>> {
    let head = "  "@ + right_aligned(in_bold(color, shown_bytes(known_size(plan.app) as nat)), 9) + "  "@ + in_bold(
        color,
        plan.app.name@ + " (the app itself)"@,
    );
    seq![""@, head] + plan.leftovers@.map_values(|l: Leftover| leftover_row(color, l)) + seq![
        ""@,
        "  "@ + in_bold(color, shown_bytes(plan.total_bytes as nat)) + " across "@ + counted(
            plan.leftovers@.len() + 1,
            "item"@,
            "items"@,
        ),
        ""@,
    ]
}

fn leftover_line(color: bool, leftover: &Leftover) -> (r: String)
    ensures
        r@ == leftover_row(color, *leftover),
{
    let mut r = "  ".to_owned();
    let size = ui::bytes(leftover.size_bytes);
    let size = ui::rpad(size.as_str(), 9);
    r.append(size.as_str());
    r.append("  ");
    let kind = ui::cyan(color, leftover.kind.as_str());
    let kind = ui::lpad(kind.as_str(), 18);
    r.append(kind.as_str());
    r.append(" ");
    let path = ui::truncate_path(leftover.path.as_str(), 46);
    r.append(path.as_str());
    if leftover.requires_admin {
        let mark = ui::yellow(color, " needs sudo");
        r.append(mark.as_str());
    } else {
        assert(r@ + Seq::<char>::empty() =~= r@);
    }
    r
}

/// What an uninstall would remove, in lines.
pub fn plan_lines(color: bool, plan: &UninstallPlan) -> (r: Vec<String>)
    requires
        plan.leftovers@.len() < usize::MAX,
    ensures
        strings(r@) == plan_text(color, *plan),
{
    let mut head = "  ".to_owned();
    let size = ui::bytes(size_or_none(&plan.app));
    let size = ui::bold(color, size.as_str());
    let size = ui::rpad(size.as_str(), 9);
    head.append(size.as_str());
    head.append("  ");
    let mut name = plan.app.name.clone();
    name.append(" (the app itself)");
    let name = ui::bold(color, name.as_str());
    head.append(name.as_str());
    let mut lines = report::no_lines();
    push_line(&mut lines, "".to_owned());
    push_line(&mut lines, head);
    let ghost first = strings(lines@);
    let ghost row = |l: Leftover| leftover_row(color, l);
    let mut i: usize = 0;
    assert(strings(lines@) =~= first + plan.leftovers@.take(0).map_values(row));
    while i < plan.leftovers.len()
        invariant
            row == (|l: Leftover| leftover_row(color, l)),
            i <= plan.leftovers@.len(),
            strings(lines@) == first + plan.leftovers@.take(i as int).map_values(row),
        decreases plan.leftovers@.len() - i,
    {
        push_line(&mut lines, leftover_line(color, &plan.leftovers[i]));
        assert(strings(lines@) =~= first + plan.leftovers@.take(i + 1).map_values(row));
        i += 1;
    }
    push_line(&mut lines, "".to_owned());
    let mut sum = "  ".to_owned();
    let size = ui::bytes(plan.total_bytes);
    let size = ui::bold(color, size.as_str());
    sum.append(size.as_str());
    sum.append(" across ");
    let what = ui::count(plan.leftovers.len() + 1, "item", "items");
    sum.append(what.as_str());
    push_line(&mut lines, sum);
    push_line(&mut lines, "".to_owned());
    assert(strings(lines@) =~= plan_text(color, *plan));
    lines
}

/// The leftovers that only an administrator can remove.
pub open spec fn admin_only(leftovers: Seq<Leftover>) -> nat
    decreases leftovers.len(),
{
    if leftovers.len() == 0 {
        0
    } else {
        admin_only(leftovers.drop_last()) + if leftovers.last().requires_admin {
            1nat
        } else {
            0nat
        }
    }
}

/// What an uninstall came to, and what it left in place.
pub open spec fn result_text(color: bool, report: CleanReport, leftovers: Seq<Leftover>) -> Seq<Seq<char>> {
    outcome(color, report, "item"@, "items"@, false, true) + if admin_only(leftovers) > 0 {
        seq![
            "  "@ + in_yellow(
                color,
                counted(admin_only(leftovers), "root-owned leftover"@, "root-owned leftovers"@)
                    + " left in place — remove them with sudo if you want the space"@,
            ),
        ]
    } else {
        Seq::empty()
    }
}

/// What an uninstall came to, in lines.
pub fn result_lines(color: bool, report: &CleanReport, plan: &UninstallPlan) -> (r: Vec<String>)
    ensures
        strings(r@) == result_text(color, *report, plan.leftovers@),
{
    let mut lines = report::outcome_lines(color, report, "item", "items", false, true);
    let mut admin: usize = 0;
    let mut i: usize = 0;
    assert(plan.leftovers@.take(0).len() == 0);
    while i < plan.leftovers.len()
        invariant
            i <= plan.leftovers@.len(),
            admin <= i,
            admin == admin_only(plan.leftovers@.take(i as int)),
        decreases plan.leftovers@.len() - i,
    {
        assert(plan.leftovers@.take(i + 1).drop_last() =~= plan.leftovers@.take(i as int));
        if plan.leftovers[i].requires_admin {
            admin += 1;
        }
        i += 1;
    }
    assert(plan.leftovers@.take(i as int) =~= plan.leftovers@);
    if admin > 0 {
        let mut words = ui::count(admin, "root-owned leftover", "root-owned leftovers");
        words.append(" left in place — remove them with sudo if you want the space");
        let words = ui::yellow(color, words.as_str());
        let mut line = "  ".to_owned();
        line.append(words.as_str());
        push_line(&mut lines, line);
    }
    assert(strings(lines@) =~= result_text(color, *report, plan.leftovers@));
    lines
}

/// The items of the leftovers that can be removed without an administrator.
pub open spec fn leftover_items(leftovers: Seq<Leftover>, dirs: Seq<bool>) -> Seq<ItemView>
    decreases leftovers.len(),
{
    if leftovers.len() == 0 {
        Seq::empty()
    } else {
        let before = leftover_items(leftovers.drop_last(), dirs);
        let l = leftovers.last();
        if l.requires_admin {
            before
        } else {
            before.push(
                ItemView {
                    target_id: "uninstall"@,
                    path: l.path@,
                    size: l.size_bytes as nat,
                    is_dir: dirs[leftovers.len() - 1],
                },
            )
        }
    }
}

/// The items of an uninstall: the bundle, where it is one, then the leftovers.
pub open spec fn uninstall_items(plan: UninstallPlan, dirs: Seq<bool>) -> Seq<ItemView> {
    (if app_bundle(plan.app.path@) {
        seq![
            ItemView {
                target_id: "uninstall"@,
                path: plan.app.path@,
                size: known_size(plan.app) as nat,
                is_dir: true,
            },
        ]
    } else {
        Seq::empty()
    }) + leftover_items(plan.leftovers@, dirs)
}

/// The bytes of a plan, added up.
pub open spec fn plan_size(plan: UninstallPlan) -> nat {
    known_size(plan.app) as nat + leftovers_bytes(plan.leftovers@)
}

/// The bytes of the leftovers, added up.
pub open spec fn leftovers_bytes(leftovers: Seq<Leftover>) -> nat
    decreases leftovers.len(),
{
    if leftovers.len() == 0 {
        0
    } else {
        leftovers_bytes(leftovers.drop_last()) + leftovers.last().size_bytes as nat
    }
}

/// `dirs` can have come from asking of each leftover whether it is a
/// directory.
pub open spec fn asked_dirs<D: Disk>(disk: &D, leftovers: Seq<Leftover>, dirs: Seq<bool>) -> bool {
    &&& dirs.len() == leftovers.len()
    &&& forall|still: StillDisk, i: int|
        #![trigger stands_still(disk, still), dirs[i]]
        stands_still(disk, still) && 0 <= i < leftovers.len() && !leftovers[i].requires_admin ==> dirs[i] == is_dir_in(
            still,
            leftovers[i].path@,
        )
}

proof fn lemma_leftover_items_prefix(leftovers: Seq<Leftover>, a: Seq<bool>, b: Seq<bool>)
    requires
        forall|i: int| 0 <= i < leftovers.len() ==> a[i] == b[i],
    ensures
        leftover_items(leftovers, a) == leftover_items(leftovers, b),
    decreases leftovers.len(),
{
    if leftovers.len() > 0 {
        lemma_leftover_items_prefix(leftovers.drop_last(), a, b);
    }
}

/// The items of an uninstall. Leftovers that only an administrator can remove
/// are left out.
pub fn items_to_remove<D: Disk>(plan: &UninstallPlan, disk: &D) -> (r: Vec<ScanItem>)
    ensures
        exists|dirs: Seq<bool>| #[trigger]
            asked_dirs(disk, plan.leftovers@, dirs) && items_view(r@) == uninstall_items(*plan, dirs),
        items_size(r@) <= plan_size(*plan),
{
    let mut r: Vec<ScanItem> = Vec::new();
    if apps::is_app_bundle(&plan.app.path) {
        let item = ScanItem {
            target_id: "uninstall".to_owned(),
            path: plan.app.path.clone(),
            size_bytes: size_or_none(&plan.app),
            is_dir: true,
        };
        r.push(item);
        assert(r@.drop_last() =~= Seq::<ScanItem>::empty());
        assert(items_size(r@.drop_last()) == 0);
    }
    let ghost start = items_view(r@);
    let ghost mut dirs: Seq<bool> = Seq::empty();
    let mut i: usize = 0;
    proof {
        assert(plan.leftovers@.take(0).len() == 0);
        assert(start =~= start + leftover_items(plan.leftovers@.take(0), dirs));
        assert(start =~= if app_bundle(plan.app.path@) {
            seq![
                ItemView {
                    target_id: "uninstall"@,
                    path: plan.app.path@,
                    size: known_size(plan.app) as nat,
                    is_dir: true,
                },
            ]
        } else {
            Seq::empty()
        });
    }
    while i < plan.leftovers.len()
        invariant
            i <= plan.leftovers@.len(),
            dirs.len() == i,
            forall|still: StillDisk, k: int|
                #![trigger stands_still(disk, still), dirs[k]]
                stands_still(disk, still) && 0 <= k < i && !plan.leftovers@[k].requires_admin ==> dirs[k] == is_dir_in(
                    still,
                    plan.leftovers@[k].path@,
                ),
            items_view(r@) == start + leftover_items(plan.leftovers@.take(i as int), dirs),
            items_size(r@) <= known_size(plan.app) + leftovers_bytes(plan.leftovers@.take(i as int)),
        decreases plan.leftovers@.len() - i,
    {
        let ghost before = r@;
        let ghost had = dirs;
        assert(plan.leftovers@.take(i + 1).drop_last() =~= plan.leftovers@.take(i as int));
        let l: &Leftover = &plan.leftovers[i];
        if l.requires_admin {
            proof {
                dirs = dirs.push(false);
                lemma_leftover_items_prefix(plan.leftovers@.take(i as int), had, dirs);
            }
        } else {
            let stat = disk.stat(&l.path);
            assert(call_ensures(D::stat, (disk, &l.path), stat));
            let is_dir = match stat {
                Some(stat) => stat.is_dir,
                None => false,
            };
            proof {
                dirs = dirs.push(is_dir);
                lemma_leftover_items_prefix(plan.leftovers@.take(i as int), had, dirs);
            }
            let item = ScanItem {
                target_id: "uninstall".to_owned(),
                path: l.path.clone(),
                size_bytes: l.size_bytes,
                is_dir,
            };
            r.push(item);
            assert(r@.drop_last() =~= before);
            assert(items_view(r@) =~= items_view(before).push(item@));
            assert(items_view(r@) =~= start + leftover_items(plan.leftovers@.take(i + 1), dirs));
        }
        i += 1;
    }
    assert(plan.leftovers@.take(i as int) =~= plan.leftovers@);
    assert(asked_dirs(disk, plan.leftovers@, dirs));
    r
}

/// The path is the bundle, or a leftover that takes no administrator.
pub open spec fn may_uninstall(plan: UninstallPlan, path: Seq<char>) -> bool {
    ||| app_bundle(plan.app.path@) && path == plan.app.path@
    ||| exists|k: int|
        0 <= k < plan.leftovers@.len() && !(#[trigger] plan.leftovers@[k]).requires_admin && plan.leftovers@[k].path@
            == path
}

/// Removes the bundle and its leftovers, except those that only an
/// administrator can remove. Nothing else is handed to the backend.
pub fn remove<D: Disk, B: RemovalBackend, C: Fn(&FsPath) -> Option<FsPath>>(
    plan: &UninstallPlan,
    home: Option<&FsPath>,
    disk: &D,
    canonicalize: &C,
    backend: &B,
) -> (r: CleanReport)
    requires
        forall|p: &FsPath| call_requires(*canonicalize, (p,)),
        plan_size(*plan) <= u64::MAX,
        forall|p: Seq<char>| #[trigger] may_uninstall(*plan, p) ==> backend.accepts(p),
    ensures
        !r.dry_run,
        exists|items: Seq<ScanItem>, dirs: Seq<bool>, bare: SafetyGuard, used: SafetyGuard, fates: Seq<Fate>|
            {
                &&& #[trigger] asked_dirs(disk, plan.leftovers@, dirs)
                &&& items_view(items) == uninstall_items(*plan, dirs)
                &&& #[trigger] bare.built_from(*canonicalize, uninstall_deny(), Seq::empty())
                &&& approves_also(used, bare, item_paths(items), *canonicalize)
                &&& fates.len() == items.len()
                &&& #[trigger] possible_fates(items, &used, opt_view(home), *canonicalize, backend, false, fates)
                &&& reports(r, items, fates)
            },
{
    let items = items_to_remove(plan, disk);
    proof {
        let dirs = choose|dirs: Seq<bool>| #[trigger]
            asked_dirs(disk, plan.leftovers@, dirs) && items_view(items@) == uninstall_items(*plan, dirs);
        let all = uninstall_items(*plan, dirs);
        let first = all.len() - leftover_items(plan.leftovers@, dirs).len();
        assert forall|i: int| 0 <= i < items@.len() implies backend.accepts((#[trigger] items@[i]).path@) by {
            assert(all[i] == items@[i]@);
            if i >= first {
                assert(all[i] == leftover_items(plan.leftovers@, dirs)[i - first]);
                root_owned_leftovers_stay(plan.leftovers@, dirs, i - first);
            }
            assert(may_uninstall(*plan, items@[i].path@));
        }
    }
    let guard = SafetyGuard::for_uninstall(canonicalize);
    cleaner::clean_approved(&items, guard, home, canonicalize, backend, false)
}

/// No leftover that only an administrator can remove is among the items.
pub proof fn root_owned_leftovers_stay(leftovers: Seq<Leftover>, dirs: Seq<bool>, i: int)
    requires
        0 <= i < leftover_items(leftovers, dirs).len(),
    ensures
        exists|k: int|
            0 <= k < leftovers.len() && !(#[trigger] leftovers[k]).requires_admin && leftovers[k].path@ == leftover_items(
                leftovers,
                dirs,
            )[i].path,
    decreases leftovers.len(),
{
    if leftovers.len() > 0 {
        let front = leftovers.drop_last();
        if i < leftover_items(front, dirs).len() {
            root_owned_leftovers_stay(front, dirs, i);
            let k = choose|k: int|
                0 <= k < front.len() && !(#[trigger] front[k]).requires_admin && front[k].path@ == leftover_items(
                    front,
                    dirs,
                )[i].path;
            assert(leftovers[k] == front[k]);
        } else {
            assert(!leftovers[leftovers.len() - 1].requires_admin);
        }
    }
}

/// The question before an uninstall.
pub fn question(color: bool, plan: &UninstallPlan) -> (r: String)
    ensures
        r@ == "Move "@ + in_bold(color, plan.app.name@) + " and its leftovers ("@ + shown_bytes(
            plan.total_bytes as nat,
        ) + ") to the Trash?"@,
{
    let mut r = "Move ".to_owned();
    let name = ui::bold(color, plan.app.name.as_str());
    r.append(name.as_str());
    r.append(" and its leftovers (");
    let size = ui::bytes(plan.total_bytes);
    r.append(size.as_str());
    r.append(") to the Trash?");
    r
}

proof fn lemma_first_named(installed: Seq<AppView>, query: Seq<char>)
    ensures
        forall|i: int|
            0 <= i < installed.len() && ascii_lowercase_of((#[trigger] installed[i]).name) == ascii_lowercase_of(query)
                ==> first_named(installed, query) is Some,
        first_named(installed, query) matches Some(app) ==> installed.contains(app) && ascii_lowercase_of(app.name)
            == ascii_lowercase_of(query),
    decreases installed.len(),
{
    if installed.len() > 0 {
        let front = installed.drop_last();
        lemma_first_named(front, query);
        assert forall|i: int|
            0 <= i < installed.len() && ascii_lowercase_of((#[trigger] installed[i]).name) == ascii_lowercase_of(query) implies first_named(
            installed,
            query,
        ) is Some by {
            if i < front.len() {
                assert(front[i] == installed[i]);
            }
        }
        if let Some(app) = first_named(front, query) {
            let i = choose|i: int| 0 <= i < front.len() && front[i] == app;
            assert(installed[i] == app);
        }
        if first_named(installed, query) is Some && first_named(front, query) is None {
            assert(installed[installed.len() - 1] == installed.last());
        }
    }
}

/// What a query means. An app of exactly that name, whatever the case, is
/// meant, whichever others hold it; without one, the only app whose name
/// holds it; and where there is none or more than one, nothing is.
pub proof fn what_a_query_means(query: Seq<char>, installed: Seq<AppView>, i: int, j: int)
    ensures
        0 <= i < installed.len() && ascii_lowercase_of(installed[i].name) == ascii_lowercase_of(query) ==> meant(
            query,
            installed,
        ) is Ok && ascii_lowercase_of(meant(query, installed)->Ok_0.name) == ascii_lowercase_of(query),
        meant(query, installed) is Ok ==> installed.contains(meant(query, installed)->Ok_0) && (ascii_lowercase_of(
            meant(query, installed)->Ok_0.name,
        ) == ascii_lowercase_of(query) || occurs(
            lowercase_of(meant(query, installed)->Ok_0.name),
            lowercase_of(query),
        )),
        (forall|k: int|
            0 <= k < installed.len() ==> !occurs(lowercase_of((#[trigger] installed[k]).name), lowercase_of(query))
                && ascii_lowercase_of(installed[k].name) != ascii_lowercase_of(query)) ==> meant(query, installed) == Err::<
            AppView,
            Seq<char>,
        >("no installed application matches `"@ + query + "`"@),
        (forall|k: int|
            0 <= k < installed.len() ==> ascii_lowercase_of((#[trigger] installed[k]).name) != ascii_lowercase_of(query))
            && 0 <= i < j < installed.len() && occurs(lowercase_of(installed[i].name), lowercase_of(query)) && occurs(
            lowercase_of(installed[j].name),
            lowercase_of(query),
        ) ==> meant(query, installed) is Err,
        0 <= i < installed.len() && occurs(lowercase_of(installed[i].name), lowercase_of(query)) && (forall|k: int|
            0 <= k < installed.len() ==> ascii_lowercase_of((#[trigger] installed[k]).name) != ascii_lowercase_of(query)
                && (k != i ==> !occurs(lowercase_of(installed[k].name), lowercase_of(query)))) ==> meant(query, installed)
            == Ok::<AppView, Seq<char>>(installed[i]),
{
    lemma_first_named(installed, query);
    let holds = name_holds(query);
    let some = installed.filter(holds);
    if first_named(installed, query) is Some {
        let app = first_named(installed, query)->0;
        let k = choose|k: int| 0 <= k < installed.len() && installed[k] == app;
        assert(ascii_lowercase_of(installed[k].name) == ascii_lowercase_of(query));
    }
    assert forall|a: int| 0 <= a < some.len() implies installed.contains(#[trigger] some[a]) && occurs(
        lowercase_of(some[a].name),
        lowercase_of(query),
    ) by {
        installed.lemma_filter_pred(holds, a);
        assert(some.contains(some[a]));
        installed.lemma_filter_contains_rev(holds, some[a]);
    }
    if forall|k: int|
        0 <= k < installed.len() ==> !occurs(lowercase_of((#[trigger] installed[k]).name), lowercase_of(query))
            && ascii_lowercase_of(installed[k].name) != ascii_lowercase_of(query) {
        if some.len() > 0 {
            assert(installed.contains(some[0]));
            let k = choose|k: int| 0 <= k < installed.len() && installed[k] == some[0];
            assert(!occurs(lowercase_of(installed[k].name), lowercase_of(query)));
        }
    }
    if 0 <= i < j < installed.len() && occurs(lowercase_of(installed[i].name), lowercase_of(query)) && occurs(
        lowercase_of(installed[j].name),
        lowercase_of(query),
    ) {
        lemma_two_pass(installed, holds, i, j);
    }
    if 0 <= i < installed.len() && occurs(lowercase_of(installed[i].name), lowercase_of(query)) && (forall|k: int|
        0 <= k < installed.len() ==> ascii_lowercase_of((#[trigger] installed[k]).name) != ascii_lowercase_of(query) && (k
            != i ==> !occurs(lowercase_of(installed[k].name), lowercase_of(query)))) {
        lemma_one_passes(installed, holds, i);
    }
}

proof fn lemma_two_pass(v: Seq<AppView>, keep: spec_fn(AppView) -> bool, i: int, j: int)
    requires
        0 <= i < j < v.len(),
        keep(v[i]),
        keep(v[j]),
    ensures
        v.filter(keep).len() >= 2,
    decreases v.len(),
{
    reveal(Seq::filter);
    let front = v.drop_last();
    if j < front.len() {
        assert(front[i] == v[i] && front[j] == v[j]);
        lemma_two_pass(front, keep, i, j);
    } else {
        front.lemma_filter_contains(keep, i);
        assert(front.filter(keep).len() >= 1);
    }
}

proof fn lemma_one_passes(v: Seq<AppView>, keep: spec_fn(AppView) -> bool, i: int)
    requires
        0 <= i < v.len(),
        keep(v[i]),
        forall|k: int| 0 <= k < v.len() && k != i ==> !keep(#[trigger] v[k]),
    ensures
        v.filter(keep) == seq![v[i]],
    decreases v.len(),
{
    reveal(Seq::filter);
    let front = v.drop_last();
    assert(forall|k: int| 0 <= k < front.len() ==> #[trigger] front[k] == v[k]);
    if i < front.len() {
        lemma_one_passes(front, keep, i);
        assert(!keep(v[v.len() - 1]));
    } else {
        lemma_none_pass(front, keep);
        assert(v.filter(keep) =~= seq![v[i]]);
    }
}

proof fn lemma_none_pass(v: Seq<AppView>, keep: spec_fn(AppView) -> bool)
    requires
        forall|k: int| 0 <= k < v.len() ==> !keep(#[trigger] v[k]),
    ensures
        v.filter(keep).len() == 0,
    decreases v.len(),
{
    reveal(Seq::filter);
    if v.len() > 0 {
        let front = v.drop_last();
        assert(forall|k: int| 0 <= k < front.len() ==> #[trigger] front[k] == v[k]);
        lemma_none_pass(front, keep);
        assert(!keep(v[v.len() - 1]));
    }
}

/// Uninstalling takes the app itself, where it is a bundle, and every leftover
/// that does not need root, each with its size and its nature; and no more
/// things than these.
pub proof fn what_uninstalling_takes(plan: UninstallPlan, dirs: Seq<bool>, k: int)
    ensures
        app_bundle(plan.app.path@) ==> uninstall_items(plan, dirs)[0] == (ItemView {
            target_id: "uninstall"@,
            path: plan.app.path@,
            size: known_size(plan.app) as nat,
            is_dir: true,
        }),
        0 <= k < plan.leftovers@.len() && !plan.leftovers@[k].requires_admin ==> uninstall_items(plan, dirs).contains(
            ItemView {
                target_id: "uninstall"@,
                path: plan.leftovers@[k].path@,
                size: plan.leftovers@[k].size_bytes as nat,
                is_dir: dirs[k],
            },
        ),
        uninstall_items(plan, dirs).len() + admin_only(plan.leftovers@) == plan.leftovers@.len() + (if app_bundle(
            plan.app.path@,
        ) {
            1nat
        } else {
            0nat
        }),
{
    let leftovers = plan.leftovers@;
    let rest = leftover_items(leftovers, dirs);
    let all = uninstall_items(plan, dirs);
    lemma_leftover_items(leftovers, dirs);
    let n = all.len() - rest.len();
    assert(0 <= n <= 1);
    assert(forall|i: int| 0 <= i < rest.len() ==> #[trigger] rest[i] == all[n + i]);
    if 0 <= k < leftovers.len() && !leftovers[k].requires_admin {
        let item = ItemView {
            target_id: "uninstall"@,
            path: leftovers[k].path@,
            size: leftovers[k].size_bytes as nat,
            is_dir: dirs[k],
        };
        assert(rest.contains(item));
        let i = choose|i: int| 0 <= i < rest.len() && rest[i] == item;
        assert(all[n + i] == item);
    }
}

proof fn lemma_leftover_items(leftovers: Seq<Leftover>, dirs: Seq<bool>)
    ensures
        forall|k: int|
            0 <= k < leftovers.len() && !(#[trigger] leftovers[k]).requires_admin ==> leftover_items(leftovers, dirs).contains(
                ItemView {
                    target_id: "uninstall"@,
                    path: leftovers[k].path@,
                    size: leftovers[k].size_bytes as nat,
                    is_dir: dirs[k],
                },
            ),
        leftover_items(leftovers, dirs).len() + admin_only(leftovers) == leftovers.len(),
    decreases leftovers.len(),
{
    if leftovers.len() > 0 {
        let front = leftovers.drop_last();
        lemma_leftover_items(front, dirs);
        let (before, all) = (leftover_items(front, dirs), leftover_items(leftovers, dirs));
        assert forall|k: int| 0 <= k < leftovers.len() && !(#[trigger] leftovers[k]).requires_admin implies all.contains(
            ItemView {
                target_id: "uninstall"@,
                path: leftovers[k].path@,
                size: leftovers[k].size_bytes as nat,
                is_dir: dirs[k],
            },
        ) by {
            let item = ItemView {
                target_id: "uninstall"@,
                path: leftovers[k].path@,
                size: leftovers[k].size_bytes as nat,
                is_dir: dirs[k],
            };
            if k < front.len() {
                assert(front[k] == leftovers[k]);
                let i = choose|i: int| 0 <= i < before.len() && before[i] == item;
                assert(all[i] == item);
            } else {
                assert(all[all.len() - 1] == item);
            }
        }
    }
}

/// Sizes add up, one by one; what needs root is counted one by one.
pub proof fn sizes_of_apps_add_up(apps: Seq<AppInfo>, app: AppInfo, leftovers: Seq<Leftover>, l: Leftover)
    ensures
        known_sizes(apps.push(app)) == known_sizes(apps) + (match app.size_bytes {
            Some(n) => n as nat,
            None => 0,
        }),
        known_sizes(Seq::empty()) == 0,
        leftovers_bytes(leftovers.push(l)) == leftovers_bytes(leftovers) + l.size_bytes,
        leftovers_bytes(Seq::empty()) == 0,
        admin_only(leftovers.push(l)) == admin_only(leftovers) + (if l.requires_admin {
            1nat
        } else {
            0nat
        }),
        admin_only(Seq::empty()) == 0,
{
    assert(apps.push(app).drop_last() =~= apps);
    assert(leftovers.push(l).drop_last() =~= leftovers);
}

/// Without the wish to go by name, apps are listed the largest first, each of
/// them; with it, as they came.
pub proof fn apps_are_listed_by_size(apps: Seq<AppInfo>, i: int, a: int, b: int)
    requires
        apps.len() <= usize::MAX,
    ensures
        listing_order(apps, true) == apps,
        listing_order(apps, false).len() == apps.len(),
        0 <= i < apps.len() ==> listing_order(apps, false).contains(apps[i]),
        0 <= a < b < apps.len() ==> known_size(listing_order(apps, false)[a]) >= known_size(listing_order(apps, false)[b]),
{
    let keys = apps.map_values(|a: AppInfo| known_size(a));
    let by = largest_order(keys);
    order::keys_can_be_ordered(keys);
    let all = listing_order(apps, false);
    if 0 <= i < apps.len() {
        order::lemma_ordered_complete(by, keys.len() as int, order::larger_first(keys), i);
        let p = choose|p: int| 0 <= p < by.len() && #[trigger] by[p] == i;
        assert(all[p] == apps[i]);
    }
    if 0 <= a < b < apps.len() {
        assert(order::larger_first(keys)(by[a] as int, by[b] as int));
        assert(all[a] == apps[by[a] as int] && all[b] == apps[by[b] as int]);
        assert(keys[by[a] as int] == known_size(all[a]) && keys[by[b] as int] == known_size(all[b]));
    }
}

/// An app has the size that was measured last at its place, and none where
/// none was.
pub proof fn the_last_measure_counts(sizes: Seq<(FsPath, u64)>, place: FsPath, n: u64, path: Seq<char>)
    ensures
        same_path(place@, path) ==> size_at(sizes.push((place, n)), path) == Some(n),
        !same_path(place@, path) ==> size_at(sizes.push((place, n)), path) == size_at(sizes, path),
        size_at(Seq::empty(), path) is None,
{
    assert(sizes.push((place, n)).drop_last() =~= sizes);
}

/// A query that names a bundle means the app that stands there, if there is
/// one; a query that names nothing on the disk, or no bundle, means none by
/// its place.
pub proof fn a_bundle_may_be_named_by_its_place(still: StillDisk, query: Seq<char>, beside: Seq<AppView>, i: int)
    ensures
        (still.stat)(query) is Some && app_bundle(query) && 0 <= i < beside.len() && same_path(beside[i].path, query)
            ==> literal_in(still, query, beside) is Some,
        literal_in(still, query, beside) is Some ==> same_path(literal_in(still, query, beside)->0.path, query)
            && beside.contains(literal_in(still, query, beside)->0) && (still.stat)(query) is Some && app_bundle(query),
{
    lemma_first_at(beside, query);
    if 0 <= i < beside.len() && same_path(beside[i].path, query) {
        assert(first_at(beside, query) is Some);
    }
}

proof fn lemma_first_at(apps: Seq<AppView>, path: Seq<char>)
    ensures
        forall|i: int|
            0 <= i < apps.len() && same_path((#[trigger] apps[i]).path, path) ==> first_at(apps, path) is Some,
        first_at(apps, path) is Some ==> same_path(first_at(apps, path)->0.path, path) && apps.contains(
            first_at(apps, path)->0,
        ),
    decreases apps.len(),
{
    if apps.len() > 0 {
        let front = apps.drop_last();
        lemma_first_at(front, path);
        assert forall|i: int| 0 <= i < apps.len() && same_path((#[trigger] apps[i]).path, path) implies first_at(
            apps,
            path,
        ) is Some by {
            if i < front.len() {
                assert(front[i] == apps[i]);
            }
        }
        if first_at(front, path) is Some {
            let i = choose|i: int| 0 <= i < front.len() && front[i] == first_at(front, path)->0;
            assert(apps[i] == front[i]);
        } else if first_at(apps, path) is Some {
            assert(apps[apps.len() - 1] == apps.last());
        }
    }
}

/// A list shows at most so many apps, each by a row, and where there are more
/// a line says so.
pub proof fn how_many_apps_are_shown(color: bool, apps: Seq<AppInfo>, limit: nat)
    ensures
        apps.len() <= limit ==> list_text(color, apps, limit).len() == apps.len() + 5,
        apps.len() > limit ==> list_text(color, apps, limit).len() == limit + 6 && list_text(color, apps, limit)[(limit
            + 1) as int] == "  "@ + in_dim(color, "… and "@ + digits((apps.len() - limit) as nat) + " more"@),
        forall|i: int|
            0 <= i < apps.len() && i < limit ==> list_text(color, apps, limit)[i + 1] == app_row(
                color,
                #[trigger] apps[i],
            ),
{
}

} // verus!
