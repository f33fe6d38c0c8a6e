//! Keeping one copy of each group of duplicates, and removing the rest.

use vstd::prelude::*;

use crate::cleaner::{self, approves_also, item_paths, possible_fates, reports, Fate, RemovalBackend};
use crate::dupes::{DupeFile, DupeGroup};
use crate::model::{capped, items_size, CleanReport, ScanItem};
use crate::order::{lemma_lex_less_total, lemma_lex_less_trans};
use crate::paths::{opt_view, same_path, shown_below, under, FsPath};
use crate::report::{self, push_line, push_lines};
use crate::safety::{system_deny, SafetyGuard};
use crate::scanner::{items_view, ItemView};
use crate::text::{self, bytes_in, digits, lex_less, strings};
use crate::ui::{self, counted, in_bold, in_dim, in_green, shown_bytes, truncated};

verus! {

/// `a` is a better path to keep than `b`: the shorter, and of two equally long
/// ones the first in order.
pub open spec fn preferred(a: Seq<char>, b: Seq<char>) -> bool {
    bytes_in(a) < bytes_in(b) || (bytes_in(a) == bytes_in(b) && lex_less(a, b))
}

/// The file at `i` is the one to keep: the first of which no other is better.
pub open spec fn is_keeper(files: Seq<DupeFile>, i: int) -> bool {
    &&& 0 <= i < files.len()
    &&& forall|j: int| 0 <= j < files.len() ==> !preferred((#[trigger] files[j]).path@, files[i].path@)
    &&& forall|j: int| 0 <= j < i ==> preferred(files[i].path@, (#[trigger] files[j]).path@)
}

/// Whether `a` is a better path to keep than `b`.
fn is_preferred(a: &FsPath, b: &FsPath) -> (r: bool)
    ensures
        r == preferred(a@, b@),
{
    let x: usize = text::byte_len(a.as_str());
    let y: usize = text::byte_len(b.as_str());
    x < y || (x == y && text::less(a.as_str(), b.as_str()))
}

proof fn lemma_preferred_trans(a: Seq<char>, b: Seq<char>, c: Seq<char>)
    requires
        preferred(a, b),
        preferred(b, c),
    ensures
        preferred(a, c),
{
    if lex_less(a, b) && lex_less(b, c) {
        lemma_lex_less_trans(a, b, c);
    }
}

proof fn lemma_preferred_total(a: Seq<char>, b: Seq<char>)
    ensures
        a != b ==> (preferred(a, b) <==> !preferred(b, a)),
        !preferred(a, a),
{
    lemma_lex_less_total(a, b);
}

/// The position of the copy that is kept.
fn keeper_at(files: &Vec<DupeFile>) -> (r: usize)
    requires
        files@.len() > 0,
    ensures
        is_keeper(files@, r as int),
{
    let mut best: usize = 0;
    let mut i: usize = 1;
    proof {
        lemma_preferred_total(files@[0].path@, files@[0].path@);
    }
    while i < files.len()
        invariant
            best < i <= files@.len(),
            forall|j: int| 0 <= j < i ==> !preferred((#[trigger] files@[j]).path@, files@[best as int].path@),
            forall|j: int| 0 <= j < best ==> preferred(files@[best as int].path@, (#[trigger] files@[j]).path@),
        decreases files@.len() - i,
    {
        if is_preferred(&files[i].path, &files[best].path) {
            proof {
                let a = files@[i as int].path@;
                let b = files@[best as int].path@;
                lemma_preferred_total(a, a);
                assert forall|j: int| 0 <= j < i + 1 implies !preferred((#[trigger] files@[j]).path@, a) by {
                    if j < i && preferred(files@[j].path@, a) {
                        lemma_preferred_trans(files@[j].path@, a, b);
                    }
                }
                assert forall|j: int| 0 <= j < i implies preferred(a, (#[trigger] files@[j]).path@) by {
                    lemma_preferred_total(files@[j].path@, b);
                    if files@[j].path@ != b {
                        lemma_preferred_trans(a, b, files@[j].path@);
                    }
                }
            }
            best = i;
        }
        i += 1;
    }
    best
}

/// The copy that is kept: the shortest path, ties broken alphabetically, so
/// that two runs over the same folder keep the same file.
pub fn keeper(group: &DupeGroup) -> (r: FsPath)
    ensures
        group.files@.len() == 0 ==> r@.len() == 0,
        group.files@.len() > 0 ==> exists|i: int| #[trigger] is_keeper(group.files@, i) && r == group.files@[i].path,
{
    if group.files.len() == 0 {
        return FsPath { text: String::new() };
    }
    let at: usize = keeper_at(&group.files);
    assert(is_keeper(group.files@, at as int));
    group.files[at].path.clone()
}

/// The path that is kept of a list of files.
pub open spec fn kept_path(files: Seq<DupeFile>) -> Seq<char> {
    if files.len() == 0 {
        Seq::empty()
    } else {
        files[choose|i: int| #[trigger] is_keeper(files, i)].path@
    }
}

proof fn lemma_keeper_unique(files: Seq<DupeFile>, i: int, j: int)
    requires
        is_keeper(files, i),
        is_keeper(files, j),
    ensures
        i == j,
{
    if i < j {
        assert(preferred(files[j].path@, files[i].path@));
    }
    if j < i {
        assert(preferred(files[i].path@, files[j].path@));
    }
}

/// The files that are not kept, as path and size.
pub open spec fn spared(files: Seq<DupeFile>, keep: Seq<char>) -> Seq<(FsPath, u64)>
    decreases files.len(),
{
    if files.len() == 0 {
        Seq::empty()
    } else {
        let before = spared(files.drop_last(), keep);
        if same_path(files.last().path@, keep) {
            before
        } else {
            before.push((files.last().path, files.last().size_bytes))
        }
    }
}

/// Everything that pruning would remove: all but the keeper of each group.
pub open spec fn doomed(groups: Seq<DupeGroup>) -> Seq<(FsPath, u64)>
    decreases groups.len(),
{
    if groups.len() == 0 {
        Seq::empty()
    } else {
        doomed(groups.drop_last()) + spared(groups.last().files@, kept_path(groups.last().files@))
    }
}

/// Everything that pruning would remove: all but the keeper of each group.
pub fn prune_list(groups: &Vec<DupeGroup>) -> (r: Vec<(FsPath, u64)>)
    ensures
        r@ == doomed(groups@),
{
    let mut r: Vec<(FsPath, u64)> = Vec::new();
    let mut i: usize = 0;
    while i < groups.len()
        invariant
            i <= groups@.len(),
            r@ == doomed(groups@.take(i as int)),
        decreases groups@.len() - i,
    {
        let ghost before = r@;
        let group: &DupeGroup = &groups[i];
        assert(groups@.take(i + 1).drop_last() =~= groups@.take(i as int));
        let keep = keeper(group);
        let ghost files = group.files@;
        proof {
            if files.len() > 0 {
                let a = choose|a: int| #[trigger] is_keeper(files, a) && keep == files[a].path;
                let b = choose|b: int| #[trigger] is_keeper(files, b);
                lemma_keeper_unique(files, a, b);
            } else {
                assert(keep@ =~= kept_path(files));
            }
        }
        let mut j: usize = 0;
        assert(before + spared(files.take(0), keep@) =~= before);
        while j < group.files.len()
            invariant
                files == group.files@,
                j <= files.len(),
                r@ == before + spared(files.take(j as int), keep@),
            decreases files.len() - j,
        {
            assert(files.take(j + 1).drop_last() =~= files.take(j as int));
            let file: &DupeFile = &group.files[j];
            if !file.path.same(&keep) {
                r.push((file.path.clone(), file.size_bytes));
            }
            assert(r@ =~= before + spared(files.take(j + 1), keep@));
            j += 1;
        }
        assert(files.take(j as int) =~= files);
        i += 1;
    }
    assert(groups@.take(i as int) =~= groups@);
    r
}

proof fn lemma_spared_count(files: Seq<DupeFile>, keep: Seq<char>, at: int)
    requires
        0 <= at < files.len(),
        same_path(files[at].path@, keep),
        forall|i: int, j: int|
            0 <= i < j < files.len() ==> !same_path((#[trigger] files[i]).path@, (#[trigger] files[j]).path@),
    ensures
        spared(files, keep).len() == files.len() - 1,
    decreases files.len(),
{
    let front = files.drop_last();
    assert forall|i: int, j: int| 0 <= i < j < front.len() implies !same_path(
        (#[trigger] front[i]).path@,
        (#[trigger] front[j]).path@,
    ) by {
        assert(front[i] == files[i] && front[j] == files[j]);
    }
    if at == files.len() - 1 {
        assert forall|i: int| 0 <= i < front.len() implies !same_path((#[trigger] front[i]).path@, keep) by {
            assert(front[i] == files[i]);
            assert(!same_path(files[i].path@, files[at].path@));
        }
        lemma_spared_all(front, keep);
    } else {
        assert(front[at] == files[at]);
        lemma_spared_count(front, keep, at);
        assert(!same_path(files[at].path@, files[files.len() - 1].path@));
    }
}

proof fn lemma_spared_all(files: Seq<DupeFile>, keep: Seq<char>)
    requires
        forall|i: int| 0 <= i < files.len() ==> !same_path((#[trigger] files[i]).path@, keep),
    ensures
        spared(files, keep).len() == files.len(),
    decreases files.len(),
{
    if files.len() > 0 {
        let front = files.drop_last();
        assert forall|i: int| 0 <= i < front.len() implies !same_path((#[trigger] front[i]).path@, keep) by {
            assert(front[i] == files[i]);
        }
        lemma_spared_all(front, keep);
        assert(!same_path(files[files.len() - 1].path@, keep));
    }
}

/// Pruning spares exactly one file of a group: of files at different paths,
/// all but one are listed, and the keeper is not.
pub proof fn one_copy_of_each_is_kept(files: Seq<DupeFile>, at: int)
    requires
        is_keeper(files, at),
        forall|i: int, j: int|
            0 <= i < j < files.len() ==> !same_path((#[trigger] files[i]).path@, (#[trigger] files[j]).path@),
    ensures
        kept_path(files) == files[at].path@,
        spared(files, kept_path(files)).len() == files.len() - 1,
        forall|k: int|
            0 <= k < spared(files, kept_path(files)).len() ==> !same_path(
                (#[trigger] spared(files, kept_path(files))[k]).0@,
                files[at].path@,
            ),
{
    let chosen = choose|i: int| #[trigger] is_keeper(files, i);
    lemma_keeper_unique(files, chosen, at);
    lemma_spared_count(files, files[at].path@, at);
    lemma_spared_differ(files, files[at].path@);
}

proof fn lemma_spared_differ(files: Seq<DupeFile>, keep: Seq<char>)
    ensures
        forall|k: int| 0 <= k < spared(files, keep).len() ==> !same_path((#[trigger] spared(files, keep)[k]).0@, keep),
    decreases files.len(),
{
    if files.len() > 0 {
        lemma_spared_differ(files.drop_last(), keep);
        let before = spared(files.drop_last(), keep);
        let all = spared(files, keep);
        assert forall|k: int| 0 <= k < all.len() implies !same_path((#[trigger] all[k]).0@, keep) by {
            if k < before.len() {
                assert(all[k] == before[k]);
            }
        }
    }
}

/// The sizes of a list of files, added up.
pub open spec fn doomed_size(files: Seq<(FsPath, u64)>) -> nat
    decreases files.len(),
{
    if files.len() == 0 {
        0
    } else {
        doomed_size(files.drop_last()) + files.last().1 as nat
    }
}

/// The items to remove: of what is doomed, the regular files inside `root`.
pub open spec fn prunable(files: Seq<(FsPath, u64)>, root: Seq<char>, regular: Seq<bool>) -> Seq<ItemView>
    decreases files.len(),
{
    if files.len() == 0 {
        Seq::empty()
    } else {
        let before = prunable(files.drop_last(), root, regular);
        let (path, size) = files.last();
        if under(path@, root) && regular[files.len() - 1] {
            before.push(ItemView { target_id: "duplicates"@, path: path@, size: size as nat, is_dir: false })
        } else {
            before
        }
    }
}

/// `regular` are answers that `is_regular` can give for the files.
pub open spec fn answers<R: Fn(&FsPath) -> bool>(is_regular: R, files: Seq<(FsPath, u64)>, regular: Seq<bool>) -> bool {
    &&& regular.len() == files.len()
    &&& forall|i: int| 0 <= i < files.len() ==> call_ensures(is_regular, (&files[i].0,), #[trigger] regular[i])
}

proof fn lemma_prunable_prefix(files: Seq<(FsPath, u64)>, root: Seq<char>, a: Seq<bool>, b: Seq<bool>)
    requires
        files.len() <= a.len(),
        files.len() <= b.len(),
        forall|i: int| 0 <= i < files.len() ==> a[i] == b[i],
    ensures
        prunable(files, root, a) == prunable(files, root, b),
    decreases files.len(),
{
    if files.len() > 0 {
        lemma_prunable_prefix(files.drop_last(), root, a, b);
    }
}

/// The items to remove: of what is doomed, the regular files inside `root`.
/// A link is left alone: it could resolve outside and carry the approval with
/// it.
pub fn prune_items<R: Fn(&FsPath) -> bool>(files: &Vec<(FsPath, u64)>, root: &FsPath, is_regular: &R) -> (r: Vec<
    ScanItem,
>)
    requires
        forall|p: &FsPath| call_requires(*is_regular, (p,)),
    ensures
        exists|regular: Seq<bool>| #[trigger]
            answers(*is_regular, files@, regular) && items_view(r@) == prunable(files@, root@, regular),
        items_size(r@) <= doomed_size(files@),
{
    let mut r: Vec<ScanItem> = Vec::new();
    let ghost mut regular: Seq<bool> = Seq::empty();
    let mut i: usize = 0;
    assert(items_view(r@) =~= prunable(files@.take(0), root@, regular));
    assert(files@.take(0) =~= Seq::<(FsPath, u64)>::empty());
    while i < files.len()
        invariant
            forall|p: &FsPath| call_requires(*is_regular, (p,)),
            i <= files@.len(),
            regular.len() == i,
            forall|k: int| 0 <= k < i ==> call_ensures(*is_regular, (&files@[k].0,), #[trigger] regular[k]),
            items_view(r@) == prunable(files@.take(i as int), root@, regular),
            items_size(r@) <= doomed_size(files@.take(i as int)),
        decreases files@.len() - i,
    {
        let ghost before = r@;
        let ghost had = regular;
        assert(files@.take(i + 1).drop_last() =~= files@.take(i as int));
        let path: &FsPath = &files[i].0;
        let inside = path.starts_with(root);
        let is_file = is_regular(path);
        proof {
            regular = regular.push(is_file);
            lemma_prunable_prefix(files@.take(i as int), root@, had, regular);
        }
        if inside && is_file {
            let item = ScanItem {
                target_id: "duplicates".to_owned(),
                path: path.clone(),
                size_bytes: files[i].1,
                is_dir: false,
            };
            r.push(item);
            assert(r@.drop_last() =~= before);
            assert(items_view(r@) =~= items_view(before).push(item@));
        }
        i += 1;
    }
    assert(files@.take(i as int) =~= files@);
    assert(answers(*is_regular, files@, regular));
    r
}

proof fn lemma_prunable_is_regular(files: Seq<(FsPath, u64)>, root: Seq<char>, regular: Seq<bool>, i: int) -> (k: int)
    requires
        0 <= i < prunable(files, root, regular).len(),
        regular.len() >= files.len(),
    ensures
        0 <= k < files.len(),
        regular[k],
        under(files[k].0@, root),
        prunable(files, root, regular)[i].path == files[k].0@,
    decreases files.len(),
{
    let before = prunable(files.drop_last(), root, regular);
    if i < before.len() {
        lemma_prunable_is_regular(files.drop_last(), root, regular, i)
    } else {
        files.len() - 1
    }
}

/// Removes the extra copies. Nothing is approved but the files themselves,
/// each only after it is confirmed to still be a regular file inside the
/// folder, and nothing else is handed to the backend.
pub fn prune<R: Fn(&FsPath) -> bool, B: RemovalBackend, C: Fn(&FsPath) -> Option<FsPath>>(
    files: &Vec<(FsPath, u64)>,
    root: &FsPath,
    home: Option<&FsPath>,
    is_regular: &R,
    canonicalize: &C,
    backend: &B,
) -> (r: CleanReport)
    requires
        forall|p: &FsPath| call_requires(*is_regular, (p,)),
        forall|p: &FsPath| call_requires(*canonicalize, (p,)),
        doomed_size(files@) <= u64::MAX,
        forall|p: FsPath|
            under(p@, root@) && #[trigger] call_ensures(*is_regular, (&p,), true) ==> backend.accepts(p@),
    ensures
        exists|items: Seq<ScanItem>, regular: Seq<bool>, bare: SafetyGuard, used: SafetyGuard, fates: Seq<Fate>|
            {
                &&& #[trigger] answers(*is_regular, files@, regular)
                &&& items_view(items) == prunable(files@, root@, regular)
                &&& #[trigger] bare.built_from(*canonicalize, system_deny(), Seq::empty())
                &&& approves_also(used, bare, item_paths(items), *canonicalize)
                &&& fates.len() == items.len()
                &&& #[trigger] possible_fates(items, &used, opt_view(home), *canonicalize, backend, false, fates)
                &&& reports(r, items, fates)
            },
        !r.dry_run,
{
    let items = prune_items(files, root, is_regular);
    let guard = SafetyGuard::system_only(canonicalize);
    proof {
        let regular = choose|regular: Seq<bool>| #[trigger]
            answers(*is_regular, files@, regular) && items_view(items@) == prunable(files@, root@, regular);
        assert forall|i: int| 0 <= i < items@.len() implies backend.accepts((#[trigger] items@[i]).path@) by {
            assert(items_view(items@)[i] == items@[i]@);
            let k = lemma_prunable_is_regular(files@, root@, regular, i);
            assert(call_ensures(*is_regular, (&files@[k].0,), regular[k]));
        }
    }
    cleaner::clean_approved(&items, guard, home, canonicalize, backend, false)
}

/// The line of one file of a group: whether it is kept, and where it is.
pub open spec fn file_row(color: bool, path: Seq<char>, keep: Seq<char>, root: Seq<char>) -> Seq<char> {
    "    "@ + (if same_path(path, keep) {
        in_green(color, "keep"@)
    } else {
        in_dim(color, "copy"@)
    }) + " "@ + truncated(shown_below(path, root), 64)
}

/// The lines of one group.
pub open spec fn group_rows(color: bool, group: DupeGroup, keep: Seq<char>, root: Seq<char>) -> Seq<Seq<char>> {
    let head = "  "@ + in_bold(color, shown_bytes(group.size_bytes as nat)) + " × "@ + digits(group.files@.len())
        + "  "@ + in_dim(color, "("@ + shown_bytes(group.reclaimable_bytes as nat) + " reclaimable)"@);
    seq![head] + group.files@.map_values(|f: DupeFile| file_row(color, f.path@, keep, root)) + seq![""@]
}

/// The lines of the groups.
pub open spec fn groups_rows(color: bool, groups: Seq<DupeGroup>, root: Seq<char>) -> Seq<Seq<char>>
    decreases groups.len(),
{
    if groups.len() == 0 {
        Seq::empty()
    } else {
        groups_rows(color, groups.drop_last(), root) + group_rows(
            color,
            groups.last(),
            kept_path(groups.last().files@),
            root,
        )
    }
}

/// The groups as they are shown, up to a limit.
pub open spec fn groups_text(color: bool, groups: Seq<DupeGroup>, limit: nat, root: Seq<char>) -> Seq<Seq<char>> {
    let shown = if groups.len() < limit {
        groups.len()
    } else {
        limit
    };
    seq![""@] + groups_rows(color, groups.take(shown as int), root) + if groups.len() > limit {
        seq![
            "  "@ + in_dim(
                color,
                "… and "@ + digits((groups.len() - limit) as nat) + " more groups (--limit to show them)"@,
            ),
            ""@,
        ]
    } else {
        Seq::empty()
    }
}

fn file_line(color: bool, path: &FsPath, keep: &FsPath, root: &FsPath) -> (r: String)
    ensures
        r@ == file_row(color, path@, keep@, root@),
{
    let mut r = "    ".to_owned();
    let mark = if path.same(keep) {
        ui::green(color, "keep")
    } else {
        ui::dim(color, "copy")
    };
    r.append(mark.as_str());
    r.append(" ");
    let shown = path.below(root);
    let shown = ui::truncate_path(shown.as_str(), 64);
    r.append(shown.as_str());
    r
}

fn group_lines(color: bool, group: &DupeGroup, keep: &FsPath, root: &FsPath) -> (r: Vec<String>)
    ensures
        strings(r@) == group_rows(color, *group, keep@, root@),
{
    let mut head = "  ".to_owned();
    let size = ui::bytes(group.size_bytes);
    let size = ui::bold(color, size.as_str());
    head.append(size.as_str());
    head.append(" × ");
    let n = text::decimal(group.files.len() as u64);
    head.append(n.as_str());
    head.append("  ");
    let mut gain = "(".to_owned();
    let size = ui::bytes(group.reclaimable_bytes);
    gain.append(size.as_str());
    gain.append(" reclaimable)");
    let gain = ui::dim(color, gain.as_str());
    head.append(gain.as_str());
    let mut lines = report::no_lines();
    push_line(&mut lines, head);
    let ghost row = |f: DupeFile| file_row(color, f.path@, keep@, root@);
    let ghost first = strings(lines@);
    let mut i: usize = 0;
    assert(strings(lines@) =~= first + group.files@.take(0).map_values(row));
    while i < group.files.len()
        invariant
            row == (|f: DupeFile| file_row(color, f.path@, keep@, root@)),
            i <= group.files@.len(),
            strings(lines@) == first + group.files@.take(i as int).map_values(row),
        decreases group.files@.len() - i,
    {
        push_line(&mut lines, file_line(color, &group.files[i].path, keep, root));
        assert(strings(lines@) =~= first + group.files@.take(i + 1).map_values(row));
        i += 1;
    }
    push_line(&mut lines, "".to_owned());
    assert(strings(lines@) =~= group_rows(color, *group, keep@, root@));
    lines
}

/// The groups as they are shown, up to a limit.
pub fn groups_lines(color: bool, groups: &Vec<DupeGroup>, limit: usize, root: &FsPath) -> (r: Vec<String>)
    ensures
        strings(r@) == groups_text(color, groups@, limit as nat, root@),
{
    let n: usize = groups.len();
    let shown: usize = if n < limit {
        n
    } else {
        limit
    };
    let mut lines = report::no_lines();
    push_line(&mut lines, "".to_owned());
    let mut i: usize = 0;
    assert(strings(lines@) =~= seq![""@] + groups_rows(color, groups@.take(0), root@));
    while i < shown
        invariant
            i <= shown <= groups@.len(),
            strings(lines@) == seq![""@] + groups_rows(color, groups@.take(i as int), root@),
        decreases shown - i,
    {
        assert(groups@.take(i + 1).drop_last() =~= groups@.take(i as int));
        let keep = keeper(&groups[i]);
        push_lines(&mut lines, group_lines(color, &groups[i], &keep, root));
        assert(strings(lines@) =~= seq![""@] + groups_rows(color, groups@.take(i + 1), root@));
        i += 1;
    }
    if n > limit {
        let mut words = "… and ".to_owned();
        let rest = text::decimal((n - limit) as u64);
        words.append(rest.as_str());
        words.append(" more groups (--limit to show them)");
        let words = ui::dim(color, words.as_str());
        let mut line = "  ".to_owned();
        line.append(words.as_str());
        push_line(&mut lines, line);
        push_line(&mut lines, "".to_owned());
    }
    assert(strings(lines@) =~= groups_text(color, groups@, limit as nat, root@));
    lines
}

/// What the groups give back when one copy of each is kept.
pub open spec fn groups_gain(groups: Seq<DupeGroup>) -> nat
    decreases groups.len(),
{
    if groups.len() == 0 {
        0
    } else {
        groups_gain(groups.drop_last()) + groups.last().reclaimable_bytes as nat
    }
}

/// What the groups give back when one copy of each is kept, as far as it
/// fits.
pub fn reclaimable(groups: &Vec<DupeGroup>) -> (r: u64)
    ensures
        r == capped(groups_gain(groups@)),
{
    let mut total: u64 = 0;
    let mut i: usize = 0;
    assert(groups@.take(0).len() == 0);
    while i < groups.len()
        invariant
            i <= groups@.len(),
            total == capped(groups_gain(groups@.take(i as int))),
        decreases groups@.len() - i,
    {
        assert(groups@.take(i + 1).drop_last() =~= groups@.take(i as int));
        total = total.saturating_add(groups[i].reclaimable_bytes);
        i += 1;
    }
    assert(groups@.take(i as int) =~= groups@);
    total
}

/// What is said where no duplicates were found.
pub fn nothing_line(color: bool, min_bytes: u64, root: &FsPath) -> (r: String)
    ensures
        r@ == in_green(color, "No duplicates over "@ + shown_bytes(min_bytes as nat) + " under "@ + root@ + "."@),
{
    let mut words = "No duplicates over ".to_owned();
    let size = ui::bytes(min_bytes);
    words.append(size.as_str());
    words.append(" under ");
    words.append(root.as_str());
    words.append(".");
    ui::green(color, words.as_str())
}

/// What the groups come to, and below it what could be done with them unless
/// that was asked for.
pub open spec fn sum_text(color: bool, groups: Seq<DupeGroup>, pruning: bool) -> Seq<Seq<char>> {
    seq![
        "  "@ + in_bold(color, shown_bytes(capped(groups_gain(groups)))) + " reclaimable across "@ + counted(
            groups.len(),
            "group"@,
            "groups"@,
        ),
    ] + (if pruning {
        Seq::empty()
    } else {
        seq!["  "@ + in_dim(color, "Add --prune to keep one copy of each group and trash the rest."@)]
    }) + seq![""@]
}

/// What the groups come to, in lines.
pub fn sum_lines(color: bool, groups: &Vec<DupeGroup>, pruning: bool) -> (r: Vec<String>)
    ensures
        strings(r@) == sum_text(color, groups@, pruning),
{
    let mut sum = "  ".to_owned();
    let size = ui::bytes(reclaimable(groups));
    let size = ui::bold(color, size.as_str());
    sum.append(size.as_str());
    sum.append(" reclaimable across ");
    let what = ui::count(groups.len(), "group", "groups");
    sum.append(what.as_str());
    let mut lines = report::no_lines();
    push_line(&mut lines, sum);
    if !pruning {
        let mut line = "  ".to_owned();
        let words = ui::dim(color, "Add --prune to keep one copy of each group and trash the rest.");
        line.append(words.as_str());
        push_line(&mut lines, line);
    }
    push_line(&mut lines, "".to_owned());
    assert(strings(lines@) =~= sum_text(color, groups@, pruning));
    lines
}

/// How many files pruning keeps, and how many it trashes.
pub fn intent_line(color: bool, groups: usize, copies: usize) -> (r: String)
    ensures
        r@ == "  "@ + in_bold(color, "--prune"@) + " would keep "@ + counted(groups as nat, "file"@, "files"@)
            + " and trash "@ + counted(copies as nat, "copy"@, "copies"@) + "."@,
{
    let mut r = "  ".to_owned();
    let flag = ui::bold(color, "--prune");
    r.append(flag.as_str());
    r.append(" would keep ");
    let what = ui::count(groups, "file", "files");
    r.append(what.as_str());
    r.append(" and trash ");
    let what = ui::count(copies, "copy", "copies");
    r.append(what.as_str());
    r.append(".");
    r
}

/// The question before copies are removed.
pub fn question(copies: usize, groups: &Vec<DupeGroup>) -> (r: String)
    ensures
        r@ == "Move "@ + counted(copies as nat, "extra copy"@, "extra copies"@) + " ("@ + shown_bytes(
            capped(groups_gain(groups@)),
        ) + ") to the Trash?"@,
{
    let mut r = "Move ".to_owned();
    let what = ui::count(copies, "extra copy", "extra copies");
    r.append(what.as_str());
    r.append(" (");
    let size = ui::bytes(reclaimable(groups));
    r.append(size.as_str());
    r.append(") to the Trash?");
    r
}

/// Of what is doomed, every regular file inside the folder is removed, at any
/// depth, with its own size; and nothing else is.
pub proof fn every_copy_inside_is_pruned(files: Seq<(FsPath, u64)>, root: Seq<char>, regular: Seq<bool>)
    requires
        regular.len() == files.len(),
    ensures
        forall|k: int|
            0 <= k < files.len() && #[trigger] regular[k] && under(files[k].0@, root) ==> pruned(
                prunable(files, root, regular),
                files[k],
            ),
        forall|i: int|
            0 <= i < prunable(files, root, regular).len() ==> one_inside(
                #[trigger] prunable(files, root, regular)[i],
                files,
                root,
                regular,
            ),
        (forall|k: int| 0 <= k < files.len() ==> #[trigger] regular[k] && under(files[k].0@, root)) ==> prunable(
            files,
            root,
            regular,
        ).len() == files.len(),
        prunable(files, root, regular).len() <= files.len(),
{
    assert forall|k: int| 0 <= k < files.len() && #[trigger] regular[k] && under(files[k].0@, root) implies pruned(
        prunable(files, root, regular),
        files[k],
    ) by {
        lemma_one_pruned(files, root, regular, k);
    }
    assert forall|i: int| 0 <= i < prunable(files, root, regular).len() implies one_inside(
        #[trigger] prunable(files, root, regular)[i],
        files,
        root,
        regular,
    ) by {
        let k = lemma_pruned_from(files, root, regular, i);
        assert(regular[k]);
    }
    lemma_pruned_count(files, root, regular);
}

proof fn lemma_one_pruned(files: Seq<(FsPath, u64)>, root: Seq<char>, regular: Seq<bool>, k: int)
    requires
        0 <= k < files.len(),
        regular[k],
        under(files[k].0@, root),
    ensures
        pruned(prunable(files, root, regular), files[k]),
    decreases files.len(),
{
    let front = files.drop_last();
    let before = prunable(front, root, regular);
    let all = prunable(files, root, regular);
    if k < front.len() {
        assert(front[k] == files[k]);
        lemma_one_pruned(front, root, regular, k);
        let i = choose|i: int| 0 <= i < before.len() && is_item_of(#[trigger] before[i], files[k]);
        assert(all[i] == before[i]);
    } else {
        assert(is_item_of(all[all.len() - 1], files[k]));
    }
}

proof fn lemma_pruned_from(files: Seq<(FsPath, u64)>, root: Seq<char>, regular: Seq<bool>, i: int) -> (k: int)
    requires
        0 <= i < prunable(files, root, regular).len(),
    ensures
        0 <= k < files.len(),
        regular[k],
        under(files[k].0@, root),
        is_item_of(prunable(files, root, regular)[i], files[k]),
    decreases files.len(),
{
    let front = files.drop_last();
    if i < prunable(front, root, regular).len() {
        let k = lemma_pruned_from(front, root, regular, i);
        assert(front[k] == files[k]);
        k
    } else {
        files.len() - 1
    }
}

proof fn lemma_pruned_count(files: Seq<(FsPath, u64)>, root: Seq<char>, regular: Seq<bool>)
    requires
        files.len() <= regular.len(),
    ensures
        prunable(files, root, regular).len() <= files.len(),
        (forall|k: int| 0 <= k < files.len() ==> #[trigger] regular[k] && under(files[k].0@, root)) ==> prunable(
            files,
            root,
            regular,
        ).len() == files.len(),
    decreases files.len(),
{
    if files.len() > 0 {
        let front = files.drop_last();
        lemma_pruned_count(front, root, regular);
        if forall|k: int| 0 <= k < files.len() ==> #[trigger] regular[k] && under(files[k].0@, root) {
            assert forall|k: int| 0 <= k < front.len() implies #[trigger] regular[k] && under(front[k].0@, root) by {
                assert(front[k] == files[k]);
            }
            assert(regular[files.len() - 1]);
        }
    }
}

/// The item is the file, and not a folder.
pub open spec fn is_item_of(item: ItemView, file: (FsPath, u64)) -> bool {
    item.path == file.0@ && item.size == file.1 as nat && !item.is_dir
}

/// One of the items is the file.
pub open spec fn pruned(items: Seq<ItemView>, file: (FsPath, u64)) -> bool {
    exists|i: int| 0 <= i < items.len() && is_item_of(#[trigger] items[i], file)
}

/// The item is one of the files, which is regular and inside the folder.
pub open spec fn one_inside(item: ItemView, files: Seq<(FsPath, u64)>, root: Seq<char>, regular: Seq<bool>) -> bool {
    exists|k: int|
        0 <= k < files.len() && #[trigger] regular[k] && under(files[k].0@, root) && is_item_of(item, files[k])
}

proof fn lemma_a_keeper(files: Seq<DupeFile>, n: int) -> (i: int)
    requires
        0 < n <= files.len(),
    ensures
        0 <= i < n,
        forall|j: int| 0 <= j < n ==> !preferred((#[trigger] files[j]).path@, files[i].path@),
        forall|j: int| 0 <= j < i ==> preferred(files[i].path@, (#[trigger] files[j]).path@),
    decreases n,
{
    if n == 1 {
        lemma_preferred_total(files[0].path@, files[0].path@);
        0
    } else {
        let best = lemma_a_keeper(files, n - 1);
        let (new, old_path) = (files[n - 1].path@, files[best].path@);
        lemma_preferred_total(new, new);
        if preferred(new, old_path) {
            assert forall|j: int| 0 <= j < n implies !preferred((#[trigger] files[j]).path@, new) by {
                if j < n - 1 && preferred(files[j].path@, new) {
                    lemma_preferred_trans(files[j].path@, new, old_path);
                }
            }
            assert forall|j: int| 0 <= j < n - 1 implies preferred(new, (#[trigger] files[j]).path@) by {
                let q = files[j].path@;
                assert(!preferred(q, old_path));
                lemma_preferred_total(q, old_path);
                if q != old_path {
                    lemma_preferred_trans(new, old_path, q);
                }
            }
            n - 1
        } else {
            best
        }
    }
}

/// The copy with the shortest path is kept: no other has a shorter one, and
/// of those of one length none comes before it.
pub proof fn the_shortest_path_is_kept(files: Seq<DupeFile>, j: int)
    requires
        0 <= j < files.len(),
    ensures
        bytes_in(kept_path(files)) <= bytes_in(files[j].path@),
        bytes_in(kept_path(files)) == bytes_in(files[j].path@) && files[j].path@ != kept_path(files) ==> lex_less(
            kept_path(files),
            files[j].path@,
        ),
        exists|i: int| 0 <= i < files.len() && (#[trigger] files[i]).path@ == kept_path(files),
{
    let i = lemma_a_keeper(files, files.len() as int);
    assert(is_keeper(files, i));
    let at = choose|at: int| #[trigger] is_keeper(files, at);
    assert(!preferred(files[j].path@, files[at].path@));
    lemma_lex_less_total(files[j].path@, files[at].path@);
    assert(files[at].path@ == kept_path(files));
}

/// All copies but the one that is kept go, each with its own size; and what
/// goes is a copy.
pub proof fn all_copies_but_one_go(groups: Seq<DupeGroup>, g: int, k: int)
    ensures
        0 <= g < groups.len() && 0 <= k < groups[g].files@.len() && !same_path(
            groups[g].files@[k].path@,
            kept_path(groups[g].files@),
        ) ==> doomed(groups).contains((groups[g].files@[k].path, groups[g].files@[k].size_bytes)),
        forall|i: int| 0 <= i < doomed(groups).len() ==> copy_in(#[trigger] doomed(groups)[i], groups),
    decreases groups.len(),
{
    if groups.len() > 0 {
        let front = groups.drop_last();
        all_copies_but_one_go(front, g, k);
        let last = groups.last().files@;
        let (before, here, all) = (doomed(front), spared(last, kept_path(last)), doomed(groups));
        lemma_spared(last, kept_path(last));
        if 0 <= g < groups.len() && 0 <= k < groups[g].files@.len() && !same_path(
            groups[g].files@[k].path@,
            kept_path(groups[g].files@),
        ) {
            let file = (groups[g].files@[k].path, groups[g].files@[k].size_bytes);
            if g < front.len() {
                assert(front[g] == groups[g]);
                let i = choose|i: int| 0 <= i < before.len() && before[i] == file;
                assert(all[i] == file);
            } else {
                let i = choose|i: int| 0 <= i < here.len() && here[i] == file;
                assert(all[before.len() + i] == file);
            }
        }
        assert forall|i: int| 0 <= i < all.len() implies copy_in(#[trigger] all[i], groups) by {
            if i < before.len() {
                assert(all[i] == before[i]);
                let (a, b) = choose|a: int, b: int|
                    0 <= a < front.len() && 0 <= b < front[a].files@.len() && before[i] == (
                        (#[trigger] front[a].files@[b]).path,
                        front[a].files@[b].size_bytes,
                    ) && !same_path(front[a].files@[b].path@, kept_path(front[a].files@));
                assert(groups[a] == front[a]);
                assert(groups[a].files@[b] == front[a].files@[b]);
            } else {
                assert(all[i] == here[i - before.len()]);
                let b = choose|b: int|
                    0 <= b < last.len() && here[i - before.len()] == ((#[trigger] last[b]).path, last[b].size_bytes)
                        && !same_path(last[b].path@, kept_path(last));
                let a = groups.len() - 1;
                assert(groups[a].files@[b] == last[b]);
            }
        }
    }
}

/// The file is one of a group, and not the one that is kept.
pub open spec fn copy_in(file: (FsPath, u64), groups: Seq<DupeGroup>) -> bool {
    exists|a: int, b: int|
        0 <= a < groups.len() && 0 <= b < groups[a].files@.len() && file == (
            (#[trigger] groups[a].files@[b]).path,
            groups[a].files@[b].size_bytes,
        ) && !same_path(groups[a].files@[b].path@, kept_path(groups[a].files@))
}

proof fn lemma_spared(files: Seq<DupeFile>, keep: Seq<char>)
    ensures
        forall|k: int|
            0 <= k < files.len() && !same_path((#[trigger] files[k]).path@, keep) ==> spared(files, keep).contains(
                (files[k].path, files[k].size_bytes),
            ),
        forall|i: int|
            0 <= i < spared(files, keep).len() ==> exists|b: int|
                0 <= b < files.len() && #[trigger] spared(files, keep)[i] == (
                    (#[trigger] files[b]).path,
                    files[b].size_bytes,
                ) && !same_path(files[b].path@, keep),
    decreases files.len(),
{
    if files.len() > 0 {
        let front = files.drop_last();
        lemma_spared(front, keep);
        let (before, all) = (spared(front, keep), spared(files, keep));
        assert forall|k: int| 0 <= k < files.len() && !same_path((#[trigger] files[k]).path@, keep) implies all.contains(
            (files[k].path, files[k].size_bytes),
        ) by {
            let file = (files[k].path, files[k].size_bytes);
            if k < front.len() {
                assert(front[k] == files[k]);
                let i = choose|i: int| 0 <= i < before.len() && before[i] == file;
                assert(all[i] == file);
            } else {
                assert(all[all.len() - 1] == file);
            }
        }
        assert forall|i: int| 0 <= i < all.len() implies exists|b: int|
            0 <= b < files.len() && #[trigger] all[i] == ((#[trigger] files[b]).path, files[b].size_bytes) && !same_path(
                files[b].path@,
                keep,
            ) by {
            if i < before.len() {
                assert(all[i] == before[i]);
                let b = choose|b: int|
                    0 <= b < front.len() && before[i] == ((#[trigger] front[b]).path, front[b].size_bytes) && !same_path(
                        front[b].path@,
                        keep,
                    );
                assert(files[b] == front[b]);
            } else {
                assert(all[i] == (files[files.len() - 1].path, files[files.len() - 1].size_bytes));
            }
        }
    }
}

/// What can be reclaimed is what each group gives, added up.
pub proof fn each_group_adds_what_it_gives(groups: Seq<DupeGroup>, group: DupeGroup)
    ensures
        groups_gain(groups.push(group)) == groups_gain(groups) + group.reclaimable_bytes,
        groups_gain(Seq::empty()) == 0,
{
    assert(groups.push(group).drop_last() =~= groups);
}

/// The file that is kept is marked as kept, and every other as a copy.
pub proof fn the_kept_file_is_marked(path: Seq<char>, keep: Seq<char>, root: Seq<char>)
    ensures
        same_path(path, keep) ==> file_row(false, path, keep, root) == "    keep "@ + truncated(
            shown_below(path, root),
            64,
        ),
        !same_path(path, keep) ==> file_row(false, path, keep, root) == "    copy "@ + truncated(
            shown_below(path, root),
            64,
        ),
{
    reveal_strlit("    keep ");
    reveal_strlit("    copy ");
    reveal_strlit("    ");
    reveal_strlit("keep");
    reveal_strlit("copy");
    reveal_strlit(" ");
    assert("    "@ + "keep"@ + " "@ =~= "    keep "@);
    assert("    "@ + "copy"@ + " "@ =~= "    copy "@);
}

} // verus!
