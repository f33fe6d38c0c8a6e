//! Leftovers of applications that are no longer installed.
//!
//! [`crate::apps`] works forwards: given an installed app, find the support
//! files named after it. This module works backwards: list the directories
//! where support files live, and keep the entries that no installed app can
//! account for.
//!
//! Only bundle identifiers are ever matched. Backwards there is no bundle to
//! anchor a name, and an entry that is merely shaped like a name is almost
//! never an app: a vendor's shared folder, a command-line tool, a daemon. A
//! false positive here deletes live data, so name matching is absent.

use vstd::prelude::*;

use crate::apps;
use crate::apps::{leftover_size, size_of_leftover};
use crate::info::{info_string, info_text, opt_text};
use crate::disk::{bytes_view, entries_view, sizes_fit, stands_still, DirItem, Disk, Stat, StillDisk};
use crate::model::capped;
use crate::order;
use crate::order::{larger_first, larger_then_text, ordered, reordered};
use crate::paths::{
    has_parent, is_name, joined, last_name, lemma_parent_of_child, opt_view, parent_text, same_path, texts, FsPath,
};
use crate::text;
use crate::text::{
    ascii_lowercase_of, begins_with, finishes_with, lex_less, lowercase_of, occurs, pieces, stands_at, strings,
};

verus! {

/// The `~/Library` directories scanned for orphans, as category and
/// subdirectory: only those whose entries are named by identifier.
pub const SCAN_DIRS: [(&'static str, &'static str); 12] = [
    ("Application Support", "Application Support"),
    ("Caches", "Caches"),
    ("Preferences", "Preferences"),
    ("Containers", "Containers"),
    ("Group Containers", "Group Containers"),
    ("Saved State", "Saved Application State"),
    ("HTTP Storage", "HTTPStorages"),
    ("WebKit", "WebKit"),
    ("Cookies", "Cookies"),
    ("App Scripts", "Application Scripts"),
    ("Launch Agent", "LaunchAgents"),
    ("Logs", "Logs"),
];

/// Entries that are part of the structure of a scanned directory rather than
/// any app's leftovers, as subdirectory and entry name.
pub const STRUCTURAL_ENTRIES: [(&'static str, &'static str); 7] = [
    ("Preferences", "ByHost"),
    ("WebKit", "Databases"),
    ("WebKit", "MediaKeys"),
    ("WebKit", "NetworkProcess"),
    ("Caches", "com.apple.nsurlsessiond"),
    ("Application Support", "CrashReporter"),
    ("Application Support", "com.apple.sharedfilelist"),
];

/// Suffixes that decorate an identifier-named file.
pub const DECORATIONS: [&'static str; 6] = [
    ".plist",
    ".savedState",
    ".binarycookies",
    ".ShipIt",
    ".sfl2",
    ".sfl3",
];

/// The directories inside a bundle where a nested bundle may sit.
pub const NESTED_BUNDLE_DIRS: [&'static str; 15] = [
    "Contents/Library/LoginItems",
    "Contents/Library/LaunchAgents",
    "Contents/Library/LaunchDaemons",
    "Contents/Library/QuickLook",
    "Contents/Library/Spotlight",
    "Contents/Library/SystemExtensions",
    "Contents/Library/Automator",
    "Contents/Library/Services",
    "Contents/XPCServices",
    "Contents/PlugIns",
    "Contents/Extensions",
    "Contents/Frameworks",
    "Contents/Helpers",
    "Contents/Resources",
    "Contents/MacOS",
];

/// An ASCII letter or digit.
pub open spec fn ascii_alphanumeric(c: char) -> bool {
    ('a' <= c && c <= 'z') || ('A' <= c && c <= 'Z') || ('0' <= c && c <= '9')
}

/// A character that a segment of an identifier may hold.
pub open spec fn identifier_char(c: char) -> bool {
    ascii_alphanumeric(c) || c == '-' || c == '_'
}

/// A segment of an identifier: not empty, and made of characters that an
/// identifier may hold.
pub open spec fn identifier_segment(s: Seq<char>) -> bool {
    s.len() > 0 && forall|i: int| 0 <= i < s.len() ==> identifier_char(#[trigger] s[i])
}

/// `token` has the shape of a bundle identifier: at least three segments.
pub open spec fn bundle_id_shape(token: Seq<char>) -> bool {
    let segments = pieces(token, '.');
    segments.len() >= 3 && forall|i: int| 0 <= i < segments.len() ==> identifier_segment(#[trigger] segments[i])
}

/// Whether `s` is a segment of an identifier.
fn is_segment(s: &str) -> (r: bool)
    ensures
        r == identifier_segment(s@),
{
    let chars = text::chars_of(s);
    let mut i: usize = 0;
    while i < chars.len()
        invariant
            chars@ == s@,
            i <= chars@.len(),
            forall|j: int| 0 <= j < i ==> identifier_char(#[trigger] s@[j]),
        decreases chars@.len() - i,
    {
        let c = chars[i];
        let ok = ('a' <= c && c <= 'z') || ('A' <= c && c <= 'Z') || ('0' <= c && c <= '9') || c == '-' || c == '_';
        if !ok {
            assert(!identifier_char(s@[i as int]));
            return false;
        }
        i += 1;
    }
    chars.len() > 0
}

/// Whether `token` has the shape of a bundle identifier. Two segments are not
/// enough: such a name is far more often a tool or a stray file.
pub fn looks_like_bundle_id(token: &str) -> (r: bool)
    ensures
        r == bundle_id_shape(token@),
{
    let segments = text::split(token, '.');
    let ghost all = pieces(token@, '.');
    assert(all.len() == segments@.len());
    if segments.len() < 3 {
        return false;
    }
    let mut i: usize = 0;
    while i < segments.len()
        invariant
            all == pieces(token@, '.'),
            all == segments@.map_values(|p: String| p@),
            segments@.len() >= 3,
            i <= segments@.len(),
            forall|j: int| 0 <= j < i ==> identifier_segment(#[trigger] all[j]),
        decreases segments@.len() - i,
    {
        assert(all[i as int] == segments@[i as int]@);
        if !is_segment(segments[i].as_str()) {
            return false;
        }
        i += 1;
    }
    true
}

/// An ASCII upper-case letter or digit.
pub open spec fn team_char(c: char) -> bool {
    ('A' <= c && c <= 'Z') || ('0' <= c && c <= '9')
}

/// `token` starts with a team identifier, exactly ten upper-case
/// alphanumerics, and a dot.
pub open spec fn has_team(token: Seq<char>) -> bool {
    &&& token.len() > 10
    &&& token[10] == '.'
    &&& forall|i: int| 0 <= i < 10 ==> team_char(#[trigger] token[i])
}

/// `token` without the prefix that a group container carries.
pub open spec fn group_stripped(token: Seq<char>) -> Seq<char> {
    if begins_with(token, "group."@) {
        token.skip("group."@.len() as int)
    } else if has_team(token) {
        let rest = token.skip(11);
        if begins_with(rest, "groups."@) {
            rest.skip("groups."@.len() as int)
        } else {
            rest
        }
    } else {
        token
    }
}

/// Whether `token` starts with a team identifier.
fn starts_with_team(chars: &Vec<char>) -> (r: bool)
    ensures
        r == has_team(chars@),
{
    if chars.len() <= 10 || chars[10] != '.' {
        return false;
    }
    let mut i: usize = 0;
    while i < 10
        invariant
            i <= 10 < chars@.len(),
            forall|j: int| 0 <= j < i ==> team_char(#[trigger] chars@[j]),
        decreases 10 - i,
    {
        let c = chars[i];
        if !(('A' <= c && c <= 'Z') || ('0' <= c && c <= '9')) {
            assert(!team_char(chars@[i as int]));
            return false;
        }
        i += 1;
    }
    true
}

/// Strips the team identifier or `group.` prefix that a group container
/// carries; the token itself where there is nothing to strip.
pub fn strip_group_prefix(token: &str) -> (r: String)
    ensures
        r@ == group_stripped(token@),
{
    if let Some(rest) = text::after_prefix(token, "group.") {
        return rest;
    }
    let chars = text::chars_of(token);
    if starts_with_team(&chars) {
        let rest = text::text_of(chars.as_slice(), 11, chars.len());
        assert(rest@ =~= token@.skip(11));
        match text::after_prefix(rest.as_str(), "groups.") {
            Some(shorter) => shorter,
            None => rest,
        }
    } else {
        token.to_owned()
    }
}

/// `token` names something that belongs to macOS itself. The marker is looked
/// for anywhere: system groups carry it in the middle.
pub open spec fn apple_owned(token: Seq<char>) -> bool {
    let t = lowercase_of(token);
    occurs(t, "com.apple."@) || begins_with(t, "apple."@) || occurs(t, "is.workflow."@)
}

/// Whether `token` names something that belongs to macOS itself.
pub fn is_apple_identifier(token: &str) -> (r: bool)
    ensures
        r == apple_owned(token@),
{
    let t = text::to_lowercase(token);
    text::contains(t.as_str(), "com.apple.") || text::starts_with(t.as_str(), "apple.") || text::contains(
        t.as_str(),
        "is.workflow.",
    )
}

/// `t` is `known`, or extends it past a dot or an underscore.
pub open spec fn extends_known(t: Seq<char>, known: Seq<char>) -> bool {
    t == known || (t.len() > known.len() && begins_with(t, known) && (t[known.len() as int] == '.' || t[known.len() as int]
        == '_'))
}

/// One of `installed` accounts for `token`: it is that identifier, or extends
/// it past a boundary.
pub open spec fn accounted_for(token: Seq<char>, installed: Seq<Seq<char>>) -> bool {
    exists|i: int| 0 <= i < installed.len() && extends_known(lowercase_of(token), #[trigger] installed[i])
}

/// Whether one of `installed` accounts for `token`.
pub fn is_accounted_for(token: &str, installed: &Vec<String>) -> (r: bool)
    ensures
        r == accounted_for(token@, strings(installed@)),
{
    let t = text::to_lowercase(token);
    let chars = text::chars_of(t.as_str());
    let ghost all = strings(installed@);
    let mut i: usize = 0;
    while i < installed.len()
        invariant
            all == strings(installed@),
            t@ == lowercase_of(token@),
            chars@ == t@,
            i <= installed@.len(),
            forall|j: int| 0 <= j < i ==> !extends_known(t@, #[trigger] all[j]),
        decreases installed@.len() - i,
    {
        let known: &String = &installed[i];
        assert(all[i as int] == known@);
        let n: usize = text::chars_of(known.as_str()).len();
        if t == *known || (chars.len() > n && text::starts_with(t.as_str(), known.as_str()) && (chars[n] == '.'
            || chars[n] == '_')) {
            return true;
        }
        i += 1;
    }
    assert(all.len() == installed@.len());
    false
}

/// `name` without the first of `suffixes` that it ends with.
pub open spec fn undecorated(name: Seq<char>, suffixes: Seq<&'static str>) -> Seq<char>
    decreases suffixes.len(),
{
    if suffixes.len() == 0 {
        name
    } else if finishes_with(name, suffixes[0]@) {
        name.take(name.len() - suffixes[0]@.len())
    } else {
        undecorated(name, suffixes.drop_first())
    }
}

/// Strips a decorating suffix from an entry name, leaving the identifier.
pub fn token_of(name: &str) -> (r: String)
    ensures
        r@ == undecorated(name@, DECORATIONS@),
{
    let all = DECORATIONS;
    let mut i: usize = 0;
    assert(all@.skip(0) =~= all@);
    while i < 6
        invariant
            all@ == DECORATIONS@,
            i <= 6,
            undecorated(name@, DECORATIONS@) == undecorated(name@, all@.skip(i as int)),
        decreases 6 - i,
    {
        assert(all@.skip(i as int).drop_first() =~= all@.skip(i + 1));
        if let Some(stripped) = text::before_suffix(name, all[i]) {
            return stripped;
        }
        i += 1;
    }
    name.to_owned()
}

/// The last piece that is not empty, or `whole`.
pub open spec fn last_filled(segments: Seq<Seq<char>>, whole: Seq<char>) -> Seq<char>
    decreases segments.len(),
{
    if segments.len() == 0 {
        whole
    } else if segments.last().len() > 0 {
        segments.last()
    } else {
        last_filled(segments.drop_last(), whole)
    }
}

/// A readable name for an identifier: its last segment, conventionally the
/// product's name.
pub open spec fn readable_name(id: Seq<char>) -> Seq<char> {
    last_filled(pieces(id, '.'), id)
}

/// A readable name for an identifier.
pub fn display_name_for(bundle_id: &str) -> (r: String)
    ensures
        r@ == readable_name(bundle_id@),
{
    let segments = text::split(bundle_id, '.');
    let ghost all = pieces(bundle_id@, '.');
    let mut i: usize = segments.len();
    assert(all.len() == segments@.len());
    assert(all.take(i as int) =~= all);
    while i > 0
        invariant
            all == segments@.map_values(|p: String| p@),
            i <= segments@.len(),
            readable_name(bundle_id@) == last_filled(all.take(i as int), bundle_id@),
        decreases i,
    {
        assert(all.take(i as int).last() == segments@[i - 1]@);
        assert(all.take(i as int).drop_last() =~= all.take(i - 1));
        if text::chars_of(segments[i - 1].as_str()).len() > 0 {
            return segments[i - 1].clone();
        }
        i -= 1;
    }
    bundle_id.to_owned()
}

/// The entry `name` is part of the structure of the subdirectory `sub`.
pub open spec fn structural(sub: Seq<char>, name: Seq<char>) -> bool {
    exists|i: int|
        0 <= i < STRUCTURAL_ENTRIES@.len() && (#[trigger] STRUCTURAL_ENTRIES@[i]).0@ == sub && STRUCTURAL_ENTRIES@[i].1@
            == name
}

/// Whether the entry `name` is part of the structure of `sub`.
fn is_structural(sub: &str, name: &str) -> (r: bool)
    ensures
        r == structural(sub@, name@),
{
    let all = STRUCTURAL_ENTRIES;
    let mut i: usize = 0;
    while i < 7
        invariant
            all@ == STRUCTURAL_ENTRIES@,
            i <= 7,
            forall|j: int|
                0 <= j < i ==> !((#[trigger] STRUCTURAL_ENTRIES@[j]).0@ == sub@ && STRUCTURAL_ENTRIES@[j].1@ == name@),
        decreases 7 - i,
    {
        if text::same_text(all[i].0, sub) && text::same_text(all[i].1, name) {
            assert(STRUCTURAL_ENTRIES@[i as int].0@ == sub@);
            return true;
        }
        i += 1;
    }
    false
}

/// `path` is something that the orphan cleaner may remove: an entry directly
/// inside a scanned directory of this home, and not part of its structure.
pub open spec fn orphan_place(path: Seq<char>, home: Seq<char>) -> bool {
    &&& has_parent(path)
    &&& last_name(path) is Some
    &&& exists|i: int|
        {
            &&& 0 <= i < SCAN_DIRS@.len()
            &&& same_path(parent_text(path), joined(joined(home, "Library"@), (#[trigger] SCAN_DIRS@[i]).1@))
            &&& !structural(SCAN_DIRS@[i].1@, last_name(path)->0)
        }
}

/// Whether `path` is something that the orphan cleaner may remove. Every path
/// is held against this before removal.
pub fn is_orphan_path(path: &FsPath, home: &FsPath) -> (r: bool)
    ensures
        r == orphan_place(path@, home@),
{
    let parent = match path.parent() {
        Some(parent) => parent,
        None => {
            return false;
        },
    };
    let name = match path.file_name() {
        Some(name) => name,
        None => {
            return false;
        },
    };
    let lib = home.join("Library");
    let all = SCAN_DIRS;
    let mut i: usize = 0;
    while i < 12
        invariant
            all@ == SCAN_DIRS@,
            i <= 12,
            has_parent(path@),
            parent@ == parent_text(path@),
            last_name(path@) == Some(name@),
            lib@ == joined(home@, "Library"@),
            forall|j: int|
                0 <= j < i ==> !(same_path(parent_text(path@), joined(lib@, (#[trigger] SCAN_DIRS@[j]).1@))
                    && !structural(SCAN_DIRS@[j].1@, name@)),
        decreases 12 - i,
    {
        let sub: &'static str = all[i].1;
        if parent.same(&lib.join(sub)) && !is_structural(sub, name.as_str()) {
            assert(SCAN_DIRS@[i as int].1@ == sub@);
            return true;
        }
        i += 1;
    }
    false
}

/// The directories searched when deciding what is installed, beyond those of
/// the uninstaller.
pub const INSTALL_DIRS: [&'static str; 12] = [
    "/Applications/Utilities",
    "/System/Applications",
    "/System/Applications/Utilities",
    "/System/Library/CoreServices",
    "/Library/Input Methods",
    "/Library/PreferencePanes",
    "/Library/Internet Plug-Ins",
    "/Library/CoreServices",
    "/Library/QuickLook",
    "/Library/Spotlight",
    "/Library/Application Support",
    "/Library/PrivilegedHelperTools",
];

/// The same, under the home directory.
pub const HOME_INSTALL_DIRS: [&'static str; 4] = [
    "Library/Input Methods",
    "Library/PreferencePanes",
    "Library/Internet Plug-Ins",
    "Library/Services",
];

/// The directories searched when deciding what is installed.
pub open spec fn install_places(home: Option<Seq<char>>) -> Seq<Seq<char>> {
    (match home {
        Some(h) => seq!["/Applications"@, joined(h, "Applications"@)],
        None => seq!["/Applications"@],
    }) + INSTALL_DIRS@.map_values(|d: &'static str| d@) + match home {
        Some(h) => HOME_INSTALL_DIRS@.map_values(|d: &'static str| joined(h, d@)),
        None => Seq::empty(),
    }
}

/// The directories searched when deciding what is installed: everything that
/// might own a support file, because an omission here offers a live
/// component's data up for deletion.
pub fn installed_app_dirs(home: Option<&FsPath>) -> (r: Vec<FsPath>)
    ensures
        texts(r@) == install_places(opt_view(home)),
{
    let mut dirs = apps::default_app_dirs(home);
    let ghost first = texts(dirs@);
    let ghost fixed = INSTALL_DIRS@.map_values(|d: &'static str| d@);
    let all = INSTALL_DIRS;
    let mut i: usize = 0;
    assert(texts(dirs@) =~= first + fixed.take(0));
    while i < 12
        invariant
            all@ == INSTALL_DIRS@,
            fixed == INSTALL_DIRS@.map_values(|d: &'static str| d@),
            i <= 12,
            texts(dirs@) == first + fixed.take(i as int),
        decreases 12 - i,
    {
        let ghost before = texts(dirs@);
        dirs.push(FsPath::new(all[i]));
        assert(texts(dirs@) =~= before.push(fixed[i as int]));
        assert(texts(dirs@) =~= first + fixed.take(i + 1));
        i += 1;
    }
    assert(fixed.take(12) =~= fixed);
    if let Some(home) = home {
        let ghost second = texts(dirs@);
        let ghost mine = HOME_INSTALL_DIRS@.map_values(|d: &'static str| joined(home@, d@));
        let subs = HOME_INSTALL_DIRS;
        let mut j: usize = 0;
        assert(texts(dirs@) =~= second + mine.take(0));
        while j < 4
            invariant
                subs@ == HOME_INSTALL_DIRS@,
                mine == HOME_INSTALL_DIRS@.map_values(|d: &'static str| joined(home@, d@)),
                j <= 4,
                texts(dirs@) == second + mine.take(j as int),
            decreases 4 - j,
        {
            let ghost before = texts(dirs@);
            dirs.push(home.join(subs[j]));
            assert(texts(dirs@) =~= before.push(mine[j as int]));
            assert(texts(dirs@) =~= second + mine.take(j + 1));
            j += 1;
        }
        assert(mine.take(4) =~= mine);
    } else {
        assert(texts(dirs@) =~= install_places(opt_view(home)));
    }
    dirs
}

/// The metadata is that of a directory.
pub open spec fn dir_stat(stat: Option<Stat>) -> bool {
    stat is Some && stat->0.is_dir
}

/// The metadata is that of a regular file.
pub open spec fn file_stat(stat: Option<Stat>) -> bool {
    stat is Some && stat->0.is_file
}

/// Whether `path` is a directory, its links followed.
fn is_dir_at<D: Disk>(path: &FsPath, disk: &D) -> (r: bool)
    ensures
        forall|still: StillDisk| #[trigger] stands_still(disk, still) ==> r == dir_stat((still.stat)(path@)),
{
    let stat = disk.stat(path);
    assert(call_ensures(D::stat, (disk, path), stat));
    match stat {
        Some(stat) => stat.is_dir,
        None => false,
    }
}

/// `path` is a bundle: it holds `Contents/Info.plist`, whatever its name.
pub open spec fn bundle_at(still: StillDisk, path: Seq<char>) -> bool {
    file_stat((still.stat)(joined(path, "Contents/Info.plist"@)))
}

/// Whether `path` is a bundle.
fn is_bundle<D: Disk>(path: &FsPath, disk: &D) -> (r: bool)
    ensures
        forall|still: StillDisk| #[trigger] stands_still(disk, still) ==> r == bundle_at(still, path@),
{
    let info = path.join("Contents/Info.plist");
    let stat = disk.stat(&info);
    assert(call_ensures(D::stat, (disk, &info), stat));
    match stat {
        Some(stat) => stat.is_file,
        None => false,
    }
}

/// The bundles among the entries of a folder that is no bundle itself.
pub open spec fn suite_bundles(still: StillDisk, dir: Seq<char>, entries: Seq<(Seq<char>, bool)>) -> Seq<Seq<char>>
    decreases entries.len(),
{
    if entries.len() == 0 {
        Seq::empty()
    } else {
        let before = suite_bundles(still, dir, entries.drop_last());
        let path = joined(dir, entries.last().0);
        if dir_stat((still.stat)(path)) && bundle_at(still, path) {
            before.push(path)
        } else {
            before
        }
    }
}

/// The bundles among the entries of `dir`, and those one level inside the
/// folders that are no bundles themselves.
pub open spec fn bundles_among(still: StillDisk, dir: Seq<char>, entries: Seq<(Seq<char>, bool)>) -> Seq<Seq<char>>
    decreases entries.len(),
{
    if entries.len() == 0 {
        Seq::empty()
    } else {
        let before = bundles_among(still, dir, entries.drop_last());
        let path = joined(dir, entries.last().0);
        if !dir_stat((still.stat)(path)) {
            before
        } else if bundle_at(still, path) {
            before.push(path)
        } else {
            match (still.list)(path) {
                Some(nested) => before + suite_bundles(still, path, nested),
                None => before,
            }
        }
    }
}

/// Every installed bundle under a list of directories.
pub open spec fn bundles_in(still: StillDisk, dirs: Seq<Seq<char>>) -> Seq<Seq<char>>
    decreases dirs.len(),
{
    if dirs.len() == 0 {
        Seq::empty()
    } else {
        bundles_in(still, dirs.drop_last()) + match (still.list)(dirs.last()) {
            Some(entries) => bundles_among(still, dirs.last(), entries),
            None => Seq::empty(),
        }
    }
}

/// Lists a directory; what comes back is what a still filesystem shows.
fn listing<D: Disk>(dir: &FsPath, disk: &D) -> (r: Option<Vec<DirItem>>)
    ensures
        forall|still: StillDisk| #[trigger]
            stands_still(disk, still) ==> match r {
                Some(entries) => (still.list)(dir@) == Some(entries_view(entries@)),
                None => (still.list)(dir@) is None,
            },
{
    let r = disk.list(dir);
    assert(call_ensures(D::list, (disk, dir), r));
    r
}

fn add_suite<D: Disk>(dir: &FsPath, entries: &Vec<DirItem>, disk: &D, out: &mut Vec<FsPath>)
    ensures
        forall|still: StillDisk| #[trigger]
            stands_still(disk, still) ==> texts(final(out)@) == texts(old(out)@) + suite_bundles(
                still,
                dir@,
                entries_view(entries@),
            ),
{
    let ghost all = entries_view(entries@);
    let ghost start = texts(out@);
    let mut i: usize = 0;
    assert forall|still: StillDisk| #[trigger] stands_still(disk, still) implies texts(out@) == start + suite_bundles(
        still,
        dir@,
        all.take(0),
    ) by {
        assert(start + suite_bundles(still, dir@, all.take(0)) =~= start);
    }
    while i < entries.len()
        invariant
            all == entries_view(entries@),
            i <= entries@.len(),
            forall|still: StillDisk| #[trigger]
                stands_still(disk, still) ==> texts(out@) == start + suite_bundles(still, dir@, all.take(i as int)),
        decreases entries@.len() - i,
    {
        let ghost before = texts(out@);
        assert(all.take(i + 1).drop_last() =~= all.take(i as int));
        assert(all.take(i + 1).last().0 == entries@[i as int].name@);
        let path = dir.join(entries[i].name.as_str());
        let ghost here = path@;
        if is_dir_at(&path, disk) && is_bundle(&path, disk) {
            out.push(path);
            assert(texts(out@) =~= before.push(here));
            assert forall|still: StillDisk| #[trigger] stands_still(disk, still) implies texts(out@) == start
                + suite_bundles(still, dir@, all.take(i + 1)) by {
                assert(texts(out@) =~= start + suite_bundles(still, dir@, all.take(i + 1)));
            }
        }
        i += 1;
    }
    assert(all.take(i as int) =~= all);
}

fn add_bundles<D: Disk>(dir: &FsPath, entries: &Vec<DirItem>, disk: &D, out: &mut Vec<FsPath>)
    ensures
        forall|still: StillDisk| #[trigger]
            stands_still(disk, still) ==> texts(final(out)@) == texts(old(out)@) + bundles_among(
                still,
                dir@,
                entries_view(entries@),
            ),
{
    let ghost all = entries_view(entries@);
    let ghost start = texts(out@);
    let mut i: usize = 0;
    assert forall|still: StillDisk| #[trigger] stands_still(disk, still) implies texts(out@) == start + bundles_among(
        still,
        dir@,
        all.take(0),
    ) by {
        assert(start + bundles_among(still, dir@, all.take(0)) =~= start);
    }
    while i < entries.len()
        invariant
            all == entries_view(entries@),
            i <= entries@.len(),
            forall|still: StillDisk| #[trigger]
                stands_still(disk, still) ==> texts(out@) == start + bundles_among(still, dir@, all.take(i as int)),
        decreases entries@.len() - i,
    {
        let ghost before = texts(out@);
        let ghost part = all.take(i + 1);
        assert(part.drop_last() =~= all.take(i as int));
        assert(part.last().0 == entries@[i as int].name@);
        let path = dir.join(entries[i].name.as_str());
        let ghost here = path@;
        if is_dir_at(&path, disk) {
            if is_bundle(&path, disk) {
                out.push(path);
                assert(texts(out@) =~= before.push(here));
                assert forall|still: StillDisk| #[trigger] stands_still(disk, still) implies texts(out@) == start
                    + bundles_among(still, dir@, part) by {
                    assert(texts(out@) =~= start + bundles_among(still, dir@, part));
                }
            } else {
                match listing(&path, disk) {
                    Some(nested) => {
                        add_suite(&path, &nested, disk, out);
                        assert forall|still: StillDisk| #[trigger] stands_still(disk, still) implies texts(out@)
                            == start + bundles_among(still, dir@, part) by {
                            assert(texts(out@) =~= start + bundles_among(still, dir@, part));
                        }
                    },
                    None => {},
                }
            }
        }
        i += 1;
    }
    assert(all.take(i as int) =~= all);
}

/// Every installed bundle found under `app_dirs`.
pub fn installed_app_bundles<D: Disk>(app_dirs: &Vec<FsPath>, disk: &D) -> (r: Vec<FsPath>)
    ensures
        forall|still: StillDisk| #[trigger]
            stands_still(disk, still) ==> texts(r@) == bundles_in(still, texts(app_dirs@)),
{
    let ghost all = texts(app_dirs@);
    let mut out: Vec<FsPath> = Vec::new();
    let mut i: usize = 0;
    assert(texts(out@) =~= Seq::<Seq<char>>::empty());
    while i < app_dirs.len()
        invariant
            all == texts(app_dirs@),
            i <= app_dirs@.len(),
            forall|still: StillDisk| #[trigger]
                stands_still(disk, still) ==> texts(out@) == bundles_in(still, all.take(i as int)),
        decreases app_dirs@.len() - i,
    {
        let ghost before = texts(out@);
        assert(all.take(i + 1).drop_last() =~= all.take(i as int));
        assert(all.take(i + 1).last() == app_dirs@[i as int]@);
        match listing(&app_dirs[i], disk) {
            Some(entries) => {
                add_bundles(&app_dirs[i], &entries, disk, &mut out);
            },
            None => {
                assert forall|still: StillDisk| #[trigger] stands_still(disk, still) implies texts(out@)
                    == bundles_in(still, all.take(i + 1)) by {
                    assert(bundles_in(still, all.take(i + 1)) =~= before);
                }
            },
        }
        i += 1;
    }
    assert(all.take(i as int) =~= all);
    out
}

/// The identifier that a property list holds, in lower case.
pub open spec fn plist_id(bytes: Option<Seq<u8>>) -> Option<Seq<char>> {
    match info_text(bytes, "CFBundleIdentifier"@) {
        Some(id) => Some(lowercase_of(id)),
        None => None,
    }
}

/// `id` was read from a property list on disk.
pub open spec fn read_from<D: Disk>(disk: &D, id: Seq<char>) -> bool {
    exists|p: FsPath, bytes: Option<Vec<u8>>| #[trigger]
        call_ensures(D::read, (disk, &p), bytes) && plist_id(bytes_view(bytes)) == Some(id)
}

/// Reads the identifier that a property list holds, in lower case.
pub fn read_bundle_id<D: Disk>(plist: &FsPath, disk: &D) -> (r: Option<String>)
    ensures
        r is Some ==> read_from(disk, r->0@),
        forall|still: StillDisk| #[trigger]
            stands_still(disk, still) ==> opt_text(r) == plist_id((still.bytes)(plist@)),
{
    let bytes = disk.read(plist);
    assert(call_ensures(D::read, (disk, plist), bytes));
    match info_string(&bytes, "CFBundleIdentifier") {
        Some(id) => Some(text::to_lowercase(id.as_str())),
        None => None,
    }
}

/// The identifier of a nested bundle: apps keep their property list under
/// `Contents`, frameworks under `Resources` or the current version.
pub open spec fn nested_id(still: StillDisk, child: Seq<char>) -> Option<Seq<char>> {
    let first = plist_id((still.bytes)(joined(child, "Contents/Info.plist"@)));
    let second = plist_id((still.bytes)(joined(child, "Resources/Info.plist"@)));
    if first is Some {
        first
    } else if second is Some {
        second
    } else {
        plist_id((still.bytes)(joined(child, "Versions/Current/Resources/Info.plist"@)))
    }
}

/// The identifiers of the bundles among the entries of `dir`.
pub open spec fn ids_among(still: StillDisk, dir: Seq<char>, entries: Seq<(Seq<char>, bool)>) -> Seq<Seq<char>>
    decreases entries.len(),
{
    if entries.len() == 0 {
        Seq::empty()
    } else {
        let before = ids_among(still, dir, entries.drop_last());
        match nested_id(still, joined(dir, entries.last().0)) {
            Some(id) => before.push(id),
            None => before,
        }
    }
}

/// The identifiers of the bundles inside the first `n` of the places where a
/// bundle may hold others.
pub open spec fn nested_ids(still: StillDisk, app: Seq<char>, n: nat) -> Seq<Seq<char>>
    decreases n,
{
    if n == 0 {
        Seq::empty()
    } else {
        let dir = joined(app, NESTED_BUNDLE_DIRS@[n - 1]@);
        nested_ids(still, app, (n - 1) as nat) + match (still.list)(dir) {
            Some(entries) => ids_among(still, dir, entries),
            None => Seq::empty(),
        }
    }
}

/// The identifier of a bundle, and those of the bundles nested one level
/// inside it.
pub open spec fn ids_within(still: StillDisk, app: Seq<char>) -> Seq<Seq<char>> {
    (match plist_id((still.bytes)(joined(app, "Contents/Info.plist"@))) {
        Some(id) => seq![id],
        None => Seq::empty(),
    }) + nested_ids(still, app, 15)
}

/// Every identifier of a list was read from disk.
pub open spec fn all_read<D: Disk>(disk: &D, ids: Seq<String>) -> bool {
    forall|i: int| 0 <= i < ids.len() ==> read_from(disk, (#[trigger] ids[i])@)
}

fn nested_bundle_id<D: Disk>(child: &FsPath, disk: &D) -> (r: Option<String>)
    ensures
        r is Some ==> read_from(disk, r->0@),
        forall|still: StillDisk| #[trigger] stands_still(disk, still) ==> opt_text(r) == nested_id(still, child@),
{
    let first = read_bundle_id(&child.join("Contents/Info.plist"), disk);
    if first.is_some() {
        return first;
    }
    let second = read_bundle_id(&child.join("Resources/Info.plist"), disk);
    if second.is_some() {
        return second;
    }
    read_bundle_id(&child.join("Versions/Current/Resources/Info.plist"), disk)
}

fn add_ids<D: Disk>(dir: &FsPath, entries: &Vec<DirItem>, disk: &D, out: &mut Vec<String>)
    requires
        all_read(disk, old(out)@),
    ensures
        all_read(disk, final(out)@),
        forall|still: StillDisk| #[trigger]
            stands_still(disk, still) ==> strings(final(out)@) == strings(old(out)@) + ids_among(
                still,
                dir@,
                entries_view(entries@),
            ),
{
    let ghost all = entries_view(entries@);
    let ghost start = strings(out@);
    let mut i: usize = 0;
    assert forall|still: StillDisk| #[trigger] stands_still(disk, still) implies strings(out@) == start + ids_among(
        still,
        dir@,
        all.take(0),
    ) by {
        assert(start + ids_among(still, dir@, all.take(0)) =~= start);
    }
    while i < entries.len()
        invariant
            all == entries_view(entries@),
            i <= entries@.len(),
            all_read(disk, out@),
            forall|still: StillDisk| #[trigger]
                stands_still(disk, still) ==> strings(out@) == start + ids_among(still, dir@, all.take(i as int)),
        decreases entries@.len() - i,
    {
        let ghost before = strings(out@);
        assert(all.take(i + 1).drop_last() =~= all.take(i as int));
        assert(all.take(i + 1).last().0 == entries@[i as int].name@);
        let child = dir.join(entries[i].name.as_str());
        match nested_bundle_id(&child, disk) {
            Some(id) => {
                let ghost here = id@;
                out.push(id);
                assert(strings(out@) =~= before.push(here));
                assert forall|still: StillDisk| #[trigger] stands_still(disk, still) implies strings(out@) == start
                    + ids_among(still, dir@, all.take(i + 1)) by {
                    assert(nested_id(still, child@) == Some(here));
                    assert(strings(out@) =~= start + ids_among(still, dir@, all.take(i + 1)));
                }
            },
            None => {},
        }
        i += 1;
    }
    assert(all.take(i as int) =~= all);
}

/// The identifier of `app`, and those of the bundles nested one level inside
/// it.
pub fn bundle_ids_within<D: Disk>(app: &FsPath, disk: &D) -> (r: Vec<String>)
    ensures
        all_read(disk, r@),
        forall|still: StillDisk| #[trigger] stands_still(disk, still) ==> strings(r@) == ids_within(still, app@),
{
    let mut out: Vec<String> = Vec::new();
    assert(strings(out@) =~= Seq::<Seq<char>>::empty());
    let own = read_bundle_id(&app.join("Contents/Info.plist"), disk);
    let ghost own_text = opt_text(own);
    match own {
        Some(id) => {
            out.push(id);
            assert(strings(out@) =~= seq![id@]);
        },
        None => {},
    }
    let ghost first = strings(out@);
    let dirs = NESTED_BUNDLE_DIRS;
    let mut i: usize = 0;
    assert forall|still: StillDisk| #[trigger] stands_still(disk, still) implies strings(out@) == first + nested_ids(
        still,
        app@,
        0,
    ) by {
        assert(first + nested_ids(still, app@, 0) =~= first);
    }
    while i < 15
        invariant
            dirs@ == NESTED_BUNDLE_DIRS@,
            i <= 15,
            all_read(disk, out@),
            forall|still: StillDisk| #[trigger]
                stands_still(disk, still) ==> strings(out@) == first + nested_ids(still, app@, i as nat),
        decreases 15 - i,
    {
        let ghost before = strings(out@);
        let dir = app.join(dirs[i]);
        match listing(&dir, disk) {
            Some(entries) => {
                add_ids(&dir, &entries, disk, &mut out);
                assert forall|still: StillDisk| #[trigger] stands_still(disk, still) implies strings(out@) == first
                    + nested_ids(still, app@, i as nat + 1) by {
                    assert(strings(out@) =~= first + nested_ids(still, app@, i as nat + 1));
                }
            },
            None => {
                assert forall|still: StillDisk| #[trigger] stands_still(disk, still) implies strings(out@) == first
                    + nested_ids(still, app@, i as nat + 1) by {
                    assert(strings(out@) =~= first + nested_ids(still, app@, i as nat + 1));
                }
            },
        }
        i += 1;
    }
    assert forall|still: StillDisk| #[trigger] stands_still(disk, still) implies strings(out@) == ids_within(
        still,
        app@,
    ) by {
        assert(own_text == plist_id((still.bytes)(joined(app@, "Contents/Info.plist"@))));
    }
    out
}

/// `id` is the identifier of an installed bundle, or of one nested in it.
pub open spec fn installed_id(still: StillDisk, bundles: Seq<Seq<char>>, id: Seq<char>) -> bool {
    exists|i: int| 0 <= i < bundles.len() && ids_within(still, #[trigger] bundles[i]).contains(id)
}

/// Every bundle identifier that some installed app accounts for, each once.
pub fn installed_bundle_ids<D: Disk>(app_dirs: &Vec<FsPath>, disk: &D) -> (r: Vec<String>)
    ensures
        all_read(disk, r@),
        strings(r@).no_duplicates(),
        forall|still: StillDisk, id: Seq<char>|
            #![trigger stands_still(disk, still), strings(r@).contains(id)]
            stands_still(disk, still) ==> (strings(r@).contains(id) <==> installed_id(
                still,
                bundles_in(still, texts(app_dirs@)),
                id,
            )),
{
    let bundles = installed_app_bundles(app_dirs, disk);
    let ghost all = texts(bundles@);
    let mut out: Vec<String> = Vec::new();
    let mut i: usize = 0;
    while i < bundles.len()
        invariant
            all == texts(bundles@),
            i <= bundles@.len(),
            all_read(disk, out@),
            strings(out@).no_duplicates(),
            forall|still: StillDisk, id: Seq<char>|
                #![trigger stands_still(disk, still), strings(out@).contains(id)]
                stands_still(disk, still) ==> (strings(out@).contains(id) <==> installed_id(
                    still,
                    all.take(i as int),
                    id,
                )),
        decreases bundles@.len() - i,
    {
        let ghost before = strings(out@);
        let more = bundle_ids_within(&bundles[i], disk);
        merge_ids(&mut out, &more, disk);
        assert forall|still: StillDisk, id: Seq<char>|
            #![trigger stands_still(disk, still), strings(out@).contains(id)]
            stands_still(disk, still) implies (strings(out@).contains(id) <==> installed_id(still, all.take(i + 1), id)) by {
            assert(strings(more@) == ids_within(still, all[i as int]));
            assert(before.contains(id) <==> installed_id(still, all.take(i as int), id));
            if installed_id(still, all.take(i as int), id) {
                let k = choose|k: int|
                    0 <= k < all.take(i as int).len() && ids_within(still, #[trigger] all.take(i as int)[k]).contains(id);
                assert(all.take(i + 1)[k] == all.take(i as int)[k]);
            }
            if strings(more@).contains(id) {
                assert(ids_within(still, all.take(i + 1)[i as int]).contains(id));
            }
            if installed_id(still, all.take(i + 1), id) {
                let k = choose|k: int|
                    0 <= k < all.take(i + 1).len() && ids_within(still, #[trigger] all.take(i + 1)[k]).contains(id);
                if k < i {
                    assert(all.take(i as int)[k] == all.take(i + 1)[k]);
                }
            }
        }
        i += 1;
    }
    assert(all.take(i as int) =~= all);
    out
}

/// Adds the identifiers that are not there yet.
fn merge_ids<D: Disk>(out: &mut Vec<String>, more: &Vec<String>, disk: &D)
    requires
        all_read(disk, old(out)@),
        all_read(disk, more@),
        strings(old(out)@).no_duplicates(),
    ensures
        all_read(disk, final(out)@),
        strings(final(out)@).no_duplicates(),
        forall|id: Seq<char>| #[trigger]
            strings(final(out)@).contains(id) <==> strings(old(out)@).contains(id) || strings(more@).contains(id),
{
    let ghost start = strings(out@);
    let ghost extra = strings(more@);
    let mut i: usize = 0;
    while i < more.len()
        invariant
            extra == strings(more@),
            i <= more@.len(),
            all_read(disk, out@),
            all_read(disk, more@),
            strings(out@).no_duplicates(),
            forall|id: Seq<char>| #[trigger]
                strings(out@).contains(id) <==> start.contains(id) || extra.take(i as int).contains(id),
        decreases more@.len() - i,
    {
        let ghost before = strings(out@);
        let ghost here = more@[i as int]@;
        let ghost seen = extra.take(i as int);
        let ghost now_seen = extra.take(i + 1);
        assert(now_seen =~= seen.push(here));
        if !holds(out, &more[i]) {
            out.push(more[i].clone());
            assert(strings(out@) =~= before.push(here));
        }
        proof {
            let now = strings(out@);
            assert forall|id: Seq<char>| #[trigger] now.contains(id) <==> start.contains(id) || now_seen.contains(id) by {
                lemma_push_contains(before, here, id);
                lemma_push_contains(seen, here, id);
                assert(before.contains(id) <==> start.contains(id) || seen.contains(id));
            }
        }
        i += 1;
    }
    assert(extra.take(i as int) =~= extra);
}

proof fn lemma_push_contains(s: Seq<Seq<char>>, x: Seq<char>, id: Seq<char>)
    ensures
        s.push(x).contains(id) <==> s.contains(id) || id == x,
{
    if s.contains(id) {
        let k = choose|k: int| 0 <= k < s.len() && s[k] == id;
        assert(s.push(x)[k] == id);
    }
    if id == x {
        assert(s.push(x)[s.len() as int] == id);
    }
}

/// Whether `id` is in the list.
fn holds(ids: &Vec<String>, id: &String) -> (r: bool)
    ensures
        r == strings(ids@).contains(id@),
{
    let mut i: usize = 0;
    while i < ids.len()
        invariant
            i <= ids@.len(),
            forall|j: int| 0 <= j < i ==> #[trigger] strings(ids@)[j] != id@,
        decreases ids@.len() - i,
    {
        if ids[i] == *id {
            assert(strings(ids@)[i as int] == id@);
            return true;
        }
        i += 1;
    }
    assert(strings(ids@).len() == ids@.len());
    false
}

/// One support file left behind by an app that is no longer installed.
#[derive(Debug)]
pub struct OrphanItem {
    /// Human-readable category.
    pub kind: String,
    pub path: FsPath,
    pub size_bytes: u64,
}

/// The leftovers of one vanished app, grouped by the identifier they share.
#[derive(Debug)]
pub struct OrphanApp {
    /// The bundle identifier the entries are named after.
    pub bundle_id: String,
    /// A readable name derived from the identifier.
    pub display_name: String,
    pub items: Vec<OrphanItem>,
    pub total_bytes: u64,
}

/// A leftover with the identifier it is named after.
#[derive(Debug)]
pub struct Candidate {
    pub id: String,
    pub item: OrphanItem,
}

/// An orphaned file, as a mathematical value.
pub struct OrphanItemView {
    pub kind: Seq<char>,
    pub path: Seq<char>,
    pub size: nat,
}

/// A leftover with its identifier, as a mathematical value.
pub struct CandidateView {
    pub id: Seq<char>,
    pub item: OrphanItemView,
}

/// A vanished app, as a mathematical value.
pub struct OrphanView {
    pub bundle_id: Seq<char>,
    pub display_name: Seq<char>,
    pub items: Seq<OrphanItemView>,
    pub total: nat,
}

impl View for OrphanItem {
    type V = OrphanItemView;

    open spec fn view(&self) -> OrphanItemView {
        OrphanItemView { kind: self.kind@, path: self.path@, size: self.size_bytes as nat }
    }
}

impl View for Candidate {
    type V = CandidateView;

    open spec fn view(&self) -> CandidateView {
        CandidateView { id: self.id@, item: self.item@ }
    }
}

/// What a list of orphaned files stands for.
pub open spec fn items_view(v: Seq<OrphanItem>) -> Seq<OrphanItemView> {
    v.map_values(|i: OrphanItem| i@)
}

/// What a list of candidates stands for.
pub open spec fn candidates_view(v: Seq<Candidate>) -> Seq<CandidateView> {
    v.map_values(|c: Candidate| c@)
}

impl View for OrphanApp {
    type V = OrphanView;

    open spec fn view(&self) -> OrphanView {
        OrphanView {
            bundle_id: self.bundle_id@,
            display_name: self.display_name@,
            items: items_view(self.items@),
            total: self.total_bytes as nat,
        }
    }
}

/// What a list of vanished apps stands for.
pub open spec fn orphans_view(v: Seq<OrphanApp>) -> Seq<OrphanView> {
    v.map_values(|o: OrphanApp| o@)
}

/// The identifier that the entry `name` of the subdirectory `sub` is an
/// orphan of. Hidden and structural entries are none; neither is what, without
/// the prefix of a group, has no identifier's shape, belongs to macOS, or is
/// accounted for by an installed app.
pub open spec fn orphan_id(sub: Seq<char>, name: Seq<char>, installed: Seq<Seq<char>>) -> Option<Seq<char>> {
    let token = undecorated(name, DECORATIONS@);
    let id = group_stripped(token);
    if begins_with(name, "."@) || structural(sub, name) || !bundle_id_shape(id) || apple_owned(id) || accounted_for(
        id,
        installed,
    ) {
        None
    } else {
        Some(lowercase_of(id))
    }
}

/// The identifier that an entry is an orphan of, if it is one.
pub fn orphan_id_of(sub: &str, name: &str, installed: &Vec<String>) -> (r: Option<String>)
    ensures
        opt_text(r) == orphan_id(sub@, name@, strings(installed@)),
{
    if text::starts_with(name, ".") || is_structural(sub, name) {
        return None;
    }
    let token = token_of(name);
    let id = strip_group_prefix(token.as_str());
    if !looks_like_bundle_id(id.as_str()) {
        return None;
    }
    if is_apple_identifier(id.as_str()) || is_accounted_for(id.as_str(), installed) {
        return None;
    }
    Some(text::to_lowercase(id.as_str()))
}

/// The sizes of a list of orphaned files.
pub open spec fn item_sizes(v: Seq<OrphanItemView>) -> Seq<u64> {
    v.map_values(|i: OrphanItemView| i.size as u64)
}

/// The sizes of a list of orphaned files, added up.
pub open spec fn items_size(v: Seq<OrphanItemView>) -> nat
    decreases v.len(),
{
    if v.len() == 0 {
        0
    } else {
        items_size(v.drop_last()) + v.last().size
    }
}

/// `sorted` is `v` with the largest first; equal sizes keep their order.
pub open spec fn largest_first(sorted: Seq<OrphanItemView>, v: Seq<OrphanItemView>) -> bool {
    exists|order: Seq<usize>|
        ordered(order, 0, v.len() as int, larger_first(item_sizes(v))) && sorted == #[trigger] reordered(v, order)
}

/// The files among the candidates that are named after `id`.
pub open spec fn items_of(candidates: Seq<CandidateView>, id: Seq<char>) -> Seq<OrphanItemView>
    decreases candidates.len(),
{
    if candidates.len() == 0 {
        Seq::empty()
    } else {
        let before = items_of(candidates.drop_last(), id);
        if candidates.last().id == id {
            before.push(candidates.last().item)
        } else {
            before
        }
    }
}

/// `app` is the group of the candidates that share its identifier.
pub open spec fn is_group(app: OrphanView, candidates: Seq<CandidateView>) -> bool {
    let items = items_of(candidates, app.bundle_id);
    &&& items.len() > 0
    &&& app.display_name == readable_name(app.bundle_id)
    &&& app.total == capped(items_size(items))
    &&& largest_first(app.items, items)
}

/// `a` stands before `b`: the larger first, equal ones by identifier.
pub open spec fn stands_before(a: OrphanView, b: OrphanView) -> bool {
    a.total > b.total || (a.total == b.total && lex_less(a.bundle_id, b.bundle_id))
}

/// `apps` are the candidates grouped by identifier: one group for each, the
/// largest first.
pub open spec fn grouped(apps: Seq<OrphanView>, candidates: Seq<CandidateView>) -> bool {
    &&& forall|k: int| 0 <= k < apps.len() ==> is_group(#[trigger] apps[k], candidates)
    &&& forall|i: int|
        0 <= i < candidates.len() ==> exists|k: int|
            0 <= k < apps.len() && (#[trigger] apps[k]).bundle_id == (#[trigger] candidates[i]).id
    &&& forall|j: int, k: int| 0 <= j < k < apps.len() ==> stands_before(#[trigger] apps[j], #[trigger] apps[k])
}

/// `app` is a group whose files stand in the order of the candidates.
pub open spec fn is_raw_group(app: OrphanView, candidates: Seq<CandidateView>) -> bool {
    let items = items_of(candidates, app.bundle_id);
    &&& items.len() > 0
    &&& app.display_name == readable_name(app.bundle_id)
    &&& app.total == capped(items_size(items))
    &&& app.items == items
}

/// The groups so far: different identifiers, and one for each candidate.
pub open spec fn raw_groups(apps: Seq<OrphanView>, candidates: Seq<CandidateView>) -> bool {
    &&& forall|k: int| 0 <= k < apps.len() ==> is_raw_group(#[trigger] apps[k], candidates)
    &&& forall|i: int|
        0 <= i < candidates.len() ==> exists|k: int|
            0 <= k < apps.len() && (#[trigger] apps[k]).bundle_id == (#[trigger] candidates[i]).id
    &&& forall|j: int, k: int|
        0 <= j < k < apps.len() ==> (#[trigger] apps[j]).bundle_id != (#[trigger] apps[k]).bundle_id
}

proof fn lemma_items_of_push(candidates: Seq<CandidateView>, c: CandidateView, id: Seq<char>)
    ensures
        items_of(candidates.push(c), id) == if c.id == id {
            items_of(candidates, id).push(c.item)
        } else {
            items_of(candidates, id)
        },
{
    assert(candidates.push(c).drop_last() =~= candidates);
}

proof fn lemma_items_of_none(candidates: Seq<CandidateView>, id: Seq<char>)
    requires
        forall|i: int| 0 <= i < candidates.len() ==> (#[trigger] candidates[i]).id != id,
    ensures
        items_of(candidates, id).len() == 0,
    decreases candidates.len(),
{
    if candidates.len() > 0 {
        let front = candidates.drop_last();
        assert forall|i: int| 0 <= i < front.len() implies (#[trigger] front[i]).id != id by {
            assert(front[i] == candidates[i]);
        }
        lemma_items_of_none(front, id);
        assert(candidates[candidates.len() - 1].id != id);
    }
}

/// The position of the group of `id`, or the number of groups.
fn find_group(groups: &Vec<OrphanApp>, id: &String) -> (r: usize)
    ensures
        r <= groups@.len(),
        r < groups@.len() ==> groups@[r as int].bundle_id@ == id@,
        forall|j: int| 0 <= j < r ==> (#[trigger] groups@[j]).bundle_id@ != id@,
{
    let mut i: usize = 0;
    while i < groups.len()
        invariant
            i <= groups@.len(),
            forall|j: int| 0 <= j < i ==> (#[trigger] groups@[j]).bundle_id@ != id@,
        decreases groups@.len() - i,
    {
        if groups[i].bundle_id == *id {
            return i;
        }
        i += 1;
    }
    i
}

/// Enters one candidate into its group, making the group where there is none.
fn enter(groups: &mut Vec<OrphanApp>, candidate: Candidate, Ghost(seen): Ghost<Seq<CandidateView>>)
    requires
        raw_groups(orphans_view(old(groups)@), seen),
    ensures
        raw_groups(orphans_view(final(groups)@), seen.push(candidate@)),
{
    let ghost c = candidate@;
    let ghost before = orphans_view(groups@);
    let ghost now_seen = seen.push(c);
    let at: usize = find_group(groups, &candidate.id);
    let size: u64 = candidate.item.size_bytes;
    assert forall|j: int| 0 <= j < before.len() implies (#[trigger] before[j]).bundle_id == groups@[j].bundle_id@ by {}
    if at < groups.len() {
        let mut group = groups.swap_remove(at);
        let ghost had = group@;
        assert(had == before[at as int]);
        group.total_bytes = group.total_bytes.saturating_add(size);
        group.items.push(candidate.item);
        let ghost made = group@;
        proof {
            assert(made.items =~= had.items.push(c.item));
            lemma_items_of_push(seen, c, had.bundle_id);
            assert(had.items.push(c.item).drop_last() =~= had.items);
            assert(is_raw_group(made, now_seen));
        }
        groups.push(group);
        proof {
            let now = orphans_view(groups@);
            let last = before.len() - 1;
            assert(now.len() == before.len());
            assert(now[last] == made);
            assert forall|k: int| 0 <= k < now.len() && k != last implies #[trigger] now[k] == (if k == at {
                before[last]
            } else {
                before[k]
            }) by {}
            assert forall|k: int| 0 <= k < now.len() implies is_raw_group(#[trigger] now[k], now_seen) by {
                if k != last {
                    let from = if k == at {
                        last
                    } else {
                        k
                    };
                    assert(now[k] == before[from]);
                    assert(before[from].bundle_id != c.id);
                    lemma_items_of_push(seen, c, before[from].bundle_id);
                }
            }
            assert forall|i: int| 0 <= i < now_seen.len() implies exists|k: int|
                0 <= k < now.len() && (#[trigger] now[k]).bundle_id == (#[trigger] now_seen[i]).id by {
                if i < seen.len() {
                    assert(now_seen[i] == seen[i]);
                    let k = choose|k: int| 0 <= k < before.len() && (#[trigger] before[k]).bundle_id == seen[i].id;
                    let to = if k == at {
                        last
                    } else if k == last {
                        at as int
                    } else {
                        k
                    };
                    assert(now[to].bundle_id == before[k].bundle_id);
                } else {
                    assert(now[last].bundle_id == now_seen[i].id);
                }
            }
            assert forall|j: int, k: int| 0 <= j < k < now.len() implies (#[trigger] now[j]).bundle_id
                != (#[trigger] now[k]).bundle_id by {
                let a = if j == at {
                    last
                } else {
                    j
                };
                let b = if k == last {
                    at as int
                } else if k == at {
                    last
                } else {
                    k
                };
                assert(now[j].bundle_id == before[a].bundle_id);
                assert(now[k].bundle_id == before[b].bundle_id);
                if a < b {
                    assert(before[a].bundle_id != before[b].bundle_id);
                } else {
                    assert(before[b].bundle_id != before[a].bundle_id);
                }
            }
        }
    } else {
        let display_name = display_name_for(candidate.id.as_str());
        let mut items: Vec<OrphanItem> = Vec::new();
        items.push(candidate.item);
        let group = OrphanApp { bundle_id: candidate.id, display_name, items, total_bytes: size };
        let ghost made = group@;
        proof {
            assert forall|i: int| 0 <= i < seen.len() implies (#[trigger] seen[i]).id != c.id by {
                let k = choose|k: int| 0 <= k < before.len() && (#[trigger] before[k]).bundle_id == seen[i].id;
                assert(groups@[k].bundle_id@ != c.id);
            }
            lemma_items_of_none(seen, c.id);
            lemma_items_of_push(seen, c, c.id);
            assert(made.items =~= seq![c.item]);
            assert(items_of(now_seen, c.id) =~= seq![c.item]);
            assert(seq![c.item].drop_last() =~= Seq::<OrphanItemView>::empty());
            reveal_with_fuel(items_size, 2);
            assert(is_raw_group(made, now_seen));
        }
        groups.push(group);
        proof {
            let now = orphans_view(groups@);
            assert(now =~= before.push(made));
            assert forall|k: int| 0 <= k < now.len() implies is_raw_group(#[trigger] now[k], now_seen) by {
                if k < before.len() {
                    assert(now[k] == before[k]);
                    lemma_items_of_push(seen, c, before[k].bundle_id);
                }
            }
            assert forall|i: int| 0 <= i < now_seen.len() implies exists|k: int|
                0 <= k < now.len() && (#[trigger] now[k]).bundle_id == (#[trigger] now_seen[i]).id by {
                if i < seen.len() {
                    assert(now_seen[i] == seen[i]);
                    let k = choose|k: int| 0 <= k < before.len() && (#[trigger] before[k]).bundle_id == seen[i].id;
                    assert(now[k] == before[k]);
                } else {
                    assert(now[before.len() as int].bundle_id == now_seen[i].id);
                }
            }
            assert forall|j: int, k: int| 0 <= j < k < now.len() implies (#[trigger] now[j]).bundle_id
                != (#[trigger] now[k]).bundle_id by {
                assert(now[j] == before[j]);
                if k < before.len() {
                    assert(now[k] == before[k]);
                }
            }
        }
    }
}

/// Puts orphaned files in order, the largest first.
fn sort_items(items: Vec<OrphanItem>) -> (r: Vec<OrphanItem>)
    ensures
        largest_first(items_view(r@), items_view(items@)),
{
    let ghost views = items_view(items@);
    let mut keys: Vec<u64> = Vec::new();
    let mut i: usize = 0;
    while i < items.len()
        invariant
            views == items_view(items@),
            i <= items@.len(),
            keys@ =~= item_sizes(views).take(i as int),
        decreases items@.len() - i,
    {
        keys.push(items[i].size_bytes);
        i += 1;
    }
    assert(keys@ =~= item_sizes(views));
    let order = order::order_larger_first(&keys);
    proof {
        order::lemma_ordered_distinct(order@, keys@.len() as int, larger_first(keys@));
    }
    let r = order::reorder(items, &order);
    assert(items_view(r@) =~= reordered(views, order@));
    r
}

/// Groups candidates by identifier, the largest group first and in each the
/// largest file first.
pub fn group_candidates(candidates: Vec<Candidate>) -> (r: Vec<OrphanApp>)
    ensures
        grouped(orphans_view(r@), candidates_view(candidates@)),
{
    let ghost all = candidates_view(candidates@);
    let ghost given = candidates@;
    let mut rest = candidates;
    let mut backwards: Vec<Candidate> = Vec::new();
    while rest.len() > 0
        invariant
            rest@.len() + backwards@.len() == given.len(),
            rest@ == given.take(rest@.len() as int),
            forall|k: int| 0 <= k < backwards@.len() ==> #[trigger] backwards@[k] == given[given.len() - 1 - k],
        decreases rest@.len(),
    {
        match rest.pop() {
            Some(c) => {
                backwards.push(c);
            },
            None => {},
        }
    }
    let mut groups: Vec<OrphanApp> = Vec::new();
    let ghost mut n: int = 0;
    assert(orphans_view(groups@) =~= Seq::<OrphanView>::empty());
    while backwards.len() > 0
        invariant
            all == candidates_view(given),
            n + backwards@.len() == given.len(),
            0 <= n,
            forall|k: int| 0 <= k < backwards@.len() ==> #[trigger] backwards@[k] == given[given.len() - 1 - k],
            raw_groups(orphans_view(groups@), all.take(n)),
        decreases backwards@.len(),
    {
        let ghost last = backwards@[backwards@.len() - 1];
        match backwards.pop() {
            Some(c) => {
                proof {
                    assert(c == given[n]);
                    assert(all.take(n).push(c@) =~= all.take(n + 1));
                }
                enter(&mut groups, c, Ghost(all.take(n)));
                proof {
                    n = n + 1;
                }
            },
            None => {},
        }
    }
    assert(all.take(n) =~= all);
    let ghost raw = orphans_view(groups@);
    let mut done: Vec<OrphanApp> = Vec::new();
    let mut totals: Vec<u64> = Vec::new();
    let mut ids: Vec<String> = Vec::new();
    while groups.len() > 0
        invariant
            raw_groups(raw, all),
            groups@.len() + done@.len() == raw.len(),
            orphans_view(groups@) == raw.take(groups@.len() as int),
            totals@.len() == done@.len(),
            ids@.len() == done@.len(),
            forall|k: int|
                0 <= k < done@.len() ==> {
                    let app = #[trigger] done@[k];
                    &&& is_group(app@, all)
                    &&& app@.bundle_id == raw[raw.len() - 1 - k].bundle_id
                    &&& totals@[k] == app.total_bytes
                    &&& ids@[k]@ == app.bundle_id@
                },
        decreases groups@.len(),
    {
        let ghost m = groups@.len() as int;
        let ghost left = groups@;
        match groups.pop() {
            Some(group) => {
                proof {
                    assert(orphans_view(left)[m - 1] == group@);
                    assert(group@ == raw[m - 1]);
                    assert(is_raw_group(raw[m - 1], all));
                    assert(orphans_view(groups@) =~= raw.take(m - 1));
                }
                totals.push(group.total_bytes);
                ids.push(group.bundle_id.clone());
                let items = sort_items(group.items);
                let app = OrphanApp {
                    bundle_id: group.bundle_id,
                    display_name: group.display_name,
                    items,
                    total_bytes: group.total_bytes,
                };
                assert(is_group(app@, all));
                done.push(app);
            },
            None => {},
        }
    }
    let ghost made = done@;
    let ghost names = ids@.map_values(|s: String| s@);
    let order = order::order_larger_then_text(&totals, &ids);
    proof {
        order::lemma_larger_then_text_total(totals@, names);
        order::lemma_ordered_distinct(order@, totals@.len() as int, larger_then_text(totals@, names));
    }
    let r = order::reorder(done, &order);
    proof {
        let apps = orphans_view(r@);
        assert forall|k: int| 0 <= k < apps.len() implies is_group(#[trigger] apps[k], all) by {
            assert(r@[k] == made[order@[k] as int]);
        }
        assert forall|i: int| 0 <= i < all.len() implies exists|k: int|
            0 <= k < apps.len() && (#[trigger] apps[k]).bundle_id == (#[trigger] all[i]).id by {
            let g = choose|g: int| 0 <= g < raw.len() && (#[trigger] raw[g]).bundle_id == all[i].id;
            let d = raw.len() - 1 - g;
            assert(made[d]@.bundle_id == raw[g].bundle_id);
            assert(r.len() <= usize::MAX);
            order::lemma_ordered_complete(order@, totals@.len() as int, larger_then_text(totals@, names), d);
            let k = choose|k: int| 0 <= k < order@.len() && #[trigger] order@[k] == d;
            assert(r@[k] == made[d]);
            assert(apps[k].bundle_id == all[i].id);
        }
        assert forall|j: int, k: int| 0 <= j < k < apps.len() implies stands_before(
            #[trigger] apps[j],
            #[trigger] apps[k],
        ) by {
            let a = order@[j] as int;
            let b = order@[k] as int;
            assert(larger_then_text(totals@, names)(a, b));
            assert(r@[j] == made[a] && r@[k] == made[b]);
            assert(a != b);
            let ra = raw.len() - 1 - a;
            let rb = raw.len() - 1 - b;
            assert(made[a]@.bundle_id == raw[ra].bundle_id);
            assert(made[b]@.bundle_id == raw[rb].bundle_id);
            if ra < rb {
                assert(raw[ra].bundle_id != raw[rb].bundle_id);
            } else {
                assert(raw[rb].bundle_id != raw[ra].bundle_id);
            }
        }
    }
    r
}

/// `path` is already among the candidates.
pub open spec fn taken(found: Seq<CandidateView>, path: Seq<char>) -> bool {
    exists|i: int| 0 <= i < found.len() && same_path((#[trigger] found[i]).item.path, path)
}

/// The candidates found so far, and those among the entries of `dir`.
pub open spec fn with_candidates(
    still: StillDisk,
    kind: Seq<char>,
    sub: Seq<char>,
    dir: Seq<char>,
    entries: Seq<(Seq<char>, bool)>,
    installed: Seq<Seq<char>>,
    found: Seq<CandidateView>,
) -> Seq<CandidateView>
    decreases entries.len(),
{
    if entries.len() == 0 {
        found
    } else {
        let before = with_candidates(still, kind, sub, dir, entries.drop_last(), installed, found);
        let name = entries.last().0;
        let path = joined(dir, name);
        match orphan_id(sub, name, installed) {
            Some(id) => if taken(before, path) {
                before
            } else {
                before.push(CandidateView { id, item: OrphanItemView { kind, path, size: leftover_size(still, path) } })
            },
            None => before,
        }
    }
}

/// The candidates in the first `n` of the scanned directories.
pub open spec fn candidates_in(still: StillDisk, home: Seq<char>, installed: Seq<Seq<char>>, n: nat) -> Seq<
    CandidateView,
>
    decreases n,
{
    if n == 0 {
        Seq::empty()
    } else {
        let before = candidates_in(still, home, installed, (n - 1) as nat);
        let (kind, sub) = SCAN_DIRS@[n - 1];
        let dir = joined(joined(home, "Library"@), sub@);
        match (still.list)(dir) {
            Some(entries) => with_candidates(still, kind@, sub@, dir, entries, installed, before),
            None => before,
        }
    }
}

/// What a scanned directory may nominate: an entry of it that is an orphan.
pub open spec fn nominated(home: Seq<char>, installed: Seq<Seq<char>>, candidate: CandidateView) -> bool {
    exists|i: int, name: Seq<char>|
        {
            &&& 0 <= i < SCAN_DIRS@.len()
            &&& #[trigger] orphan_id(SCAN_DIRS@[i].1@, name, installed) == Some(candidate.id)
            &&& candidate.item.path == joined(joined(joined(home, "Library"@), SCAN_DIRS@[i].1@), name)
            &&& candidate.item.kind == SCAN_DIRS@[i].0@
        }
}

/// Every candidate of a list was nominated.
pub open spec fn all_nominated(home: Seq<char>, installed: Seq<Seq<char>>, found: Seq<CandidateView>) -> bool {
    forall|i: int| 0 <= i < found.len() ==> nominated(home, installed, #[trigger] found[i])
}

/// Whether a path is already among the candidates.
fn is_taken(found: &Vec<Candidate>, path: &FsPath) -> (r: bool)
    ensures
        r == taken(candidates_view(found@), path@),
{
    let mut i: usize = 0;
    while i < found.len()
        invariant
            i <= found@.len(),
            forall|j: int| 0 <= j < i ==> !same_path((#[trigger] candidates_view(found@)[j]).item.path, path@),
        decreases found@.len() - i,
    {
        if found[i].item.path.same(path) {
            assert(same_path(candidates_view(found@)[i as int].item.path, path@));
            return true;
        }
        i += 1;
    }
    assert(candidates_view(found@).len() == found@.len());
    false
}

/// Adds the candidates among the entries of a scanned directory.
fn add_candidates<D: Disk>(
    at: usize,
    home: &FsPath,
    entries: &Vec<DirItem>,
    installed: &Vec<String>,
    disk: &D,
    found: &mut Vec<Candidate>,
)
    requires
        at < 12,
        sizes_fit(disk),
        all_nominated(home@, strings(installed@), candidates_view(old(found)@)),
    ensures
        all_nominated(home@, strings(installed@), candidates_view(final(found)@)),
        forall|still: StillDisk| #[trigger]
            stands_still(disk, still) ==> candidates_view(final(found)@) == with_candidates(
                still,
                SCAN_DIRS@[at as int].0@,
                SCAN_DIRS@[at as int].1@,
                joined(joined(home@, "Library"@), SCAN_DIRS@[at as int].1@),
                entries_view(entries@),
                strings(installed@),
                candidates_view(old(found)@),
            ),
{
    let table = SCAN_DIRS;
    let kind: &'static str = table[at].0;
    let sub: &'static str = table[at].1;
    let dir = home.join("Library").join(sub);
    let ghost known = strings(installed@);
    let ghost all = entries_view(entries@);
    let ghost start = candidates_view(found@);
    let mut i: usize = 0;
    while i < entries.len()
        invariant
            at < 12,
            sizes_fit(disk),
            kind@ == SCAN_DIRS@[at as int].0@,
            sub@ == SCAN_DIRS@[at as int].1@,
            dir@ == joined(joined(home@, "Library"@), sub@),
            known == strings(installed@),
            all == entries_view(entries@),
            i <= entries@.len(),
            all_nominated(home@, known, candidates_view(found@)),
            forall|still: StillDisk| #[trigger]
                stands_still(disk, still) ==> candidates_view(found@) == with_candidates(
                    still,
                    kind@,
                    sub@,
                    dir@,
                    all.take(i as int),
                    known,
                    start,
                ),
        decreases entries@.len() - i,
    {
        let ghost before = candidates_view(found@);
        let name: &String = &entries[i].name;
        assert(all.take(i + 1).drop_last() =~= all.take(i as int));
        assert(all.take(i + 1).last().0 == name@);
        if let Some(id) = orphan_id_of(sub, name.as_str(), installed) {
            let path = dir.join(name.as_str());
            if !is_taken(found, &path) {
                let size: u64 = size_of_leftover(&path, disk);
                let item = OrphanItem { kind: kind.to_owned(), path, size_bytes: size };
                let candidate = Candidate { id, item };
                let ghost c = candidate@;
                found.push(candidate);
                proof {
                    let now = candidates_view(found@);
                    assert(now =~= before.push(c));
                    assert(orphan_id(SCAN_DIRS@[at as int].1@, name@, known) == Some(c.id));
                    assert(nominated(home@, known, c));
                    assert forall|k: int| 0 <= k < now.len() implies nominated(home@, known, #[trigger] now[k]) by {
                        if k < before.len() {
                            assert(now[k] == before[k]);
                        }
                    }
                    assert forall|still: StillDisk| #[trigger] stands_still(disk, still) implies now
                        == with_candidates(still, kind@, sub@, dir@, all.take(i + 1), known, start) by {
                        assert(c.item.size == leftover_size(still, c.item.path));
                    }
                }
            }
        }
        i += 1;
    }
    assert(all.take(i as int) =~= all);
}

/// Finds the leftovers under `home` that no installed app accounts for,
/// grouped by identifier and sorted largest first. `installed` holds the
/// identifiers of what is installed, in lower case.
pub fn find_orphans<D: Disk>(home: &FsPath, installed: &Vec<String>, disk: &D) -> (r: Vec<OrphanApp>)
    requires
        sizes_fit(disk),
    ensures
        exists|candidates: Seq<CandidateView>| #[trigger]
            all_nominated(home@, strings(installed@), candidates) && grouped(orphans_view(r@), candidates),
        forall|still: StillDisk| #[trigger]
            stands_still(disk, still) ==> grouped(
                orphans_view(r@),
                candidates_in(still, home@, strings(installed@), 12),
            ),
{
    let ghost known = strings(installed@);
    let mut found: Vec<Candidate> = Vec::new();
    let table = SCAN_DIRS;
    let mut i: usize = 0;
    assert(candidates_view(found@) =~= Seq::<CandidateView>::empty());
    while i < 12
        invariant
            table@ == SCAN_DIRS@,
            sizes_fit(disk),
            known == strings(installed@),
            i <= 12,
            all_nominated(home@, known, candidates_view(found@)),
            forall|still: StillDisk| #[trigger]
                stands_still(disk, still) ==> candidates_view(found@) == candidates_in(still, home@, known, i as nat),
        decreases 12 - i,
    {
        let ghost before = candidates_view(found@);
        let dir = home.join("Library").join(table[i].1);
        match listing(&dir, disk) {
            Some(entries) => {
                add_candidates(i, home, &entries, installed, disk, &mut found);
                assert forall|still: StillDisk| #[trigger] stands_still(disk, still) implies candidates_view(found@)
                    == candidates_in(still, home@, known, i as nat + 1) by {
                    assert((still.list)(dir@) == Some(entries_view(entries@)));
                }
            },
            None => {
                assert forall|still: StillDisk| #[trigger] stands_still(disk, still) implies candidates_view(found@)
                    == candidates_in(still, home@, known, i as nat + 1) by {
                    assert((still.list)(dir@) is None);
                }
            },
        }
        i += 1;
    }
    group_candidates(found)
}

/// What is nominated may be removed: an orphan whose name is a proper file
/// name lies directly inside a scanned directory, and is not part of its
/// structure.
pub proof fn orphans_may_be_removed(home: Seq<char>, installed: Seq<Seq<char>>, i: int, name: Seq<char>)
    requires
        0 <= i < SCAN_DIRS@.len(),
        is_name(name),
        orphan_id(SCAN_DIRS@[i].1@, name, installed) is Some,
    ensures
        orphan_place(joined(joined(joined(home, "Library"@), SCAN_DIRS@[i].1@), name), home),
{
    let dir = joined(joined(home, "Library"@), SCAN_DIRS@[i].1@);
    lemma_parent_of_child(dir, name);
    assert(same_path(parent_text(joined(dir, name)), joined(joined(home, "Library"@), SCAN_DIRS@[i].1@)));
}

proof fn lemma_pieces_in_lower_case(s: Seq<char>)
    ensures
        pieces(ascii_lowercase_of(s), '.').len() == pieces(s, '.').len(),
        forall|i: int|
            0 <= i < pieces(s, '.').len() ==> #[trigger] pieces(ascii_lowercase_of(s), '.')[i] == ascii_lowercase_of(
                pieces(s, '.')[i],
            ),
    decreases s.len(),
{
    let lower = ascii_lowercase_of(s);
    if s.len() == 0 {
        assert(lower =~= s);
        assert(ascii_lowercase_of(Seq::empty()) =~= Seq::<char>::empty());
    } else {
        let front = s.drop_last();
        lemma_pieces_in_lower_case(front);
        text::lemma_pieces_nonempty(front, '.');
        assert(lower.drop_last() =~= ascii_lowercase_of(front));
        let before = pieces(front, '.');
        let after = pieces(ascii_lowercase_of(front), '.');
        let last = before.len() - 1;
        if s.last() == '.' {
            assert(ascii_lowercase_of(Seq::empty()) =~= Seq::<char>::empty());
        } else {
            assert(lower.last() != '.');
            assert(ascii_lowercase_of(before[last].push(s.last())) =~= after[last].push(lower.last()));
        }
    }
}

proof fn lemma_made_of_segments(s: Seq<char>)
    requires
        forall|i: int, j: int|
            0 <= i < pieces(s, '.').len() && 0 <= j < pieces(s, '.')[i].len() ==> identifier_char(
                #[trigger] pieces(s, '.')[i][j],
            ),
    ensures
        forall|i: int| 0 <= i < s.len() ==> #[trigger] s[i] == '.' || identifier_char(s[i]),
    decreases s.len(),
{
    if s.len() > 0 {
        let front = s.drop_last();
        let before = pieces(front, '.');
        let all = pieces(s, '.');
        text::lemma_pieces_nonempty(front, '.');
        let last = before.len() - 1;
        assert forall|i: int, j: int| 0 <= i < before.len() && 0 <= j < before[i].len() implies identifier_char(
            #[trigger] before[i][j],
        ) by {
            assert(all[i][j] == before[i][j]);
        }
        lemma_made_of_segments(front);
        if s.last() != '.' {
            assert(all[last][before[last].len() as int] == s.last());
        }
        assert forall|i: int| 0 <= i < s.len() implies #[trigger] s[i] == '.' || identifier_char(s[i]) by {
            if i < front.len() {
                assert(front[i] == s[i]);
            }
        }
    }
}

/// An identifier in lower case has an identifier's shape too.
proof fn lemma_shape_in_lower_case(id: Seq<char>)
    requires
        bundle_id_shape(id),
    ensures
        bundle_id_shape(lowercase_of(id)),
{
    let segments = pieces(id, '.');
    assert forall|i: int, j: int| 0 <= i < segments.len() && 0 <= j < segments[i].len() implies identifier_char(
        #[trigger] segments[i][j],
    ) by {
        assert(identifier_segment(segments[i]));
    }
    lemma_made_of_segments(id);
    assert(text::is_ascii(id)) by {
        assert forall|i: int| 0 <= i < id.len() implies (#[trigger] id[i]) as u32 <= 127 by {
            assert(id[i] == '.' || identifier_char(id[i]));
        }
    }
    lemma_pieces_in_lower_case(id);
    let lower = pieces(lowercase_of(id), '.');
    assert forall|i: int| 0 <= i < lower.len() implies identifier_segment(#[trigger] lower[i]) by {
        assert(identifier_segment(segments[i]));
        assert(lower[i] == ascii_lowercase_of(segments[i]));
        assert forall|j: int| 0 <= j < lower[i].len() implies identifier_char(#[trigger] lower[i][j]) by {
            assert(identifier_char(segments[i][j]));
        }
    }
}

/// An orphan never belongs to macOS, never to an installed app, and what it
/// is reported under has an identifier's shape.
pub proof fn orphans_are_never_owned(sub: Seq<char>, name: Seq<char>, installed: Seq<Seq<char>>)
    requires
        orphan_id(sub, name, installed) is Some,
    ensures
        !apple_owned(group_stripped(undecorated(name, DECORATIONS@))),
        !accounted_for(group_stripped(undecorated(name, DECORATIONS@)), installed),
        bundle_id_shape(group_stripped(undecorated(name, DECORATIONS@))),
        bundle_id_shape(orphan_id(sub, name, installed)->0),
        !structural(sub, name),
{
    lemma_shape_in_lower_case(group_stripped(undecorated(name, DECORATIONS@)));
}

/// Installing more can only take orphans away: what no app of a longer list
/// accounts for, no app of a shorter one does.
pub proof fn installing_more_leaves_fewer_orphans(
    sub: Seq<char>,
    name: Seq<char>,
    installed: Seq<Seq<char>>,
    more: Seq<Seq<char>>,
)
    requires
        orphan_id(sub, name, installed + more) is Some,
    ensures
        orphan_id(sub, name, installed) == orphan_id(sub, name, installed + more),
{
    let id = group_stripped(undecorated(name, DECORATIONS@));
    if accounted_for(id, installed) {
        let i = choose|i: int| 0 <= i < installed.len() && extends_known(lowercase_of(id), #[trigger] installed[i]);
        assert((installed + more)[i] == installed[i]);
        assert(extends_known(lowercase_of(id), (installed + more)[i]));
    }
}

/// None of the endings that decorate an identifier is at the end of the name.
pub open spec fn bare(name: Seq<char>) -> bool {
    &&& !finishes_with(name, ".plist"@)
    &&& !finishes_with(name, ".savedState"@)
    &&& !finishes_with(name, ".binarycookies"@)
    &&& !finishes_with(name, ".ShipIt"@)
    &&& !finishes_with(name, ".sfl2"@)
    &&& !finishes_with(name, ".sfl3"@)
}

/// One of the endings that decorate an identifier.
pub open spec fn decoration(d: Seq<char>) -> bool {
    d == ".plist"@ || d == ".savedState"@ || d == ".binarycookies"@ || d == ".ShipIt"@ || d == ".sfl2"@ || d == ".sfl3"@
}

proof fn lemma_ending(name: Seq<char>, p: Seq<char>)
    requires
        finishes_with(name, p),
        p.len() >= 2,
    ensures
        name[name.len() - 1] == p[p.len() - 1],
        name[name.len() - 2] == p[p.len() - 2],
{
    let tail = name.skip(name.len() - p.len());
    assert(tail[p.len() - 1] == name[name.len() - 1]);
    assert(tail[p.len() - 2] == name[name.len() - 2]);
}

proof fn lemma_stripped(name: Seq<char>, suffixes: Seq<&'static str>, k: int)
    requires
        0 <= k < suffixes.len(),
        finishes_with(name, suffixes[k]@),
        forall|j: int| 0 <= j < k ==> !finishes_with(name, #[trigger] suffixes[j]@),
    ensures
        undecorated(name, suffixes) == name.take(name.len() - suffixes[k]@.len()),
    decreases k,
{
    if k > 0 {
        let rest = suffixes.drop_first();
        assert(!finishes_with(name, suffixes[0]@));
        assert forall|j: int| 0 <= j < k - 1 implies !finishes_with(name, #[trigger] rest[j]@) by {
            assert(rest[j] == suffixes[j + 1]);
        }
        assert(rest[k - 1] == suffixes[k]);
        lemma_stripped(name, rest, k - 1);
    }
}

proof fn lemma_unstripped(name: Seq<char>, suffixes: Seq<&'static str>)
    requires
        forall|j: int| 0 <= j < suffixes.len() ==> !finishes_with(name, #[trigger] suffixes[j]@),
    ensures
        undecorated(name, suffixes) == name,
    decreases suffixes.len(),
{
    if suffixes.len() > 0 {
        let rest = suffixes.drop_first();
        assert(!finishes_with(name, suffixes[0]@));
        assert forall|j: int| 0 <= j < rest.len() implies !finishes_with(name, #[trigger] rest[j]@) by {
            assert(rest[j] == suffixes[j + 1]);
        }
        lemma_unstripped(name, rest);
    }
}

proof fn lemma_one_ending(name: Seq<char>, d: Seq<char>, e: Seq<char>)
    requires
        decoration(d),
        decoration(e),
        finishes_with(name, d),
        finishes_with(name, e),
    ensures
        d == e,
{
    reveal_strlit(".plist");
    reveal_strlit(".savedState");
    reveal_strlit(".binarycookies");
    reveal_strlit(".ShipIt");
    reveal_strlit(".sfl2");
    reveal_strlit(".sfl3");
    lemma_ending(name, d);
    lemma_ending(name, e);
}

/// What decorates an identifier comes off, whichever ending it is, and leaves
/// the identifier; and where there is none, the name is left alone.
pub proof fn decorations_come_off(id: Seq<char>, d: Seq<char>)
    ensures
        decoration(d) ==> undecorated(id + d, DECORATIONS@) == id,
        bare(id) ==> undecorated(id, DECORATIONS@) == id,
{
    let all = DECORATIONS@;
    assert(all[0]@ == ".plist"@ && all[1]@ == ".savedState"@ && all[2]@ == ".binarycookies"@);
    assert(all[3]@ == ".ShipIt"@ && all[4]@ == ".sfl2"@ && all[5]@ == ".sfl3"@);
    assert forall|j: int| 0 <= j < all.len() implies decoration(#[trigger] all[j]@) by {
        assert(j == 0 || j == 1 || j == 2 || j == 3 || j == 4 || j == 5);
    }
    if decoration(d) {
        let name = id + d;
        assert(name.skip(name.len() - d.len()) =~= d);
        let k: int = if d == ".plist"@ {
            0
        } else if d == ".savedState"@ {
            1
        } else if d == ".binarycookies"@ {
            2
        } else if d == ".ShipIt"@ {
            3
        } else if d == ".sfl2"@ {
            4
        } else {
            5
        };
        assert(all[k]@ == d);
        assert forall|j: int| 0 <= j < k implies !finishes_with(name, #[trigger] all[j]@) by {
            if finishes_with(name, all[j]@) {
                lemma_one_ending(name, d, all[j]@);
                reveal_strlit(".plist");
                reveal_strlit(".savedState");
                reveal_strlit(".binarycookies");
                reveal_strlit(".ShipIt");
                reveal_strlit(".sfl2");
                reveal_strlit(".sfl3");
                assert(".sfl2"@[4] == '2' && ".sfl3"@[4] == '3');
            }
        }
        lemma_stripped(name, all, k);
        assert(name.take(name.len() - d.len()) =~= id);
    }
    if bare(id) {
        assert forall|j: int| 0 <= j < all.len() implies !finishes_with(id, #[trigger] all[j]@) by {
            assert(j == 0 || j == 1 || j == 2 || j == 3 || j == 4 || j == 5);
        }
        lemma_unstripped(id, all);
    }
}

/// The saved state, the cookies and the preferences of one identifier come
/// under that identifier: with any decoration an entry is the orphan that it
/// is without.
pub proof fn a_decorated_entry_is_the_same_orphan(
    sub: Seq<char>,
    id: Seq<char>,
    d: Seq<char>,
    installed: Seq<Seq<char>>,
)
    requires
        decoration(d),
        bare(id),
        id.len() > 0,
        !structural(sub, id),
        !structural(sub, id + d),
    ensures
        orphan_id(sub, id + d, installed) == orphan_id(sub, id, installed),
{
    decorations_come_off(id, d);
    reveal_strlit(".");
    assert((id + d).take(1) =~= id.take(1));
}

/// A letter or digit of ASCII, a dash or an underscore.
pub open spec fn may_stand_in_segment(c: char) -> bool {
    ('a' <= c <= 'z') || ('A' <= c <= 'Z') || ('0' <= c <= '9') || c == '-' || c == '_'
}

proof fn lemma_pieces_of_dots(s: Seq<char>)
    ensures
        pieces(s, '.').len() == 1 + dots_in(s),
        (forall|i: int| 0 <= i < pieces(s, '.').len() ==> (#[trigger] pieces(s, '.')[i]).len() > 0) <==> no_gap(s),
        pieces(s, '.').last().len() == 0 <==> s.len() == 0 || s.last() == '.',
        (forall|i: int, j: int|
            0 <= i < pieces(s, '.').len() && 0 <= j < pieces(s, '.')[i].len() ==> may_stand_in_segment(
                #[trigger] pieces(s, '.')[i][j],
            )) <==> (forall|k: int| 0 <= k < s.len() ==> #[trigger] s[k] == '.' || may_stand_in_segment(s[k])),
    decreases s.len(),
{
    let all = pieces(s, '.');
    if s.len() == 0 {
        assert(all[0].len() == 0);
        assert(!no_gap(s));
    } else {
        let front = s.drop_last();
        let before = pieces(front, '.');
        let last = before.len() - 1;
        lemma_pieces_of_dots(front);
        text::lemma_pieces_nonempty(front, '.');
        let filled = forall|i: int| 0 <= i < all.len() ==> (#[trigger] all[i]).len() > 0;
        let clean = forall|i: int, j: int|
            0 <= i < all.len() && 0 <= j < all[i].len() ==> may_stand_in_segment(#[trigger] all[i][j]);
        let fine = forall|k: int| 0 <= k < s.len() ==> #[trigger] s[k] == '.' || may_stand_in_segment(s[k]);
        if s.last() == '.' {
            assert(all[all.len() - 1].len() == 0);
            assert(!filled);
            assert(!no_gap(s));
        } else {
            assert(all[last] == before[last].push(s.last()));
            assert(forall|i: int| 0 <= i < last ==> #[trigger] all[i] == before[i]);
            // Filled: all but the last of the pieces before, whatever the last is.
            if no_gap(s) {
                assert forall|i: int| 0 <= i < all.len() implies (#[trigger] all[i]).len() > 0 by {
                    if i < last {
                        if front.len() > 0 && front.last() == '.' {
                            lemma_gap_at_the_end(front);
                            assert(before[i] == all[i]);
                        } else {
                            assert(no_gap(front)) by {
                                if front.len() > 0 {
                                    assert(front[0] == s[0]);
                                    assert(front.last() != '.');
                                    assert(forall|k: int|
                                        0 < k < front.len() && #[trigger] front[k] == '.' ==> front[k - 1] != '.') by {
                                        assert(forall|k: int| 0 < k < front.len() ==> #[trigger] front[k] == s[k]);
                                    }
                                }
                            }
                            assert(before[i].len() > 0);
                        }
                    }
                }
            }
            if filled {
                assert(no_gap(s)) by {
                    if front.len() == 0 {
                        assert(s[0] == s.last());
                    } else if front.last() == '.' {
                        lemma_gap_at_the_end(front);
                        assert forall|i: int| 0 <= i < last implies (#[trigger] before[i]).len() > 0 by {
                            assert(all[i] == before[i]);
                            assert(all[i].len() > 0);
                        }
                        assert(no_gap(front.drop_last()));
                        let inner = front.drop_last();
                        assert(inner.len() > 0);
                        assert(s[0] == inner[0]);
                        assert forall|k: int| 0 < k < s.len() && #[trigger] s[k] == '.' implies s[k - 1] != '.' by {
                            if k < inner.len() {
                                assert(inner[k] == s[k] && inner[k - 1] == s[k - 1]);
                            } else if k == inner.len() {
                                assert(inner.last() == s[k - 1]);
                            }
                        }
                    } else {
                        assert forall|i: int| 0 <= i < before.len() implies (#[trigger] before[i]).len() > 0 by {
                            if i < last {
                                assert(all[i] == before[i]);
                            }
                        }
                        assert(no_gap(front));
                        assert(s[0] == front[0]);
                        assert forall|k: int| 0 < k < s.len() && #[trigger] s[k] == '.' implies s[k - 1] != '.' by {
                            assert(front[k] == s[k] && front[k - 1] == s[k - 1]);
                        }
                    }
                }
            }
        }
        if clean {
            assert forall|k: int| 0 <= k < s.len() implies #[trigger] s[k] == '.' || may_stand_in_segment(s[k]) by {
                assert forall|i: int, j: int| 0 <= i < before.len() && 0 <= j < before[i].len() implies may_stand_in_segment(
                    #[trigger] before[i][j],
                ) by {
                    assert(all[i][j] == before[i][j]);
                }
                if k < front.len() {
                    assert(front[k] == s[k]);
                } else if s.last() != '.' {
                    assert(all[last][before[last].len() as int] == s.last());
                }
            }
        }
        if fine {
            assert forall|k: int| 0 <= k < front.len() implies #[trigger] front[k] == '.' || may_stand_in_segment(front[k]) by {
                assert(front[k] == s[k]);
            }
            assert(s[s.len() - 1] == s.last());
            assert forall|i: int, j: int| 0 <= i < all.len() && 0 <= j < all[i].len() implies may_stand_in_segment(
                #[trigger] all[i][j],
            ) by {
                if i < before.len() && j < before[i].len() {
                    assert(all[i][j] == before[i][j]);
                }
            }
        }
    }
}

/// How many dots a text holds.
pub open spec fn dots_in(s: Seq<char>) -> nat
    decreases s.len(),
{
    if s.len() == 0 {
        0
    } else {
        dots_in(s.drop_last()) + if s.last() == '.' {
            1nat
        } else {
            0nat
        }
    }
}

/// A text that is not empty, with no dot at its ends and none beside another.
pub open spec fn no_gap(s: Seq<char>) -> bool {
    &&& s.len() > 0
    &&& s[0] != '.'
    &&& s.last() != '.'
    &&& forall|k: int| 0 < k < s.len() && #[trigger] s[k] == '.' ==> s[k - 1] != '.'
}

proof fn lemma_gap_at_the_end(s: Seq<char>)
    requires
        s.len() > 0,
        s.last() == '.',
    ensures
        pieces(s, '.').len() >= 2,
        forall|i: int|
            0 <= i < pieces(s, '.').len() - 1 ==> #[trigger] pieces(s, '.')[i] == pieces(s.drop_last(), '.')[i],
        (forall|i: int| 0 <= i < pieces(s, '.').len() - 1 ==> (#[trigger] pieces(s, '.')[i]).len() > 0) <==> no_gap(
            s.drop_last(),
        ),
    decreases s.len(),
{
    let front = s.drop_last();
    let (all, before) = (pieces(s, '.'), pieces(front, '.'));
    text::lemma_pieces_nonempty(front, '.');
    lemma_pieces_of_dots(front);
    assert(all == before.push(Seq::empty()));
    if forall|i: int| 0 <= i < all.len() - 1 ==> (#[trigger] all[i]).len() > 0 {
        assert forall|i: int| 0 <= i < before.len() implies (#[trigger] before[i]).len() > 0 by {
            assert(all[i] == before[i]);
        }
    }
    if no_gap(front) {
        assert forall|i: int| 0 <= i < all.len() - 1 implies (#[trigger] all[i]).len() > 0 by {
            assert(all[i] == before[i]);
        }
    }
}

/// An identifier is made of letters, digits, dashes and underscores of ASCII
/// and of at least two dots, none of them at an end or beside another; and
/// whatever is, is one.
pub proof fn the_shape_of_an_identifier(token: Seq<char>)
    ensures
        bundle_id_shape(token) <==> {
            &&& dots_in(token) >= 2
            &&& no_gap(token)
            &&& forall|k: int| 0 <= k < token.len() ==> #[trigger] token[k] == '.' || may_stand_in_segment(token[k])
        },
{
    lemma_pieces_of_dots(token);
    let all = pieces(token, '.');
    if bundle_id_shape(token) {
        assert forall|i: int| 0 <= i < all.len() implies (#[trigger] all[i]).len() > 0 by {
            assert(identifier_segment(all[i]));
        }
        assert forall|i: int, j: int| 0 <= i < all.len() && 0 <= j < all[i].len() implies may_stand_in_segment(
            #[trigger] all[i][j],
        ) by {
            assert(identifier_segment(all[i]));
            assert(identifier_char(all[i][j]));
        }
    }
    if dots_in(token) >= 2 && no_gap(token) && (forall|k: int|
        0 <= k < token.len() ==> #[trigger] token[k] == '.' || may_stand_in_segment(token[k])) {
        assert forall|i: int| 0 <= i < all.len() implies identifier_segment(#[trigger] all[i]) by {
            assert(all[i].len() > 0);
            assert forall|j: int| 0 <= j < all[i].len() implies identifier_char(#[trigger] all[i][j]) by {
                assert(may_stand_in_segment(all[i][j]));
            }
        }
    }
}

/// The prefix of a group comes off and leaves what it stood before: `group.`,
/// or a team of ten capitals and digits with a dot, and `groups.` behind that.
/// Without one, the name is left alone.
pub proof fn the_prefix_of_a_group_comes_off(team: Seq<char>, rest: Seq<char>)
    ensures
        group_stripped("group."@ + rest) == rest,
        team.len() == 10 && (forall|i: int| 0 <= i < 10 ==> ('A' <= #[trigger] team[i] <= 'Z') || ('0' <= team[i] <= '9'))
            ==> group_stripped(team + "."@ + "groups."@ + rest) == rest && (!begins_with(rest, "groups."@)
            ==> group_stripped(team + "."@ + rest) == rest),
        !begins_with(rest, "group."@) && (rest.len() <= 10 || rest[10] != '.' || exists|i: int|
            0 <= i < 10 && !('A' <= #[trigger] rest[i] <= 'Z') && !('0' <= rest[i] <= '9')) ==> group_stripped(rest) == rest,
{
    reveal_strlit("group.");
    reveal_strlit("groups.");
    reveal_strlit(".");
    let plain = "group."@ + rest;
    assert(plain.take(6) =~= "group."@);
    assert(plain.skip(6) =~= rest);
    if team.len() == 10 && (forall|i: int|
        0 <= i < 10 ==> ('A' <= #[trigger] team[i] <= 'Z') || ('0' <= team[i] <= '9')) {
        let short = team + "."@ + rest;
        let long = team + "."@ + "groups."@ + rest;
        assert(short[0] == team[0] && long[0] == team[0]);
        assert(short.take(6)[0] == team[0] && long.take(6)[0] == team[0]);
        assert("group."@[0] == 'g');
        assert(!begins_with(short, "group."@) && !begins_with(long, "group."@));
        assert forall|i: int| 0 <= i < 10 implies team_char(#[trigger] short[i]) && team_char(long[i]) by {
            assert(short[i] == team[i] && long[i] == team[i]);
        }
        assert forall|i: int| 0 <= i < 10 implies team_char(#[trigger] long[i]) by {
            assert(team_char(short[i]));
        }
        assert(short[10] == '.' && long[10] == '.');
        assert(short.skip(11) =~= rest);
        assert(long.skip(11) =~= "groups."@ + rest);
        assert(("groups."@ + rest).take(7) =~= "groups."@);
        assert(("groups."@ + rest).skip(7) =~= rest);
    }
    if rest.len() > 10 && exists|i: int| 0 <= i < 10 && !('A' <= #[trigger] rest[i] <= 'Z') && !('0' <= rest[i] <= '9') {
        let i = choose|i: int| 0 <= i < 10 && !('A' <= #[trigger] rest[i] <= 'Z') && !('0' <= rest[i] <= '9');
        assert(!team_char(rest[i]));
    }
}

/// What an installed app accounts for: its own identifier, and what goes on
/// from it with a dot or an underscore. What goes on with anything else is
/// another app's.
pub proof fn an_app_accounts_for_its_own(token: Seq<char>, known: Seq<char>, installed: Seq<Seq<char>>)
    requires
        lowercase_of(token).len() >= known.len(),
        lowercase_of(token).take(known.len() as int) == known,
    ensures
        installed.contains(known) && (lowercase_of(token).len() == known.len() || lowercase_of(token)[known.len() as int]
            == '.' || lowercase_of(token)[known.len() as int] == '_') ==> accounted_for(token, installed),
        lowercase_of(token).len() > known.len() && lowercase_of(token)[known.len() as int] != '.' && lowercase_of(
            token,
        )[known.len() as int] != '_' ==> !accounted_for(token, seq![known]),
        !accounted_for(token, Seq::empty()),
{
    let t = lowercase_of(token);
    if installed.contains(known) {
        let i = choose|i: int| 0 <= i < installed.len() && installed[i] == known;
        if t.len() == known.len() {
            assert(t.take(known.len() as int) =~= t);
        }
        if t.len() == known.len() || t[known.len() as int] == '.' || t[known.len() as int] == '_' {
            assert(extends_known(t, installed[i]));
        }
    }
}

/// Nothing accounts for a token that begins with no installed identifier.
pub proof fn only_what_is_installed_accounts(token: Seq<char>, installed: Seq<Seq<char>>)
    requires
        forall|i: int| 0 <= i < installed.len() ==> !begins_with(lowercase_of(token), #[trigger] installed[i]),
    ensures
        !accounted_for(token, installed),
{
    let t = lowercase_of(token);
    assert(t.take(t.len() as int) =~= t);
}

/// What belongs to macOS: whatever has `com.apple.` or `is.workflow.` in it,
/// or begins with `apple.`, in lower case; and nothing else.
pub proof fn what_belongs_to_the_system(token: Seq<char>, a: Seq<char>, b: Seq<char>)
    ensures
        lowercase_of(token) == a + "com.apple."@ + b ==> apple_owned(token),
        lowercase_of(token) == a + "is.workflow."@ + b ==> apple_owned(token),
        lowercase_of(token) == "apple."@ + b ==> apple_owned(token),
        apple_owned(token) ==> occurs(lowercase_of(token), "com.apple."@) || occurs(
            lowercase_of(token),
            "is.workflow."@,
        ) || begins_with(lowercase_of(token), "apple."@),
{
    text::what_is_put_in_occurs(a, "com.apple."@, b);
    text::what_is_put_in_occurs(a, "is.workflow."@, b);
    assert(("apple."@ + b).take("apple."@.len() as int) =~= "apple."@);
}

/// The entries that are part of the structure of a scanned directory, and no
/// others.
pub proof fn what_is_structural(sub: Seq<char>, name: Seq<char>)
    ensures
        structural(sub, name) <==> {
            ||| sub == "Preferences"@ && name == "ByHost"@
            ||| sub == "WebKit"@ && (name == "Databases"@ || name == "MediaKeys"@ || name == "NetworkProcess"@)
            ||| sub == "Caches"@ && name == "com.apple.nsurlsessiond"@
            ||| sub == "Application Support"@ && (name == "CrashReporter"@ || name == "com.apple.sharedfilelist"@)
        },
{
    let all = STRUCTURAL_ENTRIES@;
    assert(all[0].0@ == "Preferences"@ && all[0].1@ == "ByHost"@);
    assert(all[1].0@ == "WebKit"@ && all[1].1@ == "Databases"@);
    assert(all[2].0@ == "WebKit"@ && all[2].1@ == "MediaKeys"@);
    assert(all[3].0@ == "WebKit"@ && all[3].1@ == "NetworkProcess"@);
    assert(all[4].0@ == "Caches"@ && all[4].1@ == "com.apple.nsurlsessiond"@);
    assert(all[5].0@ == "Application Support"@ && all[5].1@ == "CrashReporter"@);
    assert(all[6].0@ == "Application Support"@ && all[6].1@ == "com.apple.sharedfilelist"@);
    assert(all.len() == 7);
}

/// The places that are searched, as what an entry there is called and the
/// directory in `~/Library`.
pub open spec fn searched(kind: Seq<char>, sub: Seq<char>) -> bool {
    ||| kind == "Application Support"@ && sub == "Application Support"@
    ||| kind == "Caches"@ && sub == "Caches"@
    ||| kind == "Preferences"@ && sub == "Preferences"@
    ||| kind == "Containers"@ && sub == "Containers"@
    ||| kind == "Group Containers"@ && sub == "Group Containers"@
    ||| kind == "Saved State"@ && sub == "Saved Application State"@
    ||| kind == "HTTP Storage"@ && sub == "HTTPStorages"@
    ||| kind == "WebKit"@ && sub == "WebKit"@
    ||| kind == "Cookies"@ && sub == "Cookies"@
    ||| kind == "App Scripts"@ && sub == "Application Scripts"@
    ||| kind == "Launch Agent"@ && sub == "LaunchAgents"@
    ||| kind == "Logs"@ && sub == "Logs"@
}

proof fn lemma_searched()
    ensures
        SCAN_DIRS@.len() == 12,
        forall|i: int| 0 <= i < 12 ==> searched((#[trigger] SCAN_DIRS@[i]).0@, SCAN_DIRS@[i].1@),
{
    let all = SCAN_DIRS@;
    assert forall|i: int| 0 <= i < 12 implies searched((#[trigger] all[i]).0@, all[i].1@) by {
        assert(i == 0 || i == 1 || i == 2 || i == 3 || i == 4 || i == 5 || i == 6 || i == 7 || i == 8 || i == 9 || i
            == 10 || i == 11);
    }
}

/// Where a searched place stands in the list.
proof fn lemma_where_searched(kind: Seq<char>, sub: Seq<char>) -> (i: int)
    requires
        searched(kind, sub),
    ensures
        0 <= i < 12,
        SCAN_DIRS@[i].0@ == kind,
        SCAN_DIRS@[i].1@ == sub,
{
    if kind == "Application Support"@ && sub == "Application Support"@ {
        0
    } else if kind == "Caches"@ && sub == "Caches"@ {
        1
    } else if kind == "Preferences"@ && sub == "Preferences"@ {
        2
    } else if kind == "Containers"@ && sub == "Containers"@ {
        3
    } else if kind == "Group Containers"@ && sub == "Group Containers"@ {
        4
    } else if kind == "Saved State"@ && sub == "Saved Application State"@ {
        5
    } else if kind == "HTTP Storage"@ && sub == "HTTPStorages"@ {
        6
    } else if kind == "WebKit"@ && sub == "WebKit"@ {
        7
    } else if kind == "Cookies"@ && sub == "Cookies"@ {
        8
    } else if kind == "App Scripts"@ && sub == "Application Scripts"@ {
        9
    } else if kind == "Launch Agent"@ && sub == "LaunchAgents"@ {
        10
    } else {
        11
    }
}

/// An entry directly inside a searched directory of this home may be removed
/// unless it is structural, and nothing that is elsewhere may.
pub proof fn where_orphans_may_be_removed(kind: Seq<char>, sub: Seq<char>, name: Seq<char>, path: Seq<char>, home: Seq<char>)
    ensures
        searched(kind, sub) && is_name(name) && !structural(sub, name) ==> orphan_place(
            joined(joined(joined(home, "Library"@), sub), name),
            home,
        ),
        orphan_place(path, home) ==> exists|k: Seq<char>, s: Seq<char>| #[trigger]
            searched(k, s) && same_path(parent_text(path), joined(joined(home, "Library"@), s)) && !structural(
                s,
                last_name(path)->0,
            ),
{
    lemma_searched();
    if searched(kind, sub) && is_name(name) && !structural(sub, name) {
        let i = lemma_where_searched(kind, sub);
        let dir = joined(joined(home, "Library"@), sub);
        lemma_parent_of_child(dir, name);
        assert(same_path(parent_text(joined(dir, name)), joined(joined(home, "Library"@), SCAN_DIRS@[i].1@)));
    }
    if orphan_place(path, home) {
        let i = choose|i: int|
            {
                &&& 0 <= i < SCAN_DIRS@.len()
                &&& same_path(parent_text(path), joined(joined(home, "Library"@), (#[trigger] SCAN_DIRS@[i]).1@))
                &&& !structural(SCAN_DIRS@[i].1@, last_name(path)->0)
            };
        assert(searched(SCAN_DIRS@[i].0@, SCAN_DIRS@[i].1@));
    }
}

/// A plain identifier that nothing accounts for is an orphan, under itself in
/// lower case; hidden, the system's, an installed app's, and what is no
/// identifier are none.
pub proof fn what_is_an_orphan(sub: Seq<char>, name: Seq<char>, installed: Seq<Seq<char>>)
    requires
        bare(name),
        group_stripped(name) == name,
        !structural(sub, name),
        name.len() > 0,
    ensures
        orphan_id(sub, name, installed) == (if name[0] != '.' && bundle_id_shape(name) && !apple_owned(name)
            && !accounted_for(name, installed) {
            Some(lowercase_of(name))
        } else {
            None
        }),
{
    decorations_come_off(name, name);
    reveal_strlit(".");
    assert(name.take(1)[0] == name[0]);
    if name[0] == '.' {
        assert(name.take(1) =~= "."@);
    }
}

/// What an orphan is reported under holds nothing of the system's, and no
/// installed identifier accounts for it.
pub proof fn an_orphan_is_nobodys(sub: Seq<char>, name: Seq<char>, installed: Seq<Seq<char>>, known: Seq<char>)
    requires
        orphan_id(sub, name, installed) is Some,
        installed.contains(known),
    ensures
        !occurs(orphan_id(sub, name, installed)->0, "com.apple."@),
        !occurs(orphan_id(sub, name, installed)->0, "is.workflow."@),
        !begins_with(orphan_id(sub, name, installed)->0, "apple."@),
        orphan_id(sub, name, installed)->0 != known,
        forall|rest: Seq<char>| orphan_id(sub, name, installed)->0 != #[trigger] (known + seq!['.'] + rest),
        name[0] != '.' || name.len() == 0,
{
    let id = group_stripped(undecorated(name, DECORATIONS@));
    let t = lowercase_of(id);
    an_orphan_begins_elsewhere(id, known, installed);
    if name.len() > 0 && name[0] == '.' {
        reveal_strlit(".");
        assert(name.take(1) =~= "."@);
    }
}

proof fn an_orphan_begins_elsewhere(id: Seq<char>, known: Seq<char>, installed: Seq<Seq<char>>)
    requires
        !accounted_for(id, installed),
        installed.contains(known),
    ensures
        lowercase_of(id) != known,
        forall|rest: Seq<char>| lowercase_of(id) != #[trigger] (known + seq!['.'] + rest),
{
    let t = lowercase_of(id);
    if t == known {
        assert(t.take(known.len() as int) =~= known);
        an_app_accounts_for_its_own(id, known, installed);
    }
    assert forall|rest: Seq<char>| t != #[trigger] (known + seq!['.'] + rest) by {
        if t == known + seq!['.'] + rest {
            assert(t.take(known.len() as int) =~= known);
            assert(t[known.len() as int] == '.');
            an_app_accounts_for_its_own(id, known, installed);
        }
    }
}

proof fn lemma_candidates_kept(
    still: StillDisk,
    kind: Seq<char>,
    sub: Seq<char>,
    dir: Seq<char>,
    entries: Seq<(Seq<char>, bool)>,
    installed: Seq<Seq<char>>,
    found: Seq<CandidateView>,
)
    ensures
        forall|p: Seq<char>| #[trigger]
            taken(found, p) ==> taken(with_candidates(still, kind, sub, dir, entries, installed, found), p),
        forall|k: int|
            0 <= k < entries.len() && orphan_id(sub, (#[trigger] entries[k]).0, installed) is Some ==> taken(
                with_candidates(still, kind, sub, dir, entries, installed, found),
                joined(dir, entries[k].0),
            ),
        (forall|i: int| 0 <= i < found.len() ==> measured(still, #[trigger] found[i])) ==> forall|i: int|
            0 <= i < with_candidates(still, kind, sub, dir, entries, installed, found).len() ==> measured(
                still,
                #[trigger] with_candidates(still, kind, sub, dir, entries, installed, found)[i],
            ),
    decreases entries.len(),
{
    if entries.len() > 0 {
        let front = entries.drop_last();
        lemma_candidates_kept(still, kind, sub, dir, front, installed, found);
        let before = with_candidates(still, kind, sub, dir, front, installed, found);
        let after = with_candidates(still, kind, sub, dir, entries, installed, found);
        let path = joined(dir, entries.last().0);
        assert forall|p: Seq<char>| #[trigger] taken(before, p) implies taken(after, p) by {
            let i = choose|i: int| 0 <= i < before.len() && same_path((#[trigger] before[i]).item.path, p);
            assert(after[i] == before[i]);
        }
        if orphan_id(sub, entries.last().0, installed) is Some && !taken(before, path) {
            assert(after[before.len() as int].item.path == path);
        }
        assert forall|k: int|
            0 <= k < entries.len() && orphan_id(sub, (#[trigger] entries[k]).0, installed) is Some implies taken(
            after,
            joined(dir, entries[k].0),
        ) by {
            if k < front.len() {
                assert(front[k] == entries[k]);
            }
        }
        if forall|i: int| 0 <= i < found.len() ==> measured(still, #[trigger] found[i]) {
            assert forall|i: int| 0 <= i < after.len() implies measured(still, #[trigger] after[i]) by {
                if i < before.len() {
                    assert(after[i] == before[i]);
                }
            }
        }
    }
}

/// A candidate has the size that the filesystem shows for its path.
pub open spec fn measured(still: StillDisk, candidate: CandidateView) -> bool {
    match (still.stat)(candidate.item.path) {
        Some(stat) => if stat.is_dir {
            candidate.item.size == (still.size)(candidate.item.path)
        } else {
            candidate.item.size == stat.len
        },
        None => candidate.item.size == 0,
    }
}

/// No orphan is passed over: an entry of any searched directory that is one
/// is among the candidates, and each of these has the size of what is there.
pub proof fn every_orphan_is_found(
    still: StillDisk,
    home: Seq<char>,
    installed: Seq<Seq<char>>,
    kind: Seq<char>,
    sub: Seq<char>,
    entries: Seq<(Seq<char>, bool)>,
    k: int,
)
    requires
        searched(kind, sub),
        (still.list)(joined(joined(home, "Library"@), sub)) == Some(entries),
        0 <= k < entries.len(),
        orphan_id(sub, entries[k].0, installed) is Some,
    ensures
        taken(
            candidates_in(still, home, installed, SCAN_DIRS@.len()),
            joined(joined(joined(home, "Library"@), sub), entries[k].0),
        ),
        forall|i: int|
            0 <= i < candidates_in(still, home, installed, SCAN_DIRS@.len()).len() ==> measured(
                still,
                #[trigger] candidates_in(still, home, installed, SCAN_DIRS@.len())[i],
            ),
{
    lemma_searched();
    let at = lemma_where_searched(kind, sub);
    lemma_found_by(still, home, installed, at, entries, k, 12);
}

proof fn lemma_found_by(
    still: StillDisk,
    home: Seq<char>,
    installed: Seq<Seq<char>>,
    at: int,
    entries: Seq<(Seq<char>, bool)>,
    k: int,
    n: nat,
)
    requires
        0 <= at < 12,
        n <= 12,
        (still.list)(joined(joined(home, "Library"@), SCAN_DIRS@[at].1@)) == Some(entries),
        0 <= k < entries.len(),
        orphan_id(SCAN_DIRS@[at].1@, entries[k].0, installed) is Some,
    ensures
        at < n ==> taken(
            candidates_in(still, home, installed, n),
            joined(joined(joined(home, "Library"@), SCAN_DIRS@[at].1@), entries[k].0),
        ),
        forall|i: int|
            0 <= i < candidates_in(still, home, installed, n).len() ==> measured(
                still,
                #[trigger] candidates_in(still, home, installed, n)[i],
            ),
    decreases n,
{
    if n > 0 {
        lemma_found_by(still, home, installed, at, entries, k, (n - 1) as nat);
        let before = candidates_in(still, home, installed, (n - 1) as nat);
        let (kind, sub) = SCAN_DIRS@[n - 1];
        let dir = joined(joined(home, "Library"@), sub@);
        if let Some(listed) = (still.list)(dir) {
            lemma_candidates_kept(still, kind@, sub@, dir, listed, installed, before);
            if at == n - 1 {
                assert(orphan_id(sub@, listed[k].0, installed) is Some);
            }
        }
    }
}

proof fn lemma_items_of(candidates: Seq<CandidateView>, id: Seq<char>)
    ensures
        forall|i: int|
            0 <= i < candidates.len() && (#[trigger] candidates[i]).id == id ==> items_of(candidates, id).contains(
                candidates[i].item,
            ),
        forall|j: int| 0 <= j < items_of(candidates, id).len() ==> of_candidate(#[trigger] items_of(candidates, id)[j], candidates, id),
    decreases candidates.len(),
{
    if candidates.len() > 0 {
        let front = candidates.drop_last();
        lemma_items_of(front, id);
        let before = items_of(front, id);
        let all = items_of(candidates, id);
        assert forall|i: int| 0 <= i < candidates.len() && (#[trigger] candidates[i]).id == id implies all.contains(
            candidates[i].item,
        ) by {
            if i < front.len() {
                assert(front[i] == candidates[i]);
                let j = choose|j: int| 0 <= j < before.len() && before[j] == front[i].item;
                assert(all[j] == before[j]);
            } else {
                assert(all[all.len() - 1] == candidates[i].item);
            }
        }
        assert forall|j: int| 0 <= j < all.len() implies of_candidate(#[trigger] all[j], candidates, id) by {
            if j < before.len() {
                assert(all[j] == before[j]);
                let i = choose|i: int| 0 <= i < front.len() && (#[trigger] front[i]).id == id && front[i].item == before[j];
                assert(candidates[i] == front[i]);
            } else {
                assert(candidates[candidates.len() - 1].id == id);
            }
        }
    }
}

/// The item is that of a candidate with the identifier.
pub open spec fn of_candidate(item: OrphanItemView, candidates: Seq<CandidateView>, id: Seq<char>) -> bool {
    exists|i: int| 0 <= i < candidates.len() && (#[trigger] candidates[i]).id == id && candidates[i].item == item
}

proof fn lemma_items_total(v: Seq<OrphanItemView>)
    requires
        forall|i: int| 0 <= i < v.len() ==> (#[trigger] v[i]).size <= u64::MAX,
    ensures
        items_size(v) == order::sum(item_sizes(v)),
    decreases v.len(),
{
    if v.len() > 0 {
        let front = v.drop_last();
        assert forall|i: int| 0 <= i < front.len() implies (#[trigger] front[i]).size <= u64::MAX by {
            assert(front[i] == v[i]);
        }
        lemma_items_total(front);
        assert(item_sizes(v).drop_last() =~= item_sizes(front));
        assert(v[v.len() - 1].size <= u64::MAX);
    }
}

/// Each candidate comes under the one app with its identifier and nowhere
/// else. An app's total is the sizes of its items added up, its items and the
/// apps come largest first, and apps of one size by their identifiers.
pub proof fn candidates_are_gathered_by_identifier(apps: Seq<OrphanView>, candidates: Seq<CandidateView>, i: int, k: int)
    requires
        grouped(apps, candidates),
        candidates.len() <= usize::MAX,
        forall|j: int| 0 <= j < candidates.len() ==> (#[trigger] candidates[j]).item.size <= u64::MAX,
    ensures
        0 <= i < candidates.len() && 0 <= k < apps.len() ==> (apps[k].bundle_id == candidates[i].id
            ==> apps[k].items.contains(candidates[i].item)),
        0 <= i < candidates.len() ==> exists|a: int|
            0 <= a < apps.len() && (#[trigger] apps[a]).bundle_id == candidates[i].id,
        0 <= k < apps.len() ==> {
            &&& apps[k].items.len() > 0
            &&& apps[k].total == capped(items_size(apps[k].items))
            &&& forall|j: int|
                0 <= j < apps[k].items.len() ==> of_candidate(
                    #[trigger] apps[k].items[j],
                    candidates,
                    apps[k].bundle_id,
                )
            &&& forall|a: int, b: int|
                0 <= a < b < apps[k].items.len() ==> (#[trigger] apps[k].items[a]).size >= (#[trigger] apps[k].items[b]).size
        },
        0 <= i < k < apps.len() ==> apps[i].bundle_id != apps[k].bundle_id && apps[i].total >= apps[k].total && (
        apps[i].total == apps[k].total ==> lex_less(apps[i].bundle_id, apps[k].bundle_id)),
{
    if 0 <= i < candidates.len() {
        assert(candidates[i].id == candidates[i].id);
    }
    if 0 <= k < apps.len() {
        let app = apps[k];
        let items = items_of(candidates, app.bundle_id);
        assert(is_group(app, candidates));
        lemma_items_of(candidates, app.bundle_id);
        lemma_items_len(candidates, app.bundle_id);
        assert forall|j: int| 0 <= j < items.len() implies (#[trigger] items[j]).size <= u64::MAX by {
            assert(of_candidate(items[j], candidates, app.bundle_id));
        }
        let keys = item_sizes(items);
        let by = choose|by: Seq<usize>|
            ordered(by, 0, items.len() as int, larger_first(keys)) && app.items == #[trigger] reordered(items, by);
        assert(item_sizes(app.items) =~= reordered(keys, by));
        order::lemma_sum_reordered(keys, by, larger_first(keys));
        assert forall|j: int| 0 <= j < app.items.len() implies (#[trigger] app.items[j]).size <= u64::MAX
            && of_candidate(app.items[j], candidates, app.bundle_id) by {
            assert(app.items[j] == items[by[j] as int]);
        }
        lemma_items_total(items);
        lemma_items_total(app.items);
        assert forall|a: int, b: int| 0 <= a < b < app.items.len() implies (#[trigger] app.items[a]).size >= (
        #[trigger] app.items[b]).size by {
            assert(larger_first(keys)(by[a] as int, by[b] as int));
            assert(app.items[a] == items[by[a] as int] && app.items[b] == items[by[b] as int]);
            assert(keys[by[a] as int] == items[by[a] as int].size as u64);
            assert(keys[by[b] as int] == items[by[b] as int].size as u64);
        }
        if 0 <= i < candidates.len() && app.bundle_id == candidates[i].id {
            let j = choose|j: int| 0 <= j < items.len() && items[j] == candidates[i].item;
            order::lemma_ordered_complete(by, items.len() as int, larger_first(keys), j);
            let p = choose|p: int| 0 <= p < by.len() && #[trigger] by[p] == j;
            assert(app.items[p] == candidates[i].item);
        }
    }
    if 0 <= i < k < apps.len() {
        assert(stands_before(apps[i], apps[k]));
        order::lemma_lex_less_total(apps[i].bundle_id, apps[k].bundle_id);
        if apps[i].bundle_id == apps[k].bundle_id {
            assert(is_group(apps[i], candidates) && is_group(apps[k], candidates));
        }
    }
}

proof fn lemma_items_len(candidates: Seq<CandidateView>, id: Seq<char>)
    ensures
        items_of(candidates, id).len() <= candidates.len(),
    decreases candidates.len(),
{
    if candidates.len() > 0 {
        lemma_items_len(candidates.drop_last(), id);
    }
}

/// An app that is gone is called by the last segment of its identifier.
pub proof fn a_vanished_app_is_called_by_its_last_segment(head: Seq<char>, last: Seq<char>)
    requires
        last.len() > 0,
        forall|i: int| 0 <= i < last.len() ==> last[i] != '.',
    ensures
        readable_name(head.push('.') + last) == last,
        readable_name(last) == last,
{
    text::lemma_pieces_join(head, last, '.');
    text::lemma_pieces_single(last, '.');
    let all = pieces(head.push('.') + last, '.');
    assert(all.last() == last);
    assert(all.len() > 0);
    assert(pieces(last, '.').last() == last);
}

/// Where installed components are looked for, home or not.
pub open spec fn may_hold_apps(dir: Seq<char>) -> bool {
    ||| dir == "/Applications"@
    ||| dir == "/Applications/Utilities"@
    ||| dir == "/System/Applications"@
    ||| dir == "/System/Applications/Utilities"@
    ||| dir == "/System/Library/CoreServices"@
    ||| dir == "/Library/Input Methods"@
    ||| dir == "/Library/PreferencePanes"@
    ||| dir == "/Library/Internet Plug-Ins"@
    ||| dir == "/Library/CoreServices"@
    ||| dir == "/Library/QuickLook"@
    ||| dir == "/Library/Spotlight"@
    ||| dir == "/Library/Application Support"@
    ||| dir == "/Library/PrivilegedHelperTools"@
}

/// Where installed components are looked for inside a home.
pub open spec fn may_hold_apps_at_home(dir: Seq<char>) -> bool {
    ||| dir == "Applications"@
    ||| dir == "Library/Input Methods"@
    ||| dir == "Library/PreferencePanes"@
    ||| dir == "Library/Internet Plug-Ins"@
    ||| dir == "Library/Services"@
}

/// Every place that may hold an installed component is searched, so that
/// nothing that is installed is taken for gone.
pub proof fn wherever_apps_may_be_is_searched(home: Option<Seq<char>>, dir: Seq<char>)
    ensures
        may_hold_apps(dir) ==> install_places(home).contains(dir),
        home is Some && may_hold_apps_at_home(dir) ==> install_places(home).contains(joined(home->0, dir)),
        home is None ==> forall|i: int| 0 <= i < install_places(home).len() ==> may_hold_apps(#[trigger] install_places(home)[i]),
{
    let all = install_places(home);
    let own = INSTALL_DIRS@.map_values(|d: &'static str| d@);
    let first = match home {
        Some(h) => seq!["/Applications"@, joined(h, "Applications"@)],
        None => seq!["/Applications"@],
    };
    let n = first.len() as int;
    assert(all[0] == "/Applications"@);
    assert(forall|i: int| 0 <= i < 12 ==> #[trigger] all[n + i] == INSTALL_DIRS@[i]@) by {
        assert(forall|i: int| 0 <= i < 12 ==> own[i] == #[trigger] INSTALL_DIRS@[i]@);
        assert(forall|i: int| 0 <= i < 12 ==> #[trigger] all[n + i] == own[i]);
    }
    if may_hold_apps(dir) {
        assert(all[n + 0] == "/Applications/Utilities"@);
        assert(all[n + 1] == "/System/Applications"@);
        assert(all[n + 2] == "/System/Applications/Utilities"@);
        assert(all[n + 3] == "/System/Library/CoreServices"@);
        assert(all[n + 4] == "/Library/Input Methods"@);
        assert(all[n + 5] == "/Library/PreferencePanes"@);
        assert(all[n + 6] == "/Library/Internet Plug-Ins"@);
        assert(all[n + 7] == "/Library/CoreServices"@);
        assert(all[n + 8] == "/Library/QuickLook"@);
        assert(all[n + 9] == "/Library/Spotlight"@);
        assert(all[n + 10] == "/Library/Application Support"@);
        assert(all[n + 11] == "/Library/PrivilegedHelperTools"@);
    }
    if home is Some && may_hold_apps_at_home(dir) {
        let h = home->0;
        let at_home = HOME_INSTALL_DIRS@.map_values(|d: &'static str| joined(h, d@));
        assert(all[1] == joined(h, "Applications"@));
        let m: int = 14;
        assert(forall|i: int| 0 <= i < 4 ==> #[trigger] all[m + i] == at_home[i]);
        assert(all[m + 0] == joined(h, "Library/Input Methods"@));
        assert(all[m + 1] == joined(h, "Library/PreferencePanes"@));
        assert(all[m + 2] == joined(h, "Library/Internet Plug-Ins"@));
        assert(all[m + 3] == joined(h, "Library/Services"@));
    }
    if home is None {
        assert forall|i: int| 0 <= i < all.len() implies may_hold_apps(#[trigger] all[i]) by {
            assert(all.len() == 13);
            if i > 0 {
                assert(all[n + (i - 1)] == INSTALL_DIRS@[i - 1]@);
                let k = i - 1;
                assert(k == 0 || k == 1 || k == 2 || k == 3 || k == 4 || k == 5 || k == 6 || k == 7 || k == 8 || k == 9
                    || k == 10 || k == 11);
            }
        }
    }
}

/// A directory with a property list where a bundle has it.
pub open spec fn holds_plist(still: StillDisk, path: Seq<char>) -> bool {
    &&& (still.stat)(path) matches Some(stat)
    &&& stat.is_dir
    &&& (still.stat)(joined(path, "Contents/Info.plist"@)) matches Some(info)
    &&& info.is_file
}

proof fn lemma_suite(still: StillDisk, dir: Seq<char>, entries: Seq<(Seq<char>, bool)>)
    ensures
        forall|k: int|
            0 <= k < entries.len() && holds_plist(still, joined(dir, (#[trigger] entries[k]).0)) ==> suite_bundles(
                still,
                dir,
                entries,
            ).contains(joined(dir, entries[k].0)),
        forall|i: int|
            0 <= i < suite_bundles(still, dir, entries).len() ==> holds_plist(
                still,
                #[trigger] suite_bundles(still, dir, entries)[i],
            ),
    decreases entries.len(),
{
    if entries.len() > 0 {
        let front = entries.drop_last();
        lemma_suite(still, dir, front);
        let (before, all) = (suite_bundles(still, dir, front), suite_bundles(still, dir, entries));
        assert forall|k: int|
            0 <= k < entries.len() && holds_plist(still, joined(dir, (#[trigger] entries[k]).0)) implies all.contains(
            joined(dir, entries[k].0),
        ) by {
            if k < front.len() {
                assert(front[k] == entries[k]);
                let i = choose|i: int| 0 <= i < before.len() && before[i] == joined(dir, front[k].0);
                assert(all[i] == before[i]);
            } else {
                assert(all[all.len() - 1] == joined(dir, entries[k].0));
            }
        }
        assert forall|i: int| 0 <= i < all.len() implies holds_plist(still, #[trigger] all[i]) by {
            if i < before.len() {
                assert(all[i] == before[i]);
            }
        }
    }
}

proof fn lemma_among(still: StillDisk, dir: Seq<char>, entries: Seq<(Seq<char>, bool)>)
    ensures
        forall|k: int|
            0 <= k < entries.len() && holds_plist(still, joined(dir, (#[trigger] entries[k]).0)) ==> bundles_among(
                still,
                dir,
                entries,
            ).contains(joined(dir, entries[k].0)),
        forall|k: int, p: Seq<char>|
            0 <= k < entries.len() && #[trigger] in_suite(still, joined(dir, (#[trigger] entries[k]).0), p) ==> bundles_among(
                still,
                dir,
                entries,
            ).contains(p),
        forall|i: int|
            0 <= i < bundles_among(still, dir, entries).len() ==> holds_plist(
                still,
                #[trigger] bundles_among(still, dir, entries)[i],
            ),
    decreases entries.len(),
{
    if entries.len() > 0 {
        let front = entries.drop_last();
        lemma_among(still, dir, front);
        let (before, all) = (bundles_among(still, dir, front), bundles_among(still, dir, entries));
        let path = joined(dir, entries.last().0);
        let nested = (still.list)(path);
        if let Some(inner) = nested {
            lemma_suite(still, path, inner);
        }
        assert(forall|i: int| 0 <= i < before.len() ==> #[trigger] all[i] == before[i]);
        assert forall|k: int|
            0 <= k < entries.len() && holds_plist(still, joined(dir, (#[trigger] entries[k]).0)) implies all.contains(
            joined(dir, entries[k].0),
        ) by {
            if k < front.len() {
                assert(front[k] == entries[k]);
                let i = choose|i: int| 0 <= i < before.len() && before[i] == joined(dir, front[k].0);
                assert(all[i] == before[i]);
            } else {
                assert(all[all.len() - 1] == joined(dir, entries[k].0));
            }
        }
        assert forall|k: int, p: Seq<char>|
            0 <= k < entries.len() && #[trigger] in_suite(still, joined(dir, (#[trigger] entries[k]).0), p) implies all.contains(p) by {
            if k < front.len() {
                assert(front[k] == entries[k]);
                assert(before.contains(p));
                let i = choose|i: int| 0 <= i < before.len() && before[i] == p;
                assert(all[i] == p);
            } else {
                let inner = nested->0;
                let j = choose|j: int| 0 <= j < inner.len() && p == joined(path, (#[trigger] inner[j]).0);
                assert(suite_bundles(still, path, inner).contains(p));
                let i = choose|i: int| 0 <= i < suite_bundles(still, path, inner).len() && suite_bundles(still, path, inner)[i] == p;
                assert(all[before.len() + i] == p);
            }
        }
        assert forall|i: int| 0 <= i < all.len() implies holds_plist(still, #[trigger] all[i]) by {
            if i < before.len() {
                assert(all[i] == before[i]);
            } else if nested is Some && !bundle_at(still, path) {
                assert(all[i] == suite_bundles(still, path, nested->0)[i - before.len()]);
            }
        }
    }
}

/// The directory is no bundle, and `p` is one directly inside it.
pub open spec fn in_suite(still: StillDisk, dir: Seq<char>, p: Seq<char>) -> bool {
    &&& (still.stat)(dir) matches Some(stat)
    &&& stat.is_dir
    &&& !holds_plist(still, dir)
    &&& (still.list)(dir) matches Some(inner)
    &&& holds_plist(still, p)
    &&& exists|j: int| 0 <= j < inner.len() && p == joined(dir, (#[trigger] inner[j]).0)
}

/// Every bundle in a searched directory is found, and every bundle in a
/// folder there that is none itself, as suites have them; and what is found
/// is a bundle.
pub proof fn every_bundle_is_found(
    still: StillDisk,
    dirs: Seq<Seq<char>>,
    d: int,
    entries: Seq<(Seq<char>, bool)>,
    k: int,
    p: Seq<char>,
)
    requires
        0 <= d < dirs.len(),
        (still.list)(dirs[d]) == Some(entries),
        0 <= k < entries.len(),
    ensures
        holds_plist(still, joined(dirs[d], entries[k].0)) ==> bundles_in(still, dirs).contains(
            joined(dirs[d], entries[k].0),
        ),
        in_suite(still, joined(dirs[d], entries[k].0), p) ==> bundles_in(still, dirs).contains(p),
        forall|i: int| 0 <= i < bundles_in(still, dirs).len() ==> holds_plist(still, #[trigger] bundles_in(still, dirs)[i]),
    decreases dirs.len(),
{
    let front = dirs.drop_last();
    let before = bundles_in(still, front);
    let all = bundles_in(still, dirs);
    lemma_all_bundles(still, dirs);
    if d == dirs.len() - 1 {
        lemma_among(still, dirs[d], entries);
        let here = bundles_among(still, dirs[d], entries);
        assert(all == before + here);
        assert forall|q: Seq<char>| here.contains(q) implies all.contains(q) by {
            let i = choose|i: int| 0 <= i < here.len() && here[i] == q;
            assert(all[before.len() + i] == q);
        }
    } else {
        assert(front[d] == dirs[d]);
        every_bundle_is_found(still, front, d, entries, k, p);
        assert forall|q: Seq<char>| before.contains(q) implies all.contains(q) by {
            let i = choose|i: int| 0 <= i < before.len() && before[i] == q;
            assert(all[i] == q);
        }
    }
}

proof fn lemma_all_bundles(still: StillDisk, dirs: Seq<Seq<char>>)
    ensures
        forall|i: int| 0 <= i < bundles_in(still, dirs).len() ==> holds_plist(still, #[trigger] bundles_in(still, dirs)[i]),
    decreases dirs.len(),
{
    if dirs.len() > 0 {
        lemma_all_bundles(still, dirs.drop_last());
        let before = bundles_in(still, dirs.drop_last());
        let all = bundles_in(still, dirs);
        if let Some(entries) = (still.list)(dirs.last()) {
            lemma_among(still, dirs.last(), entries);
        }
        assert forall|i: int| 0 <= i < all.len() implies holds_plist(still, #[trigger] all[i]) by {
            if i < before.len() {
                assert(all[i] == before[i]);
            } else {
                assert(all[i] == bundles_among(still, dirs.last(), (still.list)(dirs.last())->0)[i - before.len()]);
            }
        }
    }
}

/// Where a bundle may hold another.
pub open spec fn may_hold_bundles(dir: Seq<char>) -> bool {
    ||| dir == "Contents/Library/LoginItems"@
    ||| dir == "Contents/Library/LaunchAgents"@
    ||| dir == "Contents/Library/LaunchDaemons"@
    ||| dir == "Contents/Library/QuickLook"@
    ||| dir == "Contents/Library/Spotlight"@
    ||| dir == "Contents/Library/SystemExtensions"@
    ||| dir == "Contents/Library/Automator"@
    ||| dir == "Contents/Library/Services"@
    ||| dir == "Contents/XPCServices"@
    ||| dir == "Contents/PlugIns"@
    ||| dir == "Contents/Extensions"@
    ||| dir == "Contents/Frameworks"@
    ||| dir == "Contents/Helpers"@
    ||| dir == "Contents/Resources"@
    ||| dir == "Contents/MacOS"@
}

/// The identifier that the property list at `place` gives, in lower case.
pub open spec fn says(still: StillDisk, place: Seq<char>, id: Seq<char>) -> bool {
    &&& info_text((still.bytes)(place), "CFBundleIdentifier"@) matches Some(text)
    &&& id == lowercase_of(text)
}

proof fn lemma_ids_among(still: StillDisk, dir: Seq<char>, entries: Seq<(Seq<char>, bool)>, k: int)
    requires
        0 <= k < entries.len(),
    ensures
        nested_id(still, joined(dir, entries[k].0)) is Some ==> ids_among(still, dir, entries).contains(
            nested_id(still, joined(dir, entries[k].0))->0,
        ),
    decreases entries.len(),
{
    let front = entries.drop_last();
    let (before, all) = (ids_among(still, dir, front), ids_among(still, dir, entries));
    if nested_id(still, joined(dir, entries[k].0)) is Some {
        if k < front.len() {
            lemma_ids_among(still, dir, front, k);
            assert(front[k] == entries[k]);
            let i = choose|i: int| 0 <= i < before.len() && before[i] == nested_id(still, joined(dir, front[k].0))->0;
            assert(all[i] == before[i]);
        } else {
            assert(all[all.len() - 1] == nested_id(still, joined(dir, entries[k].0))->0);
        }
    }
}

proof fn lemma_nested_ids(still: StillDisk, app: Seq<char>, n: nat, at: int, id: Seq<char>)
    requires
        0 <= at < n <= 15,
        (still.list)(joined(app, NESTED_BUNDLE_DIRS@[at]@)) is Some,
        ids_among(
            still,
            joined(app, NESTED_BUNDLE_DIRS@[at]@),
            (still.list)(joined(app, NESTED_BUNDLE_DIRS@[at]@))->0,
        ).contains(id),
    ensures
        nested_ids(still, app, n).contains(id),
    decreases n,
{
    let before = nested_ids(still, app, (n - 1) as nat);
    let all = nested_ids(still, app, n);
    if at == n - 1 {
        let dir = joined(app, NESTED_BUNDLE_DIRS@[at]@);
        let here = ids_among(still, dir, (still.list)(dir)->0);
        let i = choose|i: int| 0 <= i < here.len() && here[i] == id;
        assert(all[before.len() + i] == id);
    } else {
        lemma_nested_ids(still, app, (n - 1) as nat, at, id);
        let i = choose|i: int| 0 <= i < before.len() && before[i] == id;
        assert(all[i] == id);
    }
}

/// An installed bundle accounts for its own identifier, and for those of the
/// bundles inside it, wherever those keep their property lists.
pub proof fn a_bundle_speaks_for_those_inside_it(
    still: StillDisk,
    app: Seq<char>,
    dir: Seq<char>,
    entries: Seq<(Seq<char>, bool)>,
    k: int,
    id: Seq<char>,
)
    ensures
        says(still, joined(app, "Contents/Info.plist"@), id) ==> ids_within(still, app).contains(id),
        may_hold_bundles(dir) && (still.list)(joined(app, dir)) == Some(entries) && 0 <= k < entries.len() ==> {
            let child = joined(joined(app, dir), entries[k].0);
            let first = joined(child, "Contents/Info.plist"@);
            let second = joined(child, "Resources/Info.plist"@);
            let third = joined(child, "Versions/Current/Resources/Info.plist"@);
            &&& says(still, first, id) ==> ids_within(still, app).contains(id)
            &&& says(still, second, id) && info_text((still.bytes)(first), "CFBundleIdentifier"@) is None ==> ids_within(
                still,
                app,
            ).contains(id)
            &&& says(still, third, id) && info_text((still.bytes)(first), "CFBundleIdentifier"@) is None && info_text(
                (still.bytes)(second),
                "CFBundleIdentifier"@,
            ) is None ==> ids_within(still, app).contains(id)
        },
{
    let own = plist_id((still.bytes)(joined(app, "Contents/Info.plist"@)));
    let all = ids_within(still, app);
    if says(still, joined(app, "Contents/Info.plist"@), id) {
        assert(all[0] == id);
    }
    if may_hold_bundles(dir) && (still.list)(joined(app, dir)) == Some(entries) && 0 <= k < entries.len() {
        let at = lemma_where_bundles(dir);
        let child = joined(joined(app, dir), entries[k].0);
        lemma_ids_among(still, joined(app, dir), entries, k);
        if nested_id(still, child) is Some {
            let found = nested_id(still, child)->0;
            lemma_nested_ids(still, app, 15, at, found);
            let inner = nested_ids(still, app, 15);
            let i = choose|i: int| 0 <= i < inner.len() && inner[i] == found;
            let skip: int = if own is Some {
                1
            } else {
                0
            };
            assert(all[skip + i] == found);
        }
    }
}

proof fn lemma_where_bundles(dir: Seq<char>) -> (i: int)
    requires
        may_hold_bundles(dir),
    ensures
        0 <= i < 15,
        NESTED_BUNDLE_DIRS@[i]@ == dir,
{
    let all = NESTED_BUNDLE_DIRS@;
    if dir == "Contents/Library/LoginItems"@ {
        0
    } else if dir == "Contents/Library/LaunchAgents"@ {
        1
    } else if dir == "Contents/Library/LaunchDaemons"@ {
        2
    } else if dir == "Contents/Library/QuickLook"@ {
        3
    } else if dir == "Contents/Library/Spotlight"@ {
        4
    } else if dir == "Contents/Library/SystemExtensions"@ {
        5
    } else if dir == "Contents/Library/Automator"@ {
        6
    } else if dir == "Contents/Library/Services"@ {
        7
    } else if dir == "Contents/XPCServices"@ {
        8
    } else if dir == "Contents/PlugIns"@ {
        9
    } else if dir == "Contents/Extensions"@ {
        10
    } else if dir == "Contents/Frameworks"@ {
        11
    } else if dir == "Contents/Helpers"@ {
        12
    } else if dir == "Contents/Resources"@ {
        13
    } else {
        14
    }
}

} // verus!
