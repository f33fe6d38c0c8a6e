//! Application uninstaller: lists installed `.app` bundles and, for a chosen
//! app, finds the support files it leaves scattered across `~/Library`.
//!
//! The rules are a list of "look in this directory for entries named after
//! the app". Matching by directory listing rather than by exact path is what
//! catches the suffixed siblings (`<id>.ShipIt`, crash reports) that an
//! exact-path probe misses.

use vstd::prelude::*;

use crate::capability;
use crate::capability::{enabled_in, Build, Capability};
use crate::disk::{bytes_view, entries_view, sizes_fit, stands_still, DirItem, Disk, StillDisk};
use crate::info::{info_place, info_string, info_text, opt_text};
use crate::model::capped;
use crate::order;
use crate::order::{ordered, reordered, texts_first};
use crate::paths::{
    absolute, extension_of, has_parent, is_name, joined, last_name, lemma_parent_of_child, lemma_parts_joined, opt_view,
    parent_text, parts, same_path, stem_of, texts, under, FsPath,
};
use crate::scanner;
use crate::text;
use crate::text::{bytes_in, lowercase_of, stands_at, strings};

verus! {

/// An installed application bundle.
#[derive(Debug)]
pub struct AppInfo {
    /// Display name without the `.app` extension.
    pub name: String,
    /// Absolute path to the `.app` bundle.
    pub path: FsPath,
    /// `CFBundleIdentifier` from the bundle's Info.plist, if readable.
    pub bundle_id: Option<String>,
    /// Total size of the bundle in bytes, or `None` if not measured yet.
    pub size_bytes: Option<u64>,
}

impl Clone for AppInfo {
    fn clone(&self) -> (r: Self)
        ensures
            r == *self,
    {
        AppInfo {
            name: self.name.clone(),
            path: self.path.clone(),
            bundle_id: match &self.bundle_id {
                Some(id) => Some(id.clone()),
                None => None,
            },
            size_bytes: self.size_bytes,
        }
    }
}

/// A support file or directory left behind by an app.
#[derive(Debug)]
pub struct Leftover {
    /// Human-readable category (e.g. "Preferences").
    pub kind: String,
    pub path: FsPath,
    pub size_bytes: u64,
    /// Whether removing this needs an administrator password.
    pub requires_admin: bool,
}

/// The full uninstall plan for one app: the bundle plus its leftovers.
#[derive(Debug)]
pub struct UninstallPlan {
    pub app: AppInfo,
    pub leftovers: Vec<Leftover>,
    /// Total reclaimable bytes (bundle and all leftovers).
    pub total_bytes: u64,
}

/// How an entry name is compared against a token.
#[derive(Debug, Clone, Copy, PartialEq, Eq, Structural)]
pub enum Match {
    /// The name starts with the token, at a separator boundary.
    Prefix,
    /// The token appears anywhere in the name at separator boundaries.
    Contains,
}

/// The default directories scanned for applications.
pub fn default_app_dirs(home: Option<&FsPath>) -> (r: Vec<FsPath>)
    ensures
        texts(r@) == match opt_view(home) {
            Some(h) => seq!["/Applications"@, joined(h, "Applications"@)],
            None => seq!["/Applications"@],
        },
{
    let mut dirs: Vec<FsPath> = Vec::new();
    dirs.push(FsPath::new("/Applications"));
    if let Some(home) = home {
        dirs.push(home.join("Applications"));
        assert(texts(dirs@) =~= seq!["/Applications"@, joined(home@, "Applications"@)]);
    } else {
        assert(texts(dirs@) =~= seq!["/Applications"@]);
    }
    dirs
}

/// Only `.`, `_` and `~` bound a name. `-` is ordinary inside an unrelated
/// name; `~` is what iCloud joins identifiers with.
pub open spec fn is_boundary(c: char) -> bool {
    c == '.' || c == '_' || c == '~'
}

/// `token` stands in `name` at `i` with nothing, or a boundary, on either
/// side.
pub open spec fn bounded_at(name: Seq<char>, token: Seq<char>, i: int) -> bool {
    &&& stands_at(name, token, i)
    &&& i == 0 || is_boundary(name[i - 1])
    &&& i + token.len() == name.len() || is_boundary(name[i + token.len()])
}

/// `name` matches `token` under `mode`, regardless of case. Tokens shorter
/// than three bytes match nothing. A match must end on a separator, so that
/// one app's identifier does not sweep up another's.
pub open spec fn matches_name(name: Seq<char>, token: Seq<char>, mode: Match) -> bool {
    let n = lowercase_of(name);
    let t = lowercase_of(token);
    &&& bytes_in(t) >= 3
    &&& match mode {
        Match::Prefix => bounded_at(n, t, 0),
        Match::Contains => exists|i: int| #[trigger] bounded_at(n, t, i),
    }
}

/// Whether `token` stands in `name` at `i`, bounded.
fn is_bounded_at(name: &Vec<char>, token: &Vec<char>, i: usize) -> (r: bool)
    ensures
        r == bounded_at(name@, token@, i as int),
{
    if !text::found_at(name.as_slice(), token.as_slice(), i) {
        return false;
    }
    let before_ok = i == 0 || name[i - 1] == '.' || name[i - 1] == '_' || name[i - 1] == '~';
    let n: usize = name.len();
    let end: usize = i + token.len();
    let after_ok = end == n || name[end] == '.' || name[end] == '_' || name[end] == '~';
    before_ok && after_ok
}

/// Whether `name` matches `token` under `mode`.
pub fn name_matches(name: &str, token: &str, mode: Match) -> (r: bool)
    ensures
        r == matches_name(name@, token@, mode),
{
    let lower_name = text::to_lowercase(name);
    let lower_token = text::to_lowercase(token);
    if text::byte_len(lower_token.as_str()) < 3 {
        return false;
    }
    let n = text::chars_of(lower_name.as_str());
    let t = text::chars_of(lower_token.as_str());
    match mode {
        Match::Prefix => is_bounded_at(&n, &t, 0),
        Match::Contains => {
            let mut i: usize = 0;
            while i < n.len()
                invariant
                    i <= n@.len(),
                    n@ == lowercase_of(name@),
                    t@ == lowercase_of(token@),
                    bytes_in(t@) >= 3,
                    mode == Match::Contains,
                    forall|j: int| 0 <= j < i ==> !#[trigger] bounded_at(n@, t@, j),
                decreases n@.len() - i,
            {
                if is_bounded_at(&n, &t, i) {
                    return true;
                }
                i += 1;
            }
            let r = is_bounded_at(&n, &t, i);
            assert forall|j: int| #[trigger] bounded_at(n@, t@, j) implies j <= i by {}
            r
        },
    }
}

/// Whether `path` is an `.app` bundle located directly inside an
/// "Applications" directory. Gates what uninstall may remove.
pub open spec fn app_bundle(path: Seq<char>) -> bool {
    &&& last_name(path) is Some
    &&& extension_of(last_name(path)->0) == Some("app"@)
    &&& has_parent(path)
    &&& last_name(parent_text(path)) == Some("Applications"@)
}

/// Whether the name of `path` ends in `.app`.
fn has_app_extension(path: &FsPath) -> (r: bool)
    ensures
        r == (last_name(path@) is Some && extension_of(last_name(path@)->0) == Some("app"@)),
{
    match path.extension() {
        Some(extension) => text::same_text(extension.as_str(), "app"),
        None => false,
    }
}

/// Whether `path` is an `.app` bundle located directly inside an
/// "Applications" directory.
pub fn is_app_bundle(path: &FsPath) -> (r: bool)
    ensures
        r == app_bundle(path@),
{
    if !has_app_extension(path) {
        return false;
    }
    match path.parent() {
        Some(parent) => match parent.file_name() {
            Some(name) => text::same_text(name.as_str(), "Applications"),
            None => false,
        },
        None => false,
    }
}

/// Which tokens a place is searched for.
#[derive(Debug, Clone, Copy, PartialEq, Eq, Structural)]
pub enum Keys {
    /// The bundle identifier.
    Id,
    /// The names that the app answers to.
    Names,
    /// The bundle identifier, then the names.
    Both,
    /// The bundle identifier with its dots as tildes, as iCloud writes it.
    IdTilde,
}

/// A place to look for leftovers, before the app is known.
#[derive(Debug, Clone, Copy)]
pub struct RuleRow {
    pub kind: &'static str,
    pub dir: &'static str,
    pub keys: Keys,
    pub mode: Match,
}

/// One row of a table.
#[verifier::allow_in_spec]
pub fn row(kind: &'static str, dir: &'static str, keys: Keys, mode: Match) -> (r: RuleRow)
    returns
        (RuleRow { kind, dir, keys, mode }),
{
    RuleRow { kind, dir, keys, mode }
}

/// The places under `~/Library`.
pub open spec fn user_rows() -> Seq<RuleRow> {
    seq![
        row("Preferences", "Preferences", Keys::Id, Match::Prefix),
        row("Preferences", "Preferences/ByHost", Keys::Id, Match::Prefix),
        row("Containers", "Containers", Keys::Id, Match::Prefix),
        row("Group Containers", "Group Containers", Keys::Id, Match::Contains),
        row("Saved State", "Saved Application State", Keys::Id, Match::Prefix),
        row("HTTP Storage", "HTTPStorages", Keys::Id, Match::Prefix),
        row("WebKit", "WebKit", Keys::Id, Match::Prefix),
        row("Cookies", "Cookies", Keys::Id, Match::Prefix),
        row("App Scripts", "Application Scripts", Keys::Id, Match::Prefix),
        row("Launch Agent", "LaunchAgents", Keys::Id, Match::Prefix),
        row("iCloud Documents", "Mobile Documents", Keys::IdTilde, Match::Contains),
        row("Application Support", "Application Support", Keys::Both, Match::Prefix),
        row("Caches", "Caches", Keys::Both, Match::Prefix),
        row("Logs", "Logs", Keys::Both, Match::Prefix),
        row("Autosave", "Autosave Information", Keys::Both, Match::Prefix),
        row("Crash Logs", "Logs/DiagnosticReports", Keys::Names, Match::Prefix),
        row("Crash Logs", "Application Support/CrashReporter", Keys::Names, Match::Prefix),
        row("Plug-ins", "Internet Plug-Ins", Keys::Both, Match::Prefix),
        row("Plug-ins", "PreferencePanes", Keys::Both, Match::Prefix),
        row("Plug-ins", "QuickLook", Keys::Both, Match::Prefix),
        row("Plug-ins", "Screen Savers", Keys::Both, Match::Prefix),
        row("Plug-ins", "Services", Keys::Both, Match::Prefix),
        row("Plug-ins", "Widgets", Keys::Both, Match::Prefix),
        row("Plug-ins", "Audio/Plug-Ins/HAL", Keys::Both, Match::Prefix),
        row("Plug-ins", "Automator", Keys::Both, Match::Prefix),
        row("Plug-ins", "Spelling", Keys::Both, Match::Prefix),
    ]
}

/// The places under `~/Library`: first those keyed by identifier, the most
/// reliable; then those that an app may key by either; then crash reports,
/// which are named after the app; then bundles it may have installed.
fn user_table() -> (r: Vec<RuleRow>)
    ensures
        r@ == user_rows(),
{
    vec![
        row("Preferences", "Preferences", Keys::Id, Match::Prefix),
        row("Preferences", "Preferences/ByHost", Keys::Id, Match::Prefix),
        row("Containers", "Containers", Keys::Id, Match::Prefix),
        row("Group Containers", "Group Containers", Keys::Id, Match::Contains),
        row("Saved State", "Saved Application State", Keys::Id, Match::Prefix),
        row("HTTP Storage", "HTTPStorages", Keys::Id, Match::Prefix),
        row("WebKit", "WebKit", Keys::Id, Match::Prefix),
        row("Cookies", "Cookies", Keys::Id, Match::Prefix),
        row("App Scripts", "Application Scripts", Keys::Id, Match::Prefix),
        row("Launch Agent", "LaunchAgents", Keys::Id, Match::Prefix),
        row("iCloud Documents", "Mobile Documents", Keys::IdTilde, Match::Contains),
        row("Application Support", "Application Support", Keys::Both, Match::Prefix),
        row("Caches", "Caches", Keys::Both, Match::Prefix),
        row("Logs", "Logs", Keys::Both, Match::Prefix),
        row("Autosave", "Autosave Information", Keys::Both, Match::Prefix),
        row("Crash Logs", "Logs/DiagnosticReports", Keys::Names, Match::Prefix),
        row("Crash Logs", "Application Support/CrashReporter", Keys::Names, Match::Prefix),
        row("Plug-ins", "Internet Plug-Ins", Keys::Both, Match::Prefix),
        row("Plug-ins", "PreferencePanes", Keys::Both, Match::Prefix),
        row("Plug-ins", "QuickLook", Keys::Both, Match::Prefix),
        row("Plug-ins", "Screen Savers", Keys::Both, Match::Prefix),
        row("Plug-ins", "Services", Keys::Both, Match::Prefix),
        row("Plug-ins", "Widgets", Keys::Both, Match::Prefix),
        row("Plug-ins", "Audio/Plug-Ins/HAL", Keys::Both, Match::Prefix),
        row("Plug-ins", "Automator", Keys::Both, Match::Prefix),
        row("Plug-ins", "Spelling", Keys::Both, Match::Prefix),
    ]
}

/// The root-domain directories an app's leftovers may sit in. What finds
/// root-domain leftovers and what decides which may be removed as root must
/// agree, so both read this table. Where a display name like "Mail" would be
/// far too broad only the identifier is searched for.
pub open spec fn system_rows() -> Seq<RuleRow> {
    seq![
        row("Application Support", "/Library/Application Support", Keys::Both, Match::Prefix),
        row("Caches", "/Library/Caches", Keys::Both, Match::Prefix),
        row("Logs", "/Library/Logs", Keys::Both, Match::Prefix),
        row("Crash Logs", "/Library/Logs/DiagnosticReports", Keys::Both, Match::Prefix),
        row("Crash Logs", "/Library/Application Support/CrashReporter", Keys::Both, Match::Prefix),
        row("Preferences", "/Library/Preferences", Keys::Id, Match::Prefix),
        row("Launch Agent", "/Library/LaunchAgents", Keys::Id, Match::Prefix),
        row("Launch Daemon", "/Library/LaunchDaemons", Keys::Id, Match::Prefix),
        row("Privileged Helper", "/Library/PrivilegedHelperTools", Keys::Id, Match::Prefix),
        row("Plug-ins", "/Library/Internet Plug-Ins", Keys::Both, Match::Prefix),
        row("Plug-ins", "/Library/PreferencePanes", Keys::Both, Match::Prefix),
        row("Plug-ins", "/Library/QuickLook", Keys::Both, Match::Prefix),
        row("Plug-ins", "/Library/Screen Savers", Keys::Both, Match::Prefix),
        row("Plug-ins", "/Library/Services", Keys::Both, Match::Prefix),
        row("Plug-ins", "/Library/Widgets", Keys::Both, Match::Prefix),
        row("Plug-ins", "/Library/Audio/Plug-Ins/HAL", Keys::Both, Match::Prefix),
        row("Plug-ins", "/Library/Automator", Keys::Both, Match::Prefix),
        row("Plug-ins", "/Library/Extensions", Keys::Both, Match::Prefix),
        row("Installer Receipt", "/private/var/db/receipts", Keys::Id, Match::Prefix),
    ]
}

/// The root-domain directories.
fn system_table() -> (r: Vec<RuleRow>)
    ensures
        r@ == system_rows(),
{
    vec![
        row("Application Support", "/Library/Application Support", Keys::Both, Match::Prefix),
        row("Caches", "/Library/Caches", Keys::Both, Match::Prefix),
        row("Logs", "/Library/Logs", Keys::Both, Match::Prefix),
        row("Crash Logs", "/Library/Logs/DiagnosticReports", Keys::Both, Match::Prefix),
        row("Crash Logs", "/Library/Application Support/CrashReporter", Keys::Both, Match::Prefix),
        row("Preferences", "/Library/Preferences", Keys::Id, Match::Prefix),
        row("Launch Agent", "/Library/LaunchAgents", Keys::Id, Match::Prefix),
        row("Launch Daemon", "/Library/LaunchDaemons", Keys::Id, Match::Prefix),
        row("Privileged Helper", "/Library/PrivilegedHelperTools", Keys::Id, Match::Prefix),
        row("Plug-ins", "/Library/Internet Plug-Ins", Keys::Both, Match::Prefix),
        row("Plug-ins", "/Library/PreferencePanes", Keys::Both, Match::Prefix),
        row("Plug-ins", "/Library/QuickLook", Keys::Both, Match::Prefix),
        row("Plug-ins", "/Library/Screen Savers", Keys::Both, Match::Prefix),
        row("Plug-ins", "/Library/Services", Keys::Both, Match::Prefix),
        row("Plug-ins", "/Library/Widgets", Keys::Both, Match::Prefix),
        row("Plug-ins", "/Library/Audio/Plug-Ins/HAL", Keys::Both, Match::Prefix),
        row("Plug-ins", "/Library/Automator", Keys::Both, Match::Prefix),
        row("Plug-ins", "/Library/Extensions", Keys::Both, Match::Prefix),
        row("Installer Receipt", "/private/var/db/receipts", Keys::Id, Match::Prefix),
    ]
}

/// One place to look for leftovers: a directory, the names to look for in it,
/// and how to compare them.
#[derive(Debug)]
pub struct LeftoverRule {
    /// Human-readable category.
    pub kind: String,
    /// Absolute directory to list.
    pub dir: FsPath,
    /// Names to match entries against (bundle id and/or display name).
    pub tokens: Vec<String>,
    pub mode: Match,
    /// Whether entries found here need an administrator to remove.
    pub requires_admin: bool,
}

/// A place to look for leftovers, as a mathematical value.
pub struct RuleView {
    pub kind: Seq<char>,
    pub dir: Seq<char>,
    pub tokens: Seq<Seq<char>>,
    pub mode: Match,
    pub requires_admin: bool,
}

impl View for LeftoverRule {
    type V = RuleView;

    open spec fn view(&self) -> RuleView {
        RuleView {
            kind: self.kind@,
            dir: self.dir@,
            tokens: strings(self.tokens@),
            mode: self.mode,
            requires_admin: self.requires_admin,
        }
    }
}

/// What a list of rules stands for.
pub open spec fn rules_view(v: Seq<LeftoverRule>) -> Seq<RuleView> {
    v.map_values(|r: LeftoverRule| r@)
}

/// An identifier with its dots as tildes.
pub open spec fn tilded(id: Seq<char>) -> Seq<char> {
    id.map_values(|c: char| if c == '.' { '~' } else { c })
}

/// The tokens that a place is searched for.
pub open spec fn tokens_for(keys: Keys, names: Seq<Seq<char>>, id: Option<Seq<char>>) -> Seq<Seq<char>> {
    let ids = match id {
        Some(i) => seq![i],
        None => Seq::empty(),
    };
    match keys {
        Keys::Id => ids,
        Keys::Names => names,
        Keys::Both => ids + names,
        Keys::IdTilde => match id {
            Some(i) => seq![tilded(i)],
            None => Seq::empty(),
        },
    }
}

/// The rules of a table: each row with its tokens, rows without any left out.
/// A relative directory is taken from `base`.
pub open spec fn rules_from(
    rows: Seq<RuleRow>,
    base: Seq<char>,
    names: Seq<Seq<char>>,
    id: Option<Seq<char>>,
    requires_admin: bool,
) -> Seq<RuleView>
    decreases rows.len(),
{
    if rows.len() == 0 {
        Seq::empty()
    } else {
        let before = rules_from(rows.drop_last(), base, names, id, requires_admin);
        let last = rows.last();
        let tokens = tokens_for(last.keys, names, id);
        if tokens.len() == 0 {
            before
        } else {
            before.push(
                RuleView { kind: last.kind@, dir: joined(base, last.dir@), tokens, mode: last.mode, requires_admin },
            )
        }
    }
}

/// The directories searched for an app's leftovers: those under the home
/// directory and, where the build can escalate, those of the root domain.
pub open spec fn rules_for(names: Seq<Seq<char>>, id: Option<Seq<char>>, home: Seq<char>, build: Build) -> Seq<RuleView> {
    rules_from(user_rows(), joined(home, "Library"@), names, id, false) + if enabled_in(build).contains(
        Capability::AdminEscalation,
    ) {
        rules_from(system_rows(), "/"@, names, id, true)
    } else {
        Seq::empty()
    }
}

/// An identifier with its dots as tildes.
fn with_tildes(id: &str) -> (r: String)
    ensures
        r@ == tilded(id@),
{
    let chars = text::chars_of(id);
    let mut r: String = String::new();
    let mut i: usize = 0;
    while i < chars.len()
        invariant
            chars@ == id@,
            i <= chars@.len(),
            r@ =~= tilded(id@).take(i as int),
        decreases chars@.len() - i,
    {
        if chars[i] == '.' {
            r.push('~');
        } else {
            r.push(chars[i]);
        }
        i += 1;
    }
    assert(tilded(id@).take(i as int) =~= tilded(id@));
    r
}

/// The tokens that a place is searched for.
fn make_tokens(keys: Keys, names: &Vec<String>, id: Option<&String>) -> (r: Vec<String>)
    ensures
        strings(r@) == tokens_for(keys, strings(names@), opt_ref_text(id)),
{
    let mut r: Vec<String> = Vec::new();
    match keys {
        Keys::Names => {
            return names.clone();
        },
        Keys::Id | Keys::Both => {
            if let Some(id) = id {
                r.push(id.clone());
            }
        },
        Keys::IdTilde => {
            if let Some(id) = id {
                r.push(with_tildes(id.as_str()));
            }
        },
    }
    if keys == Keys::Both {
        let ghost first = r@;
        let mut more = names.clone();
        let ghost second = more@;
        r.append(&mut more);
        assert(strings(r@) =~= strings(first) + strings(second));
        assert(strings(r@) =~= tokens_for(keys, strings(names@), opt_ref_text(id)));
    } else {
        assert(strings(r@) =~= tokens_for(keys, strings(names@), opt_ref_text(id)));
    }
    r
}

/// The view of an optional string reference.
pub open spec fn opt_ref_text(s: Option<&String>) -> Option<Seq<char>> {
    match s {
        Some(s) => Some(s@),
        None => None,
    }
}

/// The rules of a table.
fn make_rules(
    rows: &Vec<RuleRow>,
    base: &FsPath,
    names: &Vec<String>,
    id: Option<&String>,
    requires_admin: bool,
) -> (r: Vec<LeftoverRule>)
    ensures
        rules_view(r@) == rules_from(rows@, base@, strings(names@), opt_ref_text(id), requires_admin),
{
    let ghost n = strings(names@);
    let ghost i_text = opt_ref_text(id);
    let mut r: Vec<LeftoverRule> = Vec::new();
    let mut i: usize = 0;
    assert(rules_view(r@) =~= rules_from(rows@.take(0), base@, n, i_text, requires_admin));
    while i < rows.len()
        invariant
            n == strings(names@),
            i_text == opt_ref_text(id),
            i <= rows@.len(),
            rules_view(r@) == rules_from(rows@.take(i as int), base@, n, i_text, requires_admin),
        decreases rows@.len() - i,
    {
        let ghost before = rules_view(r@);
        assert(rows@.take(i + 1).drop_last() =~= rows@.take(i as int));
        let tokens = make_tokens(rows[i].keys, names, id);
        assert(strings(tokens@).len() == tokens@.len());
        if tokens.len() > 0 {
            r.push(
                LeftoverRule {
                    kind: rows[i].kind.to_owned(),
                    dir: base.join(rows[i].dir),
                    tokens,
                    mode: rows[i].mode,
                    requires_admin,
                },
            );
            assert(rules_view(r@) =~= before.push(r@.last()@));
        }
        i += 1;
    }
    assert(rows@.take(i as int) =~= rows@);
    r
}

/// The `~/Library` half of the rules. Always available.
pub fn user_leftover_rules(names: &Vec<String>, bundle_id: Option<&String>, home: &FsPath) -> (r: Vec<LeftoverRule>)
    ensures
        rules_view(r@) == rules_from(
            user_rows(),
            joined(home@, "Library"@),
            strings(names@),
            opt_ref_text(bundle_id),
            false,
        ),
{
    make_rules(&user_table(), &home.join("Library"), names, bundle_id, false)
}

/// The root-domain half of the rules: the files that an installer package or
/// a privileged helper wrote outside the user's home.
pub fn system_leftover_rules(names: &Vec<String>, bundle_id: Option<&String>) -> (r: Vec<LeftoverRule>)
    ensures
        rules_view(r@) == rules_from(system_rows(), "/"@, strings(names@), opt_ref_text(bundle_id), true),
{
    make_rules(&system_table(), &FsPath::new("/"), names, bundle_id, true)
}

/// The directories searched for an app's leftovers, given every name that it
/// answers to. The root-domain rules are only given when the build can
/// escalate: listing a leftover that it could never remove would only leave
/// things behind.
pub fn leftover_rules_for(
    names: &Vec<String>,
    bundle_id: Option<&String>,
    home: &FsPath,
    build: Build,
) -> (r: Vec<LeftoverRule>)
    ensures
        rules_view(r@) == rules_for(strings(names@), opt_ref_text(bundle_id), home@, build),
{
    let mut rules = user_leftover_rules(names, bundle_id, home);
    let ghost first = rules@;
    if capability::has(build, Capability::AdminEscalation) {
        let mut more = system_leftover_rules(names, bundle_id);
        let ghost second = more@;
        rules.append(&mut more);
        assert(rules_view(rules@) =~= rules_view(first) + rules_view(second));
    } else {
        assert(rules_view(rules@) =~= rules_for(strings(names@), opt_ref_text(bundle_id), home@, build));
    }
    rules
}

/// The directories searched for an app's leftovers, rooted at `home`.
pub fn leftover_rules(app_name: &str, bundle_id: Option<&String>, home: &FsPath, build: Build) -> (r: Vec<LeftoverRule>)
    ensures
        rules_view(r@) == rules_for(seq![app_name@], opt_ref_text(bundle_id), home@, build),
{
    let mut names: Vec<String> = Vec::new();
    names.push(app_name.to_owned());
    assert(strings(names@) =~= seq![app_name@]);
    leftover_rules_for(&names, bundle_id, home, build)
}

/// `path` is something that a removal as root may touch: an entry directly
/// inside one of the root-domain directories, and not one of them itself.
pub open spec fn system_leftover(path: Seq<char>) -> bool {
    &&& has_parent(path)
    &&& last_name(path) is Some
    &&& !system_container(path)
    &&& system_container(parent_text(path))
}

/// `path` is one of the root-domain directories.
pub open spec fn system_container(path: Seq<char>) -> bool {
    exists|i: int| 0 <= i < system_rows().len() && same_path(path, (#[trigger] system_rows()[i]).dir@)
}

/// Whether `path` is one of the root-domain directories.
fn is_system_container(path: &FsPath) -> (r: bool)
    ensures
        r == system_container(path@),
{
    let rows = system_table();
    let mut i: usize = 0;
    while i < rows.len()
        invariant
            i <= rows@.len(),
            rows@ == system_rows(),
            forall|j: int| 0 <= j < i ==> !same_path(path@, (#[trigger] system_rows()[j]).dir@),
        decreases rows@.len() - i,
    {
        if path.same(&FsPath::new(rows[i].dir)) {
            assert(same_path(path@, system_rows()[i as int].dir@));
            return true;
        }
        i += 1;
    }
    false
}

/// Whether `path` is something that a removal as root may touch. It never is
/// a container directory itself, nor anything above one.
pub fn is_system_leftover_path(path: &FsPath) -> (r: bool)
    ensures
        r == system_leftover(path@),
{
    match path.parent() {
        Some(parent) => path.file_name().is_some() && !is_system_container(path) && is_system_container(&parent),
        None => false,
    }
}

/// Reads `CFBundleIdentifier` from an app bundle's Info.plist.
pub fn read_bundle_id<D: Disk>(app_path: &FsPath, disk: &D) -> (r: Option<String>)
    ensures
        forall|still: StillDisk| #[trigger]
            stands_still(disk, still) ==> opt_text(r) == info_text(
                (still.bytes)(info_place(app_path@)),
                "CFBundleIdentifier"@,
            ),
        exists|p: FsPath, info: Option<Vec<u8>>| #[trigger]
            call_ensures(D::read, (disk, &p), info) && p@ == info_place(app_path@) && opt_text(r) == info_text(
                bytes_view(info),
                "CFBundleIdentifier"@,
            ),
{
    let info = app_path.join("Contents/Info.plist");
    let bytes = disk.read(&info);
    assert(call_ensures(D::read, (disk, &info), bytes));
    info_string(&bytes, "CFBundleIdentifier")
}

/// The names that count: those of at least three characters, each once
/// whatever its case, the first spelling first.
pub open spec fn distinct_names(names: Seq<Seq<char>>) -> Seq<Seq<char>>
    decreases names.len(),
{
    if names.len() == 0 {
        Seq::empty()
    } else {
        let before = distinct_names(names.drop_last());
        let name = names.last();
        if name.len() < 3 || exists|j: int|
            0 <= j < before.len() && lowercase_of(#[trigger] before[j]) == lowercase_of(name) {
            before
        } else {
            before.push(name)
        }
    }
}

/// Drops names shorter than three characters, and repetitions whatever their
/// case.
pub fn keep_distinct(names: &Vec<String>) -> (r: Vec<String>)
    ensures
        strings(r@) == distinct_names(strings(names@)),
{
    let ghost all = strings(names@);
    let mut kept: Vec<String> = Vec::new();
    let mut lowered: Vec<String> = Vec::new();
    let mut i: usize = 0;
    assert(strings(kept@) =~= distinct_names(all.take(0)));
    while i < names.len()
        invariant
            all == strings(names@),
            i <= names@.len(),
            strings(kept@) == distinct_names(all.take(i as int)),
            lowered@.len() == kept@.len(),
            forall|j: int| 0 <= j < kept@.len() ==> #[trigger] lowered@[j]@ == lowercase_of(strings(kept@)[j]),
        decreases names@.len() - i,
    {
        let ghost before = strings(kept@);
        let name: &String = &names[i];
        assert(all.take(i + 1).drop_last() =~= all.take(i as int));
        assert(all.take(i + 1).last() == name@);
        let lower = text::to_lowercase(name.as_str());
        let mut repeated = false;
        let mut j: usize = 0;
        while j < lowered.len() && !repeated
            invariant
                j <= lowered@.len(),
                before == strings(kept@),
                lowered@.len() == kept@.len(),
                lower@ == lowercase_of(name@),
                forall|j: int| 0 <= j < kept@.len() ==> #[trigger] lowered@[j]@ == lowercase_of(before[j]),
                !repeated ==> forall|k: int| 0 <= k < j ==> lowercase_of(#[trigger] before[k]) != lowercase_of(name@),
                repeated ==> exists|k: int|
                    0 <= k < before.len() && lowercase_of(#[trigger] before[k]) == lowercase_of(name@),
            decreases lowered@.len() - j + (if repeated { 0int } else { 1int }),
        {
            assert(before.len() == kept@.len());
            if lowered[j] == lower {
                assert(lowercase_of(before[j as int]) == lowercase_of(name@));
                repeated = true;
            } else {
                assert(lowered@[j as int]@ == lowercase_of(before[j as int]));
                j += 1;
            }
        }
        assert(before.len() == kept@.len());
        if text::chars_of(name.as_str()).len() >= 3 && !repeated {
            kept.push(name.clone());
            lowered.push(lower);
            assert(strings(kept@) =~= before.push(name@));
        }
        i += 1;
    }
    assert(all.take(i as int) =~= all);
    kept
}

/// The names that an app answers to, from its display name and what its
/// property list says.
pub open spec fn identity(name: Seq<char>, info: Option<Seq<u8>>) -> Seq<Seq<char>> {
    let bundle_name = info_text(info, "CFBundleName"@);
    let executable = info_text(info, "CFBundleExecutable"@);
    distinct_names(
        seq![name] + (match bundle_name {
            Some(n) => seq![n],
            None => Seq::empty(),
        }) + (match executable {
            Some(n) => seq![n],
            None => Seq::empty(),
        }),
    )
}

/// The names that an app answers to: its display name plus, when the bundle's
/// Info.plist is readable, its `CFBundleName` and `CFBundleExecutable`.
pub fn identity_names<D: Disk>(app: &AppInfo, disk: &D) -> (r: Vec<String>)
    ensures
        forall|still: StillDisk| #[trigger]
            stands_still(disk, still) ==> strings(r@) == identity(
                app.name@,
                (still.bytes)(info_place(app.path@)),
            ),
        exists|p: FsPath, info: Option<Vec<u8>>| #[trigger]
            call_ensures(D::read, (disk, &p), info) && p@ == info_place(app.path@) && strings(r@) == identity(
                app.name@,
                bytes_view(info),
            ),
{
    let info = app.path.join("Contents/Info.plist");
    let bytes = disk.read(&info);
    assert(call_ensures(D::read, (disk, &info), bytes));
    names_with_info(&app.name, &bytes)
}

/// The names that an app answers to, given what its Info.plist holds.
pub fn names_with_info(name: &String, info: &Option<Vec<u8>>) -> (r: Vec<String>)
    ensures
        strings(r@) == identity(name@, bytes_view(*info)),
{
    let mut names: Vec<String> = Vec::new();
    names.push(name.clone());
    assert(strings(names@) =~= seq![name@]);
    let ghost first = strings(names@);
    if let Some(bundle_name) = info_string(info, "CFBundleName") {
        names.push(bundle_name);
        assert(strings(names@) =~= first + seq![bundle_name@]);
    } else {
        assert(strings(names@) =~= first + Seq::<Seq<char>>::empty());
    }
    let ghost second = strings(names@);
    if let Some(executable) = info_string(info, "CFBundleExecutable") {
        names.push(executable);
        assert(strings(names@) =~= second + seq![executable@]);
    } else {
        assert(strings(names@) =~= second + Seq::<Seq<char>>::empty());
    }
    keep_distinct(&names)
}

/// A leftover, as a mathematical value.
pub struct LeftoverView {
    pub kind: Seq<char>,
    pub path: Seq<char>,
    pub size: nat,
    pub requires_admin: bool,
}

impl View for Leftover {
    type V = LeftoverView;

    open spec fn view(&self) -> LeftoverView {
        LeftoverView {
            kind: self.kind@,
            path: self.path@,
            size: self.size_bytes as nat,
            requires_admin: self.requires_admin,
        }
    }
}

/// What a list of leftovers stands for.
pub open spec fn leftovers_view(v: Seq<Leftover>) -> Seq<LeftoverView> {
    v.map_values(|l: Leftover| l@)
}

/// `name` matches one of the tokens of a rule.
pub open spec fn nominates(rule: RuleView, name: Seq<char>) -> bool {
    exists|i: int| 0 <= i < rule.tokens.len() && matches_name(name, #[trigger] rule.tokens[i], rule.mode)
}

/// The size of a leftover: a directory is walked, anything else weighs what
/// its metadata says.
pub open spec fn leftover_size(still: StillDisk, path: Seq<char>) -> nat {
    match (still.stat)(path) {
        Some(stat) => if stat.is_dir {
            (still.size)(path)
        } else {
            stat.len as nat
        },
        None => 0,
    }
}

/// `path` is already among the leftovers.
pub open spec fn already(found: Seq<LeftoverView>, path: Seq<char>) -> bool {
    exists|i: int| 0 <= i < found.len() && same_path((#[trigger] found[i]).path, path)
}

/// The leftovers found so far, and those that `rule` nominates among the
/// entries of its directory; none twice.
pub open spec fn with_entries(
    still: StillDisk,
    rule: RuleView,
    entries: Seq<(Seq<char>, bool)>,
    found: Seq<LeftoverView>,
) -> Seq<LeftoverView>
    decreases entries.len(),
{
    if entries.len() == 0 {
        found
    } else {
        let before = with_entries(still, rule, entries.drop_last(), found);
        let name = entries.last().0;
        let path = joined(rule.dir, name);
        if nominates(rule, name) && !already(before, path) {
            before.push(
                LeftoverView {
                    kind: rule.kind,
                    path,
                    size: leftover_size(still, path),
                    requires_admin: rule.requires_admin,
                },
            )
        } else {
            before
        }
    }
}

/// The leftovers that a list of rules nominates, rule by rule. A directory
/// that cannot be read has none.
pub open spec fn leftovers_by(still: StillDisk, rules: Seq<RuleView>) -> Seq<LeftoverView>
    decreases rules.len(),
{
    if rules.len() == 0 {
        Seq::empty()
    } else {
        let before = leftovers_by(still, rules.drop_last());
        let rule = rules.last();
        match (still.list)(rule.dir) {
            Some(entries) => with_entries(still, rule, entries, before),
            None => before,
        }
    }
}

/// A rule of the list nominated this leftover: it is an entry of the rule's
/// directory, with a name that matches.
pub open spec fn nominated(rules: Seq<RuleView>, leftover: LeftoverView) -> bool {
    exists|i: int, name: Seq<char>|
        {
            &&& 0 <= i < rules.len()
            &&& #[trigger] nominates(rules[i], name)
            &&& leftover.path == joined(rules[i].dir, name)
            &&& leftover.kind == rules[i].kind
            &&& leftover.requires_admin == rules[i].requires_admin
        }
}

/// Every leftover of a list was nominated, and none stands twice.
pub open spec fn all_nominated(rules: Seq<RuleView>, found: Seq<LeftoverView>) -> bool {
    &&& forall|i: int| 0 <= i < found.len() ==> nominated(rules, #[trigger] found[i])
    &&& forall|i: int, j: int|
        0 <= i < j < found.len() ==> !same_path((#[trigger] found[i]).path, (#[trigger] found[j]).path)
}

/// Whether a rule nominates an entry.
fn rule_nominates(rule: &LeftoverRule, name: &str) -> (r: bool)
    ensures
        r == nominates(rule@, name@),
{
    let mut i: usize = 0;
    while i < rule.tokens.len()
        invariant
            i <= rule.tokens@.len(),
            forall|j: int| 0 <= j < i ==> !matches_name(name@, #[trigger] rule@.tokens[j], rule.mode),
        decreases rule.tokens@.len() - i,
    {
        assert(rule@.tokens[i as int] == rule.tokens@[i as int]@);
        if name_matches(name, rule.tokens[i].as_str(), rule.mode) {
            return true;
        }
        i += 1;
    }
    assert(rule@.tokens.len() == rule.tokens@.len());
    false
}

/// Whether a path is already among the leftovers.
fn is_listed(found: &Vec<Leftover>, path: &FsPath) -> (r: bool)
    ensures
        r == already(leftovers_view(found@), path@),
{
    let mut i: usize = 0;
    while i < found.len()
        invariant
            i <= found@.len(),
            forall|j: int| 0 <= j < i ==> !same_path((#[trigger] leftovers_view(found@)[j]).path, path@),
        decreases found@.len() - i,
    {
        if found[i].path.same(path) {
            assert(same_path(leftovers_view(found@)[i as int].path, path@));
            return true;
        }
        i += 1;
    }
    assert(leftovers_view(found@).len() == found@.len());
    false
}

/// The size of a leftover.
pub(crate) fn size_of_leftover<D: Disk>(path: &FsPath, disk: &D) -> (r: u64)
    requires
        sizes_fit(disk),
    ensures
        forall|still: StillDisk| #[trigger] stands_still(disk, still) ==> r == leftover_size(still, path@),
{
    let stat = disk.stat(path);
    assert(call_ensures(D::stat, (disk, path), stat));
    match stat {
        Some(stat) => if stat.is_dir {
            let probe = disk.probe(path);
            assert(call_ensures(D::probe, (disk, path), probe));
            let mut warnings: Vec<String> = Vec::new();
            scanner::dir_size(path, &probe, &mut warnings)
        } else {
            stat.len
        },
        None => 0,
    }
}

/// Adds the leftovers that a rule nominates among the entries of its
/// directory.
fn add_entries<D: Disk>(
    rule: &LeftoverRule,
    entries: &Vec<DirItem>,
    disk: &D,
    found: &mut Vec<Leftover>,
    Ghost(rules): Ghost<Seq<RuleView>>,
    Ghost(at): Ghost<int>,
)
    requires
        sizes_fit(disk),
        0 <= at < rules.len(),
        rules[at] == rule@,
        all_nominated(rules, leftovers_view(old(found)@)),
    ensures
        all_nominated(rules, leftovers_view(final(found)@)),
        forall|still: StillDisk| #[trigger]
            stands_still(disk, still) ==> leftovers_view(final(found)@) == with_entries(
                still,
                rule@,
                entries_view(entries@),
                leftovers_view(old(found)@),
            ),
{
    let ghost all = entries_view(entries@);
    let ghost start = leftovers_view(found@);
    let mut i: usize = 0;
    while i < entries.len()
        invariant
            sizes_fit(disk),
            0 <= at < rules.len(),
            rules[at] == rule@,
            all == entries_view(entries@),
            i <= entries@.len(),
            all_nominated(rules, leftovers_view(found@)),
            forall|still: StillDisk| #[trigger]
                stands_still(disk, still) ==> leftovers_view(found@) == with_entries(
                    still,
                    rule@,
                    all.take(i as int),
                    start,
                ),
        decreases entries@.len() - i,
    {
        let ghost before = leftovers_view(found@);
        let name: &String = &entries[i].name;
        assert(all.take(i + 1).drop_last() =~= all.take(i as int));
        assert(all.take(i + 1).last().0 == name@);
        let path = rule.dir.join(name.as_str());
        if rule_nominates(rule, name.as_str()) && !is_listed(found, &path) {
            let size: u64 = size_of_leftover(&path, disk);
            let ghost added = LeftoverView {
                kind: rule.kind@,
                path: path@,
                size: size as nat,
                requires_admin: rule.requires_admin,
            };
            found.push(
                Leftover { kind: rule.kind.clone(), path, size_bytes: size, requires_admin: rule.requires_admin },
            );
            let ghost now = leftovers_view(found@);
            proof {
                assert(now =~= before.push(added));
                assert(nominates(rules[at], name@));
                assert(nominated(rules, added));
                assert forall|k: int| 0 <= k < now.len() implies nominated(rules, #[trigger] now[k]) by {
                    if k < before.len() {
                        assert(now[k] == before[k]);
                    }
                }
                assert forall|k: int, l: int| 0 <= k < l < now.len() implies !same_path(
                    (#[trigger] now[k]).path,
                    (#[trigger] now[l]).path,
                ) by {
                    assert(now[k] == before[k]);
                    if l < before.len() {
                        assert(now[l] == before[l]);
                    }
                }
                assert forall|still: StillDisk| #[trigger] stands_still(disk, still) implies now == with_entries(
                    still,
                    rule@,
                    all.take(i + 1),
                    start,
                ) by {
                    assert(added.size == leftover_size(still, path@));
                }
            }
        }
        i += 1;
    }
    assert(all.take(i as int) =~= all);
}

/// Finds the leftovers that a list of rules nominates, with sizes.
pub fn leftovers_under<D: Disk>(rules: &Vec<LeftoverRule>, disk: &D) -> (r: Vec<Leftover>)
    requires
        sizes_fit(disk),
    ensures
        all_nominated(rules_view(rules@), leftovers_view(r@)),
        forall|still: StillDisk| #[trigger]
            stands_still(disk, still) ==> leftovers_view(r@) == leftovers_by(still, rules_view(rules@)),
{
    let ghost all = rules_view(rules@);
    let mut found: Vec<Leftover> = Vec::new();
    let mut i: usize = 0;
    assert(leftovers_view(found@) =~= Seq::<LeftoverView>::empty());
    while i < rules.len()
        invariant
            sizes_fit(disk),
            all == rules_view(rules@),
            i <= rules@.len(),
            all_nominated(all, leftovers_view(found@)),
            forall|still: StillDisk| #[trigger]
                stands_still(disk, still) ==> leftovers_view(found@) == leftovers_by(still, all.take(i as int)),
        decreases rules@.len() - i,
    {
        let ghost before = leftovers_view(found@);
        let rule: &LeftoverRule = &rules[i];
        assert(all.take(i + 1).drop_last() =~= all.take(i as int));
        assert(all.take(i + 1).last() == rule@);
        let listing = disk.list(&rule.dir);
        assert(call_ensures(D::list, (disk, &rule.dir), listing));
        match listing {
            Some(entries) => {
                add_entries(rule, &entries, disk, &mut found, Ghost(all), Ghost(i as int));
                assert forall|still: StillDisk| #[trigger] stands_still(disk, still) implies leftovers_view(found@)
                    == leftovers_by(still, all.take(i + 1)) by {
                    assert((still.list)(rule.dir@) == Some(entries_view(entries@)));
                }
            },
            None => {
                assert forall|still: StillDisk| #[trigger] stands_still(disk, still) implies leftovers_view(found@)
                    == leftovers_by(still, all.take(i + 1)) by {
                    assert((still.list)(rule.dir@) is None);
                }
            },
        }
        i += 1;
    }
    assert(all.take(i as int) =~= all);
    found
}

/// The leftovers of an app on a filesystem that stands still.
pub open spec fn leftovers_of(still: StillDisk, app: AppInfo, home: Seq<char>, build: Build) -> Seq<LeftoverView> {
    leftovers_by(
        still,
        rules_for(
            identity(app.name@, (still.bytes)(info_place(app.path@))),
            opt_text(app.bundle_id),
            home,
            build,
        ),
    )
}

/// Finds the leftovers of `app` that exist on disk, with sizes.
pub fn find_leftovers<D: Disk>(app: &AppInfo, home: &FsPath, build: Build, disk: &D) -> (r: Vec<Leftover>)
    requires
        sizes_fit(disk),
    ensures
        exists|info: Option<Vec<u8>>|
            all_nominated(
                rules_for(
                    identity(app.name@, #[trigger] bytes_view(info)),
                    opt_text(app.bundle_id),
                    home@,
                    build,
                ),
                leftovers_view(r@),
            ),
        forall|still: StillDisk| #[trigger]
            stands_still(disk, still) ==> leftovers_view(r@) == leftovers_of(still, *app, home@, build),
{
    let names = identity_names(app, disk);
    let id = app.bundle_id.as_ref();
    assert(opt_ref_text(id) == opt_text(app.bundle_id));
    let rules = leftover_rules_for(&names, id, home, build);
    leftovers_under(&rules, disk)
}

/// An app, as a mathematical value.
pub struct AppView {
    pub name: Seq<char>,
    pub path: Seq<char>,
    pub bundle_id: Option<Seq<char>>,
    pub size: Option<u64>,
}

impl View for AppInfo {
    type V = AppView;

    open spec fn view(&self) -> AppView {
        AppView { name: self.name@, path: self.path@, bundle_id: opt_text(self.bundle_id), size: self.size_bytes }
    }
}

/// What a list of apps stands for.
pub open spec fn apps_view(v: Seq<AppInfo>) -> Seq<AppView> {
    v.map_values(|a: AppInfo| a@)
}

/// The name of `path` ends in `.app`.
pub open spec fn named_app(path: Seq<char>) -> bool {
    last_name(path) is Some && extension_of(last_name(path)->0) == Some("app"@)
}

/// The apps among the entries of the directory `dir`, not yet measured.
pub open spec fn apps_among(still: StillDisk, dir: Seq<char>, entries: Seq<(Seq<char>, bool)>) -> Seq<AppView>
    decreases entries.len(),
{
    if entries.len() == 0 {
        Seq::empty()
    } else {
        let before = apps_among(still, dir, entries.drop_last());
        let path = joined(dir, entries.last().0);
        if named_app(path) {
            before.push(
                AppView {
                    name: stem_of(last_name(path)->0),
                    path,
                    bundle_id: info_text((still.bytes)(info_place(path)), "CFBundleIdentifier"@),
                    size: None,
                },
            )
        } else {
            before
        }
    }
}

/// The apps directly inside each of a list of directories. One that cannot be
/// read has none.
pub open spec fn apps_in(still: StillDisk, dirs: Seq<Seq<char>>) -> Seq<AppView>
    decreases dirs.len(),
{
    if dirs.len() == 0 {
        Seq::empty()
    } else {
        apps_in(still, dirs.drop_last()) + match (still.list)(dirs.last()) {
            Some(entries) => apps_among(still, dirs.last(), entries),
            None => Seq::empty(),
        }
    }
}

/// The names of a list of apps, in lower case.
pub open spec fn lower_names(apps: Seq<AppView>) -> Seq<Seq<char>> {
    apps.map_values(|a: AppView| lowercase_of(a.name))
}

/// `sorted` is `apps` in order of name, whatever the case; equal names keep
/// their order.
pub open spec fn by_name(sorted: Seq<AppView>, apps: Seq<AppView>) -> bool {
    exists|order: Seq<usize>|
        ordered(order, 0, apps.len() as int, texts_first(lower_names(apps))) && sorted == #[trigger] reordered(apps, order)
}

/// Adds the apps among the entries of a directory.
fn add_apps<D: Disk>(dir: &FsPath, entries: &Vec<DirItem>, disk: &D, apps: &mut Vec<AppInfo>)
    ensures
        forall|k: int|
            0 <= k < old(apps)@.len() ==> k < final(apps)@.len() && #[trigger] final(apps)@[k] == old(apps)@[k],
        forall|k: int|
            old(apps)@.len() <= k < final(apps)@.len() ==> named_app((#[trigger] final(apps)@[k]).path@)
                && final(apps)@[k].size_bytes is None,
        forall|still: StillDisk| #[trigger]
            stands_still(disk, still) ==> apps_view(final(apps)@) == apps_view(old(apps)@) + apps_among(
                still,
                dir@,
                entries_view(entries@),
            ),
{
    let ghost all = entries_view(entries@);
    let ghost start = apps_view(apps@);
    let ghost had = apps@;
    let mut i: usize = 0;
    assert forall|still: StillDisk| #[trigger] stands_still(disk, still) implies apps_view(apps@) == start
        + apps_among(still, dir@, all.take(0)) by {
        assert(start + apps_among(still, dir@, all.take(0)) =~= start);
    }
    while i < entries.len()
        invariant
            all == entries_view(entries@),
            i <= entries@.len(),
            had.len() <= apps@.len(),
            forall|k: int| 0 <= k < had.len() ==> #[trigger] apps@[k] == had[k],
            forall|k: int|
                had.len() <= k < apps@.len() ==> named_app((#[trigger] apps@[k]).path@) && apps@[k].size_bytes is None,
            forall|still: StillDisk| #[trigger]
                stands_still(disk, still) ==> apps_view(apps@) == start + apps_among(
                    still,
                    dir@,
                    all.take(i as int),
                ),
        decreases entries@.len() - i,
    {
        let ghost before = apps_view(apps@);
        assert(all.take(i + 1).drop_last() =~= all.take(i as int));
        let path = dir.join(entries[i].name.as_str());
        assert(all.take(i + 1).last().0 == entries@[i as int].name@);
        if has_app_extension(&path) {
            let name = match path.file_stem() {
                Some(stem) => stem,
                None => String::new(),
            };
            let bundle_id = read_bundle_id(&path, disk);
            let app = AppInfo { name, path, bundle_id, size_bytes: None };
            let ghost shown = app@;
            apps.push(app);
            assert(apps_view(apps@) =~= before.push(shown));
            assert forall|still: StillDisk| #[trigger] stands_still(disk, still) implies apps_view(apps@) == start
                + apps_among(still, dir@, all.take(i + 1)) by {
                assert(apps_view(apps@) =~= start + apps_among(still, dir@, all.take(i + 1)));
            }
        }
        i += 1;
    }
    assert(all.take(i as int) =~= all);
}

/// Lists the `.app` bundles found directly inside each of `dirs`, without
/// measuring them, in order of name.
pub fn list_apps<D: Disk>(dirs: &Vec<FsPath>, disk: &D) -> (r: Vec<AppInfo>)
    ensures
        forall|i: int|
            0 <= i < r@.len() ==> named_app((#[trigger] r@[i]).path@) && r@[i].size_bytes is None,
        forall|still: StillDisk| #[trigger]
            stands_still(disk, still) ==> by_name(apps_view(r@), apps_in(still, texts(dirs@))),
{
    let ghost all = texts(dirs@);
    let mut apps: Vec<AppInfo> = Vec::new();
    let mut i: usize = 0;
    assert(apps_view(apps@) =~= Seq::<AppView>::empty());
    while i < dirs.len()
        invariant
            all == texts(dirs@),
            i <= dirs@.len(),
            forall|k: int| 0 <= k < apps@.len() ==> named_app((#[trigger] apps@[k]).path@) && apps@[k].size_bytes is None,
            forall|still: StillDisk| #[trigger]
                stands_still(disk, still) ==> apps_view(apps@) == apps_in(still, all.take(i as int)),
        decreases dirs@.len() - i,
    {
        assert(all.take(i + 1).drop_last() =~= all.take(i as int));
        assert(all.take(i + 1).last() == dirs@[i as int]@);
        let ghost before = apps_view(apps@);
        let listing = disk.list(&dirs[i]);
        assert(call_ensures(D::list, (disk, &dirs@[i as int]), listing));
        match listing {
            Some(entries) => {
                add_apps(&dirs[i], &entries, disk, &mut apps);
                assert forall|still: StillDisk| #[trigger] stands_still(disk, still) implies apps_view(apps@)
                    == apps_in(still, all.take(i + 1)) by {
                    assert((still.list)(dirs@[i as int]@) == Some(entries_view(entries@)));
                }
            },
            None => {
                assert forall|still: StillDisk| #[trigger] stands_still(disk, still) implies apps_view(apps@)
                    == apps_in(still, all.take(i + 1)) by {
                    assert((still.list)(dirs@[i as int]@) is None);
                    assert(apps_in(still, all.take(i + 1)) =~= before);
                }
            },
        }
        i += 1;
    }
    assert(all.take(i as int) =~= all);
    sort_by_name(apps)
}

/// Puts apps in order of name, whatever the case.
pub fn sort_by_name(apps: Vec<AppInfo>) -> (r: Vec<AppInfo>)
    ensures
        by_name(apps_view(r@), apps_view(apps@)),
        forall|i: int| 0 <= i < r@.len() ==> apps@.contains(#[trigger] r@[i]),
{
    let ghost met = apps@;
    let ghost views = apps_view(met);
    let mut keys: Vec<String> = Vec::new();
    let mut i: usize = 0;
    while i < apps.len()
        invariant
            i <= apps@.len(),
            met == apps@,
            views == apps_view(met),
            strings(keys@) =~= lower_names(views).take(i as int),
        decreases apps@.len() - i,
    {
        let ghost had = strings(keys@);
        let lower = text::to_lowercase(apps[i].name.as_str());
        keys.push(lower);
        assert(strings(keys@) =~= had.push(lower_names(views)[i as int]));
        i += 1;
    }
    assert(strings(keys@) =~= lower_names(views));
    assert(strings(keys@).len() == keys@.len());
    assert(keys@.map_values(|s: String| s@) =~= lower_names(views));
    let order = order::order_by_text(&keys);
    proof {
        let rel = texts_first(lower_names(views));
        assert forall|a: int| !#[trigger] rel(a, a) by {
            order::lemma_lex_less_total(lower_names(views)[a], lower_names(views)[a]);
        }
        order::lemma_texts_first_total(lower_names(views));
        order::lemma_ordered_distinct(order@, keys@.len() as int, rel);
    }
    let r = order::reorder(apps, &order);
    assert(apps_view(r@) =~= reordered(views, order@));
    assert forall|i: int| 0 <= i < r@.len() implies met.contains(#[trigger] r@[i]) by {
        assert(r@[i] == met[order@[i] as int]);
    }
    r
}

/// Measures the on-disk size of each of `paths`.
pub fn app_sizes<D: Disk>(paths: &Vec<FsPath>, disk: &D) -> (r: Vec<(FsPath, u64)>)
    requires
        sizes_fit(disk),
    ensures
        r@.len() == paths@.len(),
        forall|i: int| 0 <= i < r@.len() ==> (#[trigger] r@[i]).0 == paths@[i],
        forall|still: StillDisk, i: int|
            #![trigger stands_still(disk, still), r@[i]]
            stands_still(disk, still) && 0 <= i < r@.len() ==> r@[i].1 == (still.size)(paths@[i]@),
{
    let mut r: Vec<(FsPath, u64)> = Vec::new();
    let mut i: usize = 0;
    while i < paths.len()
        invariant
            sizes_fit(disk),
            i <= paths@.len(),
            r@.len() == i,
            forall|k: int| 0 <= k < i ==> (#[trigger] r@[k]).0 == paths@[k],
            forall|still: StillDisk, k: int|
                #![trigger stands_still(disk, still), r@[k]]
                stands_still(disk, still) && 0 <= k < i ==> r@[k].1 == (still.size)(paths@[k]@),
        decreases paths@.len() - i,
    {
        let path: &FsPath = &paths[i];
        let probe = disk.probe(path);
        assert(call_ensures(D::probe, (disk, path), probe));
        let mut warnings: Vec<String> = Vec::new();
        let size: u64 = scanner::dir_size(path, &probe, &mut warnings);
        r.push((path.clone(), size));
        i += 1;
    }
    r
}

/// The sizes of a list of leftovers, added up.
pub open spec fn leftovers_size(v: Seq<LeftoverView>) -> nat
    decreases v.len(),
{
    if v.len() == 0 {
        0
    } else {
        leftovers_size(v.drop_last()) + v.last().size
    }
}

/// The sizes of a list of leftovers on top of `first`, added up as far as
/// they fit.
pub fn total_with(first: u64, leftovers: &Vec<Leftover>) -> (r: u64)
    ensures
        r == capped(first as nat + leftovers_size(leftovers_view(leftovers@))),
{
    let ghost views = leftovers_view(leftovers@);
    let mut total: u64 = first;
    let mut i: usize = 0;
    assert(views.take(0) =~= Seq::<LeftoverView>::empty());
    while i < leftovers.len()
        invariant
            views == leftovers_view(leftovers@),
            i <= leftovers@.len(),
            total == capped(first as nat + leftovers_size(views.take(i as int))),
        decreases leftovers@.len() - i,
    {
        assert(views.take(i + 1).drop_last() =~= views.take(i as int));
        total = total.saturating_add(leftovers[i].size_bytes);
        i += 1;
    }
    assert(views.take(i as int) =~= views);
    total
}

/// Builds the full uninstall plan for `app`. The bundle is measured here
/// rather than trusted from `app`. A total that does not fit is capped.
pub fn plan_uninstall<D: Disk>(app: AppInfo, home: &FsPath, build: Build, disk: &D) -> (r: UninstallPlan)
    requires
        sizes_fit(disk),
    ensures
        r.app.name == app.name,
        r.app.path == app.path,
        r.app.bundle_id == app.bundle_id,
        r.app.size_bytes is Some,
        r.total_bytes == capped(r.app.size_bytes->0 as nat + leftovers_size(leftovers_view(r.leftovers@))),
        forall|still: StillDisk| #[trigger]
            stands_still(disk, still) ==> r.app.size_bytes == Some((still.size)(app.path@) as u64) && leftovers_view(
                r.leftovers@,
            ) == leftovers_of(still, r.app, home@, build),
{
    let probe = disk.probe(&app.path);
    assert(call_ensures(D::probe, (disk, &app.path), probe));
    let mut warnings: Vec<String> = Vec::new();
    let app_bytes: u64 = scanner::dir_size(&app.path, &probe, &mut warnings);
    let app = AppInfo { name: app.name, path: app.path, bundle_id: app.bundle_id, size_bytes: Some(app_bytes) };
    let leftovers = find_leftovers(&app, home, build, disk);
    let total_bytes: u64 = total_with(app_bytes, &leftovers);
    UninstallPlan { app, leftovers, total_bytes }
}

proof fn lemma_user_rows_relative()
    ensures
        forall|i: int| 0 <= i < user_rows().len() ==> !absolute((#[trigger] user_rows()[i]).dir@),
{
    reveal_strlit("Preferences");
    reveal_strlit("Preferences/ByHost");
    reveal_strlit("Containers");
    reveal_strlit("Group Containers");
    reveal_strlit("Saved Application State");
    reveal_strlit("HTTPStorages");
    reveal_strlit("WebKit");
    reveal_strlit("Cookies");
    reveal_strlit("Application Scripts");
    reveal_strlit("LaunchAgents");
    reveal_strlit("Mobile Documents");
    reveal_strlit("Application Support");
    reveal_strlit("Caches");
    reveal_strlit("Logs");
    reveal_strlit("Autosave Information");
    reveal_strlit("Logs/DiagnosticReports");
    reveal_strlit("Application Support/CrashReporter");
    reveal_strlit("Internet Plug-Ins");
    reveal_strlit("PreferencePanes");
    reveal_strlit("QuickLook");
    reveal_strlit("Screen Savers");
    reveal_strlit("Services");
    reveal_strlit("Widgets");
    reveal_strlit("Audio/Plug-Ins/HAL");
    reveal_strlit("Automator");
    reveal_strlit("Spelling");
}

proof fn lemma_rules_from(
    rows: Seq<RuleRow>,
    base: Seq<char>,
    names: Seq<Seq<char>>,
    id: Option<Seq<char>>,
    requires_admin: bool,
)
    ensures
        forall|i: int|
            0 <= i < rules_from(rows, base, names, id, requires_admin).len() ==> {
                let rule = #[trigger] rules_from(rows, base, names, id, requires_admin)[i];
                &&& rule.requires_admin == requires_admin
                &&& rule.tokens.len() > 0
                &&& exists|k: int| 0 <= k < rows.len() && rule.dir == joined(base, (#[trigger] rows[k]).dir@)
            },
    decreases rows.len(),
{
    if rows.len() > 0 {
        let front = rows.drop_last();
        lemma_rules_from(front, base, names, id, requires_admin);
        let before = rules_from(front, base, names, id, requires_admin);
        let all = rules_from(rows, base, names, id, requires_admin);
        assert forall|i: int| 0 <= i < all.len() implies {
            let rule = #[trigger] all[i];
            &&& rule.requires_admin == requires_admin
            &&& rule.tokens.len() > 0
            &&& exists|k: int| 0 <= k < rows.len() && rule.dir == joined(base, (#[trigger] rows[k]).dir@)
        } by {
            if i < before.len() {
                assert(all[i] == before[i]);
                let k = choose|k: int| 0 <= k < front.len() && before[i].dir == joined(base, (#[trigger] front[k]).dir@);
                assert(rows[k] == front[k]);
                assert(all[i].dir == joined(base, rows[k].dir@));
            } else {
                assert(all[i].dir == joined(base, rows[rows.len() - 1].dir@));
            }
        }
    }
}

/// The sandboxed build stays inside the home directory, and never asks for an
/// administrator.
pub proof fn the_sandboxed_build_stays_at_home(names: Seq<Seq<char>>, id: Option<Seq<char>>, home: Seq<char>)
    requires
        home.len() > 0,
    ensures
        forall|i: int|
            0 <= i < rules_for(names, id, home, Build::AppStore).len() ==> {
                let rule = #[trigger] rules_for(names, id, home, Build::AppStore)[i];
                under(rule.dir, home) && !rule.requires_admin
            },
{
    reveal_strlit("Library");
    let lib = joined(home, "Library"@);
    let rules = rules_from(user_rows(), lib, names, id, false);
    assert(rules_for(names, id, home, Build::AppStore) =~= rules);
    lemma_user_rows_relative();
    lemma_rules_from(user_rows(), lib, names, id, false);
    lemma_parts_joined(home, "Library"@);
    assert forall|i: int| 0 <= i < rules.len() implies {
        let rule = #[trigger] rules[i];
        under(rule.dir, home) && !rule.requires_admin
    } by {
        let k = choose|k: int| 0 <= k < user_rows().len() && rules[i].dir == joined(lib, (#[trigger] user_rows()[k]).dir@);
        lemma_parts_joined(lib, user_rows()[k].dir@);
        assert(parts(rules[i].dir).subrange(0, parts(home).len() as int) =~= parts(home));
    }
}

/// Whatever a root-domain rule nominates may be removed as root, unless it is
/// itself one of the directories searched.
pub proof fn what_is_nominated_may_be_escalated(
    names: Seq<Seq<char>>,
    id: Option<Seq<char>>,
    i: int,
    name: Seq<char>,
)
    requires
        is_name(name),
        0 <= i < rules_from(system_rows(), "/"@, names, id, true).len(),
        !system_container(joined(rules_from(system_rows(), "/"@, names, id, true)[i].dir, name)),
    ensures
        system_leftover(joined(rules_from(system_rows(), "/"@, names, id, true)[i].dir, name)),
{
    lemma_rules_from(system_rows(), "/"@, names, id, true);
    let dir = rules_from(system_rows(), "/"@, names, id, true)[i].dir;
    lemma_parent_of_child(dir, name);
    let k = choose|k: int| 0 <= k < system_rows().len() && dir == joined("/"@, (#[trigger] system_rows()[k]).dir@);
    lemma_system_rows_absolute();
    assert(absolute(system_rows()[k].dir@));
    assert(same_path(parent_text(joined(dir, name)), system_rows()[k].dir@));
}

proof fn lemma_system_rows_absolute()
    ensures
        forall|i: int| 0 <= i < system_rows().len() ==> absolute((#[trigger] system_rows()[i]).dir@),
{
    reveal_strlit("/Library/Application Support");
    reveal_strlit("/Library/Caches");
    reveal_strlit("/Library/Logs");
    reveal_strlit("/Library/Logs/DiagnosticReports");
    reveal_strlit("/Library/Application Support/CrashReporter");
    reveal_strlit("/Library/Preferences");
    reveal_strlit("/Library/LaunchAgents");
    reveal_strlit("/Library/LaunchDaemons");
    reveal_strlit("/Library/PrivilegedHelperTools");
    reveal_strlit("/Library/Internet Plug-Ins");
    reveal_strlit("/Library/PreferencePanes");
    reveal_strlit("/Library/QuickLook");
    reveal_strlit("/Library/Screen Savers");
    reveal_strlit("/Library/Services");
    reveal_strlit("/Library/Widgets");
    reveal_strlit("/Library/Audio/Plug-Ins/HAL");
    reveal_strlit("/Library/Automator");
    reveal_strlit("/Library/Extensions");
    reveal_strlit("/private/var/db/receipts");
}

/// Only a dot, an underscore or a tilde may follow the name of an app: with
/// any other character behind it, a dash too, the entry is someone else's.
pub proof fn a_longer_name_is_someone_elses(name: Seq<char>, token: Seq<char>)
    requires
        lowercase_of(name).len() > lowercase_of(token).len(),
        lowercase_of(name).take(lowercase_of(token).len() as int) == lowercase_of(token),
        ({
            let c = lowercase_of(name)[lowercase_of(token).len() as int];
            c != '.' && c != '_' && c != '~'
        }),
    ensures
        !matches_name(name, token, Match::Prefix),
{
}

/// In lower case: what begins with the name of an app and goes on with a dash
/// is not matched, whatever comes then.
pub proof fn a_dash_bounds_nothing(token: Seq<char>, rest: Seq<char>)
    requires
        lowercase_of(token) == token,
        lowercase_of(token + seq!['-'] + rest) == token + seq!['-'] + rest,
    ensures
        !matches_name(token + seq!['-'] + rest, token, Match::Prefix),
{
    let name = token + seq!['-'] + rest;
    assert(name.take(token.len() as int) =~= token);
    assert(name[token.len() as int] == '-');
}

/// An app's own entries are matched: its name alone, and its name with a dot,
/// an underscore or a tilde behind it, in any case of the letters.
pub proof fn own_entries_are_matched(name: Seq<char>, token: Seq<char>, mode: Match)
    requires
        bytes_in(lowercase_of(token)) >= 3,
        lowercase_of(name).len() >= lowercase_of(token).len(),
        lowercase_of(name).take(lowercase_of(token).len() as int) == lowercase_of(token),
        lowercase_of(name).len() > lowercase_of(token).len() ==> ({
            let c = lowercase_of(name)[lowercase_of(token).len() as int];
            c == '.' || c == '_' || c == '~'
        }),
    ensures
        matches_name(name, token, mode),
{
    let (n, t) = (lowercase_of(name), lowercase_of(token));
    assert(n.subrange(0, t.len() as int) =~= n.take(t.len() as int));
    assert(bounded_at(n, t, 0));
}

/// A match looked for anywhere stands between the ends of the name, dots,
/// underscores and tildes; and wherever it does so, there is one.
pub proof fn a_name_within_stands_by_itself(name: Seq<char>, token: Seq<char>, i: int)
    ensures
        ({
            let (n, t) = (lowercase_of(name), lowercase_of(token));
            let end = i + t.len();
            &&& bytes_in(t) >= 3 && 0 <= i && end <= n.len() && n.subrange(i, end) == t && (i == 0 || n[i - 1] == '.'
                || n[i - 1] == '_' || n[i - 1] == '~') && (end == n.len() || n[end] == '.' || n[end] == '_' || n[end]
                == '~') ==> matches_name(name, token, Match::Contains)
            &&& matches_name(name, token, Match::Contains) ==> exists|k: int|
                #![trigger n.subrange(k, k + t.len())]
                {
                    &&& 0 <= k && k + t.len() <= n.len()
                    &&& n.subrange(k, k + t.len()) == t
                    &&& k == 0 || n[k - 1] == '.' || n[k - 1] == '_' || n[k - 1] == '~'
                    &&& k + t.len() == n.len() || n[k + t.len()] == '.' || n[k + t.len()] == '_' || n[k + t.len()] == '~'
                }
            &&& matches_name(name, token, Match::Prefix) ==> matches_name(name, token, Match::Contains)
        }),
{
    let (n, t) = (lowercase_of(name), lowercase_of(token));
    let end = i + t.len();
    if bytes_in(t) >= 3 && 0 <= i && end <= n.len() && n.subrange(i, end) == t && (i == 0 || n[i - 1] == '.' || n[i - 1]
        == '_' || n[i - 1] == '~') && (end == n.len() || n[end] == '.' || n[end] == '_' || n[end] == '~') {
        assert(bounded_at(n, t, i));
    }
    if matches_name(name, token, Match::Contains) {
        let k = choose|k: int| #[trigger] bounded_at(n, t, k);
        assert(n.subrange(k, k + t.len()) == t);
    }
    if matches_name(name, token, Match::Prefix) {
        assert(bounded_at(n, t, 0));
    }
}

/// Case does not matter to a match, on either side.
pub proof fn case_does_not_matter(a: Seq<char>, b: Seq<char>, s: Seq<char>, t: Seq<char>, mode: Match)
    requires
        lowercase_of(a) == lowercase_of(b),
        lowercase_of(s) == lowercase_of(t),
    ensures
        matches_name(a, s, mode) == matches_name(b, t, mode),
{
}

/// The places in `~/Library` whose entries are named by identifier.
pub open spec fn named_by_identifier(kind: Seq<char>, dir: Seq<char>) -> bool {
    ||| kind == "Preferences"@ && dir == "Preferences"@
    ||| kind == "Preferences"@ && dir == "Preferences/ByHost"@
    ||| kind == "Containers"@ && dir == "Containers"@
    ||| kind == "Saved State"@ && dir == "Saved Application State"@
    ||| kind == "HTTP Storage"@ && dir == "HTTPStorages"@
    ||| kind == "WebKit"@ && dir == "WebKit"@
    ||| kind == "Cookies"@ && dir == "Cookies"@
    ||| kind == "App Scripts"@ && dir == "Application Scripts"@
    ||| kind == "Launch Agent"@ && dir == "LaunchAgents"@
}

/// The places in `~/Library` whose entries hold an identifier.
pub open spec fn joint_containers(kind: Seq<char>, dir: Seq<char>) -> bool {
    ||| kind == "Group Containers"@ && dir == "Group Containers"@
}

/// The places in `~/Library` whose entries hold an identifier as iCloud
/// writes it.
pub open spec fn cloud_containers(kind: Seq<char>, dir: Seq<char>) -> bool {
    ||| kind == "iCloud Documents"@ && dir == "Mobile Documents"@
}

/// The places in `~/Library` whose entries are named by identifier or by name.
pub open spec fn named_either_way(kind: Seq<char>, dir: Seq<char>) -> bool {
    ||| kind == "Application Support"@ && dir == "Application Support"@
    ||| kind == "Caches"@ && dir == "Caches"@
    ||| kind == "Logs"@ && dir == "Logs"@
    ||| kind == "Autosave"@ && dir == "Autosave Information"@
    ||| kind == "Plug-ins"@ && dir == "Internet Plug-Ins"@
    ||| kind == "Plug-ins"@ && dir == "PreferencePanes"@
    ||| kind == "Plug-ins"@ && dir == "QuickLook"@
    ||| kind == "Plug-ins"@ && dir == "Screen Savers"@
    ||| kind == "Plug-ins"@ && dir == "Services"@
    ||| kind == "Plug-ins"@ && dir == "Widgets"@
    ||| kind == "Plug-ins"@ && dir == "Audio/Plug-Ins/HAL"@
    ||| kind == "Plug-ins"@ && dir == "Automator"@
    ||| kind == "Plug-ins"@ && dir == "Spelling"@
}

/// The places in `~/Library` whose entries are named by name.
pub open spec fn named_by_name(kind: Seq<char>, dir: Seq<char>) -> bool {
    ||| kind == "Crash Logs"@ && dir == "Logs/DiagnosticReports"@
    ||| kind == "Crash Logs"@ && dir == "Application Support/CrashReporter"@
}

/// The places of the whole system whose entries are named by identifier.
pub open spec fn system_named_by_identifier(kind: Seq<char>, dir: Seq<char>) -> bool {
    ||| kind == "Preferences"@ && dir == "/Library/Preferences"@
    ||| kind == "Launch Agent"@ && dir == "/Library/LaunchAgents"@
    ||| kind == "Launch Daemon"@ && dir == "/Library/LaunchDaemons"@
    ||| kind == "Privileged Helper"@ && dir == "/Library/PrivilegedHelperTools"@
    ||| kind == "Installer Receipt"@ && dir == "/private/var/db/receipts"@
}

/// The places of the whole system whose entries are named by identifier or by
/// name.
pub open spec fn system_named_either_way(kind: Seq<char>, dir: Seq<char>) -> bool {
    ||| kind == "Application Support"@ && dir == "/Library/Application Support"@
    ||| kind == "Caches"@ && dir == "/Library/Caches"@
    ||| kind == "Logs"@ && dir == "/Library/Logs"@
    ||| kind == "Crash Logs"@ && dir == "/Library/Logs/DiagnosticReports"@
    ||| kind == "Crash Logs"@ && dir == "/Library/Application Support/CrashReporter"@
    ||| kind == "Plug-ins"@ && dir == "/Library/Internet Plug-Ins"@
    ||| kind == "Plug-ins"@ && dir == "/Library/PreferencePanes"@
    ||| kind == "Plug-ins"@ && dir == "/Library/QuickLook"@
    ||| kind == "Plug-ins"@ && dir == "/Library/Screen Savers"@
    ||| kind == "Plug-ins"@ && dir == "/Library/Services"@
    ||| kind == "Plug-ins"@ && dir == "/Library/Widgets"@
    ||| kind == "Plug-ins"@ && dir == "/Library/Audio/Plug-Ins/HAL"@
    ||| kind == "Plug-ins"@ && dir == "/Library/Automator"@
    ||| kind == "Plug-ins"@ && dir == "/Library/Extensions"@
}

proof fn lemma_named_by_identifier(kind: Seq<char>, dir: Seq<char>) -> (i: int)
    requires
        named_by_identifier(kind, dir),
    ensures
        0 <= i < user_rows().len(),
        user_rows()[i].kind@ == kind,
        user_rows()[i].dir@ == dir,
        user_rows()[i].keys == Keys::Id,
        user_rows()[i].mode == Match::Prefix,
{
    if kind == "Preferences"@ && dir == "Preferences"@ {
        0
    } else if kind == "Preferences"@ && dir == "Preferences/ByHost"@ {
        1
    } else if kind == "Containers"@ && dir == "Containers"@ {
        2
    } else if kind == "Saved State"@ && dir == "Saved Application State"@ {
        4
    } else if kind == "HTTP Storage"@ && dir == "HTTPStorages"@ {
        5
    } else if kind == "WebKit"@ && dir == "WebKit"@ {
        6
    } else if kind == "Cookies"@ && dir == "Cookies"@ {
        7
    } else if kind == "App Scripts"@ && dir == "Application Scripts"@ {
        8
    } else {
        9
    }
}

proof fn lemma_joint_containers(kind: Seq<char>, dir: Seq<char>) -> (i: int)
    requires
        joint_containers(kind, dir),
    ensures
        0 <= i < user_rows().len(),
        user_rows()[i].kind@ == kind,
        user_rows()[i].dir@ == dir,
        user_rows()[i].keys == Keys::Id,
        user_rows()[i].mode == Match::Contains,
{
    3
}

proof fn lemma_cloud_containers(kind: Seq<char>, dir: Seq<char>) -> (i: int)
    requires
        cloud_containers(kind, dir),
    ensures
        0 <= i < user_rows().len(),
        user_rows()[i].kind@ == kind,
        user_rows()[i].dir@ == dir,
        user_rows()[i].keys == Keys::IdTilde,
        user_rows()[i].mode == Match::Contains,
{
    10
}

proof fn lemma_named_either_way(kind: Seq<char>, dir: Seq<char>) -> (i: int)
    requires
        named_either_way(kind, dir),
    ensures
        0 <= i < user_rows().len(),
        user_rows()[i].kind@ == kind,
        user_rows()[i].dir@ == dir,
        user_rows()[i].keys == Keys::Both,
        user_rows()[i].mode == Match::Prefix,
{
    if kind == "Application Support"@ && dir == "Application Support"@ {
        11
    } else if kind == "Caches"@ && dir == "Caches"@ {
        12
    } else if kind == "Logs"@ && dir == "Logs"@ {
        13
    } else if kind == "Autosave"@ && dir == "Autosave Information"@ {
        14
    } else if kind == "Plug-ins"@ && dir == "Internet Plug-Ins"@ {
        17
    } else if kind == "Plug-ins"@ && dir == "PreferencePanes"@ {
        18
    } else if kind == "Plug-ins"@ && dir == "QuickLook"@ {
        19
    } else if kind == "Plug-ins"@ && dir == "Screen Savers"@ {
        20
    } else if kind == "Plug-ins"@ && dir == "Services"@ {
        21
    } else if kind == "Plug-ins"@ && dir == "Widgets"@ {
        22
    } else if kind == "Plug-ins"@ && dir == "Audio/Plug-Ins/HAL"@ {
        23
    } else if kind == "Plug-ins"@ && dir == "Automator"@ {
        24
    } else {
        25
    }
}

proof fn lemma_named_by_name(kind: Seq<char>, dir: Seq<char>) -> (i: int)
    requires
        named_by_name(kind, dir),
    ensures
        0 <= i < user_rows().len(),
        user_rows()[i].kind@ == kind,
        user_rows()[i].dir@ == dir,
        user_rows()[i].keys == Keys::Names,
        user_rows()[i].mode == Match::Prefix,
{
    if kind == "Crash Logs"@ && dir == "Logs/DiagnosticReports"@ {
        15
    } else {
        16
    }
}

proof fn lemma_system_named_by_identifier(kind: Seq<char>, dir: Seq<char>) -> (i: int)
    requires
        system_named_by_identifier(kind, dir),
    ensures
        0 <= i < system_rows().len(),
        system_rows()[i].kind@ == kind,
        system_rows()[i].dir@ == dir,
        system_rows()[i].keys == Keys::Id,
        system_rows()[i].mode == Match::Prefix,
{
    if kind == "Preferences"@ && dir == "/Library/Preferences"@ {
        5
    } else if kind == "Launch Agent"@ && dir == "/Library/LaunchAgents"@ {
        6
    } else if kind == "Launch Daemon"@ && dir == "/Library/LaunchDaemons"@ {
        7
    } else if kind == "Privileged Helper"@ && dir == "/Library/PrivilegedHelperTools"@ {
        8
    } else {
        18
    }
}

proof fn lemma_system_named_either_way(kind: Seq<char>, dir: Seq<char>) -> (i: int)
    requires
        system_named_either_way(kind, dir),
    ensures
        0 <= i < system_rows().len(),
        system_rows()[i].kind@ == kind,
        system_rows()[i].dir@ == dir,
        system_rows()[i].keys == Keys::Both,
        system_rows()[i].mode == Match::Prefix,
{
    if kind == "Application Support"@ && dir == "/Library/Application Support"@ {
        0
    } else if kind == "Caches"@ && dir == "/Library/Caches"@ {
        1
    } else if kind == "Logs"@ && dir == "/Library/Logs"@ {
        2
    } else if kind == "Crash Logs"@ && dir == "/Library/Logs/DiagnosticReports"@ {
        3
    } else if kind == "Crash Logs"@ && dir == "/Library/Application Support/CrashReporter"@ {
        4
    } else if kind == "Plug-ins"@ && dir == "/Library/Internet Plug-Ins"@ {
        9
    } else if kind == "Plug-ins"@ && dir == "/Library/PreferencePanes"@ {
        10
    } else if kind == "Plug-ins"@ && dir == "/Library/QuickLook"@ {
        11
    } else if kind == "Plug-ins"@ && dir == "/Library/Screen Savers"@ {
        12
    } else if kind == "Plug-ins"@ && dir == "/Library/Services"@ {
        13
    } else if kind == "Plug-ins"@ && dir == "/Library/Widgets"@ {
        14
    } else if kind == "Plug-ins"@ && dir == "/Library/Audio/Plug-Ins/HAL"@ {
        15
    } else if kind == "Plug-ins"@ && dir == "/Library/Automator"@ {
        16
    } else {
        17
    }
}

proof fn lemma_user_rows_known(i: int)
    requires
        0 <= i < user_rows().len(),
    ensures
        ({
            let r = user_rows()[i];
            ||| named_by_identifier(r.kind@, r.dir@) && r.keys == Keys::Id && r.mode == Match::Prefix
            ||| joint_containers(r.kind@, r.dir@) && r.keys == Keys::Id && r.mode == Match::Contains
            ||| cloud_containers(r.kind@, r.dir@) && r.keys == Keys::IdTilde && r.mode == Match::Contains
            ||| named_either_way(r.kind@, r.dir@) && r.keys == Keys::Both && r.mode == Match::Prefix
            ||| named_by_name(r.kind@, r.dir@) && r.keys == Keys::Names && r.mode == Match::Prefix
        }),
{
    assert(user_rows().len() == 26);
    assert(i == 0 || i == 1 || i == 2 || i == 3 || i == 4 || i == 5 || i == 6 || i == 7 || i == 8 || i == 9 || i == 10 || i == 11 || i == 12 || i == 13 || i == 14 || i == 15 || i == 16 || i == 17 || i == 18 || i == 19 || i == 20 || i == 21 || i == 22 || i == 23 || i == 24 || i == 25);
}

proof fn lemma_system_rows_known(i: int)
    requires
        0 <= i < system_rows().len(),
    ensures
        ({
            let r = system_rows()[i];
            ||| system_named_by_identifier(r.kind@, r.dir@) && r.keys == Keys::Id && r.mode == Match::Prefix
            ||| system_named_either_way(r.kind@, r.dir@) && r.keys == Keys::Both && r.mode == Match::Prefix
        }),
{
    assert(system_rows().len() == 19);
    assert(i == 0 || i == 1 || i == 2 || i == 3 || i == 4 || i == 5 || i == 6 || i == 7 || i == 8 || i == 9 || i == 10 || i == 11 || i == 12 || i == 13 || i == 14 || i == 15 || i == 16 || i == 17 || i == 18);
}

proof fn lemma_row_rule(
    rows: Seq<RuleRow>,
    base: Seq<char>,
    names: Seq<Seq<char>>,
    id: Option<Seq<char>>,
    admin: bool,
    k: int,
)
    requires
        0 <= k < rows.len(),
        tokens_for(rows[k].keys, names, id).len() > 0,
    ensures
        rules_from(rows, base, names, id, admin).contains(
            RuleView {
                kind: rows[k].kind@,
                dir: joined(base, rows[k].dir@),
                tokens: tokens_for(rows[k].keys, names, id),
                mode: rows[k].mode,
                requires_admin: admin,
            },
        ),
    decreases rows.len(),
{
    let front = rows.drop_last();
    let before = rules_from(front, base, names, id, admin);
    let all = rules_from(rows, base, names, id, admin);
    let rule = RuleView {
        kind: rows[k].kind@,
        dir: joined(base, rows[k].dir@),
        tokens: tokens_for(rows[k].keys, names, id),
        mode: rows[k].mode,
        requires_admin: admin,
    };
    if k < front.len() {
        assert(front[k] == rows[k]);
        lemma_row_rule(front, base, names, id, admin, k);
        let i = choose|i: int| 0 <= i < before.len() && before[i] == rule;
        assert(all[i] == rule);
    } else {
        assert(all[all.len() - 1] == rule);
    }
}

proof fn lemma_rule_row(
    rows: Seq<RuleRow>,
    base: Seq<char>,
    names: Seq<Seq<char>>,
    id: Option<Seq<char>>,
    admin: bool,
    i: int,
) -> (k: int)
    requires
        0 <= i < rules_from(rows, base, names, id, admin).len(),
    ensures
        0 <= k < rows.len(),
        rules_from(rows, base, names, id, admin)[i] == (RuleView {
            kind: rows[k].kind@,
            dir: joined(base, rows[k].dir@),
            tokens: tokens_for(rows[k].keys, names, id),
            mode: rows[k].mode,
            requires_admin: admin,
        }),
    decreases rows.len(),
{
    let front = rows.drop_last();
    let before = rules_from(front, base, names, id, admin);
    let all = rules_from(rows, base, names, id, admin);
    if i < before.len() {
        let k = lemma_rule_row(front, base, names, id, admin, i);
        assert(all[i] == before[i]);
        assert(front[k] == rows[k]);
        k
    } else {
        rows.len() - 1
    }
}

/// A rule for a place with what is sought there.
pub open spec fn seeks(
    rules: Seq<RuleView>,
    kind: Seq<char>,
    dir: Seq<char>,
    tokens: Seq<Seq<char>>,
    mode: Match,
    admin: bool,
) -> bool {
    rules.contains(RuleView { kind, dir, tokens, mode, requires_admin: admin })
}

proof fn lemma_seeks_more(a: Seq<RuleView>, b: Seq<RuleView>)
    ensures
        forall|r: RuleView| #[trigger] a.contains(r) ==> (a + b).contains(r),
        forall|r: RuleView| #[trigger] b.contains(r) ==> (a + b).contains(r),
{
    assert forall|r: RuleView| #[trigger] a.contains(r) implies (a + b).contains(r) by {
        let i = choose|i: int| 0 <= i < a.len() && a[i] == r;
        assert((a + b)[i] == r);
    }
    assert forall|r: RuleView| #[trigger] b.contains(r) implies (a + b).contains(r) by {
        let i = choose|i: int| 0 <= i < b.len() && b[i] == r;
        assert((a + b)[a.len() + i] == r);
    }
}

/// Every place at home is searched for what its entries are named by: the
/// identifier, the names, or both.
pub proof fn every_place_at_home_is_searched(
    names: Seq<Seq<char>>,
    id: Seq<char>,
    home: Seq<char>,
    build: Build,
    kind: Seq<char>,
    dir: Seq<char>,
)
    ensures
        ({
            let rules = rules_for(names, Some(id), home, build);
            let bare = rules_for(names, None, home, build);
            let place = joined(joined(home, "Library"@), dir);
            &&& named_by_identifier(kind, dir) ==> seeks(rules, kind, place, seq![id], Match::Prefix, false)
            &&& joint_containers(kind, dir) ==> seeks(rules, kind, place, seq![id], Match::Contains, false)
            &&& cloud_containers(kind, dir) ==> seeks(rules, kind, place, seq![tilded(id)], Match::Contains, false)
            &&& named_either_way(kind, dir) ==> seeks(rules, kind, place, seq![id] + names, Match::Prefix, false)
            &&& named_by_name(kind, dir) && names.len() > 0 ==> seeks(rules, kind, place, names, Match::Prefix, false)
            &&& (named_either_way(kind, dir) || named_by_name(kind, dir)) && names.len() > 0 ==> seeks(
                bare,
                kind,
                place,
                names,
                Match::Prefix,
                false,
            )
        }),
{
    let lib = joined(home, "Library"@);
    let mine = rules_from(user_rows(), lib, names, Some(id), false);
    let rest = if enabled_in(build).contains(Capability::AdminEscalation) {
        rules_from(system_rows(), "/"@, names, Some(id), true)
    } else {
        Seq::empty()
    };
    let bare_mine = rules_from(user_rows(), lib, names, None, false);
    let bare_rest = if enabled_in(build).contains(Capability::AdminEscalation) {
        rules_from(system_rows(), "/"@, names, None, true)
    } else {
        Seq::empty()
    };
    lemma_seeks_more(mine, rest);
    lemma_seeks_more(bare_mine, bare_rest);
    assert(Seq::<Seq<char>>::empty() + names =~= names);
    if named_by_identifier(kind, dir) {
        let i = lemma_named_by_identifier(kind, dir);
        lemma_row_rule(user_rows(), lib, names, Some(id), false, i);
    }
    if joint_containers(kind, dir) {
        let i = lemma_joint_containers(kind, dir);
        lemma_row_rule(user_rows(), lib, names, Some(id), false, i);
    }
    if cloud_containers(kind, dir) {
        let i = lemma_cloud_containers(kind, dir);
        lemma_row_rule(user_rows(), lib, names, Some(id), false, i);
    }
    if named_either_way(kind, dir) {
        let i = lemma_named_either_way(kind, dir);
        lemma_row_rule(user_rows(), lib, names, Some(id), false, i);
        if names.len() > 0 {
            lemma_row_rule(user_rows(), lib, names, None, false, i);
        }
    }
    if named_by_name(kind, dir) && names.len() > 0 {
        let i = lemma_named_by_name(kind, dir);
        lemma_row_rule(user_rows(), lib, names, Some(id), false, i);
        lemma_row_rule(user_rows(), lib, names, None, false, i);
    }
}

/// In a build that may act as root, every place of the whole system is
/// searched too, and what is found there needs root.
pub proof fn every_place_of_the_system_is_searched(
    names: Seq<Seq<char>>,
    id: Seq<char>,
    home: Seq<char>,
    kind: Seq<char>,
    dir: Seq<char>,
)
    ensures
        ({
            let rules = rules_for(names, Some(id), home, Build::Direct);
            let bare = rules_for(names, None, home, Build::Direct);
            &&& system_named_by_identifier(kind, dir) ==> seeks(rules, kind, dir, seq![id], Match::Prefix, true)
            &&& system_named_either_way(kind, dir) ==> seeks(rules, kind, dir, seq![id] + names, Match::Prefix, true)
            &&& system_named_either_way(kind, dir) && names.len() > 0 ==> seeks(
                bare,
                kind,
                dir,
                names,
                Match::Prefix,
                true,
            )
        }),
{
    crate::capability::direct_has_everything(Capability::AdminEscalation);
    let lib = joined(home, "Library"@);
    let (mine, rest) = (
        rules_from(user_rows(), lib, names, Some(id), false),
        rules_from(system_rows(), "/"@, names, Some(id), true),
    );
    let (bare_mine, bare_rest) = (
        rules_from(user_rows(), lib, names, None, false),
        rules_from(system_rows(), "/"@, names, None, true),
    );
    lemma_seeks_more(mine, rest);
    lemma_seeks_more(bare_mine, bare_rest);
    assert(rules_for(names, Some(id), home, Build::Direct) == mine + rest);
    assert(rules_for(names, None, home, Build::Direct) == bare_mine + bare_rest);
    lemma_system_rows_absolute();
    assert(Seq::<Seq<char>>::empty() + names =~= names);
    if system_named_by_identifier(kind, dir) {
        let i = lemma_system_named_by_identifier(kind, dir);
        lemma_row_rule(system_rows(), "/"@, names, Some(id), true, i);
        assert(absolute(system_rows()[i].dir@));
        assert(seeks(rest, kind, dir, seq![id], Match::Prefix, true));
    }
    if system_named_either_way(kind, dir) {
        let i = lemma_system_named_either_way(kind, dir);
        lemma_row_rule(system_rows(), "/"@, names, Some(id), true, i);
        assert(absolute(system_rows()[i].dir@));
        assert(joined("/"@, dir) == dir);
        assert(seeks(rest, kind, dir, seq![id] + names, Match::Prefix, true));
        if names.len() > 0 {
            lemma_row_rule(system_rows(), "/"@, names, None, true, i);
            assert(seeks(bare_rest, kind, dir, names, Match::Prefix, true));
        }
    }
}

/// No other place is searched, and for nothing but the identifier, the
/// identifier as iCloud writes it, and the names. An app that has none of
/// these has no leftovers.
pub proof fn nothing_else_is_searched(names: Seq<Seq<char>>, id: Option<Seq<char>>, home: Seq<char>, build: Build, i: int)
    requires
        0 <= i < rules_for(names, id, home, build).len(),
    ensures
        ({
            let rule = rules_for(names, id, home, build)[i];
            &&& forall|t: int|
                0 <= t < rule.tokens.len() ==> names.contains(#[trigger] rule.tokens[t]) || (id is Some && (rule.tokens[t]
                    == id->0 || (rule.tokens[t] == tilded(id->0) && rule.kind == "iCloud Documents"@)))
            &&& !rule.requires_admin ==> exists|dir: Seq<char>|
                rule.dir == #[trigger] joined(joined(home, "Library"@), dir) && (named_by_identifier(rule.kind, dir)
                    || joint_containers(rule.kind, dir) || cloud_containers(rule.kind, dir) || named_either_way(
                    rule.kind,
                    dir,
                ) || named_by_name(rule.kind, dir))
            &&& rule.requires_admin ==> build == Build::Direct && (system_named_by_identifier(rule.kind, rule.dir)
                || system_named_either_way(rule.kind, rule.dir)) && rule.mode == Match::Prefix
        }),
{
    let lib = joined(home, "Library"@);
    let mine = rules_from(user_rows(), lib, names, id, false);
    let rule = rules_for(names, id, home, build)[i];
    if i < mine.len() {
        let k = lemma_rule_row(user_rows(), lib, names, id, false, i);
        lemma_user_rows_known(k);
        assert(rule.dir == joined(lib, user_rows()[k].dir@));
        lemma_tokens(user_rows()[k].keys, names, id);
    } else {
        assert(enabled_in(build).contains(Capability::AdminEscalation));
        let k = lemma_rule_row(system_rows(), "/"@, names, id, true, i - mine.len());
        lemma_system_rows_known(k);
        lemma_system_rows_absolute();
        assert(absolute(system_rows()[k].dir@));
        lemma_tokens(system_rows()[k].keys, names, id);
    }
}

proof fn lemma_tokens(keys: Keys, names: Seq<Seq<char>>, id: Option<Seq<char>>)
    ensures
        forall|t: int|
            0 <= t < tokens_for(keys, names, id).len() ==> {
                let token = #[trigger] tokens_for(keys, names, id)[t];
                names.contains(token) || (id is Some && (token == id->0 || (token == tilded(id->0) && keys == Keys::IdTilde)))
            },
{
    let all = tokens_for(keys, names, id);
    assert forall|t: int| 0 <= t < all.len() implies {
        let token = #[trigger] all[t];
        names.contains(token) || (id is Some && (token == id->0 || (token == tilded(id->0) && keys == Keys::IdTilde)))
    } by {
        if keys == Keys::Both {
            if id is Some {
                if t > 0 {
                    assert(all[t] == names[t - 1]);
                }
            } else {
                assert(all[t] == names[t]);
            }
        }
    }
}

/// A place of the whole system that apps leave things in.
pub open spec fn of_the_system(kind: Seq<char>, dir: Seq<char>) -> bool {
    system_named_by_identifier(kind, dir) || system_named_either_way(kind, dir)
}

/// What a removal as root may touch: what is directly in one of the places of
/// the whole system, and is none of them itself.
pub proof fn what_root_may_touch(path: Seq<char>, kind: Seq<char>, dir: Seq<char>, name: Seq<char>)
    requires
        system_named_by_identifier(kind, dir) || system_named_either_way(kind, dir),
    ensures
        !system_leftover(dir),
        same_path(path, dir) ==> !system_leftover(path),
        is_name(name) && !system_container(joined(dir, name)) ==> system_leftover(joined(dir, name)),
        system_leftover(path) ==> exists|k: Seq<char>, d: Seq<char>| #[trigger]
            of_the_system(k, d) && same_path(parent_text(path), d),
{
    let i = if system_named_by_identifier(kind, dir) {
        lemma_system_named_by_identifier(kind, dir)
    } else {
        lemma_system_named_either_way(kind, dir)
    };
    assert(same_path(dir, system_rows()[i].dir@));
    assert(system_container(dir));
    if same_path(path, dir) {
        assert(same_path(path, system_rows()[i].dir@));
    }
    if is_name(name) {
        lemma_parent_of_child(dir, name);
        assert(same_path(parent_text(joined(dir, name)), system_rows()[i].dir@));
    }
    if system_leftover(path) {
        let k = choose|k: int|
            0 <= k < system_rows().len() && same_path(parent_text(path), (#[trigger] system_rows()[k]).dir@);
        lemma_system_rows_known(k);
        assert(of_the_system(system_rows()[k].kind@, system_rows()[k].dir@));
    }
}

/// Of the names an app answers to, those of three characters or more are
/// kept, each in one spelling; nothing is made up.
pub proof fn names_are_kept_once(names: Seq<Seq<char>>)
    ensures
        forall|i: int| 0 <= i < names.len() && (#[trigger] names[i]).len() >= 3 ==> spelled(distinct_names(names), names[i]),
        forall|j: int|
            0 <= j < distinct_names(names).len() ==> (#[trigger] distinct_names(names)[j]).len() >= 3 && names.contains(
                distinct_names(names)[j],
            ),
        forall|i: int, j: int|
            0 <= i < j < distinct_names(names).len() ==> lowercase_of(#[trigger] distinct_names(names)[i])
                != lowercase_of(#[trigger] distinct_names(names)[j]),
    decreases names.len(),
{
    if names.len() > 0 {
        let front = names.drop_last();
        names_are_kept_once(front);
        let (before, all) = (distinct_names(front), distinct_names(names));
        assert(forall|j: int| 0 <= j < before.len() ==> #[trigger] all[j] == before[j]);
        assert forall|i: int| 0 <= i < names.len() && (#[trigger] names[i]).len() >= 3 implies spelled(all, names[i]) by {
            if i < front.len() {
                assert(front[i] == names[i]);
                let j = choose|j: int| 0 <= j < before.len() && lowercase_of(#[trigger] before[j]) == lowercase_of(front[i]);
                assert(all[j] == before[j]);
            } else if all.len() > before.len() {
                assert(all[before.len() as int] == names[i]);
            } else {
                let j = choose|j: int| 0 <= j < before.len() && lowercase_of(#[trigger] before[j]) == lowercase_of(names[i]);
                assert(all[j] == before[j]);
            }
        }
        assert forall|j: int| 0 <= j < all.len() implies (#[trigger] all[j]).len() >= 3 && names.contains(all[j]) by {
            if j < before.len() {
                let i = choose|i: int| 0 <= i < front.len() && front[i] == before[j];
                assert(names[i] == all[j]);
            } else {
                assert(names[names.len() - 1] == all[j]);
            }
        }
    }
}

/// A name is among the names, whatever the case.
pub open spec fn spelled(names: Seq<Seq<char>>, name: Seq<char>) -> bool {
    exists|j: int| 0 <= j < names.len() && lowercase_of(#[trigger] names[j]) == lowercase_of(name)
}

/// An app answers to its display name, and to what its property list calls it
/// and its program; and to nothing else.
pub proof fn what_an_app_answers_to(name: Seq<char>, info: Option<Seq<u8>>)
    ensures
        name.len() >= 3 ==> spelled(identity(name, info), name) && identity(name, info)[0] == name,
        info_text(info, "CFBundleName"@) matches Some(n) ==> (n.len() >= 3 ==> spelled(identity(name, info), n)),
        info_text(info, "CFBundleExecutable"@) matches Some(n) ==> (n.len() >= 3 ==> spelled(identity(name, info), n)),
        forall|j: int|
            0 <= j < identity(name, info).len() ==> {
                let n = #[trigger] identity(name, info)[j];
                n == name || info_text(info, "CFBundleName"@) == Some(n) || info_text(info, "CFBundleExecutable"@) == Some(n)
            },
{
    let called = match info_text(info, "CFBundleName"@) {
        Some(n) => seq![n],
        None => Seq::empty(),
    };
    let program = match info_text(info, "CFBundleExecutable"@) {
        Some(n) => seq![n],
        None => Seq::empty(),
    };
    let all = seq![name] + called + program;
    names_are_kept_once(all);
    assert(all[0] == name);
    if called.len() > 0 {
        assert(all[1] == called[0]);
    }
    if program.len() > 0 {
        assert(all[(1 + called.len()) as int] == program[0]);
    }
    assert forall|j: int| 0 <= j < distinct_names(all).len() implies {
        let n = #[trigger] distinct_names(all)[j];
        n == name || info_text(info, "CFBundleName"@) == Some(n) || info_text(info, "CFBundleExecutable"@) == Some(n)
    } by {
        let i = choose|i: int| 0 <= i < all.len() && all[i] == distinct_names(all)[j];
        assert(i == 0 || i == 1 || i == 2);
    }
    lemma_first_name_stays(all);
}

proof fn lemma_first_name_stays(names: Seq<Seq<char>>)
    requires
        names.len() > 0,
    ensures
        names[0].len() >= 3 ==> distinct_names(names).len() > 0 && distinct_names(names)[0] == names[0],
    decreases names.len(),
{
    if names.len() > 1 {
        lemma_first_name_stays(names.drop_last());
    } else {
        assert(distinct_names(names.drop_last()) =~= Seq::<Seq<char>>::empty());
    }
}

/// The identifier as iCloud writes it has the same characters, but for tildes
/// where the dots were.
pub proof fn icloud_writes_tildes_for_dots(id: Seq<char>, i: int)
    requires
        0 <= i < id.len(),
    ensures
        tilded(id).len() == id.len(),
        id[i] == '.' ==> tilded(id)[i] == '~',
        id[i] != '.' ==> tilded(id)[i] == id[i],
{
}

/// What a filesystem shows a path to weigh.
pub open spec fn weighs(still: StillDisk, path: Seq<char>, size: nat) -> bool {
    match (still.stat)(path) {
        Some(stat) => if stat.is_dir {
            size == (still.size)(path)
        } else {
            size == stat.len
        },
        None => size == 0,
    }
}

proof fn lemma_entries_kept(still: StillDisk, rule: RuleView, entries: Seq<(Seq<char>, bool)>, found: Seq<LeftoverView>)
    ensures
        forall|p: Seq<char>| #[trigger] already(found, p) ==> already(with_entries(still, rule, entries, found), p),
        forall|k: int|
            0 <= k < entries.len() && nominates(rule, (#[trigger] entries[k]).0) ==> already(
                with_entries(still, rule, entries, found),
                joined(rule.dir, entries[k].0),
            ),
        (forall|i: int| 0 <= i < found.len() ==> weighs(still, (#[trigger] found[i]).path, found[i].size)) ==> forall|i: int|
            0 <= i < with_entries(still, rule, entries, found).len() ==> weighs(
                still,
                (#[trigger] with_entries(still, rule, entries, found)[i]).path,
                with_entries(still, rule, entries, found)[i].size,
            ),
    decreases entries.len(),
{
    if entries.len() > 0 {
        let front = entries.drop_last();
        lemma_entries_kept(still, rule, front, found);
        let (before, after) = (with_entries(still, rule, front, found), with_entries(still, rule, entries, found));
        let path = joined(rule.dir, entries.last().0);
        assert forall|p: Seq<char>| #[trigger] already(before, p) implies already(after, p) by {
            let i = choose|i: int| 0 <= i < before.len() && same_path((#[trigger] before[i]).path, p);
            assert(after[i] == before[i]);
        }
        if nominates(rule, entries.last().0) && !already(before, path) {
            assert(after[before.len() as int].path == path);
        }
        assert forall|k: int| 0 <= k < entries.len() && nominates(rule, (#[trigger] entries[k]).0) implies already(
            after,
            joined(rule.dir, entries[k].0),
        ) by {
            if k < front.len() {
                assert(front[k] == entries[k]);
            }
        }
        if forall|i: int| 0 <= i < found.len() ==> weighs(still, (#[trigger] found[i]).path, found[i].size) {
            assert forall|i: int| 0 <= i < after.len() implies weighs(still, (#[trigger] after[i]).path, after[i].size) by {
                if i < before.len() {
                    assert(after[i] == before[i]);
                }
            }
        }
    }
}

/// No leftover is passed over: whatever a listed place holds under a name that
/// one of its tokens matches is in the plan, and weighs what is there.
pub proof fn every_leftover_is_found(
    still: StillDisk,
    rules: Seq<RuleView>,
    r: int,
    entries: Seq<(Seq<char>, bool)>,
    k: int,
    t: int,
)
    requires
        0 <= r < rules.len(),
        (still.list)(rules[r].dir) == Some(entries),
        0 <= k < entries.len(),
        0 <= t < rules[r].tokens.len(),
        matches_name(entries[k].0, rules[r].tokens[t], rules[r].mode),
    ensures
        already(leftovers_by(still, rules), joined(rules[r].dir, entries[k].0)),
        forall|i: int|
            0 <= i < leftovers_by(still, rules).len() ==> weighs(
                still,
                (#[trigger] leftovers_by(still, rules)[i]).path,
                leftovers_by(still, rules)[i].size,
            ),
    decreases rules.len(),
{
    lemma_leftovers_weigh(still, rules);
    let front = rules.drop_last();
    let before = leftovers_by(still, front);
    let rule = rules.last();
    if r == rules.len() - 1 {
        lemma_entries_kept(still, rule, entries, before);
        assert(nominates(rule, entries[k].0));
    } else {
        assert(front[r] == rules[r]);
        every_leftover_is_found(still, front, r, entries, k, t);
        if let Some(listed) = (still.list)(rule.dir) {
            lemma_entries_kept(still, rule, listed, before);
        }
    }
}

proof fn lemma_leftovers_weigh(still: StillDisk, rules: Seq<RuleView>)
    ensures
        forall|i: int|
            0 <= i < leftovers_by(still, rules).len() ==> weighs(
                still,
                (#[trigger] leftovers_by(still, rules)[i]).path,
                leftovers_by(still, rules)[i].size,
            ),
    decreases rules.len(),
{
    if rules.len() > 0 {
        lemma_leftovers_weigh(still, rules.drop_last());
        if let Some(listed) = (still.list)(rules.last().dir) {
            lemma_entries_kept(still, rules.last(), listed, leftovers_by(still, rules.drop_last()));
        }
    }
}

/// An app that may be uninstalled is one called `….app` directly in a folder
/// called `Applications`.
pub proof fn what_may_be_uninstalled(dir: Seq<char>, stem: Seq<char>, name: Seq<char>)
    requires
        is_name(name),
    ensures
        stem.len() > 0 && name == stem + ".app"@ && last_name(dir) == Some("Applications"@) ==> app_bundle(joined(dir, name)),
        last_name(dir) != Some("Applications"@) ==> !app_bundle(joined(dir, name)),
        !text::finishes_with(name, ".app"@) ==> !app_bundle(joined(dir, name)) && !named_app(joined(dir, name)),
        stem.len() > 0 && name == stem + ".app"@ ==> named_app(joined(dir, name)) && stem_of(name) == stem,
{
    lemma_parent_of_child(dir, name);
    lemma_same_last(parent_text(joined(dir, name)), dir);
    reveal_strlit(".app");
    reveal_strlit("app");
    assert(forall|i: int| 0 <= i < "app"@.len() ==> "app"@[i] != '.');
    crate::paths::the_extension_is_behind_the_last_dot(stem, "app"@);
    assert(stem + ".app"@ =~= stem.push('.') + "app"@);
    if extension_of(name) == Some("app"@) {
        crate::paths::an_extension_makes_up_the_name(name);
        assert(name.skip(name.len() - 4) =~= ".app"@);
    }
}

proof fn lemma_same_last(a: Seq<char>, b: Seq<char>)
    requires
        same_path(a, b),
    ensures
        last_name(a) == last_name(b),
{
}

/// Every bundle in a folder of apps is listed under its name without the
/// ending, and nothing else is.
pub proof fn every_app_is_listed(still: StillDisk, dir: Seq<char>, entries: Seq<(Seq<char>, bool)>, k: int, stem: Seq<char>)
    requires
        0 <= k < entries.len(),
        is_name(entries[k].0),
        stem.len() > 0,
        entries[k].0 == stem + ".app"@,
    ensures
        exists|i: int|
            0 <= i < apps_among(still, dir, entries).len() && (#[trigger] apps_among(still, dir, entries)[i]).path == joined(
                dir,
                entries[k].0,
            ) && apps_among(still, dir, entries)[i].name == stem && apps_among(still, dir, entries)[i].bundle_id
                == info_text(
                (still.bytes)(joined(joined(dir, entries[k].0), "Contents/Info.plist"@)),
                "CFBundleIdentifier"@,
            ),
        apps_among(still, dir, entries).len() <= entries.len(),
    decreases entries.len(),
{
    let front = entries.drop_last();
    let (before, all) = (apps_among(still, dir, front), apps_among(still, dir, entries));
    what_may_be_uninstalled(dir, stem, entries[k].0);
    lemma_parent_of_child(dir, entries[k].0);
    lemma_few_apps(still, dir, entries);
    if k < front.len() {
        assert(front[k] == entries[k]);
        every_app_is_listed(still, dir, front, k, stem);
        let i = choose|i: int|
            0 <= i < before.len() && (#[trigger] before[i]).path == joined(dir, front[k].0) && before[i].name == stem
                && before[i].bundle_id == info_text(
                (still.bytes)(joined(joined(dir, front[k].0), "Contents/Info.plist"@)),
                "CFBundleIdentifier"@,
            );
        assert(all[i] == before[i]);
    } else {
        assert(all[all.len() - 1].path == joined(dir, entries[k].0));
    }
}

proof fn lemma_few_apps(still: StillDisk, dir: Seq<char>, entries: Seq<(Seq<char>, bool)>)
    ensures
        apps_among(still, dir, entries).len() <= entries.len(),
    decreases entries.len(),
{
    if entries.len() > 0 {
        lemma_few_apps(still, dir, entries.drop_last());
    }
}

} // verus!
