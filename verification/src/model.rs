//! Domain types shared across the scanner, the rules and the cleaner.

use vstd::prelude::*;

use crate::capability::Capability;
use crate::paths::FsPath;
use crate::text;

verus! {

/// How dangerous it is to remove a target.
#[derive(Debug, Clone, Copy, PartialEq, Eq, Structural)]
pub enum SafetyTier {
    /// Regenerated automatically, contains no user data.
    Safe,
    /// Recoverable but may cost time to rebuild.
    Caution,
    /// Maintenance items, always gated behind an explicit confirm.
    Expert,
}

impl Default for SafetyTier {
    fn default() -> (r: Self)
        ensures
            r == SafetyTier::Caution,
    {
        SafetyTier::Caution
    }
}

impl SafetyTier {
    /// The name that stands for the tier in rules.
    pub open spec fn wire(self) -> Seq<char> {
        match self {
            SafetyTier::Safe => "safe"@,
            SafetyTier::Caution => "caution"@,
            SafetyTier::Expert => "expert"@,
        }
    }

    /// The name that stands for the tier in rules.
    pub fn wire_name(self) -> (r: &'static str)
        ensures
            r@ == self.wire(),
    {
        match self {
            SafetyTier::Safe => "safe",
            SafetyTier::Caution => "caution",
            SafetyTier::Expert => "expert",
        }
    }

    /// What a name in the rules stands for.
    pub fn from_wire(name: &str) -> (r: Option<SafetyTier>)
        ensures
            match r {
                Some(named) => named.wire() == name@,
                None => forall|named: SafetyTier| #[trigger] named.wire() != name@,
            },
    {
        if text::same_text(name, "safe") {
            Some(SafetyTier::Safe)
        } else if text::same_text(name, "caution") {
            Some(SafetyTier::Caution)
        } else if text::same_text(name, "expert") {
            Some(SafetyTier::Expert)
        } else {
            None
        }
    }
}

/// What part of the target path a clean operates on.
#[derive(Debug, Clone, Copy, PartialEq, Eq, Structural)]
pub enum Scope {
    /// Remove the entries inside the directory but keep the directory itself.
    Contents,
    /// Remove the target path entirely.
    Path,
}

impl Default for Scope {
    fn default() -> (r: Self)
        ensures
            r == Scope::Contents,
    {
        Scope::Contents
    }
}

impl Scope {
    /// The name that stands for the scope in rules.
    pub open spec fn wire(self) -> Seq<char> {
        match self {
            Scope::Contents => "contents"@,
            Scope::Path => "path"@,
        }
    }

    /// The name that stands for the scope in rules.
    pub fn wire_name(self) -> (r: &'static str)
        ensures
            r@ == self.wire(),
    {
        match self {
            Scope::Contents => "contents",
            Scope::Path => "path",
        }
    }

    /// What a name in the rules stands for.
    pub fn from_wire(name: &str) -> (r: Option<Scope>)
        ensures
            match r {
                Some(named) => named.wire() == name@,
                None => forall|named: Scope| #[trigger] named.wire() != name@,
            },
    {
        if text::same_text(name, "contents") {
            Some(Scope::Contents)
        } else if text::same_text(name, "path") {
            Some(Scope::Path)
        } else {
            None
        }
    }
}

/// High-level grouping of targets.
#[derive(Debug, Clone, Copy, PartialEq, Eq, Structural)]
pub enum Category {
    SystemJunk,
    UserCache,
    Logs,
    Trash,
    Downloads,
    Developer,
    Browser,
    Other,
}

impl Default for Category {
    fn default() -> (r: Self)
        ensures
            r == Category::Other,
    {
        Category::Other
    }
}

impl Category {
    /// The name that stands for the category in rules.
    pub open spec fn wire(self) -> Seq<char> {
        match self {
            Category::SystemJunk => "system-junk"@,
            Category::UserCache => "user-cache"@,
            Category::Logs => "logs"@,
            Category::Trash => "trash"@,
            Category::Downloads => "downloads"@,
            Category::Developer => "developer"@,
            Category::Browser => "browser"@,
            Category::Other => "other"@,
        }
    }

    /// The name that stands for the category in rules.
    pub fn wire_name(self) -> (r: &'static str)
        ensures
            r@ == self.wire(),
    {
        match self {
            Category::SystemJunk => "system-junk",
            Category::UserCache => "user-cache",
            Category::Logs => "logs",
            Category::Trash => "trash",
            Category::Downloads => "downloads",
            Category::Developer => "developer",
            Category::Browser => "browser",
            Category::Other => "other",
        }
    }

    /// What a name in the rules stands for.
    pub fn from_wire(name: &str) -> (r: Option<Category>)
        ensures
            match r {
                Some(named) => named.wire() == name@,
                None => forall|named: Category| #[trigger] named.wire() != name@,
            },
    {
        if text::same_text(name, "system-junk") {
            Some(Category::SystemJunk)
        } else if text::same_text(name, "user-cache") {
            Some(Category::UserCache)
        } else if text::same_text(name, "logs") {
            Some(Category::Logs)
        } else if text::same_text(name, "trash") {
            Some(Category::Trash)
        } else if text::same_text(name, "downloads") {
            Some(Category::Downloads)
        } else if text::same_text(name, "developer") {
            Some(Category::Developer)
        } else if text::same_text(name, "browser") {
            Some(Category::Browser)
        } else if text::same_text(name, "other") {
            Some(Category::Other)
        } else {
            None
        }
    }
}

/// No two tiers, no two scopes and no two categories go by one name.
pub proof fn wire_names_differ(a: SafetyTier, b: SafetyTier, c: Scope, d: Scope, e: Category, f: Category)
    ensures
        a.wire() == b.wire() ==> a == b,
        c.wire() == d.wire() ==> c == d,
        e.wire() == f.wire() ==> e == f,
{
    reveal_strlit("safe");
    reveal_strlit("caution");
    reveal_strlit("expert");
    reveal_strlit("contents");
    reveal_strlit("path");
    reveal_strlit("system-junk");
    reveal_strlit("user-cache");
    reveal_strlit("logs");
    reveal_strlit("trash");
    reveal_strlit("downloads");
    reveal_strlit("developer");
    reveal_strlit("browser");
    reveal_strlit("other");
    if a.wire() == b.wire() {
        assert(a.wire().len() == b.wire().len());
    }
    if c.wire() == d.wire() {
        assert(c.wire().len() == d.wire().len());
    }
    if e.wire() == f.wire() {
        let (x, y) = (e.wire(), f.wire());
        assert(x.len() == y.len() && x[0] == y[0] && x[1] == y[1]);
    }
}

/// A declarative cleaning target. Targets are data, so the full list of what
/// may ever be removed can be read and versioned.
#[derive(Debug)]
pub struct ScanTarget {
    /// Stable identifier, e.g. `user-caches`.
    pub id: String,
    /// Human-readable name.
    pub name: String,
    /// Path, possibly starting with `~` for the user's home directory.
    pub path: String,
    pub scope: Scope,
    pub safety: SafetyTier,
    pub category: Category,
    /// One-line explanation of what this is and why it is safe to remove.
    pub description: String,
    /// Whether the owning app must be quit before cleaning.
    pub requires_app_quit: bool,
    /// Whether this target's items can only be removed permanently.
    pub permanent: bool,
    /// A capability this target depends on, if any.
    pub requires: Option<Capability>,
}

/// A target, as the text and choices it is made of.
pub struct TargetView {
    pub id: Seq<char>,
    pub name: Seq<char>,
    pub path: Seq<char>,
    pub scope: Scope,
    pub safety: SafetyTier,
    pub category: Category,
    pub description: Seq<char>,
    pub requires_app_quit: bool,
    pub permanent: bool,
    pub requires: Option<Capability>,
}

impl View for ScanTarget {
    type V = TargetView;

    open spec fn view(&self) -> TargetView {
        TargetView {
            id: self.id@,
            name: self.name@,
            path: self.path@,
            scope: self.scope,
            safety: self.safety,
            category: self.category,
            description: self.description@,
            requires_app_quit: self.requires_app_quit,
            permanent: self.permanent,
            requires: self.requires,
        }
    }
}

impl Clone for ScanTarget {
    fn clone(&self) -> (r: Self)
        ensures
            r == *self,
    {
        ScanTarget {
            id: self.id.clone(),
            name: self.name.clone(),
            path: self.path.clone(),
            scope: self.scope,
            safety: self.safety,
            category: self.category,
            description: self.description.clone(),
            requires_app_quit: self.requires_app_quit,
            permanent: self.permanent,
            requires: self.requires,
        }
    }
}

/// A discovered, removable item.
#[derive(Debug)]
pub struct ScanItem {
    /// The target this item belongs to.
    pub target_id: String,
    /// Absolute, resolved path on disk.
    pub path: FsPath,
    /// Total size in bytes (recursive for directories).
    pub size_bytes: u64,
    /// Whether this path is a directory.
    pub is_dir: bool,
}

impl Clone for ScanItem {
    fn clone(&self) -> (r: Self)
        ensures
            r == *self,
    {
        ScanItem {
            target_id: self.target_id.clone(),
            path: self.path.clone(),
            size_bytes: self.size_bytes,
            is_dir: self.is_dir,
        }
    }
}

/// The sizes of a list of items, added up.
pub open spec fn items_size(items: Seq<ScanItem>) -> nat
    decreases items.len(),
{
    if items.len() == 0 {
        0
    } else {
        items_size(items.drop_last()) + items.last().size_bytes as nat
    }
}

/// Result of scanning a single target.
#[derive(Debug)]
pub struct TargetScan {
    pub target: ScanTarget,
    pub items: Vec<ScanItem>,
    /// Sum of all item sizes, in bytes.
    pub total_bytes: u64,
    /// Non-fatal issues (e.g. permission denied on a subpath).
    pub warnings: Vec<String>,
}

/// Aggregate result of a full scan across many targets.
#[derive(Debug)]
pub struct ScanReport {
    pub targets: Vec<TargetScan>,
    pub total_bytes: u64,
}

/// A path that the safety layer refused, with the reason.
#[derive(Debug)]
pub struct RefusedItem {
    pub path: FsPath,
    pub reason: String,
}

/// A path that could not be removed, with the error message.
#[derive(Debug)]
pub struct FailedItem {
    pub path: FsPath,
    pub error: String,
}

/// Outcome of cleaning a set of items.
#[derive(Debug)]
pub struct CleanReport {
    /// Paths that were removed.
    pub removed: Vec<FsPath>,
    /// Paths that were refused by the safety layer.
    pub refused: Vec<RefusedItem>,
    /// Paths that failed to remove.
    pub failed: Vec<FailedItem>,
    /// Total bytes reclaimed from successful removals.
    pub bytes_reclaimed: u64,
    /// Whether this was a dry run (nothing actually removed).
    pub dry_run: bool,
}

impl Default for CleanReport {
    fn default() -> (r: Self)
        ensures
            r.removed@.len() == 0,
            r.refused@.len() == 0,
            r.failed@.len() == 0,
            r.bytes_reclaimed == 0,
            !r.dry_run,
    {
        CleanReport {
            removed: Vec::new(),
            refused: Vec::new(),
            failed: Vec::new(),
            bytes_reclaimed: 0,
            dry_run: false,
        }
    }
}

/// A number, or the largest that fits.
pub open spec fn capped(n: nat) -> nat {
    if n <= u64::MAX {
        n
    } else {
        u64::MAX as nat
    }
}

/// Each item adds its size to the size of the items.
pub proof fn each_item_adds_its_size(items: Seq<ScanItem>, item: ScanItem)
    ensures
        items_size(items.push(item)) == items_size(items) + item.size_bytes,
        items_size(Seq::empty()) == 0,
{
    assert(items.push(item).drop_last() =~= items);
}

/// A number that fits in 64 bits is kept; any other becomes the largest that
/// does.
pub proof fn what_fits_is_kept(n: nat)
    ensures
        n < 18446744073709551616 ==> capped(n) == n,
        n >= 18446744073709551616 ==> capped(n) == 18446744073709551615,
{
}

} // verus!
