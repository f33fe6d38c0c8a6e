//! Finds what is taking up space on a Mac, and decides what may be removed.
//!
//! The rules that say what can be cleaned are data ([`rules`], [`builtin`]);
//! what is there is measured ([`scanner`]); whether a path may go is decided
//! in one place ([`safety`]), and whatever is removed passes it
//! ([`cleaner`]). Besides that there are searches for build artifacts
//! ([`devscan`]), duplicates ([`dupes`]), the folders that take the space
//! ([`usage`]), and what apps leave behind ([`apps`], [`orphans`]).
//!
//! Nothing here touches the filesystem. What is on disk comes in as values or
//! through the questions of [`disk::Disk`], and removal is left to a
//! [`cleaner::RemovalBackend`].

use vstd::prelude::*;

pub mod apps;
pub mod backend;
pub mod buckets;
pub mod builtin;
pub mod capability;
pub mod cleaner;
pub mod cli;
pub mod cmd;
pub mod devscan;
pub mod disk;
pub mod document;
pub mod double;
pub mod dupes;
pub mod info;
pub mod model;
pub mod mounts;
pub mod order;
pub mod orphans;
pub mod paths;
pub mod patterns;
pub mod render;
pub mod report;
pub mod rewalk;
pub mod rules;
pub mod safety;
pub mod scanner;
pub mod targets;
pub mod text;
pub mod trash;
pub mod tui;
pub mod ui;
pub mod usage;

pub use apps::{AppInfo, Leftover, UninstallPlan};
pub use builtin::{builtin_ruleset, DEVELOPER_RULES, SYSTEM_RULES};
pub use capability::{Build, Capability};
pub use devscan::{DevArtifact, DevProgress, DevScanOptions};
pub use dupes::{DupeGroup, DupeOptions};
pub use model::{
    Category, CleanReport, FailedItem, RefusedItem, SafetyTier, ScanItem, ScanReport, ScanTarget,
    Scope, TargetScan,
};
pub use paths::FsPath;
pub use rules::{CoreError, RuleSet};
pub use safety::{RefusalReason, SafetyGuard};
pub use usage::{UsageNode, UsageOptions};

verus! {

/// Scans all targets of a set of rules.
pub fn scan<R: Fn(&ScanTarget, &FsPath, &Vec<FsPath>) -> Option<disk::Present>>(
    ruleset: &RuleSet,
    home: Option<&FsPath>,
    read: &R,
) -> (r: ScanReport)
    requires
        forall|t: &ScanTarget, p: &FsPath, o: &Vec<FsPath>| call_requires(*read, (t, p, o)),
        forall|readings: Seq<Option<disk::Present>>| #[trigger]
            scanner::readings_of(*read, ruleset.targets@, paths::opt_view(home), readings) ==> scanner::report_size(
                ruleset.targets@,
                paths::opt_view(home),
                readings,
            ) <= u64::MAX,
    ensures
        r.targets@.len() == ruleset.targets@.len(),
        exists|readings: Seq<Option<disk::Present>>| #[trigger]
            scanner::readings_of(*read, ruleset.targets@, paths::opt_view(home), readings) && scanner::reported(
                r,
                ruleset.targets@,
                paths::opt_view(home),
                readings,
            ),
{
    scanner::scan_targets(&ruleset.targets, home, read)
}

} // verus!
