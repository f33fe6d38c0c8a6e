//! What a build is allowed to do.
//!
//! There are two builds: one that runs outside the sandbox, and one for the
//! App Store that runs inside it. The difference is expressed once, here, as
//! a set of [`Capability`] flags; everything else asks [`has`].

use vstd::prelude::*;

use crate::text;

verus! {

/// A thing a build may or may not be able to do.
#[derive(Debug, Clone, Copy, PartialEq, Eq, Hash, Structural)]
pub enum Capability {
    /// Clean cache directories under the root domain (`/Library/Caches`).
    SystemCaches,
    /// Delete Xcode Simulator runtimes.
    SimulatorRuntimes,
    /// Run system maintenance actions.
    MaintenanceActions,
    /// Signal other applications to quit.
    ProcessControl,
    /// Read fan speed, temperatures and GPU utilisation.
    HardwareSensors,
    /// Detect and guide the user through granting Full Disk Access.
    FullDiskAccess,
    /// Manage login items in the root domain.
    SystemLoginItems,
    /// Enumerate other processes.
    ProcessEnumeration,
    /// Reach any path the user can, without asking first.
    UnrestrictedFileAccess,
    /// Enumerate and empty `~/.Trash`.
    TrashContents,
    /// Ask for an administrator password and act as root.
    AdminEscalation,
    /// Ask Finder to move an item to the Trash, over Apple Events.
    FinderRemoval,
    /// Render the menu-bar popover with the vibrancy effect.
    Vibrancy,
}

impl Capability {
    /// The name that stands for the capability in rules and in messages.
    pub open spec fn wire(self) -> Seq<char> {
        match self {
            Capability::SystemCaches => "system-caches"@,
            Capability::SimulatorRuntimes => "simulator-runtimes"@,
            Capability::MaintenanceActions => "maintenance-actions"@,
            Capability::ProcessControl => "process-control"@,
            Capability::HardwareSensors => "hardware-sensors"@,
            Capability::FullDiskAccess => "full-disk-access"@,
            Capability::SystemLoginItems => "system-login-items"@,
            Capability::ProcessEnumeration => "process-enumeration"@,
            Capability::UnrestrictedFileAccess => "unrestricted-file-access"@,
            Capability::TrashContents => "trash-contents"@,
            Capability::AdminEscalation => "admin-escalation"@,
            Capability::FinderRemoval => "finder-removal"@,
            Capability::Vibrancy => "vibrancy"@,
        }
    }

    /// The name that stands for the capability in rules and in messages.
    pub fn wire_name(self) -> (r: &'static str)
        ensures
            r@ == self.wire(),
    {
        match self {
            Capability::SystemCaches => "system-caches",
            Capability::SimulatorRuntimes => "simulator-runtimes",
            Capability::MaintenanceActions => "maintenance-actions",
            Capability::ProcessControl => "process-control",
            Capability::HardwareSensors => "hardware-sensors",
            Capability::FullDiskAccess => "full-disk-access",
            Capability::SystemLoginItems => "system-login-items",
            Capability::ProcessEnumeration => "process-enumeration",
            Capability::UnrestrictedFileAccess => "unrestricted-file-access",
            Capability::TrashContents => "trash-contents",
            Capability::AdminEscalation => "admin-escalation",
            Capability::FinderRemoval => "finder-removal",
            Capability::Vibrancy => "vibrancy",
        }
    }

    /// The capability that a name stands for.
    pub fn from_wire(name: &str) -> (r: Option<Capability>)
        ensures
            match r {
                Some(capability) => capability.wire() == name@,
                None => forall|capability: Capability| #[trigger] capability.wire() != name@,
            },
    {
        let all = ALL;
        let mut i: usize = 0;
        while i < 13
            invariant
                i <= 13,
                all@ == ALL@,
                forall|j: int| 0 <= j < i ==> (#[trigger] ALL@[j]).wire() != name@,
            decreases 13 - i,
        {
            if text::same_text(all[i].wire_name(), name) {
                return Some(all[i]);
            }
            i += 1;
        }
        proof {
            assert forall|capability: Capability| #[trigger] capability.wire() != name@ by {
                all_is_exhaustive(capability);
            }
        }
        None
    }
}

/// No two capabilities go by one name.
pub proof fn wire_names_differ(a: Capability, b: Capability)
    requires
        a.wire() == b.wire(),
    ensures
        a == b,
{
    reveal_strlit("system-caches");
    reveal_strlit("simulator-runtimes");
    reveal_strlit("maintenance-actions");
    reveal_strlit("process-control");
    reveal_strlit("hardware-sensors");
    reveal_strlit("full-disk-access");
    reveal_strlit("system-login-items");
    reveal_strlit("process-enumeration");
    reveal_strlit("unrestricted-file-access");
    reveal_strlit("trash-contents");
    reveal_strlit("admin-escalation");
    reveal_strlit("finder-removal");
    reveal_strlit("vibrancy");
    let (x, y) = (a.wire(), b.wire());
    assert(x.len() == y.len() && x[0] == y[0] && x[1] == y[1]);
}

/// Which of the two builds is running.
#[derive(Debug, Clone, Copy, PartialEq, Eq, Structural)]
pub enum Build {
    /// The notarized build that runs outside the sandbox.
    Direct,
    /// The sandboxed App Store build.
    AppStore,
}

/// Every capability that exists, whatever the build.
pub const ALL: [Capability; 13] = [
    Capability::SystemCaches,
    Capability::SimulatorRuntimes,
    Capability::MaintenanceActions,
    Capability::ProcessControl,
    Capability::HardwareSensors,
    Capability::FullDiskAccess,
    Capability::SystemLoginItems,
    Capability::ProcessEnumeration,
    Capability::UnrestrictedFileAccess,
    Capability::TrashContents,
    Capability::AdminEscalation,
    Capability::FinderRemoval,
    Capability::Vibrancy,
];

/// The capabilities a build has: all of them outside the sandbox, none inside
/// it.
pub open spec fn enabled_in(build: Build) -> Seq<Capability> {
    match build {
        Build::Direct => ALL@,
        Build::AppStore => Seq::empty(),
    }
}

/// The capabilities a build has.
pub fn enabled(build: Build) -> (r: Vec<Capability>)
    ensures
        r@ == enabled_in(build),
{
    let mut r: Vec<Capability> = Vec::new();
    match build {
        Build::Direct => {
            let all = ALL;
            let mut i: usize = 0;
            while i < 13
                invariant
                    i <= 13,
                    all@ == ALL@,
                    r@ == ALL@.take(i as int),
                decreases 13 - i,
            {
                r.push(all[i]);
                i += 1;
            }
            assert(ALL@.take(13) =~= ALL@);
        },
        Build::AppStore => {},
    }
    r
}

/// Whether a build has `capability`.
pub fn has(build: Build, capability: Capability) -> (r: bool)
    ensures
        r == enabled_in(build).contains(capability),
{
    let set = enabled(build);
    let mut i: usize = 0;
    while i < set.len()
        invariant
            i <= set@.len(),
            set@ == enabled_in(build),
            forall|j: int| 0 <= j < i ==> set@[j] != capability,
        decreases set@.len() - i,
    {
        if set[i] == capability {
            return true;
        }
        i += 1;
    }
    false
}

/// The list of all capabilities leaves none out.
pub proof fn all_is_exhaustive(capability: Capability)
    ensures
        ALL@.contains(capability),
{
    let i: int = match capability {
        Capability::SystemCaches => 0,
        Capability::SimulatorRuntimes => 1,
        Capability::MaintenanceActions => 2,
        Capability::ProcessControl => 3,
        Capability::HardwareSensors => 4,
        Capability::FullDiskAccess => 5,
        Capability::SystemLoginItems => 6,
        Capability::ProcessEnumeration => 7,
        Capability::UnrestrictedFileAccess => 8,
        Capability::TrashContents => 9,
        Capability::AdminEscalation => 10,
        Capability::FinderRemoval => 11,
        Capability::Vibrancy => 12,
    };
    assert(ALL@[i] == capability);
}

/// No capability is listed twice.
pub proof fn all_has_no_duplicates(i: int, j: int)
    requires
        0 <= i < j < 13,
    ensures
        ALL@[i] != ALL@[j],
{
}

/// The build outside the sandbox can do everything, the one inside it
/// nothing.
pub proof fn direct_has_everything(capability: Capability)
    ensures
        enabled_in(Build::Direct).contains(capability),
        !enabled_in(Build::AppStore).contains(capability),
{
    all_is_exhaustive(capability);
}

/// A build of the App Store has none of the capabilities.
pub proof fn the_app_store_build_has_nothing(capability: Capability)
    ensures
        !enabled_in(Build::AppStore).contains(capability),
        enabled_in(Build::AppStore).len() == 0,
{
}

} // verus!
