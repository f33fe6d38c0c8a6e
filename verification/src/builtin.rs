//! The rules that ship with the program: all that it is ready to touch.

use vstd::prelude::*;

use crate::capability::Build;
use crate::rules::{merge_rules, tells_merged, CoreError, RuleSet};

verus! {

/// The rules for what the system and applications leave behind, as shipped.
pub const SYSTEM_RULES: &'static str = r#"# What the system and applications leave behind.

[[target]]
id = "user-caches"
name = "User application caches"
path = "~/Library/Caches"
scope = "contents"
safety = "safe"
category = "user-cache"
requires_app_quit = true
description = "App caches; regenerated on next launch."

[[target]]
id = "system-caches"
name = "System-wide application caches"
path = "/Library/Caches"
scope = "contents"
safety = "caution"
category = "system-junk"
requires = "system-caches"
description = "Caches that apps keep for all users; regenerated when needed."

[[target]]
id = "user-logs"
name = "User logs"
path = "~/Library/Logs"
scope = "contents"
safety = "safe"
category = "system-junk"
description = "Logs of applications; written anew."

[[target]]
id = "xdg-cache"
name = "Tool cache (~/.cache)"
path = "~/.cache"
scope = "contents"
safety = "caution"
category = "user-cache"
description = "Caches of command-line tools; fetched or built again when needed."

[[target]]
id = "trash"
name = "Trash"
path = "~/.Trash"
scope = "contents"
safety = "caution"
category = "trash"
permanent = true
requires = "trash-contents"
description = "What was put in the Trash. Emptying it cannot be undone."
"#;

/// The rules for developer tools, as shipped.
pub const DEVELOPER_RULES: &'static str = r#"# What developer tools build and download.

[[target]]
id = "xcode-derived-data"
name = "Xcode DerivedData"
path = "~/Library/Developer/Xcode/DerivedData"
scope = "contents"
safety = "safe"
category = "developer"
description = "Build products and indexes of Xcode; rebuilt on the next build."

[[target]]
id = "xcode-device-support"
name = "Xcode iOS DeviceSupport"
path = "~/Library/Developer/Xcode/iOS DeviceSupport"
scope = "contents"
safety = "caution"
category = "developer"
description = "Symbols of devices that were connected; copied again when one is."

[[target]]
id = "xctest-devices"
name = "XCTest runner devices"
path = "~/Library/Developer/XCTestDevices"
scope = "contents"
safety = "caution"
category = "developer"
description = "Simulators that test runs made; made again by the next run."

[[target]]
id = "simulator-devices"
name = "Simulator devices"
path = "~/Library/Developer/CoreSimulator/Devices"
scope = "contents"
safety = "caution"
category = "developer"
description = "Simulators, with the apps installed on them; made again in Xcode."

[[target]]
id = "docker-vm"
name = "Docker disk image"
path = "~/Library/Containers/com.docker.docker/Data/vms"
scope = "contents"
safety = "expert"
category = "developer"
requires_app_quit = true
description = "All images, containers and volumes of Docker Desktop. Volumes are not made again."

[[target]]
id = "homebrew-cache"
name = "Homebrew downloads"
path = "~/Library/Caches/Homebrew"
scope = "contents"
safety = "safe"
category = "developer"
description = "Packages that are installed already; downloaded again when needed."

[[target]]
id = "npm-cache"
name = "npm cache"
path = "~/.npm/_cacache"
scope = "contents"
safety = "caution"
category = "developer"
description = "Downloaded packages; downloaded again by the next install."

[[target]]
id = "cargo-registry"
name = "Cargo registry cache"
path = "~/.cargo/registry"
scope = "contents"
safety = "caution"
category = "developer"
description = "Downloaded crates; downloaded again by the next build."

[[target]]
id = "go-module-cache"
name = "Go module cache"
path = "~/go/pkg/mod"
scope = "contents"
safety = "caution"
category = "developer"
description = "Downloaded modules; downloaded again by the next build."

[[target]]
id = "gradle-caches"
name = "Gradle caches"
path = "~/.gradle/caches"
scope = "contents"
safety = "caution"
category = "developer"
description = "Downloaded dependencies and build caches; made again by the next build."

[[target]]
id = "maven-repository"
name = "Maven repository cache"
path = "~/.m2/repository"
scope = "contents"
safety = "caution"
category = "developer"
description = "Downloaded artifacts; downloaded again by the next build."
"#;

/// The rules that ship with the program: the targets of the system's own
/// rules, then those of the developer tools.
pub fn builtin_ruleset(build: Build) -> (r: Result<RuleSet, CoreError>)
    ensures
        tells_merged(r, SYSTEM_RULES@, DEVELOPER_RULES@, build),
{
    merge_rules(SYSTEM_RULES, DEVELOPER_RULES, build)
}

} // verus!
