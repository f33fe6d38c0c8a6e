//! The directories that build tools and package managers leave behind.

use vstd::prelude::*;

use crate::model::SafetyTier;

verus! {

/// Where a marker file that validates an ambiguous match must live.
#[derive(Debug, Clone, Copy)]
pub enum Marker {
    /// A file that must exist alongside the matched directory.
    Sibling(&'static str),
    /// A file that must exist inside the matched directory.
    Inside(&'static str),
}

/// A recognized developer-artifact directory pattern.
#[derive(Debug, Clone, Copy)]
pub struct DevPattern {
    /// The toolchain this belongs to.
    pub tool: &'static str,
    /// Exact directory name to match.
    pub dir_name: &'static str,
    /// Optional validation marker for otherwise-ambiguous names.
    pub marker: Option<Marker>,
    pub safety: SafetyTier,
    pub description: &'static str,
}

/// A directory that its name alone identifies.
#[verifier::allow_in_spec]
pub fn unmarked(
    tool: &'static str,
    dir_name: &'static str,
    safety: SafetyTier,
    description: &'static str,
) -> (r: DevPattern)
    returns
        (DevPattern { tool, dir_name, marker: None, safety, description }),
{
    DevPattern { tool, dir_name, marker: None, safety, description }
}

/// A directory that counts only where `file` stands beside it.
#[verifier::allow_in_spec]
pub fn beside(
    tool: &'static str,
    dir_name: &'static str,
    file: &'static str,
    safety: SafetyTier,
    description: &'static str,
) -> (r: DevPattern)
    returns
        (DevPattern { tool, dir_name, marker: Some(Marker::Sibling(file)), safety, description }),
{
    DevPattern { tool, dir_name, marker: Some(Marker::Sibling(file)), safety, description }
}

/// A directory that counts only where it holds `file`.
#[verifier::allow_in_spec]
pub fn inside(
    tool: &'static str,
    dir_name: &'static str,
    file: &'static str,
    safety: SafetyTier,
    description: &'static str,
) -> (r: DevPattern)
    returns
        (DevPattern { tool, dir_name, marker: Some(Marker::Inside(file)), safety, description }),
{
    DevPattern { tool, dir_name, marker: Some(Marker::Inside(file)), safety, description }
}

/// The full set of recognized patterns. Kept small and explicit on purpose. A
/// name may stand more than once: the first pattern whose marker holds wins.
pub open spec fn known_patterns() -> Seq<DevPattern> {
    seq![
        unmarked(
            "Node.js", "node_modules", SafetyTier::Caution,
            "Installed npm dependencies. Restore with a fresh install.",
        ),
        beside("Rust", "target", "Cargo.toml", SafetyTier::Safe, "Cargo build output. Rebuilt on next build."),
        unmarked("Python", "__pycache__", SafetyTier::Safe, "Compiled bytecode cache. Regenerated automatically."),
        inside(
            "Python", ".venv", "pyvenv.cfg", SafetyTier::Caution,
            "Python virtual environment. Recreate from requirements.",
        ),
        inside(
            "Python", "venv", "pyvenv.cfg", SafetyTier::Caution,
            "Python virtual environment. Recreate from requirements.",
        ),
        beside(
            "Gradle", ".gradle", "settings.gradle", SafetyTier::Safe,
            "Per-project Gradle cache. Rebuilt on next build.",
        ),
        beside(
            "Gradle", ".gradle", "settings.gradle.kts", SafetyTier::Safe,
            "Per-project Gradle cache. Rebuilt on next build.",
        ),
        beside("CocoaPods", "Pods", "Podfile", SafetyTier::Caution, "Installed CocoaPods. Restore with `pod install`."),
        beside(
            "Carthage", "Carthage", "Cartfile", SafetyTier::Caution,
            "Carthage build output. Restore with `carthage bootstrap`.",
        ),
        beside("Next.js", ".next", "package.json", SafetyTier::Safe, "Next.js build output. Rebuilt on next build."),
        beside(
            "Swift Package Manager", ".build", "Package.swift", SafetyTier::Safe,
            "SwiftPM build output and checkouts. Rebuilt on next build.",
        ),
        unmarked(
            "Xcode", "DerivedData", SafetyTier::Safe,
            "Xcode build intermediates and indexes. Rebuilt on next build.",
        ),
        beside("Gradle", "build", "build.gradle", SafetyTier::Safe, "Build output. Rebuilt on next build."),
        beside("Gradle", "build", "build.gradle.kts", SafetyTier::Safe, "Build output. Rebuilt on next build."),
        beside("Maven", "target", "pom.xml", SafetyTier::Safe, "Maven build output. Rebuilt on next build."),
        unmarked("Android NDK", ".cxx", SafetyTier::Safe, "Native build intermediates. Rebuilt on next build."),
        beside("CMake", "build", "CMakeLists.txt", SafetyTier::Safe, "CMake build output. Rebuilt on next build."),
        unmarked("CLion", "cmake-build-debug", SafetyTier::Safe, "CLion debug build output. Rebuilt on next build."),
        unmarked(
            "CLion", "cmake-build-release", SafetyTier::Safe,
            "CLion release build output. Rebuilt on next build.",
        ),
        beside(
            "Node.js", "dist", "package.json", SafetyTier::Caution,
            "Bundled build output. Rebuilt on next build — unless the project commits it.",
        ),
        unmarked("Turborepo", ".turbo", SafetyTier::Safe, "Turborepo task cache. Rebuilt on next run."),
        unmarked("Parcel", ".parcel-cache", SafetyTier::Safe, "Parcel bundler cache. Rebuilt on next build."),
        unmarked("SvelteKit", ".svelte-kit", SafetyTier::Safe, "SvelteKit build output. Rebuilt on next build."),
        unmarked("Nuxt", ".nuxt", SafetyTier::Safe, "Nuxt build output. Rebuilt on next build."),
        unmarked("Astro", ".astro", SafetyTier::Safe, "Astro build cache. Rebuilt on next build."),
        unmarked("Angular", ".angular", SafetyTier::Safe, "Angular build cache. Rebuilt on next build."),
        unmarked("Docusaurus", ".docusaurus", SafetyTier::Safe, "Docusaurus build cache. Rebuilt on next build."),
        unmarked("Expo", ".expo", SafetyTier::Safe, "Expo local build cache. Rebuilt on next start."),
        unmarked("Istanbul", ".nyc_output", SafetyTier::Safe, "Coverage run output. Regenerated on the next test run."),
        unmarked("pytest", ".pytest_cache", SafetyTier::Safe, "pytest run cache. Regenerated on the next test run."),
        unmarked("mypy", ".mypy_cache", SafetyTier::Safe, "mypy type-check cache. Regenerated on the next run."),
        unmarked("Ruff", ".ruff_cache", SafetyTier::Safe, "Ruff lint cache. Regenerated on the next run."),
        unmarked("tox", ".tox", SafetyTier::Caution, "tox test environments. Recreated on the next `tox` run."),
        unmarked("Jupyter", ".ipynb_checkpoints", SafetyTier::Safe, "Notebook autosave checkpoints."),
        beside(
            "Go", "vendor", "go.mod", SafetyTier::Caution,
            "Vendored Go dependencies. Restore with `go mod vendor`.",
        ),
        beside(
            "Composer", "vendor", "composer.json", SafetyTier::Caution,
            "Installed PHP dependencies. Restore with `composer install`.",
        ),
        beside("Elixir", "_build", "mix.exs", SafetyTier::Safe, "Mix build output. Rebuilt on next build."),
        beside(
            "Elixir", "deps", "mix.exs", SafetyTier::Caution,
            "Fetched Mix dependencies. Restore with `mix deps.get`.",
        ),
        unmarked("Stack", ".stack-work", SafetyTier::Safe, "Stack build output. Rebuilt on next build."),
        beside("Zig", ".zig-cache", "build.zig", SafetyTier::Safe, "Zig build cache. Rebuilt on next build."),
        beside("Zig", "zig-out", "build.zig", SafetyTier::Safe, "Zig build output. Rebuilt on next build."),
        unmarked(
            "Terraform", ".terraform", SafetyTier::Caution,
            "Downloaded providers and modules. Restore with `terraform init`.",
        ),
        beside("Flutter", "build", "pubspec.yaml", SafetyTier::Safe, "Flutter build output. Rebuilt on next build."),
        unmarked(
            "Dart", ".dart_tool", SafetyTier::Safe,
            "Dart package config and build cache. Regenerated on `pub get`.",
        ),
    ]
}

/// The full set of recognized patterns.
pub fn patterns() -> (r: Vec<DevPattern>)
    ensures
        r@ == known_patterns(),
{
    vec![
        unmarked(
            "Node.js", "node_modules", SafetyTier::Caution,
            "Installed npm dependencies. Restore with a fresh install.",
        ),
        beside("Rust", "target", "Cargo.toml", SafetyTier::Safe, "Cargo build output. Rebuilt on next build."),
        unmarked("Python", "__pycache__", SafetyTier::Safe, "Compiled bytecode cache. Regenerated automatically."),
        inside(
            "Python", ".venv", "pyvenv.cfg", SafetyTier::Caution,
            "Python virtual environment. Recreate from requirements.",
        ),
        inside(
            "Python", "venv", "pyvenv.cfg", SafetyTier::Caution,
            "Python virtual environment. Recreate from requirements.",
        ),
        beside(
            "Gradle", ".gradle", "settings.gradle", SafetyTier::Safe,
            "Per-project Gradle cache. Rebuilt on next build.",
        ),
        beside(
            "Gradle", ".gradle", "settings.gradle.kts", SafetyTier::Safe,
            "Per-project Gradle cache. Rebuilt on next build.",
        ),
        beside("CocoaPods", "Pods", "Podfile", SafetyTier::Caution, "Installed CocoaPods. Restore with `pod install`."),
        beside(
            "Carthage", "Carthage", "Cartfile", SafetyTier::Caution,
            "Carthage build output. Restore with `carthage bootstrap`.",
        ),
        beside("Next.js", ".next", "package.json", SafetyTier::Safe, "Next.js build output. Rebuilt on next build."),
        beside(
            "Swift Package Manager", ".build", "Package.swift", SafetyTier::Safe,
            "SwiftPM build output and checkouts. Rebuilt on next build.",
        ),
        unmarked(
            "Xcode", "DerivedData", SafetyTier::Safe,
            "Xcode build intermediates and indexes. Rebuilt on next build.",
        ),
        beside("Gradle", "build", "build.gradle", SafetyTier::Safe, "Build output. Rebuilt on next build."),
        beside("Gradle", "build", "build.gradle.kts", SafetyTier::Safe, "Build output. Rebuilt on next build."),
        beside("Maven", "target", "pom.xml", SafetyTier::Safe, "Maven build output. Rebuilt on next build."),
        unmarked("Android NDK", ".cxx", SafetyTier::Safe, "Native build intermediates. Rebuilt on next build."),
        beside("CMake", "build", "CMakeLists.txt", SafetyTier::Safe, "CMake build output. Rebuilt on next build."),
        unmarked("CLion", "cmake-build-debug", SafetyTier::Safe, "CLion debug build output. Rebuilt on next build."),
        unmarked(
            "CLion", "cmake-build-release", SafetyTier::Safe,
            "CLion release build output. Rebuilt on next build.",
        ),
        beside(
            "Node.js", "dist", "package.json", SafetyTier::Caution,
            "Bundled build output. Rebuilt on next build — unless the project commits it.",
        ),
        unmarked("Turborepo", ".turbo", SafetyTier::Safe, "Turborepo task cache. Rebuilt on next run."),
        unmarked("Parcel", ".parcel-cache", SafetyTier::Safe, "Parcel bundler cache. Rebuilt on next build."),
        unmarked("SvelteKit", ".svelte-kit", SafetyTier::Safe, "SvelteKit build output. Rebuilt on next build."),
        unmarked("Nuxt", ".nuxt", SafetyTier::Safe, "Nuxt build output. Rebuilt on next build."),
        unmarked("Astro", ".astro", SafetyTier::Safe, "Astro build cache. Rebuilt on next build."),
        unmarked("Angular", ".angular", SafetyTier::Safe, "Angular build cache. Rebuilt on next build."),
        unmarked("Docusaurus", ".docusaurus", SafetyTier::Safe, "Docusaurus build cache. Rebuilt on next build."),
        unmarked("Expo", ".expo", SafetyTier::Safe, "Expo local build cache. Rebuilt on next start."),
        unmarked("Istanbul", ".nyc_output", SafetyTier::Safe, "Coverage run output. Regenerated on the next test run."),
        unmarked("pytest", ".pytest_cache", SafetyTier::Safe, "pytest run cache. Regenerated on the next test run."),
        unmarked("mypy", ".mypy_cache", SafetyTier::Safe, "mypy type-check cache. Regenerated on the next run."),
        unmarked("Ruff", ".ruff_cache", SafetyTier::Safe, "Ruff lint cache. Regenerated on the next run."),
        unmarked("tox", ".tox", SafetyTier::Caution, "tox test environments. Recreated on the next `tox` run."),
        unmarked("Jupyter", ".ipynb_checkpoints", SafetyTier::Safe, "Notebook autosave checkpoints."),
        beside(
            "Go", "vendor", "go.mod", SafetyTier::Caution,
            "Vendored Go dependencies. Restore with `go mod vendor`.",
        ),
        beside(
            "Composer", "vendor", "composer.json", SafetyTier::Caution,
            "Installed PHP dependencies. Restore with `composer install`.",
        ),
        beside("Elixir", "_build", "mix.exs", SafetyTier::Safe, "Mix build output. Rebuilt on next build."),
        beside(
            "Elixir", "deps", "mix.exs", SafetyTier::Caution,
            "Fetched Mix dependencies. Restore with `mix deps.get`.",
        ),
        unmarked("Stack", ".stack-work", SafetyTier::Safe, "Stack build output. Rebuilt on next build."),
        beside("Zig", ".zig-cache", "build.zig", SafetyTier::Safe, "Zig build cache. Rebuilt on next build."),
        beside("Zig", "zig-out", "build.zig", SafetyTier::Safe, "Zig build output. Rebuilt on next build."),
        unmarked(
            "Terraform", ".terraform", SafetyTier::Caution,
            "Downloaded providers and modules. Restore with `terraform init`.",
        ),
        beside("Flutter", "build", "pubspec.yaml", SafetyTier::Safe, "Flutter build output. Rebuilt on next build."),
        unmarked(
            "Dart", ".dart_tool", SafetyTier::Safe,
            "Dart package config and build cache. Regenerated on `pub get`.",
        ),
    ]
}

/// The directories that are known by their names alone, by tool, name and tier.
pub open spec fn known_by_name(tool: Seq<char>, name: Seq<char>, tier: SafetyTier) -> bool {
    ||| tool == "Node.js"@ && name == "node_modules"@ && tier == SafetyTier::Caution
    ||| tool == "Python"@ && name == "__pycache__"@ && tier == SafetyTier::Safe
    ||| tool == "Xcode"@ && name == "DerivedData"@ && tier == SafetyTier::Safe
    ||| tool == "Android NDK"@ && name == ".cxx"@ && tier == SafetyTier::Safe
    ||| tool == "CLion"@ && name == "cmake-build-debug"@ && tier == SafetyTier::Safe
    ||| tool == "CLion"@ && name == "cmake-build-release"@ && tier == SafetyTier::Safe
    ||| tool == "Turborepo"@ && name == ".turbo"@ && tier == SafetyTier::Safe
    ||| tool == "Parcel"@ && name == ".parcel-cache"@ && tier == SafetyTier::Safe
    ||| tool == "SvelteKit"@ && name == ".svelte-kit"@ && tier == SafetyTier::Safe
    ||| tool == "Nuxt"@ && name == ".nuxt"@ && tier == SafetyTier::Safe
    ||| tool == "Astro"@ && name == ".astro"@ && tier == SafetyTier::Safe
    ||| tool == "Angular"@ && name == ".angular"@ && tier == SafetyTier::Safe
    ||| tool == "Docusaurus"@ && name == ".docusaurus"@ && tier == SafetyTier::Safe
    ||| tool == "Expo"@ && name == ".expo"@ && tier == SafetyTier::Safe
    ||| tool == "Istanbul"@ && name == ".nyc_output"@ && tier == SafetyTier::Safe
    ||| tool == "pytest"@ && name == ".pytest_cache"@ && tier == SafetyTier::Safe
    ||| tool == "mypy"@ && name == ".mypy_cache"@ && tier == SafetyTier::Safe
    ||| tool == "Ruff"@ && name == ".ruff_cache"@ && tier == SafetyTier::Safe
    ||| tool == "tox"@ && name == ".tox"@ && tier == SafetyTier::Caution
    ||| tool == "Jupyter"@ && name == ".ipynb_checkpoints"@ && tier == SafetyTier::Safe
    ||| tool == "Stack"@ && name == ".stack-work"@ && tier == SafetyTier::Safe
    ||| tool == "Terraform"@ && name == ".terraform"@ && tier == SafetyTier::Caution
    ||| tool == "Dart"@ && name == ".dart_tool"@ && tier == SafetyTier::Safe
}

/// The directories that are known by a file beside them, by tool, name, file
/// and tier.
pub open spec fn known_by_neighbour(tool: Seq<char>, name: Seq<char>, file: Seq<char>, tier: SafetyTier) -> bool {
    ||| tool == "Rust"@ && name == "target"@ && file == "Cargo.toml"@ && tier == SafetyTier::Safe
    ||| tool == "Gradle"@ && name == ".gradle"@ && file == "settings.gradle"@ && tier == SafetyTier::Safe
    ||| tool == "Gradle"@ && name == ".gradle"@ && file == "settings.gradle.kts"@ && tier == SafetyTier::Safe
    ||| tool == "CocoaPods"@ && name == "Pods"@ && file == "Podfile"@ && tier == SafetyTier::Caution
    ||| tool == "Carthage"@ && name == "Carthage"@ && file == "Cartfile"@ && tier == SafetyTier::Caution
    ||| tool == "Next.js"@ && name == ".next"@ && file == "package.json"@ && tier == SafetyTier::Safe
    ||| tool == "Swift Package Manager"@ && name == ".build"@ && file == "Package.swift"@ && tier == SafetyTier::Safe
    ||| tool == "Gradle"@ && name == "build"@ && file == "build.gradle"@ && tier == SafetyTier::Safe
    ||| tool == "Gradle"@ && name == "build"@ && file == "build.gradle.kts"@ && tier == SafetyTier::Safe
    ||| tool == "Maven"@ && name == "target"@ && file == "pom.xml"@ && tier == SafetyTier::Safe
    ||| tool == "CMake"@ && name == "build"@ && file == "CMakeLists.txt"@ && tier == SafetyTier::Safe
    ||| tool == "Node.js"@ && name == "dist"@ && file == "package.json"@ && tier == SafetyTier::Caution
    ||| tool == "Go"@ && name == "vendor"@ && file == "go.mod"@ && tier == SafetyTier::Caution
    ||| tool == "Composer"@ && name == "vendor"@ && file == "composer.json"@ && tier == SafetyTier::Caution
    ||| tool == "Elixir"@ && name == "_build"@ && file == "mix.exs"@ && tier == SafetyTier::Safe
    ||| tool == "Elixir"@ && name == "deps"@ && file == "mix.exs"@ && tier == SafetyTier::Caution
    ||| tool == "Zig"@ && name == ".zig-cache"@ && file == "build.zig"@ && tier == SafetyTier::Safe
    ||| tool == "Zig"@ && name == "zig-out"@ && file == "build.zig"@ && tier == SafetyTier::Safe
    ||| tool == "Flutter"@ && name == "build"@ && file == "pubspec.yaml"@ && tier == SafetyTier::Safe
}

/// The directories that are known by a file in them, by tool, name, file and
/// tier.
pub open spec fn known_by_content(tool: Seq<char>, name: Seq<char>, file: Seq<char>, tier: SafetyTier) -> bool {
    ||| tool == "Python"@ && name == ".venv"@ && file == "pyvenv.cfg"@ && tier == SafetyTier::Caution
    ||| tool == "Python"@ && name == "venv"@ && file == "pyvenv.cfg"@ && tier == SafetyTier::Caution
}

proof fn lemma_known_by_name(tool: Seq<char>, name: Seq<char>, tier: SafetyTier) -> (i: int)
    requires
        known_by_name(tool, name, tier),
    ensures
        0 <= i < known_patterns().len(),
        known_patterns()[i].tool@ == tool,
        known_patterns()[i].dir_name@ == name,
        known_patterns()[i].safety == tier,
        known_patterns()[i].marker is None,
{
    if tool == "Node.js"@ && name == "node_modules"@ && tier == SafetyTier::Caution {
        0
    } else if tool == "Python"@ && name == "__pycache__"@ && tier == SafetyTier::Safe {
        2
    } else if tool == "Xcode"@ && name == "DerivedData"@ && tier == SafetyTier::Safe {
        11
    } else if tool == "Android NDK"@ && name == ".cxx"@ && tier == SafetyTier::Safe {
        15
    } else if tool == "CLion"@ && name == "cmake-build-debug"@ && tier == SafetyTier::Safe {
        17
    } else if tool == "CLion"@ && name == "cmake-build-release"@ && tier == SafetyTier::Safe {
        18
    } else if tool == "Turborepo"@ && name == ".turbo"@ && tier == SafetyTier::Safe {
        20
    } else if tool == "Parcel"@ && name == ".parcel-cache"@ && tier == SafetyTier::Safe {
        21
    } else if tool == "SvelteKit"@ && name == ".svelte-kit"@ && tier == SafetyTier::Safe {
        22
    } else if tool == "Nuxt"@ && name == ".nuxt"@ && tier == SafetyTier::Safe {
        23
    } else if tool == "Astro"@ && name == ".astro"@ && tier == SafetyTier::Safe {
        24
    } else if tool == "Angular"@ && name == ".angular"@ && tier == SafetyTier::Safe {
        25
    } else if tool == "Docusaurus"@ && name == ".docusaurus"@ && tier == SafetyTier::Safe {
        26
    } else if tool == "Expo"@ && name == ".expo"@ && tier == SafetyTier::Safe {
        27
    } else if tool == "Istanbul"@ && name == ".nyc_output"@ && tier == SafetyTier::Safe {
        28
    } else if tool == "pytest"@ && name == ".pytest_cache"@ && tier == SafetyTier::Safe {
        29
    } else if tool == "mypy"@ && name == ".mypy_cache"@ && tier == SafetyTier::Safe {
        30
    } else if tool == "Ruff"@ && name == ".ruff_cache"@ && tier == SafetyTier::Safe {
        31
    } else if tool == "tox"@ && name == ".tox"@ && tier == SafetyTier::Caution {
        32
    } else if tool == "Jupyter"@ && name == ".ipynb_checkpoints"@ && tier == SafetyTier::Safe {
        33
    } else if tool == "Stack"@ && name == ".stack-work"@ && tier == SafetyTier::Safe {
        38
    } else if tool == "Terraform"@ && name == ".terraform"@ && tier == SafetyTier::Caution {
        41
    } else {
        43
    }
}

proof fn lemma_known_by_neighbour(tool: Seq<char>, name: Seq<char>, file: Seq<char>, tier: SafetyTier) -> (i: int)
    requires
        known_by_neighbour(tool, name, file, tier),
    ensures
        0 <= i < known_patterns().len(),
        known_patterns()[i].tool@ == tool,
        known_patterns()[i].dir_name@ == name,
        known_patterns()[i].safety == tier,
        told_by_neighbour(known_patterns()[i], file),
{
    if tool == "Rust"@ && name == "target"@ && file == "Cargo.toml"@ && tier == SafetyTier::Safe {
        1
    } else if tool == "Gradle"@ && name == ".gradle"@ && file == "settings.gradle"@ && tier == SafetyTier::Safe {
        5
    } else if tool == "Gradle"@ && name == ".gradle"@ && file == "settings.gradle.kts"@ && tier == SafetyTier::Safe {
        6
    } else if tool == "CocoaPods"@ && name == "Pods"@ && file == "Podfile"@ && tier == SafetyTier::Caution {
        7
    } else if tool == "Carthage"@ && name == "Carthage"@ && file == "Cartfile"@ && tier == SafetyTier::Caution {
        8
    } else if tool == "Next.js"@ && name == ".next"@ && file == "package.json"@ && tier == SafetyTier::Safe {
        9
    } else if tool == "Swift Package Manager"@ && name == ".build"@ && file == "Package.swift"@ && tier == SafetyTier::Safe {
        10
    } else if tool == "Gradle"@ && name == "build"@ && file == "build.gradle"@ && tier == SafetyTier::Safe {
        12
    } else if tool == "Gradle"@ && name == "build"@ && file == "build.gradle.kts"@ && tier == SafetyTier::Safe {
        13
    } else if tool == "Maven"@ && name == "target"@ && file == "pom.xml"@ && tier == SafetyTier::Safe {
        14
    } else if tool == "CMake"@ && name == "build"@ && file == "CMakeLists.txt"@ && tier == SafetyTier::Safe {
        16
    } else if tool == "Node.js"@ && name == "dist"@ && file == "package.json"@ && tier == SafetyTier::Caution {
        19
    } else if tool == "Go"@ && name == "vendor"@ && file == "go.mod"@ && tier == SafetyTier::Caution {
        34
    } else if tool == "Composer"@ && name == "vendor"@ && file == "composer.json"@ && tier == SafetyTier::Caution {
        35
    } else if tool == "Elixir"@ && name == "_build"@ && file == "mix.exs"@ && tier == SafetyTier::Safe {
        36
    } else if tool == "Elixir"@ && name == "deps"@ && file == "mix.exs"@ && tier == SafetyTier::Caution {
        37
    } else if tool == "Zig"@ && name == ".zig-cache"@ && file == "build.zig"@ && tier == SafetyTier::Safe {
        39
    } else if tool == "Zig"@ && name == "zig-out"@ && file == "build.zig"@ && tier == SafetyTier::Safe {
        40
    } else {
        42
    }
}

proof fn lemma_known_by_content(tool: Seq<char>, name: Seq<char>, file: Seq<char>, tier: SafetyTier) -> (i: int)
    requires
        known_by_content(tool, name, file, tier),
    ensures
        0 <= i < known_patterns().len(),
        known_patterns()[i].tool@ == tool,
        known_patterns()[i].dir_name@ == name,
        known_patterns()[i].safety == tier,
        told_by_content(known_patterns()[i], file),
{
    if tool == "Python"@ && name == ".venv"@ && file == "pyvenv.cfg"@ && tier == SafetyTier::Caution {
        3
    } else {
        4
    }
}

/// The pattern asks for the file beside the directory.
pub open spec fn told_by_neighbour(p: DevPattern, file: Seq<char>) -> bool {
    p.marker is Some && p.marker->0 is Sibling && p.marker->0->Sibling_0@ == file
}

/// The pattern asks for the file in the directory.
pub open spec fn told_by_content(p: DevPattern, file: Seq<char>) -> bool {
    p.marker is Some && p.marker->0 is Inside && p.marker->0->Inside_0@ == file
}

/// The pattern is one of those that are known.
pub open spec fn is_known(p: DevPattern) -> bool {
    match p.marker {
        None => known_by_name(p.tool@, p.dir_name@, p.safety),
        Some(Marker::Sibling(file)) => known_by_neighbour(p.tool@, p.dir_name@, file@, p.safety),
        Some(Marker::Inside(file)) => known_by_content(p.tool@, p.dir_name@, file@, p.safety),
    }
}

proof fn lemma_is_known(i: int)
    requires
        0 <= i < known_patterns().len(),
    ensures
        is_known(known_patterns()[i]),
{
    assert(known_patterns().len() == 44);
    assert(i == 0 || i == 1 || i == 2 || i == 3 || i == 4 || i == 5 || i == 6 || i == 7 || i == 8 || i == 9 || i == 10 || i == 11 || i == 12 || i == 13 || i == 14 || i == 15 || i == 16 || i == 17 || i == 18 || i == 19 || i == 20 || i == 21 || i == 22 || i == 23 || i == 24 || i == 25 || i == 26 || i == 27 || i == 28 || i == 29 || i == 30 || i == 31 || i == 32 || i == 33 || i == 34 || i == 35 || i == 36 || i == 37 || i == 38 || i == 39 || i == 40 || i == 41 || i == 42 || i == 43);
}

/// Every directory that is known stands in the table, with its tool and its
/// tier and what it is told by; and nothing else does.
pub proof fn the_table_holds_what_is_known(tool: Seq<char>, name: Seq<char>, file: Seq<char>, tier: SafetyTier, i: int)
    ensures
        known_by_name(tool, name, tier) ==> exists|p: DevPattern| #[trigger]
            known_patterns().contains(p) && p.tool@ == tool && p.dir_name@ == name && p.safety == tier && p.marker is None,
        known_by_neighbour(tool, name, file, tier) ==> exists|p: DevPattern| #[trigger]
            known_patterns().contains(p) && p.tool@ == tool && p.dir_name@ == name && p.safety == tier && told_by_neighbour(p, file),
        known_by_content(tool, name, file, tier) ==> exists|p: DevPattern| #[trigger]
            known_patterns().contains(p) && p.tool@ == tool && p.dir_name@ == name && p.safety == tier && told_by_content(p, file),
        0 <= i < known_patterns().len() ==> is_known(known_patterns()[i]),
{
    if known_by_name(tool, name, tier) {
        let k = lemma_known_by_name(tool, name, tier);
        assert(known_patterns().contains(known_patterns()[k]));
    }
    if known_by_neighbour(tool, name, file, tier) {
        let k = lemma_known_by_neighbour(tool, name, file, tier);
        assert(known_patterns().contains(known_patterns()[k]));
    }
    if known_by_content(tool, name, file, tier) {
        let k = lemma_known_by_content(tool, name, file, tier);
        assert(known_patterns().contains(known_patterns()[k]));
    }
    if 0 <= i < known_patterns().len() {
        lemma_is_known(i);
    }
}

} // verus!
