use std::cell::{Cell, RefCell};
use std::collections::BTreeMap;

use spotless::cli::DevArgs;
use spotless::cmd::dev;
use spotless::devscan::{
    is_artifact_dir_name, is_artifact_path, patterns, scan_dev_artifacts, scan_dev_artifacts_with,
    DevArtifact, DevProgress, DevScanOptions,
};
use spotless::cleaner::RemovalBackend;
use spotless::disk::{DirItem, Disk, FileKind, FileNode, Probe, Stat, WalkEntry};
use spotless::model::SafetyTier;
use spotless::paths::FsPath;

/// A filesystem in memory: files by their path, with what they hold.
#[derive(Default)]
struct Mem {
    files: BTreeMap<String, Vec<u8>>,
}

impl Mem {
    fn write(&mut self, path: &str, bytes: usize) {
        self.files.insert(path.to_string(), vec![b'x'; bytes]);
    }

    fn is_dir(&self, path: &str) -> bool {
        let inside = format!("{}/", path.trim_end_matches('/'));
        self.files.keys().any(|k| k.starts_with(&inside))
    }

    fn names(&self, dir: &str) -> Vec<String> {
        let inside = format!("{}/", dir.trim_end_matches('/'));
        let mut names: Vec<String> = self
            .files
            .keys()
            .filter_map(|k| k.strip_prefix(&inside))
            .map(|rest| rest.split('/').next().unwrap().to_string())
            .collect();
        names.dedup();
        names
    }

    fn node(&self, path: &str) -> WalkEntry {
        let name = path.rsplit('/').next().unwrap().to_string();
        match self.files.get(path) {
            Some(bytes) => WalkEntry::Node(FileNode {
                name,
                kind: FileKind::File,
                len: Some(bytes.len() as u64),
                children: Vec::new(),
            }),
            None if self.is_dir(path) => WalkEntry::Node(FileNode {
                name,
                kind: FileKind::Dir,
                len: Some(64),
                children: self
                    .names(path)
                    .iter()
                    .map(|n| self.node(&format!("{path}/{n}")))
                    .collect(),
            }),
            None => WalkEntry::Failed(format!("{path}: not found")),
        }
    }
}

impl Disk for Mem {
    fn stat(&self, path: &FsPath) -> Option<Stat> {
        let path = path.as_str();
        if let Some(bytes) = self.files.get(path) {
            Some(Stat { is_file: true, is_dir: false, len: bytes.len() as u64, modified_secs: Some(7) })
        } else if self.is_dir(path) {
            Some(Stat { is_file: false, is_dir: true, len: 64, modified_secs: Some(7) })
        } else {
            None
        }
    }

    fn probe(&self, path: &FsPath) -> Probe {
        let stat = self.stat(path);
        Probe {
            is_file: stat.is_some_and(|s| s.is_file),
            is_dir: stat.is_some_and(|s| s.is_dir),
            len: stat.map(|s| s.len),
            walk: self.node(path.as_str()),
        }
    }

    fn list(&self, path: &FsPath) -> Option<Vec<DirItem>> {
        if !self.is_dir(path.as_str()) {
            return None;
        }
        Some(
            self.names(path.as_str())
                .into_iter()
                .map(|name| {
                    let is_dir = self.is_dir(&format!("{}/{}", path.as_str(), name));
                    DirItem { name, is_dir }
                })
                .collect(),
        )
    }

    fn read(&self, path: &FsPath) -> Option<Vec<u8>> {
        self.files.get(path.as_str()).cloned()
    }
}

fn path(text: &str) -> FsPath {
    FsPath::new(text)
}

fn tree(files: &[(&str, usize)]) -> Mem {
    let mut disk = Mem::default();
    for (name, bytes) in files {
        disk.write(&format!("/tmp/d/{name}"), *bytes);
    }
    disk
}

#[test]
fn finds_node_modules_and_does_not_descend() {
    let mut disk = Mem::default();
    let proj = path("/tmp/d").join("proj");
    disk.write(proj.join("node_modules/dep/index.js").as_str(), 100);
    // A nested one must not be reported on its own.
    disk.write(proj.join("node_modules/dep/node_modules/sub/x.js").as_str(), 50);

    let found = scan_dev_artifacts(&path("/tmp/d"), DevScanOptions::default(), &disk);
    let nm: Vec<_> = found.iter().filter(|a| a.name == "node_modules").collect();
    assert_eq!(nm.len(), 1);
    assert_eq!(nm[0].size_bytes, 150);
    assert_eq!(nm[0].tool, "Node.js");
}

#[test]
fn target_requires_cargo_toml_sibling() {
    let disk = tree(&[
        ("rustproj/Cargo.toml", 10),
        ("rustproj/target/debug/app", 200),
        ("random/target/data.bin", 999),
    ]);
    let found = scan_dev_artifacts(&path("/tmp/d"), DevScanOptions::default(), &disk);
    let targets: Vec<_> = found.iter().filter(|a| a.name == "target").collect();
    assert_eq!(targets.len(), 1);
    assert!(targets[0].path.as_str().ends_with("rustproj/target"));
    assert_eq!(targets[0].size_bytes, 200);
}

#[test]
fn venv_requires_inside_marker() {
    let disk = tree(&[
        ("a/.venv/pyvenv.cfg", 5),
        ("a/.venv/lib/pkg.py", 300),
        ("b/venv/notes.txt", 40),
    ]);
    let found = scan_dev_artifacts(&path("/tmp/d"), DevScanOptions::default(), &disk);
    let venvs: Vec<_> = found.iter().filter(|a| a.name == ".venv" || a.name == "venv").collect();
    assert_eq!(venvs.len(), 1);
    assert_eq!(venvs[0].name, ".venv");
}

#[test]
fn streams_each_artifact_as_it_is_found() {
    let disk = tree(&[("proj-a/node_modules/x.js", 100), ("proj-b/node_modules/y.js", 50)]);

    let streamed = RefCell::new(Vec::new());
    let ticks = Cell::new(0);
    let found = scan_dev_artifacts_with(
        &path("/tmp/d"),
        DevScanOptions::default(),
        &disk,
        &|a: &DevArtifact| streamed.borrow_mut().push(a.path.clone()),
        &|_: DevProgress| ticks.set(ticks.get() + 1),
        &|| false,
    );

    assert_eq!(streamed.borrow().len(), 2, "both artifacts must be streamed");
    assert_eq!(found.len(), 2);
    // What comes back is largest first; the stream is not.
    assert_eq!(found[0].size_bytes, 100);
    assert!(ticks.get() > 0, "progress must be reported");
}

#[test]
fn the_last_tick_has_the_numbers_of_the_list() {
    let disk = tree(&[("proj-a/node_modules/x.js", 100), ("proj-b/node_modules/y.js", 50)]);
    let last = RefCell::new(None);
    let found = scan_dev_artifacts_with(
        &path("/tmp/d"),
        DevScanOptions::default(),
        &disk,
        &|_: &DevArtifact| {},
        &|p: DevProgress| *last.borrow_mut() = Some((p.found, p.bytes_found, p.current)),
        &|| false,
    );
    assert_eq!(found.len(), 2);
    assert_eq!(last.into_inner(), Some((2, 150, "/tmp/d".to_string())));
}

#[test]
fn directories_are_counted_and_reported_in_turn() {
    let mut disk = Mem::default();
    for i in 0..150 {
        disk.write(&format!("/tmp/d/dir-{i}/x"), 1);
    }
    let counts = RefCell::new(Vec::new());
    scan_dev_artifacts_with(
        &path("/tmp/d"),
        DevScanOptions::default(),
        &disk,
        &|_: &DevArtifact| {},
        &|p: DevProgress| counts.borrow_mut().push(p.dirs_scanned),
        &|| false,
    );
    // The root and what is in it, twice in between and once at the end.
    assert_eq!(counts.into_inner(), vec![64, 128, 151]);
}

#[test]
fn a_scan_cancelled_from_the_start_finds_nothing() {
    let disk = tree(&[("proj-a/node_modules/x.js", 100)]);
    let last = RefCell::new(None);
    let found = scan_dev_artifacts_with(
        &path("/tmp/d"),
        DevScanOptions::default(),
        &disk,
        &|_: &DevArtifact| panic!("streamed after cancelling"),
        &|p: DevProgress| *last.borrow_mut() = Some((p.found, p.bytes_found)),
        &|| true,
    );
    assert!(found.is_empty());
    assert_eq!(last.into_inner(), Some((0, 0)));
}

#[test]
fn the_patterns_bear_the_names_that_a_tool_is_asked_for_by() {
    let disk = tree(&[("p/Cargo.toml", 1), ("p/target/x", 10), ("q/node_modules/x", 20)]);
    let found = scan_dev_artifacts(&path("/tmp/d"), DevScanOptions::default(), &disk);
    let of_tool = |tool: &str| -> Vec<String> {
        let args = DevArgs { tool: Some(tool.to_string()), ..dev_args() };
        dev::filter(&found, &args, 0).iter().map(|a| a.path.as_str().to_string()).collect()
    };
    assert_eq!(of_tool("cargo"), ["/tmp/d/p/target"]);
    assert_eq!(of_tool("npm"), ["/tmp/d/q/node_modules"]);
}

#[test]
fn cancelling_stops_the_walk() {
    let mut disk = Mem::default();
    for i in 0..20 {
        disk.write(&format!("/tmp/d/{}", format!("proj-{i}/node_modules/x.js")), 10);
    }

    let seen = Cell::new(0);
    let found = scan_dev_artifacts_with(
        &path("/tmp/d"),
        DevScanOptions::default(),
        &disk,
        &|_: &DevArtifact| seen.set(seen.get() + 1),
        &|_: DevProgress| {},
        &|| seen.get() >= 1,
    );

    assert_eq!(seen.get(), 1);
    // What it did find is kept: whole artifacts, correctly sized.
    assert_eq!(found.len(), 1);
}

#[test]
fn the_icloud_container_is_not_descended_into() {
    let disk = tree(&[
        ("Library/Mobile Documents/proj/node_modules/x.js", 100),
        // A folder of the same name somewhere else is not the container.
        ("Mobile Documents/proj/node_modules/y.js", 50),
    ]);
    let found = scan_dev_artifacts(&path("/tmp/d"), DevScanOptions::default(), &disk);
    let paths: Vec<FsPath> = found.iter().map(|a| a.path.clone()).collect();
    assert_eq!(paths.len(), 1, "found {paths:?}");
    assert!(paths[0].as_str().ends_with("Mobile Documents/proj/node_modules"));
    assert!(!paths[0].starts_with(&path("/tmp/d").join("Library")));
}

#[test]
fn icloud_chosen_as_the_root_is_still_scanned() {
    let mut disk = Mem::default();
    let icloud = path("/tmp/d").join("Library/Mobile Documents");
    disk.write(icloud.join("proj/node_modules/x.js").as_str(), 100);

    let found = scan_dev_artifacts(&icloud, DevScanOptions::default(), &disk);
    assert_eq!(found.len(), 1);
}

#[test]
fn respects_max_depth() {
    let disk = tree(&[("a/b/c/d/node_modules/x.js", 10)]);

    let shallow = scan_dev_artifacts(&path("/tmp/d"), DevScanOptions { max_depth: 2 }, &disk);
    assert!(shallow.is_empty());

    let deep = scan_dev_artifacts(&path("/tmp/d"), DevScanOptions { max_depth: 8 }, &disk);
    assert_eq!(deep.len(), 1);
}

#[test]
fn recognized_names_gate() {
    assert!(is_artifact_dir_name("node_modules"));
    assert!(is_artifact_dir_name("target"));
    assert!(!is_artifact_dir_name("src"));
    assert!(!is_artifact_dir_name("Documents"));
}

#[test]
fn artifact_path_gate_rechecks_the_marker() {
    let disk = tree(&[
        ("gradleproj/build.gradle", 10),
        ("gradleproj/build/classes/A.class", 20),
        ("notes/build/plan.md", 30),
    ]);
    assert!(is_artifact_dir_name("build"));
    assert!(is_artifact_path(&path("/tmp/d").join("gradleproj/build"), &disk));
    assert!(!is_artifact_path(&path("/tmp/d").join("notes/build"), &disk));
    // Patterns without a marker go by name.
    assert!(is_artifact_path(&path("/tmp/d").join("anywhere/node_modules"), &disk));
}

#[test]
fn same_name_patterns_match_by_their_own_marker() {
    let disk = tree(&[
        ("flutterapp/pubspec.yaml", 10),
        ("flutterapp/build/app.dill", 40),
        ("cmakeproj/CMakeLists.txt", 10),
        ("cmakeproj/build/CMakeCache.txt", 60),
        ("javaproj/pom.xml", 10),
        ("javaproj/target/app.jar", 80),
    ]);
    let found = scan_dev_artifacts(&path("/tmp/d"), DevScanOptions::default(), &disk);
    let tool_of = |name: &str| {
        found
            .iter()
            .find(|a| a.path.as_str().ends_with(name))
            .map(|a| a.tool.as_str())
    };
    assert_eq!(tool_of("flutterapp/build"), Some("Flutter"));
    assert_eq!(tool_of("cmakeproj/build"), Some("CMake"));
    assert_eq!(tool_of("javaproj/target"), Some("Maven"));
}

#[test]
fn kotlin_dsl_gradle_projects_are_recognized() {
    let disk = tree(&[("kproj/settings.gradle.kts", 10), ("kproj/.gradle/8.7/x.bin", 50)]);
    let found = scan_dev_artifacts(&path("/tmp/d"), DevScanOptions::default(), &disk);
    assert_eq!(found.len(), 1);
    assert_eq!(found[0].name, ".gradle");
    assert_eq!(found[0].tool, "Gradle");
}

#[test]
fn every_pattern_names_a_directory() {
    let all = patterns();
    assert!(all.len() > 40);
    assert!(all.iter().all(|p| is_artifact_dir_name(p.dir_name)));
}

fn artifact(tool: &str, at: &str, size: u64, modified: Option<u64>) -> DevArtifact {
    DevArtifact {
        tool: tool.to_string(),
        name: "target".to_string(),
        path: path(at),
        size_bytes: size,
        modified_secs: modified,
        safety: SafetyTier::Safe,
        description: String::new(),
    }
}

fn dev_args() -> DevArgs {
    DevArgs {
        path: None,
        depth: 7,
        min_size: None,
        older_than: None,
        tool: None,
        limit: 40,
        clean: false,
        yes: false,
    }
}

#[test]
fn filters_by_size_age_and_tool() {
    let now = 100 * 86_400;
    let all = vec![
        artifact("Rust", "/a/target", 500, Some(now - 10 * 86_400)),
        artifact("Node.js", "/b/node_modules", 50, Some(now)),
        artifact("Rust", "/c/target", 900, None),
    ];
    let names = |args: &DevArgs| -> Vec<String> {
        dev::filter(&all, args, now)
            .iter()
            .map(|a| a.path.as_str().to_string())
            .collect()
    };
    assert_eq!(names(&dev_args()).len(), 3);
    assert_eq!(names(&DevArgs { min_size: Some(500), ..dev_args() }), ["/a/target", "/c/target"]);
    // Toolchains are found whatever the case.
    assert_eq!(
        names(&DevArgs { tool: Some("CARGO".to_string()), ..dev_args() }),
        ["/a/target", "/c/target"]
    );
    // They go by their own names, and by those of their package managers.
    let of_tool = |tool: &str| names(&DevArgs { tool: Some(tool.to_string()), ..dev_args() });
    assert_eq!(of_tool("rust"), ["/a/target", "/c/target"]);
    assert_eq!(of_tool("cargo"), ["/a/target", "/c/target"]);
    assert_eq!(of_tool("npm"), ["/b/node_modules"]);
    assert_eq!(of_tool("node.js"), ["/b/node_modules"]);
    assert!(of_tool("xcode").is_empty());
    // "cargo" has "go" in it, and is not asked for by it.
    assert!(of_tool("go").is_empty());
    assert!(of_tool("carg").is_empty());
    assert!(dev::is_toolchain("Go", "go") && !dev::is_toolchain("Rust", "go"));
    // What has no known age is kept.
    assert_eq!(names(&DevArgs { older_than: Some(5), ..dev_args() }), ["/a/target", "/c/target"]);
    assert_eq!(dev::cutoff(10, Some(1)), Some(0));
    assert_eq!(dev::cutoff(now, None), None);
}

#[test]
fn the_table_is_limited_and_shows_paths_below_the_root() {
    let all = vec![
        artifact("Cargo", "/code/a/target", 2_000_000, None),
        artifact("Cargo", "/code/b/target", 1_000_000, None),
        artifact("Cargo", "/code/c/target", 1000, None),
    ];
    let lines = dev::table_lines(false, &all, 2, &path("/code"));
    assert_eq!(
        lines,
        vec![
            "",
            "       SIZE  TOOL                  PATH",
            "     2.0 MB  Cargo       ████████  a/target",
            "     1.0 MB  Cargo       ████····  b/target",
            "  … and 1 more (--limit to show them)",
            "",
            "  3.0 MB across 3 artifacts",
            "",
        ]
    );
}

struct Removals(RefCell<Vec<String>>);

impl RemovalBackend for Removals {
    fn remove(&self, path: &FsPath) -> Result<(), String> {
        self.0.borrow_mut().push(path.as_str().to_string());
        Ok(())
    }
}

#[test]
fn only_what_still_is_an_artifact_is_removed() {
    let disk = tree(&[("p/Cargo.toml", 1), ("p/target/x", 10), ("q/target/x", 10)]);
    let all = vec![
        artifact("Cargo", "/tmp/d/p/target", 10, None),
        artifact("Cargo", "/tmp/d/q/target", 10, None),
        artifact("Node.js", "/System/node_modules", 10, None),
    ];
    let backend = Removals(RefCell::new(Vec::new()));
    let report = dev::clean(&all, None, &disk, &|_: &FsPath| None, &backend);
    // The second lost its marker; the third is denied whatever it is called.
    assert_eq!(*backend.0.borrow(), ["/tmp/d/p/target"]);
    assert_eq!(report.removed.len(), 1);
    let refused: Vec<&str> = report.refused.iter().map(|r| r.path.as_str()).collect();
    assert_eq!(refused.len(), 2);
    assert!(refused.contains(&"/tmp/d/q/target"));
    assert!(refused.contains(&"/System/node_modules"));
    assert!(report.failed.is_empty());
    assert_eq!(report.bytes_reclaimed, 10);
}

#[test]
fn progress_of_a_search_is_one_line() {
    let progress = DevProgress {
        dirs_scanned: 12,
        found: 3,
        bytes_found: 1500,
        current: "/x".to_string(),
    };
    assert_eq!(dev::progress_line(&progress), "\r\x1b[2K12 folders · 3 found · 1.5 KB — /x");
}

#[test]
fn what_a_search_can_do_is_told() {
    let all = vec![artifact("Cargo", "/a/target", 1000, None)];
    assert_eq!(dev::question(false, &all), "Move 1.0 KB of build artifacts to the Trash?");
    assert_eq!(dev::nothing_line(false, &path("/a")), "No build artifacts under /a.");
    assert_eq!(
        dev::hint_lines(false),
        vec!["  Add --clean to remove these (they rebuild on the next build).", ""]
    );
}
