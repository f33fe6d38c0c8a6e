use std::cell::{Cell, RefCell};
use std::collections::BTreeMap;

use spotless::disk::{
    DirItem, Disk, FileKind, FileNode, ListedChild, Present, Probe, Stat, WalkEntry,
};
use spotless::model::{Category, SafetyTier, ScanTarget, Scope, TargetScan};
use spotless::paths::FsPath;
use spotless::scanner::{
    dir_size, dir_size_with, scan_target, scan_target_excluding, scan_target_excluding_with, scan_targets_with,
};
use spotless::RuleSet;

/// A filesystem in memory: files by their path, with what they hold.
#[derive(Default)]
struct Mem {
    files: BTreeMap<String, Vec<u8>>,
}

impl Mem {
    fn write(&mut self, path: &str, bytes: usize) {
        self.files.insert(path.to_string(), vec![b'x'; bytes]);
    }

    fn is_dir(&self, path: &str) -> bool {
        let inside = format!("{}/", path.trim_end_matches('/'));
        self.files.keys().any(|k| k.starts_with(&inside))
    }

    fn names(&self, dir: &str) -> Vec<String> {
        let inside = format!("{}/", dir.trim_end_matches('/'));
        let mut names: Vec<String> = self
            .files
            .keys()
            .filter_map(|k| k.strip_prefix(&inside))
            .map(|rest| rest.split('/').next().unwrap().to_string())
            .collect();
        names.dedup();
        names
    }

    fn node(&self, path: &str) -> WalkEntry {
        let name = path.rsplit('/').next().unwrap().to_string();
        match self.files.get(path) {
            Some(bytes) => WalkEntry::Node(FileNode {
                name,
                kind: FileKind::File,
                len: Some(bytes.len() as u64),
                children: Vec::new(),
            }),
            None if self.is_dir(path) => WalkEntry::Node(FileNode {
                name,
                kind: FileKind::Dir,
                len: Some(64),
                children: self
                    .names(path)
                    .iter()
                    .map(|n| self.node(&format!("{path}/{n}")))
                    .collect(),
            }),
            None => WalkEntry::Failed(format!("{path}: not found")),
        }
    }
}

impl Disk for Mem {
    fn stat(&self, path: &FsPath) -> Option<Stat> {
        let path = path.as_str();
        if let Some(bytes) = self.files.get(path) {
            Some(Stat { is_file: true, is_dir: false, len: bytes.len() as u64, modified_secs: Some(7) })
        } else if self.is_dir(path) {
            Some(Stat { is_file: false, is_dir: true, len: 64, modified_secs: Some(7) })
        } else {
            None
        }
    }

    fn probe(&self, path: &FsPath) -> Probe {
        let stat = self.stat(path);
        Probe {
            is_file: stat.is_some_and(|s| s.is_file),
            is_dir: stat.is_some_and(|s| s.is_dir),
            len: stat.map(|s| s.len),
            walk: self.node(path.as_str()),
        }
    }

    fn list(&self, path: &FsPath) -> Option<Vec<DirItem>> {
        if !self.is_dir(path.as_str()) {
            return None;
        }
        Some(
            self.names(path.as_str())
                .into_iter()
                .map(|name| {
                    let is_dir = self.is_dir(&format!("{}/{}", path.as_str(), name));
                    DirItem { name, is_dir }
                })
                .collect(),
        )
    }

    fn read(&self, path: &FsPath) -> Option<Vec<u8>> {
        self.files.get(path.as_str()).cloned()
    }
}

impl Mem {
    fn present(&self, path: &FsPath) -> Option<Present> {
        self.stat(path)?;
        let children = match self.list(path) {
            Some(entries) => Ok(entries
                .into_iter()
                .map(|e| {
                    let probe = self.probe(&path.join(&e.name));
                    ListedChild::Child(e.name, probe)
                })
                .collect()),
            None => Err(format!("{}: not a directory", path.as_str())),
        };
        Some(Present { probe: self.probe(path), children })
    }
}

fn tree(files: &[(&str, usize)]) -> Mem {
    let mut disk = Mem::default();
    for (name, bytes) in files {
        disk.write(&format!("/tmp/d/{name}"), *bytes);
    }
    disk
}

fn target(id: &str, path: &str, scope: Scope) -> ScanTarget {
    ScanTarget {
        id: id.to_string(),
        name: id.to_string(),
        path: path.to_string(),
        scope,
        safety: SafetyTier::Safe,
        category: Category::UserCache,
        description: String::new(),
        requires_app_quit: false,
        permanent: false,
        requires: None,
    }
}

fn at(name: &str) -> String {
    format!("/tmp/d/{name}")
}

fn scan(disk: &Mem, targets: &Vec<ScanTarget>) -> spotless::ScanReport {
    scan_targets_with(
        targets,
        None,
        &|_: &ScanTarget, path: &FsPath, _: &Vec<FsPath>| disk.present(path),
        &|_: &TargetScan| {},
        &|| false,
    )
}

#[test]
fn scans_directory_contents_as_items() {
    let disk = tree(&[("appA/data.bin", 100), ("appB/blob.bin", 250), ("loose.txt", 30)]);
    let t = target("caches", "/tmp/d", Scope::Contents);
    let scan = scan_target(&t, None, &disk.present(&FsPath::new("/tmp/d")));

    // Three direct children: appA, appB, loose.txt
    assert_eq!(scan.items.len(), 3);
    assert_eq!(scan.total_bytes, 380);
}

#[test]
fn scans_whole_path_as_single_item() {
    let disk = tree(&[("sub/a.bin", 100), ("sub/b.bin", 100)]);
    let t = target("dd", &at("sub"), Scope::Path);
    let scan = scan_target(&t, None, &disk.present(&FsPath::new(&at("sub"))));

    assert_eq!(scan.items.len(), 1);
    assert_eq!(scan.total_bytes, 200);
    assert!(scan.items[0].is_dir);
}

#[test]
fn missing_target_is_empty_not_error() {
    let t = target("nope", "/definitely/not/here/maccleaner", Scope::Contents);
    let scan = scan_target(&t, None, &None);
    assert_eq!(scan.total_bytes, 0);
    assert!(scan.items.is_empty());
    assert!(scan.warnings.is_empty());
}

#[test]
fn streams_each_completed_target() {
    let disk = tree(&[("a/x.bin", 10), ("b/y.bin", 20)]);
    let targets = vec![target("a", &at("a"), Scope::Path), target("b", &at("b"), Scope::Path)];

    let streamed = RefCell::new(Vec::new());
    let report = scan_targets_with(
        &targets,
        None,
        &|_: &ScanTarget, path: &FsPath, _: &Vec<FsPath>| disk.present(path),
        &|t: &TargetScan| streamed.borrow_mut().push(t.target.id.clone()),
        &|| false,
    );

    assert_eq!(*streamed.borrow(), vec!["a", "b"]);
    assert_eq!(report.total_bytes, 30);
}

#[test]
fn a_nested_target_is_counted_once_by_the_more_specific_one() {
    let disk = tree(&[("caches/Homebrew/bottle.tar", 500), ("caches/otherapp/blob.bin", 100)]);
    let targets = vec![
        target("caches", &at("caches"), Scope::Contents),
        target("homebrew", &at("caches/Homebrew"), Scope::Contents),
    ];
    let report = scan(&disk, &targets);

    // The broad target drops the row that the specific one owns...
    let broad = &report.targets[0];
    assert_eq!(broad.items.len(), 1);
    assert!(broad.items[0].path.as_str().ends_with("otherapp"));
    assert_eq!(broad.total_bytes, 100);
    // ...which still reports its own contents in full.
    assert_eq!(report.targets[1].total_bytes, 500);
    // 600, not 1100.
    assert_eq!(report.total_bytes, 600);
}

#[test]
fn a_partially_overlapping_item_excludes_only_the_owned_subtree() {
    let disk = tree(&[("home/.gradle/caches/dep.jar", 700), ("home/.gradle/daemon/log.txt", 40)]);
    let targets = vec![
        target("home", &at("home"), Scope::Contents),
        target("gradle-caches", &at("home/.gradle/caches"), Scope::Contents),
    ];
    let report = scan(&disk, &targets);

    assert_eq!(report.targets[0].items.len(), 1);
    assert_eq!(report.targets[0].total_bytes, 40);
    assert_eq!(report.targets[1].total_bytes, 700);
    assert_eq!(report.total_bytes, 740);
}

#[test]
fn an_ancestor_target_never_takes_bytes_from_the_one_inside_it() {
    let disk = tree(&[("caches/Homebrew/downloads/x.tar", 300)]);
    let targets = vec![
        target("homebrew", &at("caches/Homebrew"), Scope::Contents),
        target("caches", &at("caches"), Scope::Contents),
    ];
    let report = scan(&disk, &targets);

    assert_eq!(report.targets[0].total_bytes, 300);
    assert_eq!(report.targets[1].total_bytes, 0);
    assert_eq!(report.total_bytes, 300);
}

#[test]
fn a_sibling_target_that_merely_shares_a_name_prefix_is_not_nested() {
    let disk = tree(&[("cache/a.bin", 10), ("cache-old/b.bin", 20)]);
    let targets = vec![
        target("cache", &at("cache"), Scope::Contents),
        target("cache-old", &at("cache-old"), Scope::Contents),
    ];
    let report = scan(&disk, &targets);

    assert_eq!(report.total_bytes, 30);
}

#[test]
fn cancellation_stops_early_with_partial_report() {
    let disk = tree(&[("a/x.bin", 10), ("b/y.bin", 20)]);
    let targets = vec![target("a", &at("a"), Scope::Path), target("b", &at("b"), Scope::Path)];

    // Cancel after the first target completes.
    let count = Cell::new(0);
    let report = scan_targets_with(
        &targets,
        None,
        &|_: &ScanTarget, path: &FsPath, _: &Vec<FsPath>| disk.present(path),
        &|_: &TargetScan| count.set(count.get() + 1),
        &|| count.get() >= 1,
    );

    assert_eq!(report.targets.len(), 1);
    assert_eq!(report.targets[0].target.id, "a");
    assert_eq!(report.total_bytes, 10);
}

#[test]
fn cancellation_lands_inside_a_targets_own_walk() {
    let mut disk = Mem::default();
    for i in 0..400 {
        disk.write(&at(&format!("sub/{i}.bin")), 10);
    }

    let t = target("one", "/tmp/d", Scope::Path);
    // Cancel once the walk has looked at a handful of entries.
    let seen = Cell::new(0);
    let report = scan_targets_with(
        &vec![t],
        None,
        &|_: &ScanTarget, path: &FsPath, _: &Vec<FsPath>| disk.present(path),
        &|_: &TargetScan| {},
        &|| {
            seen.set(seen.get() + 1);
            seen.get() > 8
        },
    );

    // The half-measured target is dropped, not reported at a partial size.
    assert!(report.targets.is_empty());
    assert_eq!(report.total_bytes, 0);
    // And it stopped early rather than walking all 400 files.
    assert!(seen.get() < 400, "walk did not stop: {} checks", seen.get());
}

#[test]
fn links_count_for_nothing_and_errors_are_told() {
    let link = |name: &str| {
        WalkEntry::Node(FileNode {
            name: name.to_string(),
            kind: FileKind::Symlink,
            len: Some(999),
            children: Vec::new(),
        })
    };
    let probe = Probe {
        is_file: false,
        is_dir: true,
        len: Some(64),
        walk: WalkEntry::Node(FileNode {
            name: "d".to_string(),
            kind: FileKind::Dir,
            len: Some(64),
            children: vec![
                link("l"),
                WalkEntry::Failed("permission denied".to_string()),
                WalkEntry::Node(FileNode {
                    name: "f".to_string(),
                    kind: FileKind::File,
                    len: Some(5),
                    children: Vec::new(),
                }),
            ],
        }),
    };
    let mut warnings = Vec::new();
    assert_eq!(dir_size(&FsPath::new("/d"), &probe, &mut warnings), 5);
    assert_eq!(warnings, vec!["walk error: permission denied"]);
}

#[test]
fn a_set_of_rules_is_scanned_target_by_target() {
    let disk = tree(&[("a/x.bin", 10), ("b/y.bin", 20)]);
    let rules = RuleSet {
        targets: vec![
            target("a", "~/a", Scope::Path),
            target("b", "~/b", Scope::Contents),
            target("c", "~/c", Scope::Contents),
        ],
    };
    let home = FsPath::new("/tmp/d");
    let report = spotless::scan(
        &rules,
        Some(&home),
        &|_: &ScanTarget, path: &FsPath, _: &Vec<FsPath>| disk.present(path),
    );
    let sizes: Vec<u64> = report.targets.iter().map(|t| t.total_bytes).collect();
    assert_eq!(sizes, vec![10, 20, 0]);
    assert_eq!(report.total_bytes, 30);
}

#[test]
fn a_scan_cancelled_from_the_start_reports_nothing() {
    let disk = tree(&[("a/x.bin", 10), ("b.bin", 20)]);
    let targets = vec![target("a", &at("a"), Scope::Contents), target("b", &at("b.bin"), Scope::Path)];
    let report = scan_targets_with(
        &targets,
        None,
        &|_: &ScanTarget, path: &FsPath, _: &Vec<FsPath>| disk.present(path),
        &|_: &TargetScan| panic!("streamed after cancelling"),
        &|| true,
    );
    assert!(report.targets.is_empty());
    assert_eq!(report.total_bytes, 0);

    // A walk adds up nothing; what is one file has its length without one.
    let mut warnings = Vec::new();
    let dir = FsPath::new(&at("a"));
    assert_eq!(dir_size_with(&dir, &disk.probe(&dir), &mut warnings, &|| true), 0);
    let file = FsPath::new(&at("b.bin"));
    assert_eq!(dir_size_with(&file, &disk.probe(&file), &mut warnings, &|| true), 20);
    assert!(warnings.is_empty());

    let none = Vec::new();
    let contents = scan_target_excluding_with(&targets[0], None, &disk.present(&dir), &none, &|| true);
    assert!(contents.items.is_empty());
    let whole = target("a", &at("a"), Scope::Path);
    let one = scan_target_excluding_with(&whole, None, &disk.present(&dir), &none, &|| true);
    assert_eq!(one.items.len(), 1);
    assert_eq!(one.items[0].size_bytes, 0);
}

#[test]
fn leaving_out_what_others_own_changes_nothing_else() {
    let disk = tree(&[("r/a/x", 10), ("r/a/own/y", 5), ("r/b/z", 7), ("r/c/w", 9)]);
    let t = target("r", &at("r"), Scope::Contents);
    let reading = disk.present(&FsPath::new(&at("r")));
    let sizes = |scan: &TargetScan| -> Vec<(String, u64)> {
        scan.items.iter().map(|i| (i.path.as_str().to_string(), i.size_bytes)).collect()
    };
    let full = scan_target(&t, None, &reading);
    assert_eq!(sizes(&full), vec![(at("r/a"), 15), (at("r/b"), 7), (at("r/c"), 9)]);
    let owned = vec![FsPath::new(&at("r/a/own")), FsPath::new(&at("r/b"))];
    let left = scan_target_excluding(&t, None, &reading, &owned);
    assert_eq!(sizes(&left), vec![(at("r/a"), 10), (at("r/c"), 9)]);
    assert_eq!(left.total_bytes, 19);
}
