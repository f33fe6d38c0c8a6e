use std::cell::RefCell;
use std::collections::BTreeMap;

use spotless::apps::{AppInfo, Leftover, UninstallPlan};
use spotless::cleaner::RemovalBackend;
use spotless::cmd::flow::Step;
use spotless::cmd::{apps, flow, orphans, scan, trash as trash_cmd};
use spotless::disk::{DirItem, Disk, FileKind, FileNode, Probe, Stat, WalkEntry};
use spotless::model::{CleanReport, Category, FailedItem, SafetyTier, ScanItem, ScanReport, ScanTarget, Scope, TargetScan};
use spotless::orphans::{OrphanApp, OrphanItem};
use spotless::paths::FsPath;
use spotless::trash;

/// A filesystem in memory: files by their path, with what they hold.
#[derive(Default)]
struct Mem {
    files: BTreeMap<String, Vec<u8>>,
}

impl Mem {
    fn write(&mut self, path: &str, bytes: usize) {
        self.files.insert(path.to_string(), vec![b'x'; bytes]);
    }

    fn is_dir(&self, path: &str) -> bool {
        let inside = format!("{}/", path.trim_end_matches('/'));
        self.files.keys().any(|k| k.starts_with(&inside))
    }

    fn names(&self, dir: &str) -> Vec<String> {
        let inside = format!("{}/", dir.trim_end_matches('/'));
        let mut names: Vec<String> = self
            .files
            .keys()
            .filter_map(|k| k.strip_prefix(&inside))
            .map(|rest| rest.split('/').next().unwrap().to_string())
            .collect();
        names.dedup();
        names
    }

    fn node(&self, path: &str) -> WalkEntry {
        let name = path.rsplit('/').next().unwrap().to_string();
        match self.files.get(path) {
            Some(bytes) => WalkEntry::Node(FileNode {
                name,
                kind: FileKind::File,
                len: Some(bytes.len() as u64),
                children: Vec::new(),
            }),
            None if self.is_dir(path) => WalkEntry::Node(FileNode {
                name,
                kind: FileKind::Dir,
                len: Some(64),
                children: self
                    .names(path)
                    .iter()
                    .map(|n| self.node(&format!("{path}/{n}")))
                    .collect(),
            }),
            None => WalkEntry::Failed(format!("{path}: not found")),
        }
    }
}

impl Disk for Mem {
    fn stat(&self, path: &FsPath) -> Option<Stat> {
        let path = path.as_str();
        if let Some(bytes) = self.files.get(path) {
            Some(Stat { is_file: true, is_dir: false, len: bytes.len() as u64, modified_secs: Some(7) })
        } else if self.is_dir(path) {
            Some(Stat { is_file: false, is_dir: true, len: 64, modified_secs: Some(7) })
        } else {
            None
        }
    }

    fn probe(&self, path: &FsPath) -> Probe {
        let stat = self.stat(path);
        Probe {
            is_file: stat.is_some_and(|s| s.is_file),
            is_dir: stat.is_some_and(|s| s.is_dir),
            len: stat.map(|s| s.len),
            walk: self.node(path.as_str()),
        }
    }

    fn list(&self, path: &FsPath) -> Option<Vec<DirItem>> {
        if !self.is_dir(path.as_str()) {
            return None;
        }
        Some(
            self.names(path.as_str())
                .into_iter()
                .map(|name| {
                    let is_dir = self.is_dir(&format!("{}/{}", path.as_str(), name));
                    DirItem { name, is_dir }
                })
                .collect(),
        )
    }

    fn read(&self, path: &FsPath) -> Option<Vec<u8>> {
        self.files.get(path.as_str()).cloned()
    }
}

fn path(text: &str) -> FsPath {
    FsPath::new(text)
}

fn nowhere(_: &FsPath) -> Option<FsPath> {
    None
}

struct Removals(RefCell<Vec<String>>);

impl RemovalBackend for Removals {
    fn remove(&self, path: &FsPath) -> Result<(), String> {
        self.0.borrow_mut().push(path.as_str().to_string());
        Ok(())
    }
}

fn app(name: &str, size: Option<u64>) -> AppInfo {
    AppInfo {
        name: name.to_string(),
        path: path(&format!("/Applications/{name}.app")),
        bundle_id: Some(format!("com.acme.{}", name.to_lowercase())),
        size_bytes: size,
    }
}

#[test]
fn an_app_is_found_by_name_or_by_part_of_it() {
    let installed = vec![app("Chrome", None), app("Chromium", None), app("Zed", None)];
    let name = |q: &str| apps::choose_app(q, &installed).map(|a| a.name);
    assert_eq!(name("chrome"), Ok("Chrome".to_string()));
    assert_eq!(name("ZED"), Ok("Zed".to_string()));
    assert_eq!(name("omium"), Ok("Chromium".to_string()));
    assert_eq!(
        name("chrom"),
        Err("`chrom` matches several apps: Chrome, Chromium".to_string())
    );
    assert_eq!(name("vim"), Err("no installed application matches `vim`".to_string()));
}

#[test]
fn an_app_can_be_given_by_its_path() {
    let mut disk = Mem::default();
    disk.write("/opt/Applications/Chrome.app/x", 1);
    disk.write("/Applications/Chrome Beta.app/x", 1);
    let dirs = vec![path("/Applications")];
    let found = apps::find("/opt/Applications/Chrome.app", &dirs, &disk).unwrap();
    assert_eq!(found.path, path("/opt/Applications/Chrome.app"));
    let found = apps::find("chrome", &dirs, &disk).unwrap();
    assert_eq!(found.name, "Chrome Beta");
    assert!(apps::find("/opt/Applications/Gone.app", &dirs, &disk).is_err());
}

#[test]
fn apps_are_listed_largest_first() {
    let installed = vec![app("A", None), app("B", None), app("C", None)];
    let sizes = vec![(path("/Applications/A.app"), 1000), (path("/Applications/C.app"), 2000)];
    let sized = apps::attach_sizes(&installed, &sizes);
    let shown: Vec<Option<u64>> = sized.iter().map(|a| a.size_bytes).collect();
    assert_eq!(shown, vec![Some(1000), None, Some(2000)]);
    let ordered = apps::in_listing_order(sized, false);
    assert_eq!(
        apps::list_lines(false, &ordered, 2),
        vec![
            "",
            "     2.0 KB  C                                 com.acme.c",
            "     1.0 KB  A                                 com.acme.a",
            "  … and 1 more",
            "",
            "  3.0 KB across 3 applications",
            "  Next: `spotless uninstall <name>` to remove one with its leftovers.",
            "",
        ]
    );
    let by_name = apps::in_listing_order(ordered, true);
    assert_eq!(by_name[0].name, "C");
}

fn plan() -> UninstallPlan {
    UninstallPlan {
        app: app("Foo", Some(500)),
        leftovers: vec![
            Leftover {
                kind: "Caches".to_string(),
                path: path("/Users/me/Library/Caches/com.acme.foo"),
                size_bytes: 60,
                requires_admin: false,
            },
            Leftover {
                kind: "Launch Daemon".to_string(),
                path: path("/Library/LaunchDaemons/com.acme.foo.plist"),
                size_bytes: 7,
                requires_admin: true,
            },
        ],
        total_bytes: 567,
    }
}

#[test]
fn an_uninstall_shows_everything_and_leaves_what_is_root_owned() {
    assert_eq!(
        apps::plan_lines(false, &plan()),
        vec![
            "",
            "      500 B  Foo (the app itself)",
            "       60 B  Caches             /Users/me/Library/Caches/com.acme.foo",
            "        7 B  Launch Daemon      /Library/LaunchDaemons/com.acme.foo.plist needs sudo",
            "",
            "  567 B across 3 items",
            "",
        ]
    );
    let mut disk = Mem::default();
    disk.write("/Users/me/Library/Caches/com.acme.foo/x", 60);
    let backend = Removals(RefCell::new(Vec::new()));
    let report = apps::remove(&plan(), Some(&path("/Users/me")), &disk, &nowhere, &backend);
    assert_eq!(
        *backend.0.borrow(),
        ["/Applications/Foo.app", "/Users/me/Library/Caches/com.acme.foo"]
    );
    assert_eq!(report.bytes_reclaimed, 560);
    assert_eq!(
        apps::result_lines(false, &report, &plan()),
        vec![
            "✓ 560 B reclaimed from 2 items, moved to the Trash.",
            "  1 root-owned leftover left in place — remove them with sudo if you want the space",
        ]
    );
}

fn orphan_app(paths: &[&str]) -> OrphanApp {
    OrphanApp {
        bundle_id: "com.acme.gone".to_string(),
        display_name: "gone".to_string(),
        items: paths
            .iter()
            .map(|p| OrphanItem { kind: "Caches".to_string(), path: path(p), size_bytes: 600 })
            .collect(),
        total_bytes: 600 * paths.len() as u64,
    }
}

#[test]
fn only_leftovers_in_their_places_are_removed() {
    let home = path("/Users/me");
    let found = vec![orphan_app(&[
        "/Users/me/Library/Caches/com.acme.gone",
        "/Users/me/Documents/com.acme.gone",
    ])];
    let backend = Removals(RefCell::new(Vec::new()));
    let report = orphans::clean(&found, &home, &Mem::default(), &nowhere, &backend);
    assert_eq!(*backend.0.borrow(), ["/Users/me/Library/Caches/com.acme.gone"]);
    assert_eq!(report.bytes_reclaimed, 600);
    assert_eq!(orphans::total_bytes(&found), 1200);
}

#[test]
fn vanished_apps_are_shown_with_what_they_left() {
    let found = vec![orphan_app(&["/Users/me/Library/Caches/com.acme.gone"]), orphan_app(&[])];
    assert_eq!(
        orphans::table_lines(false, &found, 1),
        vec![
            "",
            "      600 B  gone                          com.acme.gone",
            "      600 B  Caches               /Users/me/Library/Caches/com.acme.gone",
            "  … and 1 more",
            "",
        ]
    );
}

fn scanned(name: &str, size: u64, items: usize, warnings: usize) -> TargetScan {
    TargetScan {
        target: ScanTarget {
            id: name.to_lowercase(),
            name: name.to_string(),
            path: "/x".to_string(),
            scope: Scope::Contents,
            safety: SafetyTier::Caution,
            category: Category::Other,
            description: String::new(),
            requires_app_quit: false,
            permanent: false,
            requires: None,
        },
        items: (0..items)
            .map(|i| ScanItem {
                target_id: String::new(),
                path: path(&format!("/x/{i}")),
                size_bytes: i as u64,
                is_dir: false,
            })
            .collect(),
        total_bytes: size,
        warnings: (0..warnings).map(|_| "denied".to_string()).collect(),
    }
}

#[test]
fn a_scan_is_shown_largest_first() {
    let report = ScanReport {
        targets: vec![scanned("Small", 1000, 0, 1), scanned("None", 0, 0, 1), scanned("Large", 5000, 0, 0)],
        total_bytes: 6000,
    };
    assert_eq!(
        scan::scan_lines(false, &report, false),
        vec![
            "",
            "       SIZE  SAFETY    TARGET                                ID",
            "     5.0 KB  caution   Large                                 large",
            "     1.0 KB  caution   Small                                 small",
            "",
            "  6.0 KB reclaimable across 2 targets",
            "  2 paths could not be read — grant Full Disk Access for a complete figure",
            "",
            "  Next: `spotless clean --safe-only` to preview a clean.",
            "",
        ]
    );
    let empty = ScanReport { targets: vec![scanned("None", 0, 0, 0)], total_bytes: 0 };
    assert_eq!(
        scan::scan_lines(false, &empty, false),
        vec!["Nothing to reclaim — already spotless."]
    );
}

#[test]
fn the_ten_largest_items_are_listed() {
    let report = ScanReport { targets: vec![scanned("Many", 66, 12, 0)], total_bytes: 66 };
    let lines = scan::scan_lines(false, &report, true);
    assert_eq!(lines[3], "       11 B  /x/11");
    assert_eq!(lines[12], "        2 B  /x/2");
    assert_eq!(lines[13], "    … and 2 more");
}

#[test]
fn the_trash_counts_what_finder_shows() {
    let mut disk = Mem::default();
    disk.write("/Users/me/.Trash/a/x", 10);
    disk.write("/Users/me/.Trash/a/y", 5);
    disk.write("/Users/me/.Trash/b.txt", 7);
    disk.write("/Users/me/.Trash/.DS_Store", 100);
    disk.write("/Volumes/Disk/.Trashes/501/c", 3);
    disk.write("/Volumes/Disk/.Trashes/502/d", 1000);
    let home = path("/Users/me");
    let summary = trash::summary(Some(&home), 501, &disk);
    assert_eq!(summary.items, 3);
    assert_eq!(summary.bytes, 25);
    assert_eq!(trash::trash_dirs(Some(&home), 501, &disk).len(), 2);

    let report = trash::empty(Some(&home), 501, &disk, &|p: &FsPath| {
        if p.as_str().ends_with("b.txt") {
            Err("locked".to_string())
        } else {
            Ok(())
        }
    });
    // One stubborn entry does not keep the rest.
    assert_eq!(report.removed, 2);
    assert_eq!(report.bytes_reclaimed, 18);
    assert_eq!(report.failed, vec![("/Users/me/.Trash/b.txt".to_string(), "locked".to_string())]);
    assert_eq!(
        trash_cmd::emptied_lines(false, &report),
        vec!["✓ 18 B freed from 2 items.", "  failed /Users/me/.Trash/b.txt — locked"]
    );
    assert_eq!(
        trash_cmd::summary_lines(false, &summary),
        vec!["  25 B in 3 items.", "  `spotless trash --empty` deletes them permanently."]
    );
    assert_eq!(trash_cmd::empty_question(false, &summary), "Delete 25 B in 3 items?");
    let nothing = trash::summary(None, 501, &Mem::default());
    assert_eq!(trash_cmd::summary_lines(false, &nothing), vec!["The Trash is empty."]);
}

/// Directories, files and links that can be removed.
struct Places {
    dirs: RefCell<Vec<String>>,
    files: RefCell<Vec<String>>,
}

impl Places {
    fn remove(&self, at: &str) -> Result<(), String> {
        trash::remove(
            &path(at),
            &|p: &FsPath| {
                let text = p.as_str().to_string();
                if self.dirs.borrow().contains(&text) {
                    Ok(true)
                } else if self.files.borrow().contains(&text) {
                    Ok(false)
                } else {
                    Err("not found".to_string())
                }
            },
            &|p: &FsPath| {
                self.dirs.borrow_mut().retain(|d| !d.starts_with(p.as_str()));
                self.files.borrow_mut().retain(|f| !f.starts_with(p.as_str()));
                Ok(())
            },
            &|p: &FsPath| {
                self.files.borrow_mut().retain(|f| f != p.as_str());
                Ok(())
            },
        )
    }
}

fn places(dirs: &[&str], files: &[&str]) -> Places {
    Places {
        dirs: RefCell::new(dirs.iter().map(|d| d.to_string()).collect()),
        files: RefCell::new(files.iter().map(|f| f.to_string()).collect()),
    }
}

#[test]
fn removes_a_directory_tree_and_a_file() {
    let p = places(&["/t/folder", "/t/folder/nested"], &["/t/folder/nested/a.txt", "/t/b.txt"]);
    assert!(p.remove("/t/folder").is_ok());
    assert!(p.remove("/t/b.txt").is_ok());
    assert!(p.dirs.borrow().is_empty());
    assert!(p.files.borrow().is_empty());
}

#[test]
fn unlinks_a_symlink_without_touching_its_target() {
    let p = places(&["/t/target"], &["/t/target/keep.txt", "/t/link"]);
    assert!(p.remove("/t/link").is_ok());
    assert!(!p.files.borrow().contains(&"/t/link".to_string()));
    // What it pointed to is still there.
    assert!(p.files.borrow().contains(&"/t/target/keep.txt".to_string()));
}

#[test]
fn removing_a_missing_path_reports_rather_than_panicking() {
    assert!(places(&[], &[]).remove("/t/nope").is_err());
}

#[test]
fn nothing_goes_ahead_without_a_yes() {
    assert_eq!(flow::clean_step(false, true, true), Step::Nothing);
    assert_eq!(flow::clean_step(true, true, false), Step::Json);
    assert_eq!(flow::clean_step(true, false, false), Step::Ask);
    assert_eq!(flow::clean_step(true, true, true), Step::Remove);
    assert_eq!(flow::search_step(true, true, true, true), Step::Json);
    assert_eq!(flow::search_step(false, false, true, true), Step::Nothing);
    assert_eq!(flow::search_step(true, false, false, true), Step::Show);
    assert_eq!(flow::search_step(true, false, true, false), Step::Ask);
    assert_eq!(flow::uninstall_step(true, false), Step::Json);
    assert_eq!(flow::trash_step(0, false, true, true), Step::Nothing);
    assert_eq!(flow::trash_step(3, true, false, true), Step::Json);
    assert_eq!(flow::trash_step(3, false, true, false), Step::Ask);
    assert!(flow::goes_ahead(Step::Ask, true));
    assert!(!flow::goes_ahead(Step::Ask, false));
    assert!(!flow::goes_ahead(Step::Show, true));
    assert!(flow::goes_ahead(Step::Remove, false));
}

#[test]
fn questions_say_how_much() {
    assert_eq!(
        apps::question(false, &plan()),
        "Move Foo and its leftovers (567 B) to the Trash?"
    );
    let found = vec![orphan_app(&["/Users/me/Library/Caches/com.acme.gone"])];
    assert_eq!(orphans::question(false, &found), "Move 600 B of leftovers to the Trash?");
    assert_eq!(
        orphans::sum_lines(false, &found, false),
        vec!["  600 B across 1 vanished app", "  Add --clean to move these to the Trash.", ""]
    );
    assert_eq!(orphans::sum_lines(false, &found, true).len(), 1);
}

#[test]
fn outcomes_are_told_as_far_as_the_command_does() {
    let report = CleanReport {
        failed: vec![FailedItem { path: path("/x"), error: "in use".to_string() }],
        bytes_reclaimed: 10,
        ..Default::default()
    };
    let lines = spotless::report::outcome_lines(false, &report, "copy", "copies", true, false);
    assert_eq!(lines, vec!["✓ 10 B reclaimed from 0 copies, moved to the Trash."]);
    let lines = spotless::report::outcome_lines(false, &report, "copy", "copies", false, true);
    assert_eq!(lines[1], "  failed /x — in use");
}

#[test]
fn the_plan_is_shown_before_anything_is_removed() {
    let log = RefCell::new(Vec::new());
    let run = |step: Step, answer: bool| -> (Option<u8>, Vec<&'static str>) {
        log.borrow_mut().clear();
        let r = flow::carry_out(
            step,
            &|| log.borrow_mut().push("plan"),
            &|| {
                log.borrow_mut().push("ask");
                answer
            },
            &|| {
                log.borrow_mut().push("remove");
                7u8
            },
        );
        (r, log.borrow().clone())
    };
    assert_eq!(run(Step::Remove, false), (Some(7), vec!["plan", "remove"]));
    assert_eq!(run(Step::Ask, true), (Some(7), vec!["plan", "ask", "remove"]));
    assert_eq!(run(Step::Ask, false), (None, vec!["plan", "ask"]));
    for step in [Step::Json, Step::Nothing, Step::Show] {
        assert_eq!(run(step, true), (None, vec![]));
    }
}

#[test]
fn emptying_the_trash_is_announced() {
    let summary = trash::TrashSummary { items: 2, bytes: 1500 };
    assert_eq!(
        trash_cmd::plan_lines(false, &summary, true),
        vec!["  Permanent: emptying the Trash cannot be undone."]
    );
    assert_eq!(
        trash_cmd::plan_lines(false, &summary, false),
        vec!["  Permanent: emptying the Trash cannot be undone.", "  1.5 KB in 2 items."]
    );
}
