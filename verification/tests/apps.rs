use std::collections::BTreeMap;

use spotless::apps::{
    app_sizes, find_leftovers, identity_names, is_app_bundle, is_system_leftover_path,
    leftover_rules, list_apps, name_matches, plan_uninstall, AppInfo, LeftoverRule, Match,
};
use spotless::capability::Build;
use spotless::disk::{DirItem, Disk, FileKind, FileNode, Probe, Stat, WalkEntry};
use spotless::paths::FsPath;

/// A filesystem in memory: files by their path, with what they hold.
#[derive(Default)]
struct Mem {
    files: BTreeMap<String, Vec<u8>>,
}

impl Mem {
    fn write(&mut self, path: &str, bytes: usize) {
        self.files.insert(path.to_string(), vec![b'x'; bytes]);
    }

    fn is_dir(&self, path: &str) -> bool {
        let inside = format!("{}/", path.trim_end_matches('/'));
        self.files.keys().any(|k| k.starts_with(&inside))
    }

    fn names(&self, dir: &str) -> Vec<String> {
        let inside = format!("{}/", dir.trim_end_matches('/'));
        let mut names: Vec<String> = self
            .files
            .keys()
            .filter_map(|k| k.strip_prefix(&inside))
            .map(|rest| rest.split('/').next().unwrap().to_string())
            .collect();
        names.dedup();
        names
    }

    fn node(&self, path: &str) -> WalkEntry {
        let name = path.rsplit('/').next().unwrap().to_string();
        match self.files.get(path) {
            Some(bytes) => WalkEntry::Node(FileNode {
                name,
                kind: FileKind::File,
                len: Some(bytes.len() as u64),
                children: Vec::new(),
            }),
            None if self.is_dir(path) => WalkEntry::Node(FileNode {
                name,
                kind: FileKind::Dir,
                len: Some(64),
                children: self
                    .names(path)
                    .iter()
                    .map(|n| self.node(&format!("{path}/{n}")))
                    .collect(),
            }),
            None => WalkEntry::Failed(format!("{path}: not found")),
        }
    }
}

impl Disk for Mem {
    fn stat(&self, path: &FsPath) -> Option<Stat> {
        let path = path.as_str();
        if let Some(bytes) = self.files.get(path) {
            Some(Stat { is_file: true, is_dir: false, len: bytes.len() as u64, modified_secs: Some(7) })
        } else if self.is_dir(path) {
            Some(Stat { is_file: false, is_dir: true, len: 64, modified_secs: Some(7) })
        } else {
            None
        }
    }

    fn probe(&self, path: &FsPath) -> Probe {
        let stat = self.stat(path);
        Probe {
            is_file: stat.is_some_and(|s| s.is_file),
            is_dir: stat.is_some_and(|s| s.is_dir),
            len: stat.map(|s| s.len),
            walk: self.node(path.as_str()),
        }
    }

    fn list(&self, path: &FsPath) -> Option<Vec<DirItem>> {
        if !self.is_dir(path.as_str()) {
            return None;
        }
        Some(
            self.names(path.as_str())
                .into_iter()
                .map(|name| {
                    let is_dir = self.is_dir(&format!("{}/{}", path.as_str(), name));
                    DirItem { name, is_dir }
                })
                .collect(),
        )
    }

    fn read(&self, path: &FsPath) -> Option<Vec<u8>> {
        self.files.get(path.as_str()).cloned()
    }
}

fn path(text: &str) -> FsPath {
    FsPath::new(text)
}

fn foo(bundle_id: Option<&str>, at: &str, size: Option<u64>) -> AppInfo {
    AppInfo {
        name: "Foo".to_string(),
        path: path(at),
        bundle_id: bundle_id.map(|id| id.to_string()),
        size_bytes: size,
    }
}

fn rules(id: Option<&str>, build: Build) -> Vec<LeftoverRule> {
    let id = id.map(|id| id.to_string());
    leftover_rules("Foo", id.as_ref(), &path("/Users/me"), build)
}

#[test]
fn rules_cover_id_keyed_and_name_keyed_locations() {
    let rules = rules(Some("com.acme.foo"), Build::Direct);
    let dirs: Vec<String> = rules.iter().map(|r| r.dir.as_str().to_string()).collect();

    assert!(dirs.iter().any(|d| d.ends_with("Library/Preferences")));
    assert!(dirs.iter().any(|d| d.ends_with("Library/Containers")));
    assert!(dirs.iter().any(|d| d.ends_with("Logs/DiagnosticReports")));

    let support = rules
        .iter()
        .find(|r| r.dir.file_name().as_deref() == Some("Application Support"))
        .unwrap();
    assert_eq!(support.tokens, vec!["com.acme.foo", "Foo"]);
}

#[test]
fn rules_without_bundle_id_drop_the_id_keyed_directories() {
    let rules = rules(None, Build::Direct);
    assert!(rules.iter().all(|r| r.dir.file_name().as_deref() != Some("Preferences")));
    let logs = rules.iter().find(|r| r.dir.file_name().as_deref() == Some("Logs")).unwrap();
    assert_eq!(logs.tokens, vec!["Foo"]);
}

#[test]
fn system_rules_are_admin_marked_and_never_nominate_library_itself() {
    let rules = rules(Some("com.acme.foo"), Build::Direct);
    let system: Vec<&LeftoverRule> = rules.iter().filter(|r| r.dir.starts_with(&path("/Library"))).collect();

    assert!(!system.is_empty());
    assert!(system.iter().all(|r| r.requires_admin));
    // Every directory is below /Library, so what a rule can nominate lies two
    // levels down.
    assert!(system
        .iter()
        .all(|r| r.dir.components().len() > 2 && !r.dir.same(&path("/Library"))));
    assert!(system.iter().any(|r| r.dir.file_name().as_deref() == Some("LaunchDaemons")));
    assert!(system.iter().any(|r| r.dir.file_name().as_deref() == Some("PrivilegedHelperTools")));
    let daemons = system
        .iter()
        .find(|r| r.dir.file_name().as_deref() == Some("LaunchDaemons"))
        .unwrap();
    assert_eq!(daemons.tokens, vec!["com.acme.foo"]);
}

#[test]
fn only_entries_inside_a_known_root_domain_directory_may_be_escalated() {
    assert!(is_system_leftover_path(&path("/Library/LaunchDaemons/com.acme.foo.plist")));
    assert!(is_system_leftover_path(&path("/Library/Application Support/Foo")));
    // Crash reports, one level below the plain Logs directory.
    assert!(is_system_leftover_path(&path("/Library/Logs/DiagnosticReports/Foo_2026-07-17.ips")));
    assert!(is_system_leftover_path(&path(
        "/Library/Application Support/CrashReporter/Foo_2026-07-17.plist"
    )));
    // Installer receipts live outside /Library.
    assert!(is_system_leftover_path(&path("/private/var/db/receipts/com.acme.foo.bom")));
    assert!(!is_system_leftover_path(&path("/private/var/db/receipts")));
    // The container directories themselves, and anything above them.
    assert!(!is_system_leftover_path(&path("/Library")));
    assert!(!is_system_leftover_path(&path("/Library/Caches")));
    assert!(!is_system_leftover_path(&path("/")));
    // Nested paths: only the top-level entry is nominated.
    assert!(!is_system_leftover_path(&path("/Library/Caches/Foo/inner")));
    // Directories that are not in the table at all.
    assert!(!is_system_leftover_path(&path("/Library/Keychains/x")));
    assert!(!is_system_leftover_path(&path("/System/Library/Caches/x")));
    assert!(!is_system_leftover_path(&path("/Users/me/Library/Caches/x")));
}

#[test]
fn container_directories_are_not_leftovers() {
    assert!(!is_system_leftover_path(&path("/Library/Logs/DiagnosticReports")));
    assert!(!is_system_leftover_path(&path("/Library/Application Support/CrashReporter")));
}

#[test]
fn the_sandboxed_build_stays_inside_the_home_directory() {
    let rules = rules(Some("com.acme.foo"), Build::AppStore);
    assert!(!rules.is_empty());
    assert!(rules.iter().all(|r| r.dir.starts_with(&path("/Users/me"))));
    assert!(rules.iter().all(|r| !r.requires_admin));
}

#[test]
fn matching_stops_at_a_separator_boundary() {
    // The suffixed siblings that a comparison of whole names would miss.
    assert!(name_matches("com.acme.foo.ShipIt", "com.acme.foo", Match::Prefix));
    assert!(name_matches("com.acme.foo.plist", "com.acme.foo", Match::Prefix));
    assert!(name_matches("Foo_2026-07-17.ips", "Foo", Match::Prefix));
    assert!(name_matches("COM.ACME.FOO", "com.acme.foo", Match::Prefix));
    // A different app that merely shares a prefix stays untouched.
    assert!(!name_matches("com.acme.foobar", "com.acme.foo", Match::Prefix));
    assert!(!name_matches("Foobar", "Foo", Match::Prefix));
    // Group containers carry the team first.
    assert!(name_matches("AB12CD34.com.acme.foo", "com.acme.foo", Match::Contains));
    assert!(!name_matches("AB12CD34.com.acme.foobar", "com.acme.foo", Match::Contains));
    // iCloud containers write tildes for dots.
    assert!(name_matches("AB12CD34~com~acme~foo", "com~acme~foo", Match::Contains));
    assert!(!name_matches("AB12CD34~com~acme~foobar", "com~acme~foo", Match::Contains));
}

#[test]
fn identity_names_reads_bundle_and_executable_names() {
    let mut disk = Mem::default();
    let app = path("/tmp/x").join("Orion Code URL Handler.app");
    let plist = r#"<?xml version="1.0" encoding="UTF-8"?>
<plist version="1.0"><dict>
  <key>CFBundleName</key><string>Orion</string>
  <key>CFBundleExecutable</key><string>orion-handler</string>
</dict></plist>"#;
    let info = app.join("Contents/Info.plist");
    disk.files.insert(info.as_str().to_string(), plist.as_bytes().to_vec());

    let info = AppInfo {
        name: "Orion Code URL Handler".to_string(),
        path: app,
        bundle_id: Some("com.acme.orion-code-url-handler".to_string()),
        size_bytes: None,
    };
    let names = identity_names(&info, &disk);
    // The file's own name and the two of the Info.plist, none dropped or twice.
    assert_eq!(names, vec!["Orion Code URL Handler", "Orion", "orion-handler"]);
}

#[test]
fn find_leftovers_matches_bundle_name_and_icloud_container() {
    let mut disk = Mem::default();
    let home = path("/tmp/home");
    let lib = home.join("Library");
    disk.write(lib.join("Application Support/Orion/state.json").as_str(), 30);
    disk.write(lib.join("Mobile Documents/AB12CD34~com~acme~handler/doc.txt").as_str(), 20);
    disk.write(lib.join("Application Support/Orionette/x.bin").as_str(), 999);

    let bundle = home.join("Applications/Orion Code URL Handler.app");
    let plist = r#"<?xml version="1.0" encoding="UTF-8"?>
<plist version="1.0"><dict><key>CFBundleName</key><string>Orion</string></dict></plist>"#;
    let info = bundle.join("Contents/Info.plist");
    disk.files.insert(info.as_str().to_string(), plist.as_bytes().to_vec());

    let app = AppInfo {
        name: "Orion Code URL Handler".to_string(),
        path: bundle,
        bundle_id: Some("com.acme.handler".to_string()),
        size_bytes: None,
    };
    let found = find_leftovers(&app, &home, Build::Direct, &disk);
    let paths: Vec<String> = found.iter().map(|l| l.path.as_str().to_string()).collect();

    assert!(
        paths.iter().any(|p| p.ends_with("Application Support/Orion")),
        "should match CFBundleName-keyed support dir: {paths:?}"
    );
    assert!(
        paths.iter().any(|p| p.contains("Mobile Documents/AB12CD34~com~acme~handler")),
        "should match iCloud container: {paths:?}"
    );
    assert!(paths.iter().all(|p| !p.contains("Orionette")), "{paths:?}");
}

#[test]
fn find_leftovers_catches_suffixed_siblings_and_crash_logs() {
    let mut disk = Mem::default();
    let home = path("/tmp/home");
    let lib = home.join("Library");
    disk.write(lib.join("Preferences/com.acme.foo.plist").as_str(), 10);
    disk.write(lib.join("Preferences/ByHost/com.acme.foo.ABC.plist").as_str(), 10);
    disk.write(lib.join("Caches/com.acme.foo.ShipIt/update.bin").as_str(), 10);
    disk.write(lib.join("Group Containers/AB12.com.acme.foo/db").as_str(), 10);
    disk.write(lib.join("Logs/DiagnosticReports/Foo_2026-07-17.ips").as_str(), 10);
    // Belongs to a different app that shares a prefix.
    disk.write(lib.join("Caches/com.acme.foobar/blob.bin").as_str(), 999);

    let app = foo(Some("com.acme.foo"), "/Applications/Foo.app", None);
    let found = find_leftovers(&app, &home, Build::Direct, &disk);
    let paths: Vec<String> = found.iter().map(|l| l.path.as_str().to_string()).collect();

    assert_eq!(found.len(), 5, "found: {paths:?}");
    assert!(paths.iter().all(|p| !p.contains("foobar")));
    assert_eq!(found.iter().map(|l| l.size_bytes).sum::<u64>(), 50);
}

#[test]
fn find_leftovers_keeps_only_existing_and_sizes_them() {
    let mut disk = Mem::default();
    let home = path("/tmp/home");
    let lib = home.join("Library");
    disk.write(lib.join("Preferences/com.acme.foo.plist").as_str(), 40);
    disk.write(lib.join("Caches/com.acme.foo/blob.bin").as_str(), 200);

    let app = foo(Some("com.acme.foo"), "/Applications/Foo.app", Some(1000));
    let found = find_leftovers(&app, &home, Build::Direct, &disk);
    let total: u64 = found.iter().map(|l| l.size_bytes).sum();
    assert_eq!(found.len(), 2);
    assert_eq!(total, 240);
}

#[test]
fn plan_sizes_the_bundle_itself_and_totals_it_with_leftovers() {
    let mut disk = Mem::default();
    let home = path("/tmp/home");
    disk.write(home.join("Library/Logs/Foo/run.log").as_str(), 60);
    let bundle = home.join("Applications/Foo.app");
    disk.write(bundle.join("Contents/MacOS/Foo").as_str(), 500);

    let app = foo(None, bundle.as_str(), None);
    let plan = plan_uninstall(app, &home, Build::Direct, &disk);
    assert_eq!(plan.app.size_bytes, Some(500));
    assert_eq!(plan.total_bytes, 560);
}

#[test]
fn app_sizes_measures_each_bundle() {
    let mut disk = Mem::default();
    let dir = path("/tmp/apps");
    let foo = dir.join("Foo.app");
    let bar = dir.join("Bar.app");
    disk.write(foo.join("Contents/MacOS/Foo").as_str(), 300);
    disk.write(bar.join("Contents/MacOS/Bar").as_str(), 700);

    let sizes = app_sizes(&vec![foo.clone(), bar.clone()], &disk);
    assert_eq!(sizes.len(), 2);
    assert_eq!(sizes.iter().find(|(p, _)| *p == foo).unwrap().1, 300);
    assert_eq!(sizes.iter().find(|(p, _)| *p == bar).unwrap().1, 700);
}

#[test]
fn list_apps_reads_bundle_id_from_info_plist() {
    let mut disk = Mem::default();
    let dir = path("/tmp/apps");
    let app = dir.join("Foo.app");
    disk.write(app.join("Contents/MacOS/Foo").as_str(), 300);
    let plist = r#"<?xml version="1.0" encoding="UTF-8"?>
<!DOCTYPE plist PUBLIC "-//Apple//DTD PLIST 1.0//EN" "http://www.apple.com/DTDs/PropertyList-1.0.dtd">
<plist version="1.0">
<dict>
  <key>CFBundleIdentifier</key>
  <string>com.acme.foo</string>
</dict>
</plist>"#;
    let info = app.join("Contents/Info.plist");
    disk.files.insert(info.as_str().to_string(), plist.as_bytes().to_vec());

    let apps = list_apps(&vec![dir], &disk);
    assert_eq!(apps.len(), 1);
    assert_eq!(apps[0].name, "Foo");
    assert_eq!(apps[0].bundle_id.as_deref(), Some("com.acme.foo"));
    // Listing does not measure.
    assert_eq!(apps[0].size_bytes, None);
}

#[test]
fn apps_are_listed_by_name_whatever_the_case() {
    let mut disk = Mem::default();
    for name in ["beta", "Alpha", "Gamma"] {
        disk.write(&format!("/Applications/{name}.app/Contents/x"), 1);
    }
    disk.write("/Applications/readme.txt", 1);
    let apps = list_apps(&vec![path("/Applications"), path("/nowhere")], &disk);
    let names: Vec<&str> = apps.iter().map(|a| a.name.as_str()).collect();
    assert_eq!(names, vec!["Alpha", "beta", "Gamma"]);
    // Without an Info.plist there is no identifier.
    assert!(apps.iter().all(|a| a.bundle_id.is_none()));
}

#[test]
fn is_app_bundle_requires_applications_parent() {
    assert!(is_app_bundle(&path("/Applications/Foo.app")));
    assert!(is_app_bundle(&path("/Users/me/Applications/Foo.app")));
    assert!(!is_app_bundle(&path("/Users/me/Downloads/Foo.app")));
    assert!(!is_app_bundle(&path("/Applications/Foo")));
}
