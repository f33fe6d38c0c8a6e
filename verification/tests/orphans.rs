use std::collections::BTreeMap;

use spotless::disk::{DirItem, Disk, FileKind, FileNode, Probe, Stat, WalkEntry};
use spotless::orphans::{
    find_orphans, installed_bundle_ids, is_accounted_for, is_apple_identifier, is_orphan_path,
    looks_like_bundle_id, strip_group_prefix,
};
use spotless::paths::FsPath;

/// A filesystem in memory: files by their path, with what they hold.
#[derive(Default)]
struct Mem {
    files: BTreeMap<String, Vec<u8>>,
}

impl Mem {
    fn write(&mut self, path: &str, bytes: usize) {
        self.files.insert(path.to_string(), vec![b'x'; bytes]);
    }

    fn is_dir(&self, path: &str) -> bool {
        let inside = format!("{}/", path.trim_end_matches('/'));
        self.files.keys().any(|k| k.starts_with(&inside))
    }

    fn names(&self, dir: &str) -> Vec<String> {
        let inside = format!("{}/", dir.trim_end_matches('/'));
        let mut names: Vec<String> = self
            .files
            .keys()
            .filter_map(|k| k.strip_prefix(&inside))
            .map(|rest| rest.split('/').next().unwrap().to_string())
            .collect();
        names.dedup();
        names
    }

    fn node(&self, path: &str) -> WalkEntry {
        let name = path.rsplit('/').next().unwrap().to_string();
        match self.files.get(path) {
            Some(bytes) => WalkEntry::Node(FileNode {
                name,
                kind: FileKind::File,
                len: Some(bytes.len() as u64),
                children: Vec::new(),
            }),
            None if self.is_dir(path) => WalkEntry::Node(FileNode {
                name,
                kind: FileKind::Dir,
                len: Some(64),
                children: self
                    .names(path)
                    .iter()
                    .map(|n| self.node(&format!("{path}/{n}")))
                    .collect(),
            }),
            None => WalkEntry::Failed(format!("{path}: not found")),
        }
    }
}

impl Disk for Mem {
    fn stat(&self, path: &FsPath) -> Option<Stat> {
        let path = path.as_str();
        if let Some(bytes) = self.files.get(path) {
            Some(Stat { is_file: true, is_dir: false, len: bytes.len() as u64, modified_secs: Some(7) })
        } else if self.is_dir(path) {
            Some(Stat { is_file: false, is_dir: true, len: 64, modified_secs: Some(7) })
        } else {
            None
        }
    }

    fn probe(&self, path: &FsPath) -> Probe {
        let stat = self.stat(path);
        Probe {
            is_file: stat.is_some_and(|s| s.is_file),
            is_dir: stat.is_some_and(|s| s.is_dir),
            len: stat.map(|s| s.len),
            walk: self.node(path.as_str()),
        }
    }

    fn list(&self, path: &FsPath) -> Option<Vec<DirItem>> {
        if !self.is_dir(path.as_str()) {
            return None;
        }
        Some(
            self.names(path.as_str())
                .into_iter()
                .map(|name| {
                    let is_dir = self.is_dir(&format!("{}/{}", path.as_str(), name));
                    DirItem { name, is_dir }
                })
                .collect(),
        )
    }

    fn read(&self, path: &FsPath) -> Option<Vec<u8>> {
        self.files.get(path.as_str()).cloned()
    }
}

fn path(text: &str) -> FsPath {
    FsPath::new(text)
}

fn installed(ids: &[&str]) -> Vec<String> {
    ids.iter().map(|s| s.to_string()).collect()
}

fn plist(id: &str) -> Vec<u8> {
    format!(
        r#"<?xml version="1.0" encoding="UTF-8"?>
<plist version="1.0"><dict>
  <key>CFBundleIdentifier</key><string>{id}</string>
</dict></plist>"#
    )
    .into_bytes()
}

fn holds(ids: &[String], id: &str) -> bool {
    ids.iter().any(|i| i == id)
}

#[test]
fn only_identifier_shaped_names_are_candidates() {
    assert!(!looks_like_bundle_id("Google"));
    assert!(!looks_like_bundle_id("Code"));
    assert!(!looks_like_bundle_id("Adobe Photoshop 2024 Settings"));
    assert!(!looks_like_bundle_id("pypoetry"));
    assert!(!looks_like_bundle_id("fast-unarchiver"));
    assert!(!looks_like_bundle_id("default.store"));
    assert!(!looks_like_bundle_id("C77D232F-C92D-45F9-A520-6438CBDB87E6"));

    assert!(looks_like_bundle_id("com.acme.foo"));
    assert!(looks_like_bundle_id("com.acme.foo.helper"));
    assert!(looks_like_bundle_id("net.yanue.V2rayU"));
    assert!(looks_like_bundle_id("ai.bloop.vibe-kanban"));
    // Malformed: an empty segment is not an identifier.
    assert!(!looks_like_bundle_id("com..foo"));
    assert!(!looks_like_bundle_id(".com.acme"));
}

#[test]
fn group_container_prefixes_are_stripped_before_matching() {
    assert_eq!(strip_group_prefix("UBF8T346G9.com.microsoft.teams"), "com.microsoft.teams");
    assert_eq!(strip_group_prefix("group.uk.hudson.Kickstart"), "uk.hudson.Kickstart");
    assert_eq!(strip_group_prefix("243LU875E5.groups.com.apple.podcasts"), "com.apple.podcasts");
    // A short leading segment is part of the identifier, not a team.
    assert_eq!(strip_group_prefix("com.acme.foo"), "com.acme.foo");
    assert_eq!(strip_group_prefix("ai.bloop.vibe"), "ai.bloop.vibe");
}

#[test]
fn apple_owned_identifiers_are_never_orphans() {
    assert!(is_apple_identifier("com.apple.podcasts"));
    // The forms that a plain prefix test misses.
    assert!(is_apple_identifier(&strip_group_prefix("243LU875E5.groups.com.apple.podcasts")));
    assert!(is_apple_identifier("group.is.workflow.shortcuts"));
    assert!(!is_apple_identifier("com.acme.apple-sauce"));
}

#[test]
fn helpers_of_an_installed_app_are_accounted_for() {
    let known = installed(&["com.microsoft.autoupdate", "com.acme.foo"]);
    assert!(is_accounted_for("com.microsoft.autoupdate.fba", &known));
    assert!(is_accounted_for("com.acme.foo.ShipIt", &known));
    assert!(is_accounted_for("COM.ACME.FOO", &known));
    // A different app that merely shares a prefix is still an orphan.
    assert!(!is_accounted_for("com.acme.foobar", &known));
    assert!(!is_accounted_for("com.acme.foo-bar", &known));
}

#[test]
fn find_orphans_groups_by_identifier_and_skips_installed_apps() {
    let mut disk = Mem::default();
    let home = path("/tmp/home");
    let lib = home.join("Library");

    // One vanished app with leftovers in three places.
    disk.write(lib.join("Containers/com.acme.gone/Data/db").as_str(), 300);
    disk.write(lib.join("Preferences/com.acme.gone.plist").as_str(), 100);
    disk.write(lib.join("Caches/com.acme.gone/blob.bin").as_str(), 600);
    // An installed app, and one of its helpers.
    disk.write(lib.join("Caches/com.acme.here/blob.bin").as_str(), 999);
    disk.write(lib.join("Preferences/com.acme.here.fba.plist").as_str(), 999);
    // Apple's own.
    disk.write(lib.join("Caches/com.apple.Safari/x").as_str(), 999);
    disk.write(lib.join("Group Containers/243LU875E5.groups.com.apple.podcasts/x").as_str(), 999);
    // Names that are no identifiers.
    disk.write(lib.join("Application Support/Google/Chrome/Default/data").as_str(), 999);
    disk.write(lib.join("Caches/typescript/x").as_str(), 999);
    disk.write(lib.join("HTTPStorages/askpermissiond/x").as_str(), 999);

    let found = find_orphans(&home, &installed(&["com.acme.here"]), &disk);

    assert_eq!(found.len(), 1, "found: {found:?}");
    let gone = &found[0];
    assert_eq!(gone.bundle_id, "com.acme.gone");
    assert_eq!(gone.display_name, "gone");
    assert_eq!(gone.items.len(), 3);
    assert_eq!(gone.total_bytes, 1000);
    // Largest first.
    assert_eq!(gone.items[0].size_bytes, 600);

    // Once the app is installed, nothing of it is an orphan.
    assert!(find_orphans(&home, &installed(&["com.acme.here", "com.acme.gone"]), &disk).is_empty());
}

#[test]
fn group_containers_are_attributed_to_the_app_not_the_team() {
    let mut disk = Mem::default();
    let home = path("/tmp/home");
    let lib = home.join("Library");
    disk.write(lib.join("Group Containers/UBF8T346G9.com.microsoft.teams/db").as_str(), 50);
    disk.write(lib.join("Caches/com.microsoft.teams/blob").as_str(), 70);

    let found = find_orphans(&home, &Vec::new(), &disk);
    assert_eq!(found.len(), 1);
    assert_eq!(found[0].bundle_id, "com.microsoft.teams");
    assert_eq!(found[0].total_bytes, 120);
}

#[test]
fn the_structural_directories_are_never_nominated() {
    let mut disk = Mem::default();
    let home = path("/tmp/home");
    let lib = home.join("Library");
    disk.write(lib.join("Preferences/ByHost/com.acme.gone.ABC.plist").as_str(), 10);
    disk.write(lib.join("WebKit/Databases/x").as_str(), 10);

    let found = find_orphans(&home, &Vec::new(), &disk);
    let paths: Vec<String> = found
        .iter()
        .flat_map(|a| a.items.iter().map(|i| i.path.as_str().to_string()))
        .collect();
    assert!(
        paths.iter().all(|p| !p.ends_with("ByHost") && !p.ends_with("Databases")),
        "nominated a structural directory: {paths:?}"
    );
}

#[test]
fn removal_is_confined_to_entries_inside_a_scanned_directory() {
    let home = path("/Users/me");
    assert!(is_orphan_path(&path("/Users/me/Library/Caches/com.acme.gone"), &home));
    assert!(is_orphan_path(&path("/Users/me/Library/Preferences/com.acme.gone.plist"), &home));
    // The scanned directories themselves, and anything above them.
    assert!(!is_orphan_path(&path("/Users/me/Library/Caches"), &home));
    assert!(!is_orphan_path(&path("/Users/me/Library"), &home));
    // The structural entries.
    assert!(!is_orphan_path(&path("/Users/me/Library/Preferences/ByHost"), &home));
    // Deeper than a nominated entry.
    assert!(!is_orphan_path(&path("/Users/me/Library/Caches/com.acme.gone/inner"), &home));
    // Directories that are not scanned at all, and other users' homes.
    assert!(!is_orphan_path(&path("/Users/me/Library/Keychains/x"), &home));
    assert!(!is_orphan_path(&path("/Users/other/Library/Caches/com.acme.gone"), &home));
    assert!(!is_orphan_path(&path("/Library/Caches/com.acme.gone"), &home));
}

#[test]
fn nested_bundle_ids_are_read_from_an_installed_app() {
    let mut disk = Mem::default();
    let dir = path("/tmp/apps");
    let app = dir.join("Foo.app");
    let mut put = |at: FsPath, id: &str| {
        disk.files.insert(at.as_str().to_string(), plist(id));
    };
    put(app.join("Contents/Info.plist"), "com.acme.foo");
    let helper = app.join("Contents/Library/LoginItems/Helper.app/Contents");
    put(helper.join("Info.plist"), "com.acme.foo.helper");
    let xpc = app.join("Contents/XPCServices/Svc.xpc/Contents");
    put(xpc.join("Info.plist"), "com.acme.svc");

    let ids = installed_bundle_ids(&vec![dir], &disk);
    assert!(holds(&ids, "com.acme.foo"));
    assert!(holds(&ids, "com.acme.foo.helper"));
    // A helper whose identifier is no extension of its host's.
    assert!(holds(&ids, "com.acme.svc"));
    assert_eq!(ids.len(), 3);
}

#[test]
fn a_bundle_that_is_not_an_app_still_counts_as_installed() {
    let mut disk = Mem::default();
    let dir = path("/tmp/bundles");
    for (name, id) in [
        ("WeType.app", "com.tencent.inputmethod.wetype"),
        ("Logi.prefPane", "com.logi.ai.portal"),
    ] {
        let contents = dir.join(name).join("Contents");
        disk.files.insert(contents.join("Info.plist").as_str().to_string(), plist(id));
    }

    let ids = installed_bundle_ids(&vec![dir], &disk);
    assert!(holds(&ids, "com.tencent.inputmethod.wetype"));
    assert!(holds(&ids, "com.logi.ai.portal"));
}

#[test]
fn apps_inside_a_suite_folder_count_as_installed() {
    let mut disk = Mem::default();
    let dir = path("/tmp/apps");
    let nested = dir.join("Adobe Photoshop 2024/Adobe Photoshop 2024.app/Contents");
    disk.files
        .insert(nested.join("Info.plist").as_str().to_string(), plist("com.adobe.Photoshop"));

    let ids = installed_bundle_ids(&vec![dir], &disk);
    assert!(holds(&ids, "com.adobe.photoshop"));
}

#[test]
fn a_group_of_two_segments_is_no_identifier() {
    let mut disk = Mem::default();
    let home = path("/tmp/home");
    let groups = home.join("Library").join("Group Containers");
    disk.write(groups.join("group.acme.foo/db").as_str(), 50);
    disk.write(groups.join("group.com.acme.foo/db").as_str(), 70);
    let found = find_orphans(&home, &Vec::new(), &disk);
    let ids: Vec<&str> = found.iter().map(|o| o.bundle_id.as_str()).collect();
    assert_eq!(ids, ["com.acme.foo"]);
    assert!(ids.iter().all(|id| looks_like_bundle_id(id)));
}
