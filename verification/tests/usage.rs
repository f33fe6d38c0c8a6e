use std::cell::{Cell, RefCell};

use spotless::cmd::du;
use spotless::disk::FileKind;
use spotless::mounts::{mirrored, Mirrored, Mounts, DATA_VOLUME};
use spotless::paths::FsPath;
use spotless::usage::{
    build_usage_snapshot, build_usage_tree, crossing, plan, Crossing, DiskNode, DiskRoot, Plan, UsageNode,
    UsageOptions, UsageProgress, UsageSnapshot,
};

fn path(text: &str) -> FsPath {
    FsPath::new(text)
}

fn root() -> FsPath {
    path("/tmp/d")
}

fn node(name: &str, kind: FileKind, len: u64, children: Vec<DiskNode>) -> DiskNode {
    DiskNode {
        name: name.to_string(),
        kind,
        len: Some(len),
        mounted: false,
        own: None,
        mirror: None,
        children,
    }
}

fn insert(children: &mut Vec<DiskNode>, parts: &[&str], bytes: u64) {
    if parts.len() == 1 {
        children.push(node(parts[0], FileKind::File, bytes, Vec::new()));
        return;
    }
    if !children.iter().any(|c| c.name == parts[0]) {
        children.push(node(parts[0], FileKind::Dir, 64, Vec::new()));
    }
    let dir = children.iter_mut().find(|c| c.name == parts[0]).unwrap();
    insert(&mut dir.children, &parts[1..], bytes);
}

fn tree(files: &[(&str, u64)]) -> DiskRoot {
    let mut children = Vec::new();
    for (name, bytes) in files {
        let parts: Vec<&str> = name.split('/').collect();
        insert(&mut children, &parts, *bytes);
    }
    DiskRoot { is_dir: true, len: Some(64), children }
}

fn snapshot(disk: &DiskRoot) -> UsageSnapshot {
    build_usage_snapshot(&root(), disk, &|_: UsageProgress| {}, &|| false).unwrap()
}

#[test]
fn sizes_roll_up_and_children_sorted_desc() {
    let disk = tree(&[("big/a.bin", 500), ("small/b.bin", 50)]);
    let tree = build_usage_tree(&root(), &disk, UsageOptions::default());
    assert_eq!(tree.size_bytes, 550);
    assert!(tree.is_dir);
    assert_eq!(tree.children.len(), 2);
    // Largest first.
    assert_eq!(tree.children[0].name, "big");
    assert_eq!(tree.children[0].size_bytes, 500);
    assert_eq!(tree.children[1].name, "small");
}

#[test]
fn depth_limit_keeps_size_but_not_children() {
    let disk = tree(&[("a/b/c/deep.bin", 123)]);
    let opts = UsageOptions { max_depth: 1, max_children: 20 };
    let tree = build_usage_tree(&root(), &disk, opts);
    // a is at the limit: a sized leaf.
    assert_eq!(tree.size_bytes, 123);
    let a = &tree.children[0];
    assert_eq!(a.name, "a");
    assert_eq!(a.size_bytes, 123);
    assert!(a.children.is_empty());
}

#[test]
fn excess_children_fold_into_other() {
    let names: Vec<String> = (0..5).map(|i| format!("f{i}.bin")).collect();
    let files: Vec<(&str, u64)> = names
        .iter()
        .enumerate()
        .map(|(i, n)| (n.as_str(), 100 - i as u64 * 10))
        .collect();
    let disk = tree(&files);

    let opts = UsageOptions { max_depth: 2, max_children: 3 };
    let tree = build_usage_tree(&root(), &disk, opts);
    // Three kept, and one for the rest.
    assert_eq!(tree.children.len(), 4);
    let other = tree.children.last().unwrap();
    assert!(other.name.starts_with("Other ("));
    // f3 (70) and f4 (60).
    assert_eq!(other.size_bytes, 130);
    // Folding leaves the total alone.
    assert_eq!(tree.size_bytes, 100 + 90 + 80 + 70 + 60);
}

#[test]
fn symlinked_dir_is_not_followed_or_counted() {
    let mut disk = tree(&[("real/big.bin", 500)]);
    disk.children.push(node("link", FileKind::Symlink, 16, Vec::new()));

    let tree = build_usage_tree(&root(), &disk, UsageOptions::default());
    assert_eq!(tree.size_bytes, 500, "symlink target must not be counted");
    let link = tree.children.iter().find(|c| c.name == "link").unwrap();
    assert_eq!(link.size_bytes, 0);
    assert!(link.children.is_empty());
    assert!(tree.children.iter().any(|c| c.name == "real"));
}

#[test]
fn cancelled_walk_yields_none() {
    let disk = tree(&[("a/b.bin", 100)]);
    let out = build_usage_snapshot(&root(), &disk, &|_: UsageProgress| {}, &|| true);
    assert!(out.is_none());
}

#[test]
fn snapshot_views_below_the_depth_limit_without_walking_again() {
    let disk = tree(&[("a/b/c/d/deep.bin", 700), ("a/b/c/d/small.bin", 7)]);
    let snapshot = snapshot(&disk);
    let opts = UsageOptions { max_depth: 1, max_children: 20 };

    let shallow = snapshot.view(&root(), opts).unwrap();
    assert!(shallow.children[0].children.is_empty());

    // A folder that the first view did not show comes from the same walk.
    let deep = snapshot.view(&root().join("a/b/c/d"), opts).unwrap();
    assert_eq!(deep.name, "d");
    assert_eq!(deep.size_bytes, 707);
    let names: Vec<&str> = deep.children.iter().map(|c| c.name.as_str()).collect();
    assert_eq!(names, ["deep.bin", "small.bin"]);
    // Views carry absolute paths.
    assert_eq!(deep.children[0].path, root().join("a/b/c/d/deep.bin"));
}

#[test]
fn snapshot_rejects_paths_outside_the_walk() {
    let disk = tree(&[("b.bin", 100)]);
    let a = root().join("a/b.bin").parent().unwrap();
    let snapshot = build_usage_snapshot(&a, &disk, &|_: UsageProgress| {}, &|| false).unwrap();
    let opts = UsageOptions::default();
    assert!(snapshot.view(&root(), opts).is_none(), "above the root");
    assert!(snapshot.view(&root().join("a/nope"), opts).is_none(), "no such child");
    assert!(snapshot.view(&root().join("a"), opts).is_some());
}

#[test]
fn removing_an_entry_shrinks_every_folder_above_it() {
    let disk = tree(&[("a/b/big.bin", 900), ("a/b/keep.bin", 30), ("c.bin", 70)]);
    let mut snapshot = snapshot(&disk);
    assert_eq!(snapshot.remove(&root().join("a/b/big.bin")), Some(900));

    let opts = UsageOptions::default();
    // The bytes come off the root, the folder, and everything between.
    assert_eq!(snapshot.view(&root(), opts).unwrap().size_bytes, 100);
    let b = snapshot.view(&root().join("a/b"), opts).unwrap();
    assert_eq!(b.size_bytes, 30);
    let names: Vec<&str> = b.children.iter().map(|c| c.name.as_str()).collect();
    assert_eq!(names, ["keep.bin"], "the removed entry is gone");
    // Siblings elsewhere are untouched.
    assert_eq!(snapshot.info(&root().join("c.bin")).unwrap().size_bytes, 70);
}

fn listed(node: &UsageNode) -> Vec<(String, u64)> {
    let mut all = vec![(node.path.as_str().to_string(), node.size_bytes)];
    for child in &node.children {
        all.extend(listed(child));
    }
    all
}

#[test]
fn forgetting_comes_to_the_same_as_walking_again() {
    let files = [("a/b/big.bin", 900), ("a/b/keep.bin", 30), ("a/x.bin", 200), ("c.bin", 70), ("d/e.bin", 500)];
    let opts = UsageOptions { max_depth: 9, max_children: 99 };
    for gone in ["a/b/big.bin", "a/b", "a", "d/e.bin", "c.bin"] {
        let mut forgetting = snapshot(&tree(&files));
        forgetting.remove(&root().join(gone));
        let inside = format!("{gone}/");
        let left: Vec<(&str, u64)> = files
            .iter()
            .copied()
            .filter(|(f, _)| *f != gone && !f.starts_with(&inside))
            .collect();
        let mut disk = tree(&left);
        if gone == "d/e.bin" {
            disk.children.push(node("d", FileKind::Dir, 64, Vec::new()));
        }
        let walked = snapshot(&disk);
        assert_eq!(
            listed(&forgetting.view(&root(), opts).unwrap()),
            listed(&walked.view(&root(), opts).unwrap()),
            "{gone}"
        );
    }
}

#[test]
fn a_shrunken_folder_takes_its_new_place() {
    let disk = tree(&[("a/big.bin", 900), ("a/keep.bin", 30), ("c.bin", 70)]);
    let mut snapshot = snapshot(&disk);
    snapshot.remove(&root().join("a/big.bin"));
    let tree = snapshot.view(&root(), UsageOptions::default()).unwrap();
    let names: Vec<&str> = tree.children.iter().map(|c| c.name.as_str()).collect();
    assert_eq!(names, ["c.bin", "a"]);
}

#[test]
fn removing_a_folder_takes_its_whole_subtree() {
    let disk = tree(&[("a/b/deep.bin", 500), ("c.bin", 60)]);
    let mut snapshot = snapshot(&disk);
    assert_eq!(snapshot.remove(&root().join("a")), Some(500));
    assert_eq!(snapshot.view(&root(), UsageOptions::default()).unwrap().size_bytes, 60);
    assert!(snapshot.info(&root().join("a/b/deep.bin")).is_none());
}

#[test]
fn removing_refuses_the_root_and_unknown_paths() {
    let disk = tree(&[("a.bin", 10)]);
    let mut snapshot = snapshot(&disk);
    assert_eq!(snapshot.remove(&root()), None);
    assert_eq!(snapshot.remove(&root().join("nope.bin")), None);
    assert_eq!(snapshot.remove(&path("/elsewhere")), None);
    // Neither can what is only reached by stepping up.
    let above = root().join("..").join("a.bin");
    assert!(snapshot.view(&above, UsageOptions::default()).is_none());
    assert_eq!(snapshot.remove(&above), None);
    assert!(snapshot.info(&root().join("a.bin")).is_some());
    // A refused removal changes nothing.
    assert_eq!(snapshot.view(&root(), UsageOptions::default()).unwrap().size_bytes, 10);
}

#[test]
fn attached_volumes_are_recorded_but_not_walked() {
    let mut volume = node("Backup", FileKind::Dir, 64, Vec::new());
    insert(&mut volume.children, &["a", "b.bin"], 1000);
    volume.mounted = true;
    let disk = DiskRoot {
        is_dir: true,
        len: Some(64),
        children: vec![node("Macintosh HD", FileKind::Symlink, 1, Vec::new()), volume],
    };
    let seen = Cell::new(0);
    let snapshot = build_usage_snapshot(
        &path("/Volumes"),
        &disk,
        &|p: UsageProgress| seen.set(p.dirs_scanned),
        &|| seen.get() > 64,
    )
    .expect("/Volumes must not descend into the disks mounted under it");

    let tree = snapshot.view(&path("/Volumes"), UsageOptions::default()).unwrap();
    let mounts: Vec<&UsageNode> = tree.children.iter().filter(|c| c.name == "Backup").collect();
    assert_eq!(mounts.len(), 1);
    for child in mounts {
        assert!(child.is_mount, "{} is another volume", child.path.as_str());
        assert_eq!(child.size_bytes, 0, "its bytes belong to its own total");
        assert!(child.children.is_empty(), "and nothing under it was walked");
    }
    assert_eq!(tree.size_bytes, 0);
}

#[test]
fn the_boot_volume_group_is_entered_and_other_volumes_are_not() {
    let table = Mounts::from_points(&vec![
        path("/"),
        path(DATA_VOLUME),
        path("/System/Volumes/Preboot"),
        path("/System/Volumes/VM"),
        path("/dev"),
    ]);
    let cross = |at: &str| {
        let at = path(at);
        let mounted = table.is_mount_point(&at, &|_: &FsPath| false);
        crossing(&at, mounted)
    };
    // The data half is entered: some of it is only reachable there.
    assert_eq!(cross(DATA_VOLUME), Crossing::EnterDataVolume);
    // Ordinary directories are no boundaries.
    assert_eq!(cross("/System/Volumes"), Crossing::Enter);
    assert_eq!(cross("/Users"), Crossing::Enter);
    // Anything else that is mounted is another disk's business.
    for other in ["/System/Volumes/Preboot", "/System/Volumes/VM", "/dev"] {
        assert_eq!(cross(other), Crossing::Skip, "{}", other);
    }
}

#[test]
fn nothing_the_data_volume_shares_with_root_is_walked_twice() {
    let mut users = node("Users", FileKind::Dir, 64, Vec::new());
    insert(&mut users.children, &["me", "photo.jpg"], 5000);
    users.own = Some((1, 7));
    users.mirror = Some((1, 7));
    let mut update = node("MobileSoftwareUpdate", FileKind::Dir, 64, Vec::new());
    insert(&mut update.children, &["package.bin"], 300);
    update.own = Some((1, 8));
    let mut data = node("Data", FileKind::Dir, 64, vec![users, update]);
    data.mounted = true;
    let disk = DiskRoot { is_dir: true, len: Some(64), children: vec![data] };

    let dirs = Cell::new(0);
    let snapshot = build_usage_snapshot(
        &path("/System/Volumes"),
        &disk,
        &|p: UsageProgress| dirs.set(p.dirs_scanned),
        &|| dirs.get() > 100_000,
    )
    .expect("a firmlinked folder was walked a second time inside the data volume");

    let opts = UsageOptions { max_depth: 3, max_children: usize::MAX };
    let data = snapshot
        .view(&path(DATA_VOLUME), opts)
        .expect("the data volume is inside the walk");
    assert_eq!(data.size_bytes, 300);
    assert!(
        data.children.iter().all(|c| c.name != "Users" || c.children.is_empty()),
        "{} is {} under a second name",
        "/System/Volumes/Data/Users",
        "/Users"
    );
}

#[test]
fn a_volume_marker_survives_the_fold_and_cannot_be_deleted() {
    let mut disk = tree(&[("big.bin", 100)]);
    let mut volume = node("Backup Disk", FileKind::Dir, 64, Vec::new());
    volume.mounted = true;
    disk.children.push(volume);
    let snapshot = snapshot(&disk);

    // One slot, which the file takes.
    let opts = UsageOptions { max_depth: 2, max_children: 1 };
    let tree = snapshot.view(&root(), opts).unwrap();
    let volume = tree
        .children
        .iter()
        .find(|c| c.name == "Backup Disk")
        .expect("the volume is listed even though it sorts last");
    assert!(volume.is_mount);
    assert_eq!(tree.size_bytes, 100, "and adds nothing to the total");

    assert!(snapshot.info(&root().join("Backup Disk")).is_none());
    assert!(snapshot.info(&root().join("big.bin")).is_some());
}

#[test]
fn progress_reports_dirs_and_bytes_on_completion() {
    let disk = tree(&[("a/b.bin", 100), ("c.bin", 23)]);
    let last = RefCell::new(None);
    let snapshot = build_usage_snapshot(
        &root(),
        &disk,
        &|p: UsageProgress| *last.borrow_mut() = Some((p.dirs_scanned, p.bytes_seen)),
        &|| false,
    )
    .unwrap();

    let tree = snapshot.view(&root(), UsageOptions::default()).unwrap();
    assert_eq!(tree.size_bytes, 123);
    // The last tick always comes.
    let (dirs, bytes) = last.borrow().expect("progress must be reported");
    assert_eq!(bytes, 123);
    assert!(dirs >= 2, "root and a/ were entered");
}

#[test]
fn without_a_table_each_path_is_asked_for_itself() {
    let none = Mounts::from_points(&Vec::new());
    assert!(none.is_empty());
    assert!(none.is_mount_point(&path("/x"), &|_: &FsPath| true));
    assert!(!none.is_mount_point(&path("/x"), &|_: &FsPath| false));
    let some = Mounts::from_points(&vec![path("/"), path("/Volumes/A"), path("/Volumes/A/")]);
    assert_eq!(some.len(), 2);
    assert!(some.is_mount_point(&path("/"), &|_: &FsPath| false));
    assert!(!some.is_mount_point(&path("/Users"), &|_: &FsPath| true));
}

#[test]
fn a_folder_is_mirrored_where_both_are_one() {
    assert_eq!(mirrored(Some((1, 2)), Some((1, 2))), Mirrored::Same);
    assert_eq!(mirrored(Some((1, 2)), Some((1, 3))), Mirrored::Different);
    assert_eq!(mirrored(None, Some((1, 3))), Mirrored::Different);
    assert_eq!(mirrored(Some((1, 2)), None), Mirrored::Absent);
}

#[test]
fn the_tree_is_shown_level_by_level() {
    let disk = tree(&[("big/a.bin", 750), ("b.bin", 250)]);
    let tree = build_usage_tree(&root(), &disk, UsageOptions::default());
    assert_eq!(
        du::tree_lines(false, &tree, "/tmp/d"),
        vec![
            "",
            "     1.0 KB  /tmp/d",
            "      750 B  ████████··   big/",
            "      750 B  ████████··     a.bin",
            "      250 B  ███·······   b.bin",
            "",
        ]
    );
    let progress = UsageProgress { dirs_scanned: 3, bytes_seen: 12_000 };
    assert_eq!(du::progress_line(&progress), "\r\x1b[2Kmeasuring — 3 folders, 12 KB");
}

#[test]
fn what_is_removed_is_no_longer_in_view() {
    let disk = tree(&[("a/b/x.bin", 10), ("a/c.bin", 20)]);
    let mut snapshot = snapshot(&disk);
    let gone = root().join("a/b");
    assert_eq!(snapshot.remove(&gone), Some(10));
    assert!(snapshot.view(&gone, UsageOptions::default()).is_none());
    assert!(snapshot.info(&gone).is_none());
    assert!(snapshot.view(&gone.join("x.bin"), UsageOptions::default()).is_none());
    assert_eq!(snapshot.remove(&gone), None);
    assert_eq!(snapshot.view(&root(), UsageOptions::default()).unwrap().size_bytes, 20);
}

#[test]
fn a_walk_inside_the_data_volume_has_no_mirror() {
    // A folder that the root shows as well is walked where it is the place
    // that was asked about.
    let shared = DiskNode {
        own: Some((1, 7)),
        mirror: Some((1, 7)),
        ..node("Users", FileKind::Dir, 0, vec![node("me.bin", FileKind::File, 30, Vec::new())])
    };
    let disk = DiskRoot { is_dir: true, len: None, children: vec![shared] };
    let data = path(DATA_VOLUME);
    let snapshot = build_usage_snapshot(&data, &disk, &|_: UsageProgress| {}, &|| false).unwrap();
    assert_eq!(snapshot.view(&data, UsageOptions::default()).unwrap().size_bytes, 30);
    assert!(matches!(plan(&data, "Users", None, false, Some((1, 7)), Some((1, 7))), Plan::Descend(None)));
}
