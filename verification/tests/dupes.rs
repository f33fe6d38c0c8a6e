use std::cell::RefCell;
use std::collections::hash_map::DefaultHasher;
use std::collections::BTreeMap;
use std::hash::Hasher;

use spotless::cleaner::RemovalBackend;
use spotless::cmd::dupes::{
    groups_lines, intent_line, keeper, nothing_line, prune, prune_list, question, reclaimable, sum_lines,
};
use spotless::dupes::{
    compare_chunks, enters, find_duplicates, DupeFile, DupeGroup, DupeOptions, Verdict, WalkedFile,
};
use spotless::paths::FsPath;

type Files = BTreeMap<String, Vec<u8>>;

fn write(files: &mut Files, path: &str, bytes: &[u8]) {
    files.insert(format!("/tmp/d/{path}"), bytes.to_vec());
}

fn walked(files: &Files) -> Vec<WalkedFile> {
    files
        .iter()
        .map(|(path, bytes)| WalkedFile {
            path: FsPath::new(path),
            is_file: true,
            len: Some(bytes.len() as u64),
        })
        .collect()
}

fn files_equal(files: &Files, a: &FsPath, b: &FsPath) -> bool {
    let (a, b) = (files.get(a.as_str()), files.get(b.as_str()));
    if a.is_none() || b.is_none() {
        return false;
    }
    let end = Vec::new();
    match compare_chunks(a, b) {
        Verdict::Different => false,
        Verdict::Same => true,
        Verdict::Undecided => compare_chunks(Some(&end), Some(&end)) == Verdict::Same,
    }
}

fn find(files: &Files, min_bytes: u64) -> Vec<DupeGroup> {
    find_duplicates(
        &walked(files),
        DupeOptions { min_bytes },
        &|p: &FsPath| {
            let mut hasher = DefaultHasher::new();
            hasher.write(files.get(p.as_str())?);
            Some(hasher.finish())
        },
        &|a: &FsPath, b: &FsPath| files_equal(files, a, b),
    )
}

#[test]
fn groups_identical_files() {
    let mut files = Files::new();
    let content = vec![b'a'; 2048];
    write(&mut files, "a.bin", &content);
    write(&mut files, "sub/b.bin", &content);
    write(&mut files, "c.bin", &content);
    // One of the same size that holds something else.
    let mut other = vec![b'a'; 2048];
    other[0] = b'z';
    write(&mut files, "unique.bin", &other);

    let groups = find(&files, 1);

    assert_eq!(groups.len(), 1);
    assert_eq!(groups[0].files.len(), 3);
    assert_eq!(groups[0].size_bytes, 2048);
    // Two copies are redundant.
    assert_eq!(groups[0].reclaimable_bytes, 4096);
}

#[test]
fn same_size_different_content_is_not_a_group() {
    let mut files = Files::new();
    write(&mut files, "a.bin", &[1u8; 100]);
    write(&mut files, "b.bin", &[2u8; 100]);
    assert!(find(&files, 1).is_empty());
}

#[test]
fn a_colliding_hash_makes_no_duplicates() {
    let mut files = Files::new();
    write(&mut files, "a.bin", &[1u8; 100]);
    write(&mut files, "b.bin", &[2u8; 100]);
    write(&mut files, "c.bin", &[1u8; 100]);
    let groups = find_duplicates(
        &walked(&files),
        DupeOptions { min_bytes: 1 },
        &|_: &FsPath| Some(0),
        &|a: &FsPath, b: &FsPath| files_equal(&files, a, b),
    );
    assert_eq!(groups.len(), 1);
    let names: Vec<&str> = groups[0].files.iter().map(|f| f.path.as_str()).collect();
    assert_eq!(names, ["/tmp/d/a.bin", "/tmp/d/c.bin"]);
}

#[test]
fn respects_min_size() {
    let mut files = Files::new();
    let content = vec![b'x'; 500];
    write(&mut files, "a.bin", &content);
    write(&mut files, "b.bin", &content);

    // 500 bytes are below the floor.
    assert!(find(&files, 1024).is_empty());
    assert_eq!(DupeOptions::default().min_bytes, 1024 * 1024);
}

#[test]
fn files_equal_detects_difference() {
    let mut files = Files::new();
    write(&mut files, "a", b"hello world");
    write(&mut files, "b", b"hello world");
    write(&mut files, "c", b"hello worlZ");
    let at = |name: &str| FsPath::new(&format!("/tmp/d/{name}"));
    assert!(files_equal(&files, &at("a"), &at("b")));
    assert!(!files_equal(&files, &at("a"), &at("c")));
    assert!(!files_equal(&files, &at("a"), &at("gone")));
}

#[test]
fn chunks_are_compared_to_the_end() {
    let (x, y, end) = (vec![1u8, 2], vec![1u8, 3], Vec::new());
    assert_eq!(compare_chunks(Some(&x), Some(&x)), Verdict::Undecided);
    assert_eq!(compare_chunks(Some(&x), Some(&y)), Verdict::Different);
    assert_eq!(compare_chunks(Some(&x), Some(&end)), Verdict::Different);
    assert_eq!(compare_chunks(Some(&end), Some(&end)), Verdict::Same);
    assert_eq!(compare_chunks(None, Some(&end)), Verdict::Different);
}

#[test]
fn groups_come_largest_first() {
    let mut files = Files::new();
    for (name, size) in [("a1", 10), ("a2", 10), ("a3", 10), ("b1", 15), ("b2", 15), ("c1", 50), ("c2", 50)] {
        write(&mut files, name, &vec![name.as_bytes()[0]; size]);
    }
    let gains: Vec<u64> = find(&files, 1).iter().map(|g| g.reclaimable_bytes).collect();
    assert_eq!(gains, vec![50, 20, 15]);
}

#[test]
fn a_walk_stays_on_its_volume() {
    assert!(enters(0, true));
    assert!(enters(3, false));
    assert!(!enters(1, true));
}

fn group(paths: &[&str]) -> DupeGroup {
    DupeGroup {
        size_bytes: 10,
        reclaimable_bytes: 10 * (paths.len() as u64 - 1),
        files: paths
            .iter()
            .map(|p| DupeFile { path: FsPath::new(p), size_bytes: 10 })
            .collect(),
    }
}

#[test]
fn keeps_the_shortest_path() {
    let g = group(&["/a/photo (2).jpg", "/a/photo.jpg", "/a/b/photo.jpg"]);
    assert_eq!(keeper(&g), FsPath::new("/a/photo.jpg"));
}

#[test]
fn keeper_is_stable_when_lengths_tie() {
    let g = group(&["/a/bbb.jpg", "/a/aaa.jpg"]);
    assert_eq!(keeper(&g), FsPath::new("/a/aaa.jpg"));
}

#[test]
fn prune_list_spares_exactly_one_per_group() {
    let groups = vec![group(&["/a/x.jpg", "/a/y.jpg", "/a/z.jpg"]), group(&["/b/1", "/b/22"])];
    let doomed = prune_list(&groups);
    assert_eq!(doomed.len(), 3);
    assert!(!doomed.iter().any(|(p, _)| p == &FsPath::new("/a/x.jpg")));
    assert!(!doomed.iter().any(|(p, _)| p == &FsPath::new("/b/1")));
    assert_eq!(reclaimable(&groups), 30);
}

struct Removals(RefCell<Vec<String>>);

impl RemovalBackend for Removals {
    fn remove(&self, path: &FsPath) -> Result<(), String> {
        self.0.borrow_mut().push(path.as_str().to_string());
        Ok(())
    }
}

#[test]
fn only_regular_files_inside_the_folder_are_pruned() {
    let doomed = vec![
        (FsPath::new("/data/a.jpg"), 5),
        (FsPath::new("/data/link.jpg"), 7),
        (FsPath::new("/other/b.jpg"), 11),
    ];
    let backend = Removals(RefCell::new(Vec::new()));
    let report = prune(
        &doomed,
        &FsPath::new("/data"),
        None,
        &|p: &FsPath| !p.as_str().contains("link"),
        &|_: &FsPath| None,
        &backend,
    );
    assert_eq!(*backend.0.borrow(), ["/data/a.jpg"]);
    assert_eq!(report.bytes_reclaimed, 5);
}

#[test]
fn groups_are_shown_with_the_copy_that_is_kept() {
    let groups = vec![group(&["/a/x (2).jpg", "/a/x.jpg"]), group(&["/a/1", "/a/22"])];
    assert_eq!(
        groups_lines(false, &groups, 1, &FsPath::new("/a")),
        vec![
            "",
            "  10 B × 2  (10 B reclaimable)",
            "    copy x (2).jpg",
            "    keep x.jpg",
            "",
            "  … and 1 more groups (--limit to show them)",
            "",
        ]
    );
}

#[test]
fn what_pruning_would_do_is_told() {
    let groups = vec![group(&["/a/x", "/a/yy", "/a/zzz"])];
    assert_eq!(
        sum_lines(false, &groups, false),
        vec![
            "  20 B reclaimable across 1 group",
            "  Add --prune to keep one copy of each group and trash the rest.",
            "",
        ]
    );
    assert_eq!(sum_lines(false, &groups, true).len(), 2);
    assert_eq!(intent_line(false, 1, 2), "  --prune would keep 1 file and trash 2 copies.");
    assert_eq!(question(2, &groups), "Move 2 extra copies (20 B) to the Trash?");
    assert_eq!(
        nothing_line(false, 1000, &FsPath::new("/a")),
        "No duplicates over 1.0 KB under /a."
    );
}

#[test]
fn no_file_is_a_copy_of_itself() {
    let mut files = Files::new();
    write(&mut files, "lone.bin", &[7; 100]);
    write(&mut files, "a.bin", &[1; 50]);
    write(&mut files, "b.bin", &[1; 50]);
    let groups = find(&files, 1);
    assert_eq!(groups.len(), 1);
    let mut listed: Vec<&str> =
        groups.iter().flat_map(|g| g.files.iter().map(|f| f.path.as_str())).collect();
    listed.sort();
    let once = listed.len();
    listed.dedup();
    assert_eq!(listed.len(), once);
    assert!(!listed.iter().any(|p| p.ends_with("lone.bin")));
}

#[test]
fn many_large_files_of_different_sizes_are_no_trouble() {
    // Together they do not fit a counter; the copies of each size do.
    let file = |path: &str, len: u64| WalkedFile { path: FsPath::new(path), is_file: true, len: Some(len) };
    let walked = vec![file("/a", u64::MAX), file("/b", u64::MAX - 1), file("/c", u64::MAX)];
    let groups = find_duplicates(
        &walked,
        DupeOptions { min_bytes: 1 },
        &|_: &FsPath| Some(1),
        &|_: &FsPath, _: &FsPath| true,
    );
    assert_eq!(groups.len(), 1);
    assert_eq!(groups[0].reclaimable_bytes, u64::MAX);
}
