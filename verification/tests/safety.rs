use std::cell::RefCell;

use spotless::backend::{describes_trash, Route, RoutingBackend};
use spotless::cleaner::{clean_items, fresh_size, RemovalBackend};
use spotless::cmd::clean;
use spotless::disk::{FileKind, FileNode, Probe, WalkEntry};
use spotless::model::{Category, SafetyTier, ScanItem, ScanReport, ScanTarget, Scope, TargetScan};
use spotless::paths::{expand_tilde, home_dir, real_home, resolve, FsPath};
use spotless::safety::{is_within, normalize_lexical, RefusalReason, SafetyGuard};

fn path(text: &str) -> FsPath {
    FsPath::new(text)
}

/// Nothing exists, so nothing resolves.
fn nowhere(_: &FsPath) -> Option<FsPath> {
    None
}

#[derive(Default)]
struct RecordingBackend {
    removed: RefCell<Vec<FsPath>>,
    failing: Option<String>,
}

impl RemovalBackend for RecordingBackend {
    fn remove(&self, path: &FsPath) -> Result<(), String> {
        if self.failing.as_deref() == Some(path.as_str()) {
            return Err("in use".to_string());
        }
        self.removed.borrow_mut().push(path.clone());
        Ok(())
    }
}

fn cleaning_guard() -> SafetyGuard {
    SafetyGuard::with_roots(vec![path("/System")], vec![path("/approved")], &nowhere)
}

fn item(at: &str, size: u64) -> ScanItem {
    ScanItem { target_id: "t".to_string(), path: path(at), size_bytes: size, is_dir: false }
}

#[test]
fn dry_run_records_but_removes_nothing() {
    let backend = RecordingBackend::default();
    let items = vec![item("/approved/a", 10), item("/approved/b", 20)];
    let report = clean_items(&items, &cleaning_guard(), None, &nowhere, &backend, true);

    assert!(report.dry_run);
    assert_eq!(report.removed.len(), 2);
    assert_eq!(report.bytes_reclaimed, 30);
    // The backend is never called in a dry run.
    assert!(backend.removed.borrow().is_empty());
}

#[test]
fn refuses_unsafe_paths_and_keeps_going() {
    let backend = RecordingBackend::default();
    let items = vec![item("/System/important", 999), item("/approved/ok", 40)];
    let report = clean_items(&items, &cleaning_guard(), None, &nowhere, &backend, false);

    assert_eq!(report.refused.len(), 1);
    assert_eq!(report.removed.len(), 1);
    assert_eq!(report.bytes_reclaimed, 40);
    assert_eq!(backend.removed.borrow().len(), 1);
    assert_eq!(backend.removed.borrow()[0], path("/approved/ok"));
}

#[test]
fn real_removal_invokes_backend() {
    let backend = RecordingBackend::default();
    let items = vec![item("/approved/x", 5)];
    let report = clean_items(&items, &cleaning_guard(), None, &nowhere, &backend, false);

    assert_eq!(report.removed.len(), 1);
    assert_eq!(backend.removed.borrow().len(), 1);
}

#[test]
fn a_failure_is_recorded_and_reclaims_nothing() {
    let backend = RecordingBackend { failing: Some("/approved/a".to_string()), ..Default::default() };
    let items = vec![item("/approved/a", 10), item("/approved/b", 20)];
    let report = clean_items(&items, &cleaning_guard(), None, &nowhere, &backend, false);
    assert_eq!(report.failed.len(), 1);
    assert_eq!(report.failed[0].path, path("/approved/a"));
    assert_eq!(report.failed[0].error, "in use");
    assert_eq!(report.bytes_reclaimed, 20);
}

#[test]
fn a_fresh_size_is_measured_again() {
    let file = |name: &str, len: u64| {
        WalkEntry::Node(FileNode {
            name: name.to_string(),
            kind: FileKind::File,
            len: Some(len),
            children: Vec::new(),
        })
    };
    let probe = Probe {
        is_file: false,
        is_dir: true,
        len: Some(64),
        walk: WalkEntry::Node(FileNode {
            name: "d".to_string(),
            kind: FileKind::Dir,
            len: Some(64),
            children: vec![file("a", 3), file("b", 4)],
        }),
    };
    assert_eq!(fresh_size(&path("/d"), &probe), 7);
}

fn guard() -> SafetyGuard {
    SafetyGuard::with_roots(
        vec![path("/System"), path("/Users/me/Documents")],
        vec![path("/Users/me/Library/Caches"), path("/Library/Caches")],
        &nowhere,
    )
}

fn validate(guard: &SafetyGuard, at: &str) -> Result<FsPath, RefusalReason> {
    guard.validate(&path(at), None, None)
}

#[test]
fn allows_path_inside_approved_root() {
    let g = guard();
    assert!(validate(&g, "/Users/me/Library/Caches/com.example.app/blob").is_ok());
}

#[test]
fn refuses_system_paths() {
    let g = guard();
    match validate(&g, "/System/Library/Caches/whatever") {
        Err(RefusalReason::DeniedRoot(root)) => assert_eq!(root, path("/System")),
        other => panic!("{other:?}"),
    }
}

#[test]
fn refuses_paths_outside_approved_roots() {
    let g = guard();
    let r = validate(&g, "/Users/me/Projects/secret.txt");
    assert!(matches!(r, Err(RefusalReason::OutsideApprovedRoots)));
}

#[test]
fn refuses_denied_even_if_it_looks_approved() {
    let g = guard();
    match validate(&g, "/Users/me/Documents/taxes/2025.pdf") {
        Err(RefusalReason::DeniedRoot(root)) => assert_eq!(root, path("/Users/me/Documents")),
        other => panic!("{other:?}"),
    }
}

#[test]
fn refuses_empty_path() {
    let g = guard();
    assert!(matches!(validate(&g, ""), Err(RefusalReason::Malformed)));
}

#[test]
fn parent_dir_traversal_cannot_escape_approved_root() {
    let g = guard();
    let r = validate(&g, "/Users/me/Library/Caches/../../evil");
    assert!(matches!(r, Err(RefusalReason::OutsideApprovedRoots)));
}

#[test]
fn approved_root_matches_through_a_symlinked_prefix() {
    // /var is a link to /private/var: what exists there resolves to the other
    // name.
    let resolve = |p: &FsPath| {
        p.as_str()
            .strip_prefix("/var/")
            .map(|rest| FsPath::new(&format!("/private/var/{rest}")))
    };
    let root = path("/var/tmp").join("Caches");
    let file = root.join("com.example/blob.bin");

    let mut g = SafetyGuard::with_roots(vec![], vec![], &resolve);
    g.approve_root(&root, resolve(&root).as_ref());
    assert!(
        g.validate(&file, resolve(&file).as_ref(), None).is_ok(),
        "a file inside an approved (possibly symlinked) root must be allowed"
    );
}

#[test]
fn a_link_out_of_an_approved_root_is_refused() {
    let g = guard();
    let r = g.validate(
        &path("/Users/me/Library/Caches/link"),
        Some(&path("/Users/me/Projects")),
        None,
    );
    assert!(matches!(r, Err(RefusalReason::OutsideApprovedRoots)));
}

#[test]
fn is_within_matches_exact_and_nested() {
    assert!(is_within(&path("/a/b"), &path("/a/b")));
    assert!(is_within(&path("/a/b/c"), &path("/a/b")));
    assert!(!is_within(&path("/a/bc"), &path("/a/b")));
    assert!(!is_within(&path("/a"), &path("/a/b")));
}

#[test]
fn the_home_directory_itself_is_refused() {
    let home = path("/Users/me");
    let g = SafetyGuard::with_roots(vec![], vec![path("/Users")], &nowhere);
    assert!(matches!(
        g.validate(&home, None, Some(&home)),
        Err(RefusalReason::HomeRoot)
    ));
    assert!(g.validate(&path("/Users/me/x"), None, Some(&home)).is_ok());
}

#[test]
fn a_guard_for_uninstalling_lets_one_bundle_be_approved() {
    let app = path("/Applications/Foo.app");
    let mut plain = SafetyGuard::system_only(&nowhere);
    plain.approve_root(&app, None);
    assert!(matches!(plain.validate(&app, None, None), Err(RefusalReason::DeniedRoot(_))));

    let mut g = SafetyGuard::for_uninstall(&nowhere);
    assert!(matches!(g.validate(&app, None, None), Err(RefusalReason::OutsideApprovedRoots)));
    g.approve_root(&app, None);
    assert!(g.validate(&app, None, None).is_ok());
    assert!(g.validate(&path("/Applications/Bar.app"), None, None).is_err());
}

#[test]
fn refusals_say_why() {
    assert_eq!(
        RefusalReason::DeniedRoot(path("/System")).message(),
        "path is within a protected system location: /System"
    );
    assert_eq!(
        RefusalReason::OutsideApprovedRoots.message(),
        "path is outside the approved cleaning roots"
    );
    assert_eq!(
        RefusalReason::HomeRoot.message(),
        "refusing to operate on the home directory itself"
    );
    assert_eq!(RefusalReason::Malformed.message(), "path is empty or malformed");
}

#[test]
fn normalizing_twice_changes_nothing() {
    let once = normalize_lexical(&path("/a/./b/../c"));
    assert_eq!(once.as_str(), "/a/c");
    assert_eq!(normalize_lexical(&once), once);
}

#[test]
fn expands_bare_tilde() {
    let home = home_dir(Some(path("/home/test")), Some(path("/Users/me")));
    assert_eq!(expand_tilde("~", home.as_ref()), path("/home/test"));
}

#[test]
fn expands_tilde_prefix() {
    let home = home_dir(Some(path("/home/test")), None);
    assert_eq!(
        expand_tilde("~/Library/Caches", home.as_ref()),
        path("/home/test/Library/Caches")
    );
    // However many slashes follow, it stays under the home directory.
    assert_eq!(expand_tilde("~//Library", home.as_ref()), path("/home/test/Library"));
    assert!(expand_tilde("~///", home.as_ref()).same(&path("/home/test")));
}

#[test]
fn leaves_absolute_paths_untouched() {
    assert_eq!(
        expand_tilde("/Library/Caches", Some(&path("/Users/me"))),
        path("/Library/Caches")
    );
}

#[test]
fn without_a_home_the_tilde_stays() {
    assert_eq!(resolve("~/x", None).as_str(), "~/x");
    assert_eq!(resolve("~", None).as_str(), "~");
    assert_eq!(resolve("~other/x", Some(&path("/h"))).as_str(), "~other/x");
}

#[test]
fn the_home_of_the_user_database_comes_first() {
    assert_eq!(real_home(Some(path("/Users/me")), Some(path("/container"))), Some(path("/Users/me")));
    assert_eq!(real_home(None, Some(path("/container"))), Some(path("/container")));
    assert_eq!(home_dir(None, Some(path("/Users/me"))), Some(path("/Users/me")));
}

#[test]
fn paths_come_apart_at_their_separators() {
    let p = path("/a//b/./c.tar.gz/");
    assert_eq!(p.file_name().as_deref(), Some("c.tar.gz"));
    assert_eq!(p.extension().as_deref(), Some("gz"));
    assert_eq!(p.file_stem().as_deref(), Some("c.tar"));
    assert_eq!(p.parent(), Some(path("/a/b")));
    assert_eq!(path(".hidden").extension(), None);
    assert_eq!(path("/").parent(), None);
    assert_eq!(path("/a/..").file_name(), None);
    assert_eq!(path("/a").join("/b").as_str(), "/b");
    assert_eq!(path("/a/b/c").below(&path("/a")).as_str(), "b/c");
    assert_eq!(path("/a/b/c").below(&path("/x")).as_str(), "/a/b/c");
}

fn target(id: &str, at: &str, permanent: bool) -> ScanTarget {
    ScanTarget {
        id: id.to_string(),
        name: format!("Name of {id}"),
        path: at.to_string(),
        scope: Scope::Contents,
        safety: SafetyTier::Safe,
        category: Category::UserCache,
        description: format!("About {id}."),
        requires_app_quit: false,
        permanent,
        requires: None,
    }
}

#[test]
fn what_is_in_the_trash_is_deleted_and_the_rest_is_trashed() {
    let home = path("/Users/me");
    let selected = vec![target("trash", "~/.Trash", true), target("other", "/opt/cache", false)];
    let items = vec![
        item("/Users/me/.Trash/old", 10),
        item("/opt/cache/x", 20),
        item("/opt/elsewhere", 30),
    ];
    let (trash, delete) = (RecordingBackend::default(), RecordingBackend::default());
    let report =
        clean::execute(&selected, &items, false, false, Some(&home), &nowhere, &trash, &delete);
    assert_eq!(*delete.removed.borrow(), vec![path("/Users/me/.Trash/old")]);
    assert_eq!(*trash.removed.borrow(), vec![path("/opt/cache/x")]);
    // Outside the roots of the targets nothing goes.
    assert_eq!(report.refused.len(), 1);
    assert_eq!(report.bytes_reclaimed, 30);

    let (trash, delete) = (RecordingBackend::default(), RecordingBackend::default());
    clean::execute(&selected, &items, true, false, Some(&home), &nowhere, &trash, &delete);
    assert!(trash.removed.borrow().is_empty());
    assert_eq!(delete.removed.borrow().len(), 2);

    let (trash, delete) = (RecordingBackend::default(), RecordingBackend::default());
    let plan = clean::execute(&selected, &items, false, true, Some(&home), &nowhere, &trash, &delete);
    assert!(plan.dry_run);
    assert_eq!(plan.bytes_reclaimed, report.bytes_reclaimed);
    assert!(trash.removed.borrow().is_empty() && delete.removed.borrow().is_empty());
}

#[test]
fn routes_go_by_the_root() {
    let (trash, delete) = (RecordingBackend::default(), RecordingBackend::default());
    let routing = RoutingBackend {
        permanent_roots: vec![path("/Users/me/.Trash")],
        trash: &trash,
        delete: &delete,
    };
    assert_eq!(routing.route(&path("/Users/me/.Trash/a/b")), Route::Delete);
    assert_eq!(routing.route(&path("/Users/me/.Trashes")), Route::Trash);
    assert!(routing.remove(&path("/Users/me/.Trash/a")).is_ok());
    assert_eq!(delete.removed.borrow().len(), 1);
    assert_eq!(describes_trash(true), "deleted permanently");
    assert_eq!(describes_trash(false), "moved to the Trash");
}

fn scanned(id: &str, size: u64, permanent: bool) -> TargetScan {
    TargetScan {
        target: target(id, "/x", permanent),
        items: vec![item(&format!("/x/{id}"), size)],
        total_bytes: size,
        warnings: Vec::new(),
    }
}

#[test]
fn the_plan_marks_what_cannot_be_undone() {
    let report = ScanReport {
        targets: vec![scanned("small", 1000, false), scanned("none", 0, false), scanned("bin", 5000, true)],
        total_bytes: 6000,
    };
    let items = clean::items_of(&report);
    assert_eq!(items.len(), 3);
    let plan = spotless::CleanReport {
        removed: vec![path("/x/small"), path("/x/bin")],
        bytes_reclaimed: 6000,
        dry_run: true,
        ..Default::default()
    };
    assert_eq!(
        clean::plan_lines(false, &report, &plan, false),
        vec![
            "",
            "     5.0 KB  safe      Name of bin (deleted permanently)",
            "             About bin.",
            "     1.0 KB  safe      Name of small",
            "             About small.",
            "",
            "  6.0 KB in 2 items, moved to the Trash",
            "  The rows marked above have no Trash to move to and are deleted outright.",
            "",
        ]
    );
    let lines = clean::plan_lines(false, &report, &plan, true);
    assert_eq!(lines[1], "     5.0 KB  safe      Name of bin");
    assert_eq!(lines[7], "  Permanent delete: these files will not be recoverable.");

    let selected = vec![target("bin", "/x", true)];
    assert_eq!(
        clean::clean_question(false, &plan, false, &selected),
        "Remove 6.0 KB — moved to the Trash, some deleted outright?"
    );
    assert_eq!(
        clean::clean_question(false, &plan, true, &selected),
        "Remove 6.0 KB — deleted permanently?"
    );
}

#[test]
fn the_result_tells_what_was_skipped_and_what_failed() {
    let done = spotless::CleanReport {
        removed: vec![path("/x/a")],
        refused: vec![spotless::RefusedItem { path: path("/x/b"), reason: "nope".to_string() }],
        failed: vec![spotless::FailedItem { path: path("/x/c"), error: "in use".to_string() }],
        bytes_reclaimed: 1000,
        dry_run: false,
    };
    assert_eq!(
        clean::result_lines(false, &done, false),
        vec![
            "✓ 1.0 KB reclaimed from 1 item, moved to the Trash.",
            "  skipped /x/b — nope",
            "  failed /x/c — in use",
            "  The space returns when the Trash is emptied: `spotless trash --empty`.",
        ]
    );
    assert_eq!(clean::result_lines(false, &done, true).len(), 3);
}

#[test]
fn an_empty_root_approves_nothing() {
    let mut g = SafetyGuard::with_roots(Vec::new(), Vec::new(), &nowhere);
    g.approve_root(&path(""), None);
    assert!(matches!(validate(&g, "/zz/file"), Err(RefusalReason::OutsideApprovedRoots)));
}

#[test]
fn uninstalling_differs_only_where_apps_live() {
    let plain = SafetyGuard::system_only(&nowhere);
    let apps = SafetyGuard::for_uninstall(&nowhere);
    for at in ["/System/x", "/usr/bin/x", "/tmp/x", "/zz/file", "/"] {
        let (a, b) = (validate(&plain, at), validate(&apps, at));
        assert_eq!(format!("{a:?}"), format!("{b:?}"), "{at}");
    }
}
