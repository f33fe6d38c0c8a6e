use spotless::apps::AppInfo;
use spotless::devscan::{DevArtifact, DevProgress};
use spotless::model::{Category, SafetyTier, ScanItem, ScanTarget, Scope, TargetScan};
use spotless::paths::FsPath;
use spotless::render::{
    app_cells, centered, dev_cells, empty_message, keys, scan_cells, tick, tier_word, title_text, trash_text, Area,
    TrashText,
};
use spotless::trash::{EmptyReport, TrashSummary};
use spotless::tui::{
    dev_progress, emptied_line, removed_line, scan_progress, Action, App, Job, Key, Msg, Row, Tab,
};
use spotless::{CleanReport, RefusedItem};

#[test]
fn tabs_wrap_in_both_directions() {
    assert_eq!(Tab::Scan.shifted(-1).title(), "Trash");
    assert_eq!(Tab::Trash.shifted(1).title(), "Scan");
    assert_eq!(Tab::Dev.shifted(-6), Tab::Trash);
    assert_eq!(Tab::Apps.shifted(isize::MIN), Tab::Apps);
}

#[test]
fn removed_line_mentions_refusals() {
    let report = CleanReport {
        bytes_reclaimed: 1000,
        refused: vec![RefusedItem { path: FsPath::new("/x"), reason: "nope".to_string() }],
        ..Default::default()
    };
    let line = removed_line(&report);
    assert!(line.contains("1.0 KB"), "{line}");
    assert!(line.contains("1 refused"), "{line}");
    assert_eq!(line, "Reclaimed 1.0 KB from 0 items. 1 refused.");
}

fn scanned(id: &str, size: u64, safety: SafetyTier) -> TargetScan {
    TargetScan {
        target: ScanTarget {
            id: id.to_string(),
            name: id.to_string(),
            path: "/x".to_string(),
            scope: Scope::Contents,
            safety,
            category: Category::Other,
            description: String::new(),
            requires_app_quit: false,
            permanent: false,
            requires: None,
        },
        items: vec![ScanItem {
            target_id: id.to_string(),
            path: FsPath::new(&format!("/x/{id}")),
            size_bytes: size,
            is_dir: false,
        }],
        total_bytes: size,
        warnings: Vec::new(),
    }
}

fn artifact(at: &str, size: u64) -> DevArtifact {
    DevArtifact {
        tool: "Cargo".to_string(),
        name: "target".to_string(),
        path: FsPath::new(at),
        size_bytes: size,
        modified_secs: None,
        safety: SafetyTier::Safe,
        description: String::new(),
    }
}

fn installed(name: &str) -> AppInfo {
    AppInfo {
        name: name.to_string(),
        path: FsPath::new(&format!("/Applications/{name}.app")),
        bundle_id: None,
        size_bytes: Some(5000),
    }
}

fn press(app: &mut App, c: char) -> Option<Job> {
    app.on_key(Key::Char(c), false)
}

fn started() -> App {
    let mut app = App::new(Vec::new());
    assert!(matches!(app.refresh(), Some(Job::Scan)));
    let done = vec![
        scanned("small", 10, SafetyTier::Safe),
        scanned("none", 0, SafetyTier::Safe),
        scanned("large", 500, SafetyTier::Caution),
    ];
    assert!(app.handle(Msg::ScanDone(done)).is_none());
    app
}

#[test]
fn safe_targets_are_ticked_and_the_largest_comes_first() {
    let app = started();
    let rows: Vec<(&str, bool)> = app.scan.iter().map(|r| (r.item.target.id.as_str(), r.selected)).collect();
    assert_eq!(rows, vec![("large", false), ("small", true)]);
    assert_eq!(app.selected_bytes(), 10);
    assert_eq!(app.status, "space selects · c cleans");
    assert!(app.busy.is_none());
}

#[test]
fn a_clean_takes_a_question_and_a_yes() {
    let mut app = started();
    assert!(press(&mut app, 'c').is_none());
    let confirm = app.confirm.as_ref().unwrap();
    assert_eq!(confirm.question, "Move 10 B to the Trash?");
    assert_eq!(confirm.action, Action::CleanScan);
    // Any other key takes it back, and does nothing else.
    assert!(press(&mut app, 'q').is_none());
    assert!(app.confirm.is_none());
    assert!(!app.quit);
    assert_eq!(app.status, "Cancelled.");

    press(&mut app, 'c');
    match press(&mut app, 'Y') {
        Some(Job::CleanScan(items)) => {
            assert_eq!(items.len(), 1);
            assert_eq!(items[0].path.as_str(), "/x/small");
        }
        _ => panic!("nothing started"),
    }
    assert_eq!(app.busy.as_deref(), Some("removing…"));
    // While that runs nothing else starts.
    assert!(press(&mut app, 'r').is_none());
    press(&mut app, 'c');
    assert!(app.confirm.is_none());
    // Afterwards the list is measured again.
    assert!(matches!(app.handle(Msg::Finished("Done.".to_string())), Some(Job::Scan)));
    assert_eq!(app.status, "Done.");
    assert_eq!(app.busy.as_deref(), Some("scanning…"));
}

#[test]
fn nothing_ticked_is_nothing_asked() {
    let mut app = started();
    press(&mut app, 'a');
    assert!(app.scan.iter().all(|r| r.selected));
    press(&mut app, 'a');
    assert!(app.scan.iter().all(|r| !r.selected));
    press(&mut app, 'c');
    assert!(app.confirm.is_none());
    assert_eq!(app.status, "Nothing selected — press Space first.");
    press(&mut app, ' ');
    assert_eq!(app.selected_bytes(), 500);
    press(&mut app, ' ');
    assert_eq!(app.selected_bytes(), 0);
}

#[test]
fn the_cursor_stays_in_the_list() {
    let mut app = started();
    assert_eq!(app.here(), 0);
    app.on_key(Key::Up, false);
    assert_eq!(app.here(), 0);
    for _ in 0..5 {
        app.on_key(Key::Down, false);
    }
    assert_eq!(app.here(), 1);
    app.handle(Msg::ScanDone(vec![scanned("one", 1, SafetyTier::Safe)]));
    assert_eq!(app.here(), 0);
}

#[test]
fn tabs_load_on_the_first_visit() {
    let mut app = started();
    assert!(matches!(app.on_key(Key::Tab, false), Some(Job::Dev)));
    // One worker at a time: the next tab waits for a key.
    assert!(app.on_key(Key::Right, false).is_none());
    assert_eq!(app.tab, Tab::Apps);
    app.handle(Msg::DevDone(vec![artifact("/a/target", 9), artifact("/b/target", 3)]));
    assert!(app.busy.is_none());
    assert!(matches!(press(&mut app, 'r'), Some(Job::Apps)));
    app.handle(Msg::AppsDone(vec![installed("Foo"), installed("Bar")]));
    assert_eq!(app.status, "u uninstalls the highlighted app");
    // What is loaded is not loaded again.
    assert!(press(&mut app, 'h').is_none());
    assert_eq!(app.tab, Tab::Dev);
    assert!(app.dev.iter().all(|r| !r.selected));
    press(&mut app, 'j');
    press(&mut app, ' ');
    press(&mut app, 'c');
    assert_eq!(app.confirm.as_ref().unwrap().question, "Move 3 B of build artifacts to the Trash?");
    match press(&mut app, 'y') {
        Some(Job::CleanDev(artifacts)) => assert_eq!(artifacts[0].path.as_str(), "/b/target"),
        _ => panic!("nothing started"),
    }
}

#[test]
fn an_uninstall_is_of_the_app_under_the_cursor() {
    let mut app = started();
    app.tab = Tab::Apps;
    assert!(press(&mut app, 'u').is_none());
    assert!(app.confirm.is_none());
    app.handle(Msg::AppsDone(vec![installed("Foo"), installed("Bar")]));
    press(&mut app, 'j');
    press(&mut app, 'u');
    assert_eq!(app.confirm.as_ref().unwrap().question, "Uninstall Bar and its leftovers?");
    assert_eq!(title_text(&app), "5.0 KB highlighted");
    app.apps.clear();
    assert!(press(&mut app, 'y').is_none());
    assert_eq!(app.status, "The app is no longer in the list.");
    assert!(app.busy.is_none());
}

#[test]
fn the_trash_is_emptied_only_when_there_is_something_in_it() {
    let mut app = started();
    assert!(matches!(app.on_key(Key::BackTab, false), Some(Job::Trash)));
    press(&mut app, 'e');
    assert!(app.confirm.is_none());
    app.handle(Msg::TrashDone(TrashSummary { bytes: 0, items: 0 }));
    press(&mut app, 'e');
    assert!(app.confirm.is_none());
    app.handle(Msg::TrashDone(TrashSummary { bytes: 2000, items: 2 }));
    // While it is measured again there is no question either.
    assert!(matches!(press(&mut app, 'r'), Some(Job::Trash)));
    press(&mut app, 'e');
    assert!(app.confirm.is_none());
    app.handle(Msg::TrashDone(TrashSummary { bytes: 2000, items: 2 }));
    press(&mut app, 'e');
    assert_eq!(
        app.confirm.as_ref().unwrap().question,
        "Permanently delete 2.0 KB in the Trash? This cannot be undone."
    );
    assert!(matches!(press(&mut app, 'y'), Some(Job::EmptyTrash)));
}

#[test]
fn some_keys_quit() {
    for (key, control) in [(Key::Char('q'), false), (Key::Esc, false), (Key::Char('c'), true)] {
        let mut app = started();
        app.on_key(key, control);
        assert!(app.quit);
    }
    let mut app = started();
    assert!(app.on_key(Key::Other, false).is_none());
    assert!(!app.quit);
}

#[test]
fn work_is_told_in_one_line() {
    let report = EmptyReport { removed: 1, failed: Vec::new(), bytes_reclaimed: 5 };
    assert_eq!(emptied_line(&report), "Emptied 5 B from 1 item.");
    assert_eq!(scan_progress("Caches"), "scanning Caches");
    let progress = DevProgress { dirs_scanned: 3, found: 1, bytes_found: 9, current: String::new() };
    assert_eq!(dev_progress(&progress), "3 folders · 1 found · 9 B");
    let mut app = started();
    app.handle(Msg::Progress("halfway".to_string()));
    assert_eq!(app.busy.as_deref(), Some("halfway"));
}

#[test]
fn boxes_stand_in_the_middle() {
    let area = Area { x: 2, y: 1, width: 100, height: 20 };
    assert_eq!(centered(area, 60, 7), Area { x: 22, y: 7, width: 60, height: 7 });
    let small = Area { x: 0, y: 0, width: 10, height: 3 };
    assert_eq!(centered(small, 60, 7), small);
}

#[test]
fn cells_keep_their_columns() {
    let row = Row { item: scanned("caches", 1500, SafetyTier::Safe), selected: true };
    let (size, tier, name) = scan_cells(&row, 80);
    assert_eq!((size.as_str(), tier.as_str(), name.as_str()), ("   1.5 KB", "safe    ", "caches"));
    let row = Row { item: artifact("/Users/me/code/target", 2000), selected: false };
    let home = FsPath::new("/Users/me");
    let (_, tool, shown) = dev_cells(&row, Some(&home), 80);
    assert_eq!((tool.as_str(), shown.as_str()), ("Cargo     ", "code/target"));
    let (_, _, shown) = dev_cells(&row, None, 20);
    assert_eq!(shown, "…code/target");
    let (size, name) = app_cells(&installed("Foo"), 80);
    assert_eq!((size.as_str(), name.as_str()), ("   5.0 KB", "Foo"));
    assert_eq!(tick(true), " [x] ");
    assert_eq!(tier_word(SafetyTier::Caution), "caution");
    assert_eq!(keys(Tab::Scan), "· a all · r rescan · tab switch · q quit");
    assert_eq!(empty_message(true), "Measuring…");
    assert!(matches!(trash_text(&None), TrashText::Unmeasured));
    assert!(matches!(trash_text(&Some(TrashSummary { bytes: 0, items: 0 })), TrashText::Empty));
    match trash_text(&Some(TrashSummary { bytes: 10, items: 1 })) {
        TrashText::Holds(size, what) => assert_eq!(format!("{size}{what}"), "10 B in 1 item."),
        other => panic!("{other:?}"),
    }
}
