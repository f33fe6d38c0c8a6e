use spotless::capability::{enabled, has, Build, Capability, ALL};
use spotless::cli::Selection;
use spotless::cmd::rules::rules_lines;
use spotless::model::{Category, SafetyTier, ScanReport, ScanTarget, Scope, TargetScan};
use spotless::paths::FsPath;
use spotless::rules::{merge_rules, rule_files, shape_words, CoreError, RuleFault, RuleSet};
use spotless::{builtin_ruleset, DEVELOPER_RULES, SYSTEM_RULES};
use spotless::targets::{apply_min_size, progress_line, resolve, safety_label};

#[test]
fn all_is_exhaustive() {
    for capability in ALL {
        match capability {
            Capability::SystemCaches
            | Capability::SimulatorRuntimes
            | Capability::MaintenanceActions
            | Capability::ProcessControl
            | Capability::HardwareSensors
            | Capability::FullDiskAccess
            | Capability::SystemLoginItems
            | Capability::ProcessEnumeration
            | Capability::UnrestrictedFileAccess
            | Capability::TrashContents
            | Capability::AdminEscalation
            | Capability::FinderRemoval
            | Capability::Vibrancy => {}
        }
    }
    assert_eq!(ALL.len(), 13, "ALL must list every Capability variant");
}

#[test]
fn all_has_no_duplicates() {
    let mut seen = ALL.to_vec();
    seen.sort_by_key(|c| format!("{c:?}"));
    seen.dedup();
    assert_eq!(seen.len(), ALL.len());
}

#[test]
fn direct_build_has_everything() {
    assert_eq!(enabled(Build::Direct), ALL);
    assert!(has(Build::Direct, Capability::HardwareSensors));
    assert!(has(Build::Direct, Capability::Vibrancy));
}

#[test]
fn mas_build_has_nothing_yet() {
    assert!(enabled(Build::AppStore).is_empty());
    assert!(!has(Build::AppStore, Capability::HardwareSensors));
    assert!(!has(Build::AppStore, Capability::Vibrancy));
}

#[test]
fn wire_format_is_stable() {
    let pairs = [
        (Capability::SystemCaches, "system-caches"),
        (Capability::SimulatorRuntimes, "simulator-runtimes"),
        (Capability::MaintenanceActions, "maintenance-actions"),
        (Capability::ProcessControl, "process-control"),
        (Capability::HardwareSensors, "hardware-sensors"),
        (Capability::FullDiskAccess, "full-disk-access"),
        (Capability::SystemLoginItems, "system-login-items"),
        (Capability::ProcessEnumeration, "process-enumeration"),
        (Capability::UnrestrictedFileAccess, "unrestricted-file-access"),
        (Capability::TrashContents, "trash-contents"),
        (Capability::AdminEscalation, "admin-escalation"),
        (Capability::FinderRemoval, "finder-removal"),
        (Capability::Vibrancy, "vibrancy"),
    ];
    assert_eq!(pairs.len(), ALL.len());
    for (capability, wire) in pairs {
        assert_eq!(format!("\"{}\"", capability.wire_name()), format!("\"{wire}\""));
        assert_eq!(Capability::from_wire(wire).unwrap(), capability);
    }
    assert_eq!(Capability::from_wire("SystemCaches"), None);
}

#[test]
fn choices_go_by_their_names() {
    for tier in [SafetyTier::Safe, SafetyTier::Caution, SafetyTier::Expert] {
        assert_eq!(SafetyTier::from_wire(tier.wire_name()), Some(tier));
    }
    for scope in [Scope::Contents, Scope::Path] {
        assert_eq!(Scope::from_wire(scope.wire_name()), Some(scope));
    }
    assert_eq!(Category::SystemJunk.wire_name(), "system-junk");
    assert_eq!(Category::from_wire("user-cache"), Some(Category::UserCache));
    assert_eq!(Category::from_wire("UserCache"), None);
}

const SAMPLE: &str = r#"
[[target]]
id = "user-caches"
name = "User application caches"
path = "~/Library/Caches"
scope = "contents"
safety = "safe"
category = "user-cache"
requires_app_quit = true
description = "App caches; regenerated on next launch."

[[target]]
id = "xcode-derived-data"
name = "Xcode DerivedData"
path = "~/Library/Developer/Xcode/DerivedData"
category = "developer"
"#;

fn parse(text: &str) -> Result<RuleSet, CoreError> {
    RuleSet::from_toml(text, Build::Direct)
}

#[test]
fn parses_targets_with_defaults() {
    let set = parse(SAMPLE).ok().unwrap();
    assert_eq!(set.targets.len(), 2);

    let caches = &set.targets[0];
    assert_eq!(caches.id, "user-caches");
    assert_eq!(caches.scope, Scope::Contents);
    assert_eq!(caches.safety, SafetyTier::Safe);
    assert_eq!(caches.category, Category::UserCache);
    assert!(caches.requires_app_quit);

    // The second relies on what holds for fields that are left out.
    let xcode = &set.targets[1];
    assert_eq!(xcode.scope, Scope::Contents);
    assert_eq!(xcode.safety, SafetyTier::Caution);
    assert_eq!(xcode.category, Category::Developer);
    assert!(!xcode.requires_app_quit);
    assert_eq!(xcode.description, "");
    assert_eq!(xcode.requires, None);
}

#[test]
fn keeps_targets_without_a_capability_requirement() {
    assert_eq!(parse(SAMPLE).ok().unwrap().targets.len(), 2);
    assert_eq!(RuleSet::from_toml(SAMPLE, Build::AppStore).ok().unwrap().targets.len(), 2);
}

const GATED: &str = r#"
[[target]]
id = "always"
name = "Always"
path = "~/a"

[[target]]
id = "root-caches"
name = "Root caches"
path = "/Library/Caches"
requires = "system-caches"
"#;

#[test]
fn filters_targets_by_capability() {
    for build in [Build::Direct, Build::AppStore] {
        let set = RuleSet::from_toml(GATED, build).ok().unwrap();
        let ids: Vec<&str> = set.targets.iter().map(|t| t.id.as_str()).collect();

        if has(build, Capability::SystemCaches) {
            assert_eq!(ids, ["always", "root-caches"]);
        } else {
            assert_eq!(ids, ["always"]);
        }
    }
}

#[test]
fn duplicate_ids_are_rejected_before_filtering() {
    let dup = r#"
[[target]]
id = "dup"
name = "A"
path = "~/a"
requires = "system-caches"
[[target]]
id = "dup"
name = "B"
path = "~/b"
"#;
    assert!(parse(dup).is_err());
    assert!(RuleSet::from_toml(dup, Build::AppStore).is_err());
}

#[test]
fn rejects_duplicate_ids() {
    let dup = r#"
[[target]]
id = "dup"
name = "A"
path = "~/a"
[[target]]
id = "dup"
name = "B"
path = "~/b"
"#;
    match parse(dup) {
        Err(CoreError::Rule(why)) => assert_eq!(why, "duplicate target id: dup"),
        _ => panic!("accepted"),
    }
}

fn message(text: &str) -> String {
    match parse(text) {
        Ok(_) => panic!("accepted"),
        Err(error) => error.message(),
    }
}

#[test]
fn each_fault_is_told_apart() {
    assert!(matches!(parse("[[target"), Err(CoreError::Toml(_))));
    assert!(message("[[target").starts_with("failed to parse ruleset: "));
    assert_eq!(
        message("[[target]]\nid = \"  \"\nname = \"A\"\npath = \"p\"\n"),
        "invalid rule: a target has an empty id"
    );
    let nameless = "[[target]]\nid = \"a\"\npath = \"p\"\n";
    assert!(matches!(parse(nameless), Err(CoreError::Toml(_))));
    assert!(message(nameless).starts_with("failed to parse ruleset: target 0: field `name`"));
    let bad = "[[target]]\nid = \"a\"\nname = \"A\"\npath = \"p\"\n[[target]]\nid = \"b\"\nname = \"B\"\npath = \"q\"\nscope = \"all\"\n";
    assert!(matches!(parse(bad), Err(CoreError::Toml(_))));
    assert!(message(bad).starts_with("failed to parse ruleset: target 1: field `scope`"));
    assert!(matches!(parse("target = 3"), Err(CoreError::Toml(_))));
    assert_eq!(shape_words(3, "path"), "target 3: field `path`");
    assert_eq!(CoreError::Io("gone".to_string()).message(), "I/O error: gone");
}

#[test]
fn other_ways_to_write_a_target_are_read_too() {
    // Nothing is a set of rules without targets, and keys that no rule has
    // are passed over.
    assert_eq!(parse("").ok().unwrap().targets.len(), 0);
    let set = parse("other = 1.5\ntarget = [[\"a\", \"A\", \"p\", \"path\"], { id = \"b\", name = \"B\", path = \"q\", safety = { safe = {} }, when = 1979-05-27 }]")
        .ok()
        .unwrap();
    assert_eq!(set.targets[0].id, "a");
    assert_eq!(set.targets[0].scope, Scope::Path);
    assert_eq!(set.targets[1].safety, SafetyTier::Safe);
    assert!(parse("target = [{ id = \"b\", name = \"B\", path = \"q\", safety = { safe = 1 } }]").is_err());
}

#[test]
fn numbers_that_no_rule_reads_are_passed_over() {
    // Also those that do not fit 64 bits, as long as they can be decoded.
    let text = "big = 9223372036854775808\n[[target]]\nid = \"a\"\nname = \"A\"\npath = \"p\"\nsize = 18446744073709551616\n";
    assert_eq!(parse(text).ok().unwrap().targets[0].id, "a");
    let beyond = "big = 999999999999999999999999999999999999999999\n";
    assert!(matches!(parse(beyond), Err(CoreError::Toml(_))));
}

#[test]
fn a_document_is_read_as_its_text_is() {
    let text = "[[target]]\nid = \"a\"\nname = \"A\"\npath = \"~/a\"\nrequires = \"vibrancy\"\npermanent = true\n";
    let read = |text: &'static str| toml::de::DeValue::Table(toml::de::DeTable::parse(text).unwrap().into_inner());
    let document = read(text);
    let set = RuleSet::from_table(&document, Build::Direct).ok().unwrap();
    assert_eq!(set.targets.len(), 1);
    assert_eq!(set.targets[0].name, "A");
    assert!(set.targets[0].permanent);
    assert_eq!(set.targets[0].requires, Some(Capability::Vibrancy));
    assert_eq!(RuleSet::from_table(&document, Build::AppStore).ok().unwrap().targets.len(), 0);

    // What is at fault is told apart.
    assert!(matches!(
        RuleSet::from_table(&read("target = 3"), Build::Direct),
        Err(RuleFault::Shape(0, field)) if field == "target"
    ));
    assert!(matches!(
        RuleSet::from_table(&read("[[target]]\nid = \"a\"\npath = \"p\"\n"), Build::Direct),
        Err(RuleFault::Shape(0, field)) if field == "name"
    ));
    assert!(matches!(
        RuleSet::from_table(&read("[[target]]\nid = \" \"\nname = \"A\"\npath = \"p\"\n"), Build::Direct),
        Err(RuleFault::Rule(why)) if why == "a target has an empty id"
    ));
    assert!(RuleSet::from_table(&toml::de::DeValue::Boolean(true), Build::Direct).ok().unwrap().targets.is_empty());
}

#[test]
fn rule_files_are_merged_in_the_order_of_their_names() {
    let path = |p: &str| FsPath::new(p);
    let entries = vec![path("/r/b.toml"), path("/r/readme.md"), path("/r/a.toml")];
    let files = rule_files(&entries);
    assert_eq!(files, vec![path("/r/a.toml"), path("/r/b.toml")]);

    let read = |p: &FsPath| -> Result<String, String> {
        match p.as_str() {
            "/r/a.toml" => Ok(GATED.to_string()),
            "/r/b.toml" => Ok(SAMPLE.to_string()),
            other => Err(format!("{other}: not found")),
        }
    };
    let set = RuleSet::from_dir(Ok(entries.clone()), Build::Direct, &read).ok().unwrap();
    let ids: Vec<&str> = set.targets.iter().map(|t| t.id.as_str()).collect();
    assert_eq!(ids, ["always", "root-caches", "user-caches", "xcode-derived-data"]);

    // The same ids in two files, a file that cannot be read, and a directory
    // that cannot.
    let twice = |_: &FsPath| -> Result<String, String> { Ok(GATED.to_string()) };
    assert!(matches!(
        RuleSet::from_dir(Ok(entries.clone()), Build::Direct, &twice),
        Err(CoreError::Rule(_))
    ));
    let more = vec![path("/r/c.toml")];
    assert!(matches!(RuleSet::from_dir(Ok(more), Build::Direct, &read), Err(CoreError::Io(_))));
    let none = RuleSet::from_dir(Err("denied".to_string()), Build::Direct, &read);
    assert!(matches!(none, Err(CoreError::Io(why)) if why == "denied"));
}

fn shipped() -> RuleSet {
    builtin_ruleset(Build::Direct).ok().unwrap()
}

#[test]
fn builtin_ruleset_parses_and_has_targets() {
    let set = shipped();
    assert!(set.targets.len() > 10, "shipped ruleset looks truncated");
    // Ids are what a selection goes by, so they must survive the merge.
    assert!(set.targets.iter().any(|t| t.id == "user-caches"));
    // The system's own come first, and none is lost.
    let system = parse(SYSTEM_RULES).ok().unwrap();
    let developer = parse(DEVELOPER_RULES).ok().unwrap();
    assert_eq!(set.targets.len(), system.targets.len() + developer.targets.len());
    assert_eq!(set.targets[0].id, system.targets[0].id);
    assert_eq!(set.targets[system.targets.len()].id, developer.targets[0].id);
    assert!(merge_rules("[[", SAMPLE, Build::Direct).is_err());
    assert!(merge_rules(SAMPLE, "[[", Build::Direct).is_err());
}

#[test]
fn builtin_targets_need_what_their_build_has() {
    let ids: Vec<String> = shipped().targets.iter().map(|t| t.id.clone()).collect();
    assert!(ids.contains(&"trash".to_string()) && ids.contains(&"system-caches".to_string()));
    let store = builtin_ruleset(Build::AppStore).ok().unwrap();
    assert!(store.targets.iter().all(|t| t.requires.is_none()));
    assert_eq!(store.targets.len() + 2, ids.len());
    // No id is used twice over both files.
    let mut once = ids.clone();
    once.sort();
    once.dedup();
    assert_eq!(once.len(), ids.len());
}

#[test]
fn every_builtin_target_has_a_description() {
    for target in shipped().targets {
        assert!(
            !target.description.trim().is_empty(),
            "target `{}` ships without a description",
            target.id
        );
    }
}

fn ids(targets: &[ScanTarget]) -> Vec<&str> {
    targets.iter().map(|t| t.id.as_str()).collect()
}

#[test]
fn a_selection_names_its_targets() {
    let targets = parse(SAMPLE).ok().unwrap().targets;
    let all = resolve(&Selection::default(), &targets).unwrap();
    assert_eq!(ids(&all), ["user-caches", "xcode-derived-data"]);

    let safe = Selection { safe_only: true, ..Selection::default() };
    assert_eq!(ids(&resolve(&safe, &targets).unwrap()), ["user-caches"]);

    let one = Selection { targets: vec!["xcode-derived-data".to_string()], ..Selection::default() };
    assert_eq!(ids(&resolve(&one, &targets).unwrap()), ["xcode-derived-data"]);

    // A typing error is no empty result.
    let wrong = Selection { targets: vec!["xcode".to_string()], ..Selection::default() };
    assert_eq!(
        resolve(&wrong, &targets).unwrap_err(),
        "no target with id `xcode` — run `spotless rules` to list them"
    );
}

#[test]
fn small_targets_are_dropped_and_the_sum_follows() {
    let target = parse(SAMPLE).ok().unwrap().targets.remove(0);
    let scan = |size: u64| TargetScan {
        target: target.clone(),
        items: Vec::new(),
        total_bytes: size,
        warnings: Vec::new(),
    };
    let mut report = ScanReport { targets: vec![scan(10), scan(100), scan(50)], total_bytes: 160 };
    apply_min_size(&mut report, None);
    assert_eq!(report.targets.len(), 3);
    apply_min_size(&mut report, Some(50));
    let sizes: Vec<u64> = report.targets.iter().map(|t| t.total_bytes).collect();
    assert_eq!(sizes, vec![100, 50]);
    assert_eq!(report.total_bytes, 150);
}

#[test]
fn rules_are_shown_in_full() {
    let mut set = parse(SAMPLE).ok().unwrap();
    set.targets[1].permanent = true;
    assert_eq!(
        rules_lines(false, &set.targets),
        vec![
            "",
            "  2 targets — everything Spotless will ever remove.",
            "",
            "  safe     User application caches  user-caches",
            "           ~/Library/Caches",
            "           App caches; regenerated on next launch.",
            "  caution  Xcode DerivedData  xcode-derived-data",
            "           ~/Library/Developer/Xcode/DerivedData",
            "           removed permanently — there is no Trash to move this to",
            "",
            "  `spotless rules --toml` prints the source these came from.",
            "",
        ]
    );
    assert_eq!(safety_label(true, SafetyTier::Expert), "\x1b[31mexpert\x1b[0m");
    assert_eq!(progress_line(2, 9, "Caches"), "\r\x1b[2Kscanning 2/9 — Caches");
}
