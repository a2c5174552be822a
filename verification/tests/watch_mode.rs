use jevlint::config::{Config, RuleSet};
use jevlint::engine::{empty_report, LineRegion, RunReport, Violation};
use jevlint::precondition::PreconditionFailure;
use jevlint::rule::Severity;
use jevlint::watch::{
    after_reload, emit_started, is_relevant, needs_lint, on_batch, relative_paths, requires_full_run,
    BatchStep, RunSelection, Snapshot, Status, Trigger, WatchLoop, WatchOptions, WatchState,
    PROTOCOL_VERSION,
};

fn violation(path: &str) -> Violation {
    Violation {
        path: path.into(),
        rule_id: "rule".into(),
        rule_path: ".jevlint-rules/rule.md".into(),
        message: "Rule message".into(),
        confidence: 0.9f64.to_bits(),
        severity: Severity::Error,
        regions: Vec::new(),
    }
}

fn report(violations: Vec<Violation>) -> RunReport {
    RunReport {
        files_checked: 2,
        rules: 1,
        api_requests: 0,
        cache_hits: 2,
        violations,
        precondition_failure: None,
    }
}

fn ts_config() -> Config {
    Config {
        rule_sets: vec![RuleSet {
            patterns: vec!["**/*.ts".into()],
            exclude: Vec::new(),
            error: vec![("security".into(), 0.8f64.to_bits())],
            warn: Vec::new(),
        }],
        ..Config::default()
    }
}

#[test]
fn watches_sources_and_linter_inputs_but_not_cache_files() {
    let root = "/project";
    let config_path = "/project/.jevlintrc.toml";
    let config = ts_config();
    let options = WatchOptions { snapshot_file: None, stdout: true };

    assert!(is_relevant(root, config_path, &config, &options, &vec!["/project/src/app.ts".into()]).unwrap());
    assert!(is_relevant(
        root,
        config_path,
        &config,
        &options,
        &vec!["/project/.jevlint-rules/security.md".into()]
    )
    .unwrap());
    assert!(!is_relevant(
        root,
        config_path,
        &config,
        &options,
        &vec!["/project/.jevlint/cache.redb".into()]
    )
    .unwrap());
}

#[test]
fn partial_snapshot_preserves_unaffected_diagnostics() {
    let root = "/project";
    let mut state = WatchState::new();

    Snapshot::from_report(
        root,
        1,
        report(vec![violation("a.ts"), violation("b.ts")]),
        vec!["a.ts".into(), "b.ts".into()],
        true,
        &mut state,
    );
    let partial = Snapshot::from_report(root, 2, report(Vec::new()), vec!["a.ts".into()], false, &mut state);

    assert_eq!(partial.updated_paths, vec!["a.ts".to_string()]);
    assert_eq!(partial.diagnostics.len(), 1);
    assert_eq!(partial.diagnostics[0].path, "b.ts");
}

#[test]
fn the_snapshot_file_and_unselected_files_are_not_relevant() {
    let config = ts_config();
    let options = WatchOptions { snapshot_file: Some("/project/out/diagnostics.json".into()), stdout: false };
    let relevant = |path: &str| {
        is_relevant("/project", "/project/.jevlintrc.jsonc", &config, &options, &vec![path.into()]).unwrap()
    };
    assert!(!relevant("/project/out/diagnostics.json"));
    assert!(!relevant("/project/README.md"));
    assert!(!relevant("/elsewhere/app.ts"));
    assert!(relevant("/project/.jevlintrc.jsonc"));
    assert!(relevant("/project/.jevlint-system.md"));
    assert!(!is_relevant("/project", "/project/.jevlintrc.jsonc", &config, &options, &vec![]).unwrap());
}

#[test]
fn linter_inputs_call_for_a_full_run() {
    let config = ts_config();
    let full = |path: &str| requires_full_run("/project", "/project/.jevlintrc.jsonc", &config, &vec![path.into()]);
    assert!(full("/project/.jevlintrc.jsonc"));
    assert!(full("/project/.jevlint-system.md"));
    assert!(full("/project/.jevlint-rules/new.md"));
    assert!(full("/project/.jevlint-rules"));
    assert!(!full("/project/src/app.ts"));
    assert!(!full("/project/.jevlint-rules-old/a.md"));
}

#[test]
fn changed_paths_are_relative_sorted_and_unique() {
    let got = relative_paths(
        "/project",
        &vec![
            "/project/src/b.ts".into(),
            "/project/src/a.ts".into(),
            "/other/x.ts".into(),
            "/project/src//a.ts".into(),
            "/project/win\\path.ts".into(),
        ],
    );
    assert_eq!(got, vec!["/other/x.ts", "src/a.ts", "src/b.ts", "win/path.ts"]);
}

#[test]
fn a_precondition_failure_keeps_the_diagnostics() {
    let mut state = WatchState::new();
    Snapshot::from_report("/project", 1, report(vec![violation("a.ts")]), vec!["a.ts".into()], true, &mut state);
    let failed = RunReport {
        precondition_failure: Some(PreconditionFailure {
            files: vec!["a.ts".into()],
            command: vec!["tsc".into()],
            status: Some(2),
            output: "error".into(),
        }),
        ..report(Vec::new())
    };
    let snapshot = Snapshot::from_report("/project", 2, failed, vec!["a.ts".into()], true, &mut state);
    assert_eq!(snapshot.status, Status::PreconditionFailed);
    assert!(snapshot.updated_paths.is_empty());
    assert!(!snapshot.full_update);
    assert_eq!(snapshot.diagnostics.len(), 1);
    let precondition = snapshot.precondition.unwrap();
    assert_eq!(precondition.exit_code, Some(2));
    assert_eq!(precondition.skipped_files, vec!["a.ts".to_string()]);
    assert_eq!(state.paths(), vec!["a.ts".to_string()]);
}

#[test]
fn snapshot_status_and_counts() {
    let mut state = WatchState::new();
    let clean = Snapshot::from_report("/project", 1, report(Vec::new()), vec!["a.ts".into()], true, &mut state);
    assert_eq!(clean.status, Status::Clean);
    assert_eq!(clean.schema_version, PROTOCOL_VERSION);
    assert_eq!(clean.line_base, 1);
    assert_eq!(clean.root, "/project");
    assert!(clean.error.is_none());

    let mut warning = violation("b.ts");
    warning.severity = Severity::Warning;
    warning.regions = vec![LineRegion { start: 3, end: 4 }];
    let snapshot = Snapshot::from_report(
        "/project",
        2,
        report(vec![violation("a.ts"), warning, violation("a.ts")]),
        vec!["a.ts".into(), "b.ts".into()],
        true,
        &mut state,
    );
    assert_eq!(snapshot.status, Status::Violations);
    let stats = snapshot.stats.unwrap();
    assert_eq!(stats.violations, 3);
    assert_eq!(stats.errors, 2);
    assert_eq!(stats.warnings, 1);
    assert_eq!(stats.files_checked, 2);
    assert_eq!(stats.cache_hits, 2);
    let paths: Vec<&str> = snapshot.diagnostics.iter().map(|d| d.path.as_str()).collect();
    assert_eq!(paths, vec!["a.ts", "a.ts", "b.ts"]);
    assert_eq!(snapshot.diagnostics[2].regions[0].start_line, 3);
    assert_eq!(snapshot.diagnostics[2].regions[0].end_line, 4);
}

#[test]
fn an_error_snapshot_clears_stale_diagnostics() {
    let mut state = WatchState::new();
    Snapshot::from_report("/project", 1, report(vec![violation("a.ts")]), vec!["a.ts".into()], true, &mut state);
    let snapshot = Snapshot::error("/project", 2, "temporary failure".into(), &state);
    assert_eq!(snapshot.status, Status::Error);
    assert_eq!(snapshot.sequence, 2);
    assert!(snapshot.diagnostics.is_empty());
    assert!(snapshot.updated_paths.is_empty());
    assert!(!snapshot.full_update);
    assert!(snapshot.precondition.is_none());
    assert!(snapshot.stats.is_none());
    assert_eq!(snapshot.error, Some("temporary failure".to_string()));
    let empty = Snapshot::error("/project", 7, "x".into(), &WatchState::new());
    assert!(empty.diagnostics.is_empty());
}

#[test]
fn a_full_selection_updates_every_lintable_file_and_every_file_with_diagnostics() {
    let config = ts_config();
    let mut state = WatchState::new();
    Snapshot::from_report("/project", 1, report(vec![violation("gone.ts")]), vec!["gone.ts".into()], true, &mut state);
    let selection = RunSelection::full(&config, vec!["src/b.ts".into(), "notes.md".into(), "a.ts".into()], &state).unwrap();
    assert_eq!(selection.lint_paths, vec!["a.ts", "src/b.ts"]);
    assert_eq!(selection.updated_paths, vec!["a.ts", "gone.ts", "src/b.ts"]);
    assert!(selection.full_update);
}

#[test]
fn a_changed_selection_lints_only_changed_lintable_files() {
    let config = ts_config();
    let mut state = WatchState::new();
    Snapshot::from_report("/project", 1, report(vec![violation("old.md")]), vec!["old.md".into()], true, &mut state);
    let selection = RunSelection::changed(
        "/project",
        &config,
        &vec![
            ("/project/src/a.ts".into(), true),
            ("/project/deleted.ts".into(), false),
            ("/project/old.md".into(), true),
            ("/project/notes.md".into(), true),
            ("/elsewhere/b.ts".into(), true),
        ],
        &state,
    )
    .unwrap();
    assert_eq!(selection.updated_paths, vec!["deleted.ts", "old.md", "src/a.ts"]);
    assert_eq!(selection.lint_paths, vec!["src/a.ts"]);
    assert!(!selection.full_update);
}

#[test]
fn run_started_is_announced_only_on_standard_output() {
    let changed = vec!["src/a.ts".to_string()];
    let on = WatchOptions { snapshot_file: None, stdout: true };
    let started = emit_started(3, Trigger::Filesystem, &changed, &on).unwrap();
    assert_eq!(started.sequence, 3);
    assert_eq!(started.trigger, Trigger::Filesystem);
    assert_eq!(started.changed_paths, changed);
    assert_eq!(started.schema_version, 1);
    let off = WatchOptions { snapshot_file: Some("/tmp/out.json".into()), stdout: false };
    assert!(emit_started(1, Trigger::Initial, &changed, &off).is_none());
}

#[test]
fn an_irrelevant_batch_is_skipped_without_advancing_the_sequence() {
    let config = ts_config();
    let options = WatchOptions { snapshot_file: None, stdout: true };
    let mut session = WatchLoop::new();
    assert_eq!(session.sequence, 1);
    let step = on_batch(
        &mut session,
        "/project",
        "/project/.jevlintrc.toml",
        &config,
        &options,
        &vec!["/project/notes.md".into(), "/project/.jevlint-cache/results.redb".into()],
    )
    .unwrap();
    assert!(matches!(step, BatchStep::Skip));
    assert_eq!(session.sequence, 1);
}

#[test]
fn a_relevant_batch_announces_a_filesystem_run_with_the_next_sequence() {
    let config = ts_config();
    let options = WatchOptions { snapshot_file: None, stdout: true };
    let mut session = WatchLoop::new();
    let step = on_batch(
        &mut session,
        "/project",
        "/project/.jevlintrc.toml",
        &config,
        &options,
        &vec!["/project/src/b.ts".into(), "/project/notes.md".into(), "/project/src/b.ts".into()],
    )
    .unwrap();
    assert_eq!(session.sequence, 2);
    match step {
        BatchStep::Run { started, full } => {
            assert!(!full);
            let started = started.unwrap();
            assert_eq!(started.sequence, 2);
            assert_eq!(started.trigger, Trigger::Filesystem);
            assert_eq!(started.schema_version, PROTOCOL_VERSION);
            assert_eq!(started.changed_paths, vec!["notes.md", "src/b.ts"]);
        }
        BatchStep::Skip => panic!("a changed source file calls for a run"),
    }
}

#[test]
fn a_changed_rule_calls_for_a_full_run_and_quiet_output_announces_nothing() {
    let config = ts_config();
    let options = WatchOptions { snapshot_file: Some("/project/out.json".into()), stdout: false };
    let mut session = WatchLoop { sequence: 4 };
    let step = on_batch(
        &mut session,
        "/project",
        "/project/.jevlintrc.toml",
        &config,
        &options,
        &vec!["/project/.jevlint-rules/security.md".into()],
    )
    .unwrap();
    assert_eq!(session.sequence, 5);
    match step {
        BatchStep::Run { started, full } => {
            assert!(full);
            assert!(started.is_none());
        }
        BatchStep::Skip => panic!("a changed rule calls for a run"),
    }
}

#[test]
fn a_batch_against_an_invalid_glob_fails_and_keeps_the_sequence() {
    let config = Config {
        rule_sets: vec![RuleSet {
            patterns: vec!["[".into()],
            exclude: Vec::new(),
            error: vec![("security".into(), 0.8f64.to_bits())],
            warn: Vec::new(),
        }],
        ..Config::default()
    };
    let options = WatchOptions { snapshot_file: None, stdout: true };
    let mut session = WatchLoop { sequence: 3 };
    let step = on_batch(&mut session, "/project", "/project/.jevlintrc.toml", &config, &options, &vec!["/project/a.ts".into()]);
    assert!(step.is_err());
    assert_eq!(session.sequence, 3);
}

#[test]
fn a_failed_reload_gives_an_error_snapshot_with_the_run_sequence() {
    let mut state = WatchState::new();
    Snapshot::from_report("/project", 1, report(vec![violation("a.ts")]), vec!["a.ts".into()], true, &mut state);
    let snapshot = match after_reload(2, "/project", Err("invalid configuration".into()), &state) {
        Err(snapshot) => snapshot,
        Ok(_) => panic!("a failed reload gives a snapshot"),
    };
    assert_eq!(snapshot.sequence, 2);
    assert_eq!(snapshot.status, Status::Error);
    assert_eq!(snapshot.error, Some("invalid configuration".to_string()));
    assert!(snapshot.diagnostics.is_empty());
    assert_eq!(state.all_diagnostics().len(), 1);

    match after_reload(3, "/project", Ok(ts_config()), &state) {
        Ok(updated) => assert_eq!(updated.rule_sets.len(), 1),
        Err(_) => panic!("a successful reload gives the configuration"),
    }
}

#[test]
fn an_empty_selection_reports_an_empty_run() {
    let selection = RunSelection { lint_paths: Vec::new(), updated_paths: vec!["gone.ts".into()], full_update: false };
    assert!(!needs_lint(&selection));
    let busy = RunSelection { lint_paths: vec!["a.ts".into()], updated_paths: vec!["a.ts".into()], full_update: false };
    assert!(needs_lint(&busy));

    let empty = empty_report();
    assert_eq!(empty.files_checked, 0);
    assert_eq!(empty.rules, 0);
    assert_eq!(empty.api_requests, 0);
    assert_eq!(empty.cache_hits, 0);
    assert!(empty.violations.is_empty());
    assert!(empty.precondition_failure.is_none());

    let mut state = WatchState::new();
    Snapshot::from_report("/project", 1, report(vec![violation("gone.ts")]), vec!["gone.ts".into()], true, &mut state);
    let snapshot = Snapshot::from_report("/project", 2, empty, selection.updated_paths, false, &mut state);
    assert_eq!(snapshot.status, Status::Clean);
    assert!(snapshot.diagnostics.is_empty());
}

#[test]
fn reporting_the_same_run_twice_changes_nothing() {
    let mut state = WatchState::new();
    let updated = vec!["a.ts".to_string(), "b.ts".to_string()];
    let first = Snapshot::from_report(
        "/project",
        1,
        report(vec![violation("b.ts"), violation("a.ts")]),
        updated.clone(),
        false,
        &mut state,
    );
    let second = Snapshot::from_report(
        "/project",
        2,
        report(vec![violation("b.ts"), violation("a.ts")]),
        updated,
        false,
        &mut state,
    );
    let paths = |s: &Snapshot| s.diagnostics.iter().map(|d| d.path.clone()).collect::<Vec<_>>();
    assert_eq!(paths(&first), paths(&second));
    assert_eq!(paths(&first), vec!["a.ts", "b.ts"]);
    assert_eq!(state.all_diagnostics().len(), 2);
}
