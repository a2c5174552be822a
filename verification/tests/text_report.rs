use jevlint::engine::{LineRegion, RunReport, Violation};
use jevlint::precondition::PreconditionFailure;
use jevlint::report::{exit_status, compact_message, display_region, print, print_summary, print_violations};
use jevlint::rule::Severity;

fn violation(regions: Vec<LineRegion>, severity: Severity) -> Violation {
    Violation {
        path: "src/a.ts".into(),
        rule_id: "no-casts".into(),
        rule_path: ".jevlint-rules/no-casts.md".into(),
        message: "# No casts\n\n  Validate   values.  \n".into(),
        confidence: 0.9f64.to_bits(),
        severity,
        regions,
    }
}

#[test]
fn messages_are_compacted_to_one_line() {
    assert_eq!(compact_message("# No casts\n\n  Validate   values.  \n"), "No casts Validate   values.");
    assert_eq!(compact_message("## Title\r\n###\n text"), "Title  text");
    assert_eq!(compact_message(""), "");
}

#[test]
fn regions_show_one_line_or_a_range() {
    assert_eq!(display_region(&LineRegion { start: 7, end: 7 }), "7");
    assert_eq!(display_region(&LineRegion { start: 42, end: 47 }), "42-47");
}

#[test]
fn each_region_gets_a_line_and_a_file_finding_gets_one() {
    let lines = print_violations(
        &vec![
            violation(vec![LineRegion { start: 2, end: 4 }, LineRegion { start: 9, end: 9 }], Severity::Error),
            violation(Vec::new(), Severity::Warning),
        ],
        &vec!["0.90".into(), "0.75".into()],
    );
    assert_eq!(
        lines,
        vec![
            "src/a.ts:2-4: error [no-casts] No casts Validate   values. (rule: .jevlint-rules/no-casts.md, confidence: 0.90)",
            "src/a.ts:9: error [no-casts] No casts Validate   values. (rule: .jevlint-rules/no-casts.md, confidence: 0.90)",
            "src/a.ts: warning [no-casts] No casts Validate   values. (rule: .jevlint-rules/no-casts.md, confidence: 0.75)",
        ]
    );
}

#[test]
fn the_summary_counts_errors_and_warnings() {
    let report = RunReport {
        files_checked: 3,
        rules: 2,
        api_requests: 1,
        cache_hits: 5,
        violations: vec![violation(Vec::new(), Severity::Error), violation(Vec::new(), Severity::Warning)],
        precondition_failure: None,
    };
    assert_eq!(
        print_summary(&report),
        "jevlint: 3 files, 2 rules, 1 API requests, 5 cached, 1 errors, 1 warnings"
    );
    let printed = print(&report, &vec!["0.90".into(), "0.90".into()]);
    assert!(printed.errors.is_empty());
    assert_eq!(printed.output.len(), 3);
    assert_eq!(printed.output[2], print_summary(&report));
}

#[test]
fn a_failed_precondition_is_reported_on_standard_error() {
    let report = RunReport {
        files_checked: 0,
        rules: 1,
        api_requests: 0,
        cache_hits: 0,
        violations: Vec::new(),
        precondition_failure: Some(PreconditionFailure {
            files: vec!["a.py".into(), "b.py".into()],
            command: vec!["ruff".into(), "check".into()],
            status: Some(1),
            output: "a.py:1: E501".into(),
        }),
    };
    let printed = print(&report, &Vec::new());
    assert!(printed.output.is_empty());
    assert_eq!(
        printed.errors,
        vec![
            "jevlint: precondition failed (exit 1)",
            "command: ruff check",
            "a.py:1: E501",
            "a.py: skipped (precondition failed)",
            "b.py: skipped (precondition failed)",
        ]
    );
    let signalled = RunReport {
        precondition_failure: Some(PreconditionFailure {
            files: Vec::new(),
            command: vec!["make".into()],
            status: None,
            output: String::new(),
        }),
        ..report
    };
    assert_eq!(
        print(&signalled, &Vec::new()).errors,
        vec!["jevlint: precondition failed (exit signal)", "command: make"]
    );
    let negative = RunReport {
        precondition_failure: Some(PreconditionFailure {
            files: Vec::new(),
            command: vec!["x".into()],
            status: Some(-3),
            output: String::new(),
        }),
        ..signalled
    };
    assert_eq!(print(&negative, &Vec::new()).errors[0], "jevlint: precondition failed (exit -3)");
}

#[test]
fn only_errors_and_failed_preconditions_fail_a_check() {
    let report = |violations: Vec<Violation>, failure: Option<PreconditionFailure>| RunReport {
        files_checked: 1,
        rules: 1,
        api_requests: 0,
        cache_hits: 0,
        violations,
        precondition_failure: failure,
    };
    assert_eq!(exit_status(&report(Vec::new(), None)), 0);
    assert_eq!(exit_status(&report(vec![violation(Vec::new(), Severity::Warning)], None)), 0);
    assert_eq!(exit_status(&report(vec![violation(Vec::new(), Severity::Error)], None)), 1);
    let failure = PreconditionFailure { files: Vec::new(), command: vec!["x".into()], status: Some(1), output: String::new() };
    assert_eq!(exit_status(&report(Vec::new(), Some(failure))), 1);
}
