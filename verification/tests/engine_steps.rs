use jevlint::engine::{
    look_up_lines, look_up_verdicts, Tally,
    aggregate, build_violations, check_line_answer_count, entries_to_store, needs_location, check_rule_answer_count,
    check_rule_references, chunk_bounds, failed_answers, failed_rule_positions, line_count,
    line_entries, marked_lines, numbered_source, order_answers, partition_cached, plan_job,
    regions, skipped_report, stop_on_precondition, violated_lines, EngineError, FileReport, LineRegion, RunReport,
    Violation,
};
use jevlint::config::{Config, RuleSet};
use jevlint::files::{FileMatcher, RuleSetting};
use jevlint::jev::{LineAnswer, RuleAnswer, Verdict};
use jevlint::precondition::PreconditionFailure;
use jevlint::rule::{build_rule, Rule, Severity};

fn spans(regions: &[LineRegion]) -> Vec<(usize, usize)> {
    regions.iter().map(|x| (x.start, x.end)).collect()
}

fn rule(id: &str) -> Rule {
    build_rule(".jevlint-rules", &format!("{id}.md"), format!("# {id}\n\nCheck {id}.")).unwrap()
}

fn answer(id: &str, verdict: Verdict, confidence: f64) -> RuleAnswer {
    RuleAnswer {
        rule_id: id.to_string(),
        verdict,
        confidence: confidence.to_bits(),
        resolved_model: "test".to_string(),
    }
}

fn setting(id: &str, severity: Severity, threshold: f64) -> (String, RuleSetting) {
    (id.to_string(), RuleSetting { severity, threshold: threshold.to_bits() })
}

fn violation(path: &str, severity: Severity) -> Violation {
    Violation {
        path: path.to_string(),
        rule_id: "rule".to_string(),
        rule_path: ".jevlint-rules/rule.md".to_string(),
        message: "Rule message".to_string(),
        confidence: 0.9f64.to_bits(),
        severity,
        regions: Vec::new(),
    }
}

#[test]
fn joins_contiguous_lines() {
    let got = regions(&[2, 3, 4, 7, 9, 10]);
    assert_eq!(
        got.iter().map(|x| (x.start, x.end)).collect::<Vec<_>>(),
        vec![(2, 4), (7, 7), (9, 10)]
    );
}

#[test]
fn regions_of_no_lines_are_empty_and_a_run_is_one_region() {
    assert!(regions(&[]).is_empty());
    assert_eq!(spans(&regions(&[5])), vec![(5, 5)]);
    assert_eq!(spans(&regions(&[1, 2, 3, 4])), vec![(1, 4)]);
}

#[test]
fn counts_split_violations_by_severity() {
    let report = RunReport {
        files_checked: 2,
        rules: 1,
        api_requests: 1,
        cache_hits: 0,
        violations: vec![
            violation("a.ts", Severity::Error),
            violation("b.ts", Severity::Warning),
            violation("c.ts", Severity::Error),
        ],
        precondition_failure: None,
    };
    assert_eq!(report.count(Severity::Error), 2);
    assert_eq!(report.count(Severity::Warning), 1);
    assert!(report.has_errors());
    let warnings_only = RunReport {
        violations: vec![violation("a.ts", Severity::Warning)],
        ..report
    };
    assert!(!warnings_only.has_errors());
}

#[test]
fn partition_separates_hits_from_misses() {
    let (found, missing) = partition_cached(vec![Some(10), None, Some(30), None]);
    assert_eq!(found, vec![10, 30]);
    assert_eq!(missing, vec![1, 3]);
    let (found, missing) = partition_cached(vec![Some(1), Some(2)]);
    assert_eq!(found, vec![1, 2]);
    assert!(missing.is_empty());
}

#[test]
fn answers_are_ordered_by_rule_id() {
    let ordered = order_answers(
        vec![answer("zeta", Verdict::Pass, 0.9)],
        vec![answer("alpha", Verdict::Fail, 0.9), answer("mid", Verdict::Pass, 0.5)],
    );
    let ids: Vec<&str> = ordered.iter().map(|a| a.rule_id.as_str()).collect();
    assert_eq!(ids, vec!["alpha", "mid", "zeta"]);
}

#[test]
fn a_failure_below_the_threshold_is_not_reported() {
    let settings = vec![
        setting("high", Severity::Error, 0.9),
        setting("low", Severity::Warning, 0.5),
    ];
    let kept = failed_answers(
        vec![
            answer("high", Verdict::Fail, 0.8),
            answer("low", Verdict::Fail, 0.5),
            answer("low", Verdict::Pass, 1.0),
            answer("unknown", Verdict::Fail, 1.0),
        ],
        &settings,
    );
    assert_eq!(kept.len(), 1);
    assert_eq!(kept[0].rule_id, "low");
}

#[test]
fn line_totals_and_numbering() {
    assert_eq!(line_count(""), 1);
    assert_eq!(line_count("a\nb\n"), 2);
    assert_eq!(line_count("a\r\nb"), 2);
    assert_eq!(numbered_source(""), "1: ");
    assert_eq!(numbered_source("fn main() {}\nlet x = 1;\n"), "1: fn main() {}\n2: let x = 1;");
}

#[test]
fn location_questions_cover_every_line_of_each_failed_rule() {
    assert_eq!(line_entries(&vec![4, 1], 2), vec![(4, 1), (4, 2), (1, 1), (1, 2)]);
    assert_eq!(chunk_bounds(5, 2), vec![(0, 2), (2, 4), (4, 5)]);
    assert!(chunk_bounds(0, 3).is_empty());
}

#[test]
fn violated_lines_are_sorted_and_unique_per_rule() {
    let line = |id: &str, line: usize, violated: bool| LineAnswer {
        rule_id: id.to_string(),
        line,
        violated,
        confidence: 0.8f64.to_bits(),
        resolved_model: "test".to_string(),
    };
    let got = violated_lines(&vec![
        line("b", 7, true),
        line("a", 3, true),
        line("b", 2, true),
        line("b", 7, true),
        line("a", 4, false),
    ]);
    assert_eq!(got, vec![("a".to_string(), vec![3]), ("b".to_string(), vec![2, 7])]);
}

#[test]
fn unknown_failed_rule_is_an_error() {
    let rules = vec![rule("safe")];
    assert_eq!(
        failed_rule_positions(&vec![answer("safe", Verdict::Fail, 1.0)], &rules),
        Ok(vec![0])
    );
    assert_eq!(
        failed_rule_positions(&vec![answer("gone", Verdict::Fail, 1.0)], &rules),
        Err(EngineError::UnknownFailedRule { rule_id: "gone".to_string() })
    );
}

#[test]
fn answer_counts_must_match_the_questions() {
    assert_eq!(check_rule_answer_count(2, 2), Ok(()));
    assert_eq!(check_rule_answer_count(1, 2), Err(EngineError::WrongRuleAnswerCount));
    assert_eq!(check_line_answer_count(3, 3), Ok(()));
    assert_eq!(check_line_answer_count(4, 3), Err(EngineError::WrongLineAnswerCount));
}

fn config_with(error: Vec<(String, u64)>) -> Config {
    Config {
        rule_sets: vec![RuleSet {
            patterns: vec!["*.rs".to_string()],
            exclude: Vec::new(),
            error,
            warn: Vec::new(),
        }],
        ..Config::default()
    }
}

#[test]
fn unknown_enabled_rule_ids_are_rejected() {
    let config = config_with(vec![("missing".to_string(), 0.5f64.to_bits())]);
    let matcher = FileMatcher::new(&config).unwrap();
    assert_eq!(
        check_rule_references(&matcher, &[rule("safe")]),
        Err(EngineError::UnknownRule { index: 0, rule_id: "missing".to_string() })
    );
    let config = config_with(vec![("safe".to_string(), 0.5f64.to_bits())]);
    let matcher = FileMatcher::new(&config).unwrap();
    assert_eq!(check_rule_references(&matcher, &[rule("safe")]), Ok(()));
}

#[test]
fn a_job_asks_only_the_rules_selected_for_its_file() {
    let config = config_with(vec![("b".to_string(), 0.5f64.to_bits())]);
    let matcher = FileMatcher::new(&config).unwrap();
    let rules = vec![rule("a"), rule("b"), rule("c")];
    let job = plan_job(&matcher, &rules, "main.rs".to_string());
    assert_eq!(job.path, "main.rs");
    assert_eq!(job.rule_positions, vec![1]);
    assert_eq!(job.settings, vec![setting("b", Severity::Error, 0.5)]);
    let other = plan_job(&matcher, &rules, "notes.md".to_string());
    assert!(other.rule_positions.is_empty());
}

#[test]
fn a_skipped_run_records_the_failure() {
    let failure = PreconditionFailure {
        files: vec!["a.rs".to_string()],
        command: vec!["false".to_string()],
        status: Some(1),
        output: String::new(),
    };
    let report = skipped_report(3, failure);
    assert_eq!(report.files_checked, 0);
    assert_eq!(report.rules, 3);
    assert!(report.violations.is_empty());
    assert_eq!(report.precondition_failure.unwrap().status, Some(1));
}

#[test]
fn file_reports_are_added_up_in_path_order() {
    let report = |path: &str, requests: usize, hits: usize| FileReport {
        path: path.to_string(),
        api_requests: requests,
        cache_hits: hits,
        violations: vec![violation(path, Severity::Error)],
    };
    let run = aggregate(vec![report("b.rs", 1, 2), report("a/z.rs", 0, 3), report("a.rs", 2, 0)], 4);
    assert_eq!(run.files_checked, 3);
    assert_eq!(run.rules, 4);
    assert_eq!(run.api_requests, 3);
    assert_eq!(run.cache_hits, 5);
    let paths: Vec<&str> = run.violations.iter().map(|v| v.path.as_str()).collect();
    assert_eq!(paths, vec!["a/z.rs", "a.rs", "b.rs"]);
}

#[test]
fn marked_lines_find_the_suppression_marker() {
    assert_eq!(
        marked_lines("a\nlet x = 1; // jevlint-ignore\nb jevlint-ignor\n"),
        vec![false, true, false]
    );
}

#[test]
fn suppressed_lines_are_left_out_of_violations() {
    let rules = vec![rule("safe"), rule("other")];
    let failed = vec![answer("other", Verdict::Fail, 0.9), answer("safe", Verdict::Fail, 0.7)];
    let settings = vec![setting("other", Severity::Warning, 0.0), setting("safe", Severity::Error, 0.5)];
    let source = "one\ntwo // jevlint-ignore\nthree\n";
    let locations = vec![("safe".to_string(), vec![1, 2, 3])];
    let got = build_violations(
        &"src/a.rs".to_string(),
        source,
        &failed,
        &vec![1, 0],
        &rules,
        &settings,
        &locations,
    );
    assert_eq!(got.len(), 2);
    assert_eq!(got[0].rule_id, "other");
    assert_eq!(got[0].severity, Severity::Warning);
    assert!(got[0].regions.is_empty());
    assert_eq!(got[1].rule_id, "safe");
    assert_eq!(got[1].severity, Severity::Error);
    assert_eq!(got[1].rule_path, ".jevlint-rules/safe.md");
    assert_eq!(got[1].message, "# safe\n\nCheck safe.");
    assert_eq!(got[1].confidence, 0.7f64.to_bits());
    assert_eq!(spans(&got[1].regions), vec![(1, 1), (3, 3)]);

    let all_hidden = vec![("safe".to_string(), vec![2])];
    let got = build_violations(
        &"src/a.rs".to_string(),
        source,
        &vec![answer("safe", Verdict::Fail, 0.7)],
        &vec![0],
        &rules,
        &settings,
        &all_hidden,
    );
    assert!(got.is_empty());
}

#[test]
fn a_fully_cached_file_asks_nothing() {
    let lookup = look_up_verdicts(vec![Some(answer("a", Verdict::Pass, 0.9)), Some(answer("b", Verdict::Fail, 0.9))]);
    assert!(lookup.ask.is_none());
    assert_eq!(lookup.tally, Tally { api_requests: 0, cache_hits: 2 });
    let line = |line: usize| LineAnswer {
        rule_id: "b".into(),
        line,
        violated: true,
        confidence: 0.8f64.to_bits(),
        resolved_model: "test".into(),
    };
    let lines = look_up_lines(lookup.tally, vec![Some(line(1)), Some(line(2))], 200);
    assert!(lines.requests.is_empty());
    assert_eq!(lines.tally, Tally { api_requests: 0, cache_hits: 4 });
}

#[test]
fn missing_entries_are_asked_in_bounded_requests() {
    let lookup = look_up_verdicts(vec![None, Some(answer("b", Verdict::Pass, 0.9)), None]);
    assert_eq!(lookup.ask, Some(vec![0, 2]));
    assert_eq!(lookup.found.len(), 1);
    assert_eq!(lookup.tally, Tally { api_requests: 1, cache_hits: 1 });
    let lines = look_up_lines(lookup.tally, vec![None, None, None, None, None], 2);
    assert_eq!(lines.requests, vec![vec![0, 1], vec![2, 3], vec![4]]);
    assert_eq!(lines.tally, Tally { api_requests: 4, cache_hits: 1 });
}

#[test]
fn the_run_report_does_not_depend_on_the_arrival_order() {
    let report = |path: &str, requests: usize, hits: usize| FileReport {
        path: path.to_string(),
        api_requests: requests,
        cache_hits: hits,
        violations: vec![violation(path, Severity::Warning)],
    };
    let first = aggregate(vec![report("b.rs", 1, 2), report("a.rs", 2, 0), report("c/d.rs", 0, 4)], 2);
    let second = aggregate(vec![report("c/d.rs", 0, 4), report("b.rs", 1, 2), report("a.rs", 2, 0)], 2);
    assert_eq!(first.files_checked, second.files_checked);
    assert_eq!(first.api_requests, second.api_requests);
    assert_eq!(first.cache_hits, second.cache_hits);
    assert_eq!(first.api_requests, 3);
    assert_eq!(first.cache_hits, 6);
    let paths = |r: &RunReport| r.violations.iter().map(|v| v.path.clone()).collect::<Vec<_>>();
    assert_eq!(paths(&first), paths(&second));
    assert_eq!(paths(&first), vec!["a.rs", "b.rs", "c/d.rs"]);
}

#[test]
fn fresh_answers_are_stored_under_the_keys_they_were_asked_for() {
    let keys = vec!["k0".to_string(), "k1".to_string(), "k2".to_string()];
    let stored = entries_to_store(&vec![2, 0], &keys, vec!["answer to k2", "answer to k0"]);
    assert_eq!(stored, vec![("k2".to_string(), "answer to k2"), ("k0".to_string(), "answer to k0")]);
    assert!(entries_to_store(&Vec::new(), &keys, Vec::<u8>::new()).is_empty());
}

#[test]
fn failed_rules_are_located_only_with_line_detection_on() {
    let failed = vec![answer("a", Verdict::Fail, 0.9)];
    assert!(needs_location(true, &failed));
    assert!(!needs_location(false, &failed));
    assert!(!needs_location(true, &Vec::new()));
}

#[test]
fn a_failed_precondition_stops_the_run_and_a_passed_one_lets_it_go_on() {
    let failure = PreconditionFailure {
        files: vec!["a.rs".to_string()],
        command: vec!["cargo".to_string(), "check".to_string()],
        status: Some(101),
        output: "error".to_string(),
    };
    let stopped = stop_on_precondition(2, Some(failure)).unwrap();
    assert_eq!(stopped.files_checked, 0);
    assert_eq!(stopped.rules, 2);
    assert_eq!(stopped.api_requests, 0);
    assert_eq!(stopped.cache_hits, 0);
    assert_eq!(stopped.precondition_failure.unwrap().status, Some(101));
    assert!(stop_on_precondition(2, None).is_none());
}
