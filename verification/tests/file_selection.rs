use jevlint::config::{Config, RuleSet};
use jevlint::files::{discover, FileMatcher, GlobError, RuleSetting};
use jevlint::rule::Severity;

fn bits(x: f64) -> u64 {
    x.to_bits()
}

#[test]
fn selects_rules_and_severities_from_matching_sets() {
    let config = Config {
        rule_sets: vec![
            RuleSet {
                patterns: vec!["**/*.py".into()],
                exclude: vec!["generated/**".into()],
                error: vec![("python-boundaries".into(), bits(0.7))],
                warn: Vec::new(),
            },
            RuleSet {
                patterns: vec!["**/*.ts".into()],
                exclude: Vec::new(),
                error: Vec::new(),
                warn: vec![("typescript-boundaries".into(), bits(0.8))],
            },
            RuleSet {
                patterns: vec!["src/**".into()],
                exclude: Vec::new(),
                error: vec![("shared-source-rule".into(), bits(1.5))],
                warn: Vec::new(),
            },
        ],
        ..Config::default()
    };
    let matcher = FileMatcher::new(&config).unwrap();

    assert_eq!(
        matcher.rules_for("src/service.py"),
        vec![
            (
                "python-boundaries".to_string(),
                RuleSetting { severity: Severity::Error, threshold: bits(0.7) }
            ),
            (
                "shared-source-rule".to_string(),
                RuleSetting { severity: Severity::Error, threshold: bits(1.0) }
            )
        ]
    );
    assert_eq!(
        matcher.rules_for("src/client.ts"),
        vec![
            (
                "shared-source-rule".to_string(),
                RuleSetting { severity: Severity::Error, threshold: bits(1.0) }
            ),
            (
                "typescript-boundaries".to_string(),
                RuleSetting { severity: Severity::Warning, threshold: bits(0.8) }
            )
        ]
    );
    assert!(!matcher.is_lintable("generated/models.py"));
    assert!(!matcher.is_lintable("README.md"));
}

#[test]
fn no_rule_sets_selects_nothing() {
    let matcher = FileMatcher::new(&Config::default()).unwrap();

    assert!(!matcher.is_lintable("src/main.rs"));
    assert!(matcher.rules_for("src/main.rs").is_empty());
}

#[test]
fn negative_threshold_disables_a_rule() {
    let config = Config {
        rule_sets: vec![RuleSet {
            patterns: vec!["*.ts".into()],
            exclude: Vec::new(),
            error: vec![("disabled".into(), bits(-0.1))],
            warn: Vec::new(),
        }],
        ..Config::default()
    };
    assert!(!FileMatcher::new(&config).unwrap().is_lintable("app.ts"));
}

#[test]
fn a_later_matching_set_decides_a_repeated_rule() {
    let config = Config {
        rule_sets: vec![
            RuleSet {
                patterns: vec!["*.ts".into()],
                exclude: Vec::new(),
                error: vec![("shared".into(), bits(0.9))],
                warn: Vec::new(),
            },
            RuleSet {
                patterns: vec!["app.*".into()],
                exclude: Vec::new(),
                error: Vec::new(),
                warn: vec![("shared".into(), bits(0.4))],
            },
        ],
        ..Config::default()
    };
    let matcher = FileMatcher::new(&config).unwrap();
    assert_eq!(
        matcher.rules_for("app.ts"),
        vec![("shared".to_string(), RuleSetting { severity: Severity::Warning, threshold: bits(0.4) })]
    );
    assert_eq!(
        matcher.rules_for("lib.ts"),
        vec![("shared".to_string(), RuleSetting { severity: Severity::Error, threshold: bits(0.9) })]
    );
}

#[test]
fn globally_excluded_files_are_not_linted() {
    let config = Config {
        rule_sets: vec![RuleSet {
            patterns: vec!["**/*.rs".into()],
            exclude: Vec::new(),
            error: vec![("rule".into(), bits(0.5))],
            warn: Vec::new(),
        }],
        ..Config::default()
    };
    let matcher = FileMatcher::new(&config).unwrap();
    assert!(matcher.is_lintable("src/lib.rs"));
    assert!(!matcher.is_lintable("target/debug/build.rs"));
    assert!(matcher.rules_for("target/debug/build.rs").is_empty());
}

#[test]
fn an_invalid_glob_is_reported() {
    let config = Config {
        rule_sets: vec![RuleSet {
            patterns: vec!["src/[".into()],
            exclude: Vec::new(),
            error: vec![("rule".into(), bits(0.5))],
            warn: Vec::new(),
        }],
        ..Config::default()
    };
    match FileMatcher::new(&config) {
        Err(GlobError::InvalidGlob { pattern, message }) => {
            assert_eq!(pattern, "src/[");
            assert!(message.contains("unclosed character class"));
        }
        _ => panic!("the glob should be rejected"),
    }
    assert!(discover(&config, vec!["src/a.rs".into()]).is_err());
}

#[test]
fn discovery_keeps_lintable_files_in_path_order() {
    let config = Config {
        rule_sets: vec![RuleSet {
            patterns: vec!["*.rs".into(), "**/*.rs".into()],
            exclude: Vec::new(),
            error: vec![("rule".into(), bits(0.5))],
            warn: Vec::new(),
        }],
        ..Config::default()
    };
    let selected = discover(
        &config,
        vec![
            "src/z.rs".into(),
            "README.md".into(),
            "src/a/b.rs".into(),
            "main.rs".into(),
            "target/x.rs".into(),
            "src/a.rs".into(),
        ],
    )
    .unwrap();
    assert_eq!(selected, vec!["main.rs", "src/a/b.rs", "src/a.rs", "src/z.rs"]);
}

#[test]
fn a_later_set_with_a_negative_threshold_disables_the_rule() {
    let config = Config {
        rule_sets: vec![
            RuleSet {
                patterns: vec!["*.ts".into()],
                exclude: Vec::new(),
                error: vec![("shared".into(), bits(0.5))],
                warn: Vec::new(),
            },
            RuleSet {
                patterns: vec!["app.*".into()],
                exclude: Vec::new(),
                error: vec![("shared".into(), bits(-0.5))],
                warn: Vec::new(),
            },
        ],
        ..Config::default()
    };
    let matcher = FileMatcher::new(&config).unwrap();
    assert!(matcher.rules_for("app.ts").is_empty());
    assert!(!matcher.is_lintable("app.ts"));
    assert_eq!(
        matcher.rules_for("lib.ts"),
        vec![("shared".to_string(), RuleSetting { severity: Severity::Error, threshold: bits(0.5) })]
    );
}

#[test]
fn a_disabled_listing_inside_one_set_leaves_its_enabled_listing() {
    let config = Config {
        rule_sets: vec![RuleSet {
            patterns: vec!["*.ts".into()],
            exclude: Vec::new(),
            error: vec![("shared".into(), bits(0.5))],
            warn: vec![("shared".into(), bits(-1.0))],
        }],
        ..Config::default()
    };
    let matcher = FileMatcher::new(&config).unwrap();
    assert_eq!(
        matcher.rules_for("app.ts"),
        vec![("shared".to_string(), RuleSetting { severity: Severity::Error, threshold: bits(0.5) })]
    );
}

#[test]
fn a_later_set_can_enable_a_rule_an_earlier_set_disabled() {
    let config = Config {
        rule_sets: vec![
            RuleSet {
                patterns: vec!["*.ts".into()],
                exclude: Vec::new(),
                error: vec![("shared".into(), bits(-0.5))],
                warn: Vec::new(),
            },
            RuleSet {
                patterns: vec!["app.*".into()],
                exclude: Vec::new(),
                error: Vec::new(),
                warn: vec![("shared".into(), bits(0.3))],
            },
        ],
        ..Config::default()
    };
    let matcher = FileMatcher::new(&config).unwrap();
    assert_eq!(
        matcher.rules_for("app.ts"),
        vec![("shared".to_string(), RuleSetting { severity: Severity::Warning, threshold: bits(0.3) })]
    );
    assert!(!matcher.is_lintable("lib.ts"));
}
