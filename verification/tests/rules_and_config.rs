use jevlint::config::{
    api_key_source, KeySource, default_cache_dir, default_concurrency, default_key_path, default_model, default_rules_dir,
    default_system_prompt, default_timeout, key_from_environment, key_from_file, resolve_key_path,
    Config, ConfigError, KeyError, PreconditionConfig, RuleSet,
};
use jevlint::precondition::CommandPrecondition;
use jevlint::rule::{build_rule, is_horizontal_rule, message, select_rule_files, RuleLoadError, Severity};

#[test]
fn loads_markdown_rules() {
    let names = select_rule_files(vec!["security.md".into()]).unwrap();
    let rules: Vec<_> = names
        .iter()
        .map(|name| build_rule("/rules", name, "Check security.".into()).unwrap())
        .collect();
    assert_eq!(rules[0].id, "security");
}

#[test]
fn uses_markdown_before_the_first_horizontal_rule_as_the_message() {
    let rule = build_rule(
        "/rules",
        "security.md",
        "# Unsafe boundary\n\nValidate external values.\n\n---\n\nLong instructions.".into(),
    )
    .unwrap();

    assert_eq!(rule.message, "# Unsafe boundary\n\nValidate external values.");
}

#[test]
fn rule_files_are_the_markdown_files_in_name_order() {
    let names = select_rule_files(vec!["b.md".into(), "notes.txt".into(), "a.md".into(), ".md".into()]).unwrap();
    assert_eq!(names, vec!["a.md", "b.md"]);
    assert_eq!(select_rule_files(vec!["notes.txt".into()]), Err(RuleLoadError::NoRules));
}

#[test]
fn an_empty_rule_is_rejected() {
    assert_eq!(
        build_rule(".jevlint-rules", "empty.md", " \n\t".into()).unwrap_err(),
        RuleLoadError::EmptyRule { path: ".jevlint-rules/empty.md".into() }
    );
}

#[test]
fn a_rule_carries_its_path_and_content_hash() {
    let rule = build_rule(".jevlint-rules", "a.b.md", "text".into()).unwrap();
    assert_eq!(rule.id, "a.b");
    assert_eq!(rule.source_path, ".jevlint-rules/a.b.md");
    assert_eq!(rule.markdown, "text");
    assert_eq!(rule.hash, blake3::hash(b"text").to_hex().to_string());
    assert_eq!(rule.message, "text");
}

#[test]
fn horizontal_rules_and_whole_messages() {
    assert!(is_horizontal_rule("---"));
    assert!(is_horizontal_rule(" - - - - "));
    assert!(!is_horizontal_rule("--"));
    assert!(!is_horizontal_rule("--- x"));
    assert_eq!(message("---\nbody"), "---\nbody");
    assert_eq!(message("  Only this.  "), "Only this.");
}

#[test]
fn severities_are_labelled() {
    assert_eq!(Severity::Error.label(), "error");
    assert_eq!(Severity::Warning.label(), "warning");
}

fn rule_set(error: Vec<(&str, f64)>, warn: Vec<(&str, f64)>) -> RuleSet {
    RuleSet {
        patterns: vec!["**/*.ts".into()],
        exclude: Vec::new(),
        error: error.into_iter().map(|(id, x)| (id.to_string(), x.to_bits())).collect(),
        warn: warn.into_iter().map(|(id, x)| (id.to_string(), x.to_bits())).collect(),
    }
}

#[test]
fn defaults_match_the_documented_values() {
    let config = Config::default();
    assert_eq!(config.exclude, vec!["target/**", ".jevlint/**"]);
    assert_eq!(config.rules_dir, default_rules_dir());
    assert_eq!(default_rules_dir(), ".jevlint-rules");
    assert_eq!(default_system_prompt(), ".jevlint-system.md");
    assert_eq!(default_cache_dir(), ".jevlint");
    assert_eq!(default_model(), "jev-latest");
    assert_eq!(default_concurrency(), 5);
    assert_eq!(default_timeout(), 30);
    assert!(config.line_detection.enabled);
    assert_eq!(config.line_detection.max_questions_per_request, 200);
    assert_eq!(config.watch.debounce_milliseconds, 300);
}

#[test]
fn validation_reports_the_first_problem() {
    assert_eq!(Config::default().validate(), Err(ConfigError::NoRuleSets));
    let with = |rule_sets: Vec<RuleSet>| Config { rule_sets, ..Config::default() };
    let mut config = with(vec![rule_set(vec![("a", 0.5)], vec![])]);
    assert_eq!(config.validate(), Ok(()));
    config.precondition = Some(PreconditionConfig { command: Vec::new() });
    assert_eq!(config.validate(), Err(ConfigError::EmptyPreconditionCommand));
    let mut empty_patterns = rule_set(vec![("a", 0.5)], vec![]);
    empty_patterns.patterns.clear();
    assert_eq!(
        with(vec![rule_set(vec![("a", 0.5)], vec![]), empty_patterns]).validate(),
        Err(ConfigError::EmptyPatterns { index: 1 })
    );
    assert_eq!(with(vec![rule_set(vec![], vec![])]).validate(), Err(ConfigError::NoRules { index: 0 }));
    assert_eq!(
        with(vec![rule_set(vec![("a", 0.5), ("b", 0.5)], vec![("b", 0.2)])]).validate(),
        Err(ConfigError::SeverityConflict { index: 0, id: "b".into() })
    );
    assert_eq!(with(vec![rule_set(vec![("b", -1.0)], vec![("b", 0.2)])]).validate(), Ok(()));
    assert_eq!(
        with(vec![rule_set(vec![("a", f64::NAN)], vec![])]).validate(),
        Err(ConfigError::NonFiniteThreshold { index: 0 })
    );
    assert_eq!(
        with(vec![rule_set(vec![], vec![("example", 1.4)])]).validate(),
        Ok(())
    );
}

#[test]
fn key_paths_resolve_against_the_root_or_home() {
    assert_eq!(resolve_key_path("/project", "/etc/key", None), Ok("/etc/key".to_string()));
    assert_eq!(resolve_key_path("/project", "keys/jev", None), Ok("/project/keys/jev".to_string()));
    assert_eq!(resolve_key_path("/project", "~/k", Some("/home/me")), Ok("/home/me/k".to_string()));
    assert_eq!(resolve_key_path("/project", "~//k", Some("/home/me")), Ok("/home/me/k".to_string()));
    assert_eq!(resolve_key_path("/project", "~k", Some("/home/me")), Ok("/project/~k".to_string()));
    assert_eq!(resolve_key_path("/project", "~/k", None), Err(KeyError::HomeNotSet));
    assert_eq!(
        default_key_path(Some("/home/me")),
        Ok("/home/me/.config/jevlint/typesafe-api-key".to_string())
    );
    assert_eq!(default_key_path(None), Err(KeyError::HomeNotSet));
}

#[test]
fn keys_are_trimmed_and_must_not_be_empty() {
    assert_eq!(key_from_environment(Some("  secret \n")), Some("secret".to_string()));
    assert_eq!(key_from_environment(Some("   ")), None);
    assert_eq!(key_from_environment(None), None);
    assert_eq!(key_from_file("/k", " abc\n"), Ok("abc".to_string()));
    assert_eq!(key_from_file("/k", "\n"), Err(KeyError::EmptyKeyFile { path: "/k".into() }));
}

#[test]
fn a_precondition_reports_a_failed_command() {
    let precondition = CommandPrecondition::new(PreconditionConfig { command: vec!["cargo".into(), "check".into()] });
    let (program, args) = precondition.program_and_args();
    assert_eq!(program, "cargo");
    assert_eq!(args, vec!["check"]);
    let files = vec!["src/a.rs".to_string()];
    assert!(precondition.outcome(&files, true, Some(0), "ok", "").is_none());
    let failure = precondition.outcome(&files, false, Some(101), " out\n", "err \n").unwrap();
    assert_eq!(failure.files, files);
    assert_eq!(failure.command, vec!["cargo", "check"]);
    assert_eq!(failure.status, Some(101));
    assert_eq!(failure.output, "out\nerr");
}

#[test]
fn the_environment_key_comes_first() {
    let mut config = Config::default();
    assert_eq!(
        api_key_source(&config, "/project", Some(" abc "), Some("/home/me")),
        Ok(KeySource::Environment("abc".into()))
    );
    assert_eq!(
        api_key_source(&config, "/project", Some("  "), Some("/home/me")),
        Ok(KeySource::File("/home/me/.config/jevlint/typesafe-api-key".into()))
    );
    assert_eq!(api_key_source(&config, "/project", None, None), Err(KeyError::HomeNotSet));
    config.typesafe_api_key_file = Some("secrets/key".into());
    assert_eq!(
        api_key_source(&config, "/project", None, None),
        Ok(KeySource::File("/project/secrets/key".into()))
    );
}
