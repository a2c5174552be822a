use jevlint::cache_key::{line_identity, line_keys, verdict_identity, verdict_keys};
use jevlint::hash;
use jevlint::rule::build_rule;

#[test]
fn a_verdict_identity_is_the_json_of_its_members() {
    let rule = build_rule(".jevlint-rules", "safe.md", "No unsafe.".to_string()).unwrap();
    let identity = verdict_identity("src/a.rs", "f1", &rule, "p1", "jev-1");
    assert_eq!(
        identity,
        format!(
            "{{\"path\":\"src/a.rs\",\"file_hash\":\"f1\",\"rule_hash\":\"{}\",\"prompt_hash\":\"p1\",\"model\":\"jev-1\",\"schema\":\"verdict-v1\"}}",
            rule.hash
        )
    );
}

#[test]
fn identity_strings_are_escaped_as_json() {
    let rule = build_rule(".jevlint-rules", "safe.md", "No unsafe.".to_string()).unwrap();
    let identity = verdict_identity(r#"dir\"q".rs"#, "f", &rule, "p", "m\n");
    assert!(identity.starts_with(r#"{"path":"dir\\\"q\".rs","file_hash":"f","#));
    assert!(identity.contains(r#""model":"m\n","#));
}

#[test]
fn a_line_identity_adds_the_line_before_its_schema() {
    let rule = build_rule(".jevlint-rules", "safe.md", "No unsafe.".to_string()).unwrap();
    let identity = line_identity("src/a.rs", "f1", &rule, "p1", "jev-1", 12);
    assert_eq!(
        identity,
        format!(
            "{{\"path\":\"src/a.rs\",\"file_hash\":\"f1\",\"rule_hash\":\"{}\",\"prompt_hash\":\"p1\",\"model\":\"jev-1\",\"line\":12,\"schema\":\"line-noul-v1\"}}",
            rule.hash
        )
    );
}

#[test]
fn keys_digest_the_identity_under_the_namespace() {
    let rules = vec![
        build_rule(".jevlint-rules", "a.md", "Rule a.".to_string()).unwrap(),
        build_rule(".jevlint-rules", "b.md", "Rule b.".to_string()).unwrap(),
    ];
    let keys = verdict_keys("src/a.rs", "f1", &rules, &vec![1, 0], "p1", "m");
    assert_eq!(keys.len(), 2);
    assert_eq!(keys[0], hash::key("rule-result", &verdict_identity("src/a.rs", "f1", &rules[1], "p1", "m")));
    assert_eq!(keys[1], hash::key("rule-result", &verdict_identity("src/a.rs", "f1", &rules[0], "p1", "m")));
    assert_eq!(keys[0].len(), 64);

    let lines = line_keys("src/a.rs", "f1", &rules, &vec![(0, 1), (0, 2)], "p1", "m");
    assert_eq!(lines[1], hash::key("line-result", &line_identity("src/a.rs", "f1", &rules[0], "p1", "m", 2)));
    assert_ne!(lines[0], lines[1]);
}

#[test]
fn a_verdict_key_follows_the_rule_text_not_its_name() {
    let first = vec![build_rule(".jevlint-rules", "safe.md", "No unsafe.".to_string()).unwrap()];
    let renamed = vec![build_rule("other-rules", "renamed.md", "No unsafe.".to_string()).unwrap()];
    let edited = vec![build_rule(".jevlint-rules", "safe.md", "No unsafe blocks.".to_string()).unwrap()];
    let file_hash = hash::bytes("unsafe {}\n");
    let key = |rules: &Vec<_>| verdict_keys("sample.rs", &file_hash, rules, &vec![0], "p", "m");
    assert_eq!(key(&first), key(&renamed));
    assert_ne!(key(&first), key(&edited));
    let changed_file = verdict_keys("sample.rs", &hash::bytes("fn main() {}\n"), &first, &vec![0], "p", "m");
    assert_ne!(key(&first), changed_file);
}

#[test]
fn control_characters_are_escaped_and_others_kept() {
    let rule = build_rule(".jevlint-rules", "safe.md", "No unsafe.".to_string()).unwrap();
    let path = "a\u{1}b\u{8}\u{c}\u{1f}\u{7f}\u{e9}/\t\r";
    let identity = verdict_identity(path, "f", &rule, "p", "m");
    let expected_path = "\"a\\u0001b\\b\\f\\u001f\u{7f}\u{e9}/\\t\\r\"";
    assert!(identity.starts_with(&format!("{{\"path\":{expected_path},\"file_hash\":")));
}
