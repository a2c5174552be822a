use jevlint::hash::{bytes, key};
use jevlint::jev::{
    lint_instructions, locate_instructions, question_name, read_line_answers, read_rule_answers,
    AnswerError, ApiAnswer, LineQuestion, Verdict,
};
use jevlint::path::{components_of, join, same_path, starts_with, strip_prefix};
use jevlint::rule::{build_rule, Rule};

fn rule(id: &str) -> Rule {
    build_rule(".jevlint-rules", &format!("{id}.md"), format!("Rule {id}.")).unwrap()
}

fn choice(choice: Option<&str>, confidence: Option<f64>) -> ApiAnswer {
    ApiAnswer {
        choice: choice.map(|c| c.to_string()),
        confidence: confidence.map(f64::to_bits),
        noul: None,
    }
}

fn noul(p: Option<f64>) -> ApiAnswer {
    ApiAnswer { choice: None, confidence: None, noul: p.map(f64::to_bits) }
}

#[test]
fn questions_are_named_by_position() {
    assert_eq!(question_name(0), "q0");
    assert_eq!(question_name(12), "q12");
}

#[test]
fn instructions_quote_the_rule() {
    let r = rule("safe");
    assert_eq!(lint_instructions(&r), "Apply this lint rule:\n\nRule safe.");
    assert_eq!(
        locate_instructions(&LineQuestion { rule: &r, line: 4 }),
        "Does line 4 contain or participate in a violation of this rule?\n\nRule safe."
    );
}

#[test]
fn verdicts_are_read_in_rule_order() {
    let rules = vec![rule("a"), rule("b")];
    let answers = vec![
        ("q0".to_string(), choice(Some("fail"), Some(0.9))),
        ("q1".to_string(), choice(Some("pass"), Some(0.6))),
    ];
    let read = read_rule_answers(&rules, &answers, &"jev-1".to_string()).unwrap();
    assert_eq!(read.len(), 2);
    assert_eq!(read[0].rule_id, "a");
    assert_eq!(read[0].verdict, Verdict::Fail);
    assert_eq!(read[0].confidence, 0.9f64.to_bits());
    assert_eq!(read[1].verdict, Verdict::Pass);
    assert_eq!(read[1].resolved_model, "jev-1");
}

#[test]
fn unreadable_verdicts_are_errors() {
    let rules = vec![rule("a")];
    let model = "m".to_string();
    assert_eq!(
        read_rule_answers(&rules, &Vec::new(), &model).unwrap_err(),
        AnswerError::MissingAnswer { rule_id: "a".into() }
    );
    assert_eq!(
        read_rule_answers(&rules, &vec![("q0".to_string(), choice(Some("maybe"), Some(0.5)))], &model).unwrap_err(),
        AnswerError::UnexpectedVerdict { rule_id: "a".into(), choice: Some("maybe".into()) }
    );
    assert_eq!(
        read_rule_answers(&rules, &vec![("q0".to_string(), choice(None, Some(0.5)))], &model).unwrap_err(),
        AnswerError::UnexpectedVerdict { rule_id: "a".into(), choice: None }
    );
    assert_eq!(
        read_rule_answers(&rules, &vec![("q0".to_string(), choice(Some("pass"), None))], &model).unwrap_err(),
        AnswerError::MissingConfidence
    );
}

#[test]
fn a_line_is_violated_from_one_half_on() {
    let r = rule("a");
    let questions = vec![LineQuestion { rule: &r, line: 1 }, LineQuestion { rule: &r, line: 2 }];
    let answers = vec![("q0".to_string(), noul(Some(0.5))), ("q1".to_string(), noul(Some(0.2)))];
    let read = read_line_answers(&questions, &answers, &"m".to_string()).unwrap();
    assert!(read[0].violated);
    assert_eq!(read[0].line, 1);
    assert!(!read[1].violated);
    assert_eq!(read[1].probability, 0.2f64.to_bits());
    assert_eq!(
        read_line_answers(&questions, &answers[..1].to_vec(), &"m".to_string()).unwrap_err(),
        AnswerError::MissingLocation { index: 1 }
    );
    assert_eq!(
        read_line_answers(&questions[..1], &vec![("q0".to_string(), noul(None))], &"m".to_string()).unwrap_err(),
        AnswerError::MissingProbability
    );
}

#[test]
fn content_hashes_are_blake3_hex() {
    assert_eq!(bytes(""), "af1349b9f5f9a1a6a0404dea36dcc9499bcb25c9adc112b7cc9a93cae41f3262");
    assert_eq!(bytes("abc"), blake3::hash(b"abc").to_hex().to_string());
    assert_eq!(bytes("abc").len(), 64);
}

#[test]
fn cache_keys_digest_the_tag_namespace_and_identity() {
    let identity = r#"{"path":"a.rs","schema":"verdict-v1"}"#;
    let mut hasher = blake3::Hasher::new();
    hasher.update(b"jevlint\0");
    hasher.update(b"rule-result");
    hasher.update(b"\0");
    hasher.update(identity.as_bytes());
    assert_eq!(key("rule-result", identity), hasher.finalize().to_hex().to_string());
    assert_ne!(key("rule-result", identity), key("line-result", identity));
}

#[test]
fn paths_compare_by_components() {
    assert_eq!(components_of("/a//b/./c/"), vec!["/", "a", "b", "c"]);
    assert_eq!(components_of("./a"), vec![".", "a"]);
    assert_eq!(components_of("a/."), vec!["a"]);
    assert!(same_path("/a/b/", "/a//b"));
    assert!(!same_path("a/b", "/a/b"));
    assert!(starts_with("/a/b/c", "/a/b"));
    assert!(!starts_with("/a/bc", "/a/b"));
    assert_eq!(strip_prefix("/a/b/c/d.ts", "/a/b"), Some("c/d.ts".to_string()));
    assert_eq!(strip_prefix("/a/b", "/a/b"), Some(String::new()));
    assert_eq!(strip_prefix("/x/y", "/a"), None);
    assert_eq!(join("/project", ".jevlint-rules"), "/project/.jevlint-rules");
    assert_eq!(join("/project/", "a"), "/project/a");
    assert_eq!(join("/project", "/abs"), "/abs");
}
