//! Cache keys: the identity of a cached answer, written as JSON text, and
//! the digest of that text under the answer's namespace.
//!
//! A rule's verdict on a file is cached under the file's path and the digests
//! of its text, of the rule's text and of the system prompt, the model, and
//! the schema of the answer; a line answer also under its line. The rule's
//! id, severity and threshold are not part of a key, so a change of them
//! reuses what was cached.
use vstd::prelude::*;
use crate::hash::{blake3_hex, key, key_text};
use crate::rule::Rule;
use crate::text::{decimal, decimal_string, push_str};

verus! {

/// A hexadecimal digit, lowercase.
pub open spec fn hex_digit(d: int) -> char {
    if d < 10 {
        (48 + d) as char
    } else {
        (87 + d) as char
    }
}

/// How a character stands in a JSON string: `"` and `\` behind a
/// backslash; backspace, tab, line feed, form feed and carriage return as
/// `\b`, `\t`, `\n`, `\f`, `\r`; the other characters below U+0020 as
/// `\u00` and two lowercase hex digits; every other character as itself.
pub open spec fn json_escape(c: char) -> Seq<char> {
    if c == '"' {
        seq!['\\', '"']
    } else if c == '\\' {
        seq!['\\', '\\']
    } else if c == '\x08' {
        seq!['\\', 'b']
    } else if c == '\t' {
        seq!['\\', 't']
    } else if c == '\n' {
        seq!['\\', 'n']
    } else if c == '\x0C' {
        seq!['\\', 'f']
    } else if c == '\r' {
        seq!['\\', 'r']
    } else if (c as int) < 32 {
        seq!['\\', 'u', '0', '0', hex_digit(c as int / 16), hex_digit(c as int % 16)]
    } else {
        seq![c]
    }
}

/// The characters of a string, each as it stands in a JSON string.
pub open spec fn json_escaped(text: Seq<char>) -> Seq<char>
    decreases text.len(),
{
    if text.len() == 0 {
        Seq::empty()
    } else {
        json_escaped(text.drop_last()) + json_escape(text.last())
    }
}

/// The JSON text of a string: its escaped characters between quotes.
pub open spec fn json_string(text: Seq<char>) -> Seq<char> {
    seq!['"'] + json_escaped(text) + seq!['"']
}

/// Calls `serde_json::to_string` on a string slice. Trusted: the result is
/// the string's JSON text as [`json_string`] states it, which is what
/// `format_escaped_str` writes with its escape table and the default
/// formatter. Writing a string into the `Vec` that `to_string` fills does
/// not fail, so the error arm is never taken.
#[verifier::external_body]
fn json_quoted(value: &str) -> (r: String)
    ensures
        r@ == json_string(value@),
{
    serde_json::to_string(value).unwrap_or_default()
}

/// The schema of cached verdicts.
pub const VERDICT_SCHEMA: &'static str = "verdict-v1";

/// The schema of cached line answers.
pub const LINE_SCHEMA: &'static str = "line-noul-v1";

/// The namespace of cached verdicts.
pub const VERDICT_NAMESPACE: &'static str = "rule-result";

/// The namespace of cached line answers.
pub const LINE_NAMESPACE: &'static str = "line-result";

/// The members that a verdict and a line answer share, up to the model:
/// `{"path":…,"file_hash":…,"rule_hash":…,"prompt_hash":…,"model":…`.
pub open spec fn identity_head(
    path: Seq<char>,
    file_hash: Seq<char>,
    rule_hash: Seq<char>,
    prompt_hash: Seq<char>,
    model: Seq<char>,
) -> Seq<char> {
    "{\"path\":"@ + json_string(path) + ",\"file_hash\":"@ + json_string(file_hash) + ",\"rule_hash\":"@
        + json_string(rule_hash) + ",\"prompt_hash\":"@ + json_string(prompt_hash) + ",\"model\":"@
        + json_string(model)
}

/// The JSON text of a verdict's identity: the shared members, then the
/// verdict schema.
pub open spec fn verdict_identity_text(
    path: Seq<char>,
    file_hash: Seq<char>,
    rule_hash: Seq<char>,
    prompt_hash: Seq<char>,
    model: Seq<char>,
) -> Seq<char> {
    identity_head(path, file_hash, rule_hash, prompt_hash, model) + ",\"schema\":"@ + json_string(VERDICT_SCHEMA@)
        + "}"@
}

/// The JSON text of a line answer's identity: the shared members, the line
/// in decimal, then the line schema.
pub open spec fn line_identity_text(
    path: Seq<char>,
    file_hash: Seq<char>,
    rule_hash: Seq<char>,
    prompt_hash: Seq<char>,
    model: Seq<char>,
    line: nat,
) -> Seq<char> {
    identity_head(path, file_hash, rule_hash, prompt_hash, model) + ",\"line\":"@ + decimal(line) + ",\"schema\":"@
        + json_string(LINE_SCHEMA@) + "}"@
}

/// The cache key of a rule's verdict on a file.
pub open spec fn verdict_key_of(
    path: Seq<char>,
    file_hash: Seq<char>,
    rule_hash: Seq<char>,
    prompt_hash: Seq<char>,
    model: Seq<char>,
) -> Seq<char> {
    blake3_hex(key_text(VERDICT_NAMESPACE@, verdict_identity_text(path, file_hash, rule_hash, prompt_hash, model)))
}

/// The cache key of the answer on whether a line of a file violates a rule.
pub open spec fn line_key_of(
    path: Seq<char>,
    file_hash: Seq<char>,
    rule_hash: Seq<char>,
    prompt_hash: Seq<char>,
    model: Seq<char>,
    line: nat,
) -> Seq<char> {
    blake3_hex(key_text(LINE_NAMESPACE@, line_identity_text(path, file_hash, rule_hash, prompt_hash, model, line)))
}

/// Writes the shared members of an identity.
fn identity_head_text(path: &str, file_hash: &str, rule_hash: &str, prompt_hash: &str, model: &str) -> (r: String)
    ensures
        r@ == identity_head(path@, file_hash@, rule_hash@, prompt_hash@, model@),
{
    let mut text = String::new();
    push_str(&mut text, "{\"path\":");
    push_str(&mut text, json_quoted(path).as_str());
    push_str(&mut text, ",\"file_hash\":");
    push_str(&mut text, json_quoted(file_hash).as_str());
    push_str(&mut text, ",\"rule_hash\":");
    push_str(&mut text, json_quoted(rule_hash).as_str());
    push_str(&mut text, ",\"prompt_hash\":");
    push_str(&mut text, json_quoted(prompt_hash).as_str());
    push_str(&mut text, ",\"model\":");
    push_str(&mut text, json_quoted(model).as_str());
    proof {
        assert(text@ =~= identity_head(path@, file_hash@, rule_hash@, prompt_hash@, model@));
    }
    text
}

/// The JSON text of a verdict's identity.
pub fn verdict_identity(path: &str, file_hash: &str, rule: &Rule, prompt_hash: &str, model: &str) -> (r: String)
    ensures
        r@ == verdict_identity_text(path@, file_hash@, rule.hash@, prompt_hash@, model@),
{
    let mut text = identity_head_text(path, file_hash, rule.hash.as_str(), prompt_hash, model);
    push_str(&mut text, ",\"schema\":");
    push_str(&mut text, json_quoted(VERDICT_SCHEMA).as_str());
    push_str(&mut text, "}");
    proof {
        assert(text@ =~= verdict_identity_text(path@, file_hash@, rule.hash@, prompt_hash@, model@));
    }
    text
}

/// The JSON text of a line answer's identity.
pub fn line_identity(path: &str, file_hash: &str, rule: &Rule, prompt_hash: &str, model: &str, line: usize) -> (r:
    String)
    ensures
        r@ == line_identity_text(path@, file_hash@, rule.hash@, prompt_hash@, model@, line as nat),
{
    let mut text = identity_head_text(path, file_hash, rule.hash.as_str(), prompt_hash, model);
    push_str(&mut text, ",\"line\":");
    push_str(&mut text, decimal_string(line).as_str());
    push_str(&mut text, ",\"schema\":");
    push_str(&mut text, json_quoted(LINE_SCHEMA).as_str());
    push_str(&mut text, "}");
    proof {
        assert(text@ =~= line_identity_text(path@, file_hash@, rule.hash@, prompt_hash@, model@, line as nat));
    }
    text
}

/// The cache keys of the verdicts of the rules at `positions` on a file, in
/// that order.
pub fn verdict_keys(
    path: &str,
    file_hash: &str,
    rules: &Vec<Rule>,
    positions: &Vec<usize>,
    prompt_hash: &str,
    model: &str,
) -> (r: Vec<String>)
    requires
        forall|i: int| 0 <= i < positions@.len() ==> #[trigger] positions@[i] < rules@.len(),
    ensures
        r@.len() == positions@.len(),
        forall|i: int|
            0 <= i < r@.len() ==> #[trigger] r@[i]@ == verdict_key_of(
                path@,
                file_hash@,
                rules@[positions@[i] as int].hash@,
                prompt_hash@,
                model@,
            ),
{
    let mut keys: Vec<String> = Vec::new();
    let mut i: usize = 0;
    while i < positions.len()
        invariant
            i <= positions@.len(),
            forall|j: int| 0 <= j < positions@.len() ==> #[trigger] positions@[j] < rules@.len(),
            keys@.len() == i,
            forall|j: int|
                0 <= j < i ==> #[trigger] keys@[j]@ == verdict_key_of(
                    path@,
                    file_hash@,
                    rules@[positions@[j] as int].hash@,
                    prompt_hash@,
                    model@,
                ),
        decreases positions@.len() - i,
    {
        let identity = verdict_identity(path, file_hash, &rules[positions[i]], prompt_hash, model);
        keys.push(key(VERDICT_NAMESPACE, identity.as_str()));
        i += 1;
    }
    keys
}

/// The cache keys of the line answers for the `(rule position, line)`
/// entries, in that order.
pub fn line_keys(
    path: &str,
    file_hash: &str,
    rules: &Vec<Rule>,
    entries: &Vec<(usize, usize)>,
    prompt_hash: &str,
    model: &str,
) -> (r: Vec<String>)
    requires
        forall|i: int| 0 <= i < entries@.len() ==> (#[trigger] entries@[i]).0 < rules@.len(),
    ensures
        r@.len() == entries@.len(),
        forall|i: int|
            0 <= i < r@.len() ==> #[trigger] r@[i]@ == line_key_of(
                path@,
                file_hash@,
                rules@[entries@[i].0 as int].hash@,
                prompt_hash@,
                model@,
                entries@[i].1 as nat,
            ),
{
    let mut keys: Vec<String> = Vec::new();
    let mut i: usize = 0;
    while i < entries.len()
        invariant
            i <= entries@.len(),
            forall|j: int| 0 <= j < entries@.len() ==> (#[trigger] entries@[j]).0 < rules@.len(),
            keys@.len() == i,
            forall|j: int|
                0 <= j < i ==> #[trigger] keys@[j]@ == line_key_of(
                    path@,
                    file_hash@,
                    rules@[entries@[j].0 as int].hash@,
                    prompt_hash@,
                    model@,
                    entries@[j].1 as nat,
                ),
        decreases entries@.len() - i,
    {
        let (position, line) = entries[i];
        let identity = line_identity(path, file_hash, &rules[position], prompt_hash, model, line);
        keys.push(key(LINE_NAMESPACE, identity.as_str()));
        i += 1;
    }
    keys
}

/// A file's verdict keys stay the same from one run to the next while its
/// path and text, the texts of the rules asked about, the system prompt and
/// the model stay: a change of a rule's id, severity or threshold, or of
/// another file, leaves them, so the verdicts cached for the file are
/// found again.
pub proof fn lemma_verdict_keys_stable(
    path: Seq<char>,
    source: Seq<char>,
    prompt: Seq<char>,
    model: Seq<char>,
    first: Seq<Rule>,
    second: Seq<Rule>,
    first_keys: Seq<String>,
    second_keys: Seq<String>,
)
    requires
        first.len() == second.len(),
        forall|i: int| 0 <= i < first.len() ==> (#[trigger] first[i]).markdown@ == second[i].markdown@,
        forall|i: int| 0 <= i < first.len() ==> (#[trigger] first[i]).hash@ == blake3_hex(first[i].markdown@),
        forall|i: int| 0 <= i < second.len() ==> (#[trigger] second[i]).hash@ == blake3_hex(second[i].markdown@),
        first_keys.len() == first.len(),
        second_keys.len() == second.len(),
        forall|i: int|
            0 <= i < first.len() ==> (#[trigger] first_keys[i])@ == verdict_key_of(
                path,
                blake3_hex(source),
                first[i].hash@,
                blake3_hex(prompt),
                model,
            ),
        forall|i: int|
            0 <= i < second.len() ==> (#[trigger] second_keys[i])@ == verdict_key_of(
                path,
                blake3_hex(source),
                second[i].hash@,
                blake3_hex(prompt),
                model,
            ),
    ensures
        forall|i: int| 0 <= i < first_keys.len() ==> (#[trigger] first_keys[i])@ == second_keys[i]@,
{
    assert forall|i: int| 0 <= i < first_keys.len() implies (#[trigger] first_keys[i])@ == second_keys[i]@ by {
        assert(first[i].hash@ == second[i].hash@);
    }
}

/// A file's line keys stay the same from one run to the next while its path
/// and text, the texts of the rules asked about, the system prompt and the
/// model stay.
pub proof fn lemma_line_keys_stable(
    path: Seq<char>,
    source: Seq<char>,
    prompt: Seq<char>,
    model: Seq<char>,
    first: Seq<Rule>,
    second: Seq<Rule>,
    lines: Seq<usize>,
    first_keys: Seq<String>,
    second_keys: Seq<String>,
)
    requires
        first.len() == second.len(),
        lines.len() == first.len(),
        forall|i: int| 0 <= i < first.len() ==> (#[trigger] first[i]).markdown@ == second[i].markdown@,
        forall|i: int| 0 <= i < first.len() ==> (#[trigger] first[i]).hash@ == blake3_hex(first[i].markdown@),
        forall|i: int| 0 <= i < second.len() ==> (#[trigger] second[i]).hash@ == blake3_hex(second[i].markdown@),
        first_keys.len() == first.len(),
        second_keys.len() == second.len(),
        forall|i: int|
            0 <= i < first.len() ==> (#[trigger] first_keys[i])@ == line_key_of(
                path,
                blake3_hex(source),
                first[i].hash@,
                blake3_hex(prompt),
                model,
                lines[i] as nat,
            ),
        forall|i: int|
            0 <= i < second.len() ==> (#[trigger] second_keys[i])@ == line_key_of(
                path,
                blake3_hex(source),
                second[i].hash@,
                blake3_hex(prompt),
                model,
                lines[i] as nat,
            ),
    ensures
        forall|i: int| 0 <= i < first_keys.len() ==> (#[trigger] first_keys[i])@ == second_keys[i]@,
{
    assert forall|i: int| 0 <= i < first_keys.len() implies (#[trigger] first_keys[i])@ == second_keys[i]@ by {
        assert(first[i].hash@ == second[i].hash@);
    }
}

} // verus!
