//! Markdown lint rules: their ids, messages and content hashes.
use vstd::prelude::*;
use crate::text::{
    chars_of, char_is_whitespace, is_white_space, join, join_strings, line_ranges, lines_of,
    string_of, trim, trimmed, views,
};
use crate::order::{sort_by_key, sorted_by_key};
use crate::hash::{blake3_hex, bytes};

verus! {

/// A lint rule read from a Markdown file.
#[derive(Clone, Debug)]
pub struct Rule {
    /// The file stem of the rule file.
    pub id: String,
    pub source_path: String,
    /// The part of the rule shown in editors and the CLI.
    pub message: String,
    /// The whole rule text.
    pub markdown: String,
    /// The BLAKE3 digest of `markdown`.
    pub hash: String,
}

/// How a violated rule is reported.
#[derive(Clone, Copy, Debug, PartialEq, Eq, Structural)]
pub enum Severity {
    Error,
    Warning,
}

impl Severity {
    /// The word that `Display` prints for the severity.
    pub open spec fn spec_label(self) -> Seq<char> {
        match self {
            Severity::Error => seq!['e', 'r', 'r', 'o', 'r'],
            Severity::Warning => seq!['w', 'a', 'r', 'n', 'i', 'n', 'g'],
        }
    }

    /// `error` or `warning`.
    pub fn label(&self) -> (r: String)
        ensures
            r@ == self.spec_label(),
    {
        let mut r = String::new();
        match self {
            Severity::Error => {
                crate::text::push_char(&mut r, 'e');
                crate::text::push_char(&mut r, 'r');
                crate::text::push_char(&mut r, 'r');
                crate::text::push_char(&mut r, 'o');
                crate::text::push_char(&mut r, 'r');
            },
            Severity::Warning => {
                crate::text::push_char(&mut r, 'w');
                crate::text::push_char(&mut r, 'a');
                crate::text::push_char(&mut r, 'r');
                crate::text::push_char(&mut r, 'n');
                crate::text::push_char(&mut r, 'i');
                crate::text::push_char(&mut r, 'n');
                crate::text::push_char(&mut r, 'g');
            },
        }
        r
    }
}

/// Every character other than white space is a dash.
pub open spec fn only_dashes(s: Seq<char>) -> bool {
    forall|i: int| 0 <= i < s.len() && !is_white_space(#[trigger] s[i]) ==> s[i] == '-'
}

/// The number of characters other than white space.
pub open spec fn visible_count(s: Seq<char>) -> nat
    decreases s.len(),
{
    if s.len() == 0 {
        0
    } else {
        visible_count(s.drop_last()) + if is_white_space(s.last()) {
            0nat
        } else {
            1nat
        }
    }
}

/// A Markdown thematic break made of dashes: at least three dashes and
/// nothing else but white space.
pub open spec fn horizontal_rule(line: Seq<char>) -> bool {
    only_dashes(line) && visible_count(line) >= 3
}

fn chars_are_horizontal_rule(cs: &[char], from: usize, to: usize) -> (r: bool)
    requires
        from <= to <= cs@.len(),
    ensures
        r == horizontal_rule(cs@.subrange(from as int, to as int)),
{
    let mut count: usize = 0;
    let mut i = from;
    while i < to
        invariant
            from <= i <= to <= cs@.len(),
            count == visible_count(cs@.subrange(from as int, i as int)),
            count <= i - from,
            only_dashes(cs@.subrange(from as int, i as int)),
        decreases to - i,
    {
        let c = cs[i];
        let ghost next = cs@.subrange(from as int, i + 1);
        proof {
            assert(next.drop_last() == cs@.subrange(from as int, i as int));
            assert(next.last() == c);
        }
        if !char_is_whitespace(c) {
            if c != '-' {
                proof {
                    assert(next[i - from] == c);
                    assert(!only_dashes(cs@.subrange(from as int, to as int))) by {
                        assert(cs@.subrange(from as int, to as int)[i - from] == c);
                    }
                }
                return false;
            }
            count += 1;
        }
        proof {
            assert forall|k: int| 0 <= k < next.len() && !is_white_space(#[trigger] next[k]) implies next[k] == '-' by {
                if k < next.len() - 1 {
                    assert(next[k] == cs@.subrange(from as int, i as int)[k]);
                }
            }
        }
        i += 1;
    }
    count >= 3
}

/// Whether `line` is a horizontal rule made of dashes.
pub fn is_horizontal_rule(line: &str) -> (r: bool)
    ensures
        r == horizontal_rule(line@),
{
    let cs = chars_of(line);
    proof {
        assert(cs@.subrange(0, cs@.len() as int) == cs@);
    }
    chars_are_horizontal_rule(cs.as_slice(), 0, cs.len())
}

/// The lines before the first horizontal rule.
pub open spec fn lines_before_rule(lines: Seq<Seq<char>>) -> Seq<Seq<char>>
    decreases lines.len(),
{
    if lines.len() == 0 || horizontal_rule(lines[0]) {
        Seq::empty()
    } else {
        seq![lines[0]] + lines_before_rule(lines.drop_first())
    }
}

/// The message of a rule: the Markdown before the first horizontal rule,
/// trimmed; the whole trimmed Markdown when that part is empty.
pub open spec fn message_of(markdown: Seq<char>) -> Seq<char> {
    let section = trim(join(lines_before_rule(lines_of(markdown)), seq!['\n']));
    if section.len() == 0 {
        trim(markdown)
    } else {
        section
    }
}

proof fn lemma_lines_before_rule(lines: Seq<Seq<char>>, k: int)
    requires
        0 <= k <= lines.len(),
        forall|j: int| 0 <= j < k ==> !horizontal_rule(#[trigger] lines[j]),
        k == lines.len() || horizontal_rule(lines[k]),
    ensures
        lines_before_rule(lines) == lines.take(k),
    decreases k,
{
    if k > 0 {
        let rest = lines.drop_first();
        assert forall|j: int| 0 <= j < k - 1 implies !horizontal_rule(#[trigger] rest[j]) by {
            assert(rest[j] == lines[j + 1]);
        }
        if k < lines.len() {
            assert(rest[k - 1] == lines[k]);
        }
        lemma_lines_before_rule(rest, k - 1);
        assert(lines.take(k) == seq![lines[0]] + rest.take(k - 1));
    } else {
        assert(lines.take(0) == Seq::<Seq<char>>::empty());
    }
}

/// The Markdown before the first horizontal rule, or the whole rule when
/// that part is empty.
pub fn message(markdown: &str) -> (r: String)
    ensures
        r@ == message_of(markdown@),
{
    let cs = chars_of(markdown);
    let ranges = line_ranges(cs.as_slice());
    let ghost lines = lines_of(cs@);
    let mut parts: Vec<String> = Vec::new();
    let mut k: usize = 0;
    let mut stop = false;
    while k < ranges.len() && !stop
        invariant
            crate::text::line_ranges_match(cs@, ranges@),
            lines == lines_of(cs@),
            k <= ranges.len(),
            parts@.len() == k,
            forall|j: int| 0 <= j < k ==> #[trigger] parts@[j]@ == lines[j],
            forall|j: int| 0 <= j < k ==> !horizontal_rule(#[trigger] lines[j]),
            stop ==> k < ranges.len() && horizontal_rule(lines[k as int]),
        decreases ranges.len() - k, if stop { 0int } else { 1int },
    {
        let (a, b) = ranges[k];
        proof {
            assert(crate::text::spells(cs@, ranges@[k as int], lines[k as int], cs@.len() as int));
        }
        if chars_are_horizontal_rule(cs.as_slice(), a, b) {
            stop = true;
        } else {
            let line = string_of(cs.as_slice(), a, b);
            parts.push(line);
            k += 1;
        }
    }
    proof {
        lemma_lines_before_rule(lines, k as int);
        assert(views(parts@) == lines.take(k as int));
    }
    let joined = join_strings(&parts, "\n");
    let section = trimmed(joined.as_str());
    proof {
        reveal_strlit("\n");
        assert("\n"@ == seq!['\n']);
        assert(lines_before_rule(lines_of(markdown@)) == views(parts@));
        assert(joined@ == join(lines_before_rule(lines_of(markdown@)), seq!['\n']));
        assert(section@ == trim(join(lines_before_rule(lines_of(markdown@)), seq!['\n'])));
    }
    if section.as_str().is_empty() {
        proof {
            assert(section@.len() == 0);
        }
        trimmed(markdown)
    } else {
        proof {
            assert(section@.len() != 0);
        }
        section
    }
}

} // verus!

verus! {

/// Why the rules directory could not be turned into rules.
#[derive(Debug, PartialEq, Eq)]
pub enum RuleLoadError {
    /// The directory holds no `.md` file.
    NoRules,
    /// The rule at `path` holds nothing but white space.
    EmptyRule { path: String },
}

/// The file is a Markdown rule: its extension is `md`.
pub open spec fn is_rule_file(name: Seq<char>) -> bool {
    crate::path::extension(name) == Some(seq!['m', 'd'])
}

fn has_md_extension(name: &str) -> (r: bool)
    ensures
        r == is_rule_file(name@),
{
    let (_, ext) = crate::path::stem_and_extension(name);
    match ext {
        None => false,
        Some(e) => {
            let cs = chars_of(e.as_str());
            let r = cs.len() == 2 && cs[0] == 'm' && cs[1] == 'd';
            proof {
                if r {
                    assert(e@ == seq!['m', 'd']);
                } else if e@ == seq!['m', 'd'] {
                    assert(cs@[0] == 'm' && cs@[1] == 'd');
                }
            }
            r
        },
    }
}

/// The rule files among the regular files of the rules directory, ordered as
/// their paths are: by name. Fails when there is none.
pub fn select_rule_files(names: Vec<String>) -> (r: Result<Vec<String>, RuleLoadError>)
    ensures
        r is Err <==> names@.filter(|n: String| is_rule_file(n@)).len() == 0,
        r is Err ==> r == Err::<Vec<String>, RuleLoadError>(RuleLoadError::NoRules),
        r matches Ok(v) ==> sorted_by_key(v@, false) && v@.to_multiset() == names@.filter(
            |n: String| is_rule_file(n@),
        ).to_multiset(),
{
    let ghost pred = |n: String| is_rule_file(n@);
    let mut selected: Vec<String> = Vec::new();
    let mut i: usize = 0;
    while i < names.len()
        invariant
            i <= names.len(),
            pred == (|n: String| is_rule_file(n@)),
            selected@ == names@.take(i as int).filter(pred),
        decreases names.len() - i,
    {
        let n = names[i].clone();
        proof {
            let t = names@.take(i + 1);
            assert(t.drop_last() == names@.take(i as int));
            assert(t.last() == n);
            assert(t == names@.take(i as int).push(n));
            names@.take(i as int).lemma_filter_push(n, pred);
            assert(pred(n) == is_rule_file(n@));
        }
        if has_md_extension(n.as_str()) {
            selected.push(n);
        }
        i += 1;
    }
    proof {
        assert(names@.take(names.len() as int) == names@);
    }
    if selected.len() == 0 {
        return Err(RuleLoadError::NoRules);
    }
    Ok(sort_by_key(selected, false))
}

/// A rule built from the file `name` in `directory` holding `markdown`.
pub open spec fn rule_of(directory: Seq<char>, name: Seq<char>, markdown: Seq<char>, rule: Rule) -> bool {
    &&& rule.id@ == crate::path::file_stem(name)
    &&& rule.source_path@ == crate::path::join_path(directory, name)
    &&& rule.message@ == message_of(markdown)
    &&& rule.markdown@ == markdown
    &&& rule.hash@ == blake3_hex(markdown)
}

/// Builds the rule for the file `name` of the rules directory. Fails when the
/// file holds nothing but white space.
pub fn build_rule(directory: &str, name: &str, markdown: String) -> (r: Result<Rule, RuleLoadError>)
    ensures
        r is Err <==> trim(markdown@).len() == 0,
        r matches Err(e) ==> e matches RuleLoadError::EmptyRule { path } && path@
            == crate::path::join_path(directory@, name@),
        r matches Ok(rule) ==> rule_of(directory@, name@, markdown@, rule),
{
    let source_path = crate::path::join(directory, name);
    let t = trimmed(markdown.as_str());
    if t.as_str().is_empty() {
        return Err(RuleLoadError::EmptyRule { path: source_path });
    }
    let (id, _) = crate::path::stem_and_extension(name);
    let hash = bytes(markdown.as_str());
    let message = message(markdown.as_str());
    Ok(Rule { id, source_path, message, markdown, hash })
}

} // verus!
