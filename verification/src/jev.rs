//! Verdicts and line answers, the questions asked for them, and the reading
//! of the answers that the Jev service returns.
use vstd::prelude::*;
use crate::rule::Rule;
use crate::sorted_map::{self, ascending, as_map, has_key};
use crate::text::{decimal, decimal_string, push_str};
use crate::float_bits::{ge, HALF};

verus! {

/// Whether a file complies with a rule.
#[derive(Clone, Copy, Debug, PartialEq, Eq, Structural)]
pub enum Verdict {
    Pass,
    Fail,
}

/// A verdict on one rule for one file.
#[derive(Clone, Debug)]
pub struct RuleAnswer {
    pub rule_id: String,
    pub verdict: Verdict,
    /// A binary64 pattern.
    pub confidence: u64,
    pub resolved_model: String,
}

/// Whether one line takes part in a violation of one rule.
pub struct LineQuestion<'a> {
    pub rule: &'a Rule,
    pub line: usize,
}

/// The answer to a [`LineQuestion`].
#[derive(Clone, Debug)]
pub struct LineAnswer {
    pub rule_id: String,
    pub line: usize,
    pub violated: bool,
    /// A binary64 pattern.
    pub confidence: u64,
    pub resolved_model: String,
}

/// One answer of the service, as received.
#[derive(Clone, Debug)]
pub struct ApiAnswer {
    pub choice: Option<String>,
    /// A binary64 pattern.
    pub confidence: Option<u64>,
    /// A binary64 pattern: the probability that the answer is true.
    pub noul: Option<u64>,
}

/// Why the service's answers could not be read.
#[derive(Debug, PartialEq, Eq)]
pub enum AnswerError {
    /// No answer for the question about rule `rule_id`.
    MissingAnswer { rule_id: String },
    /// The choice for rule `rule_id` was neither `pass` nor `fail`.
    UnexpectedVerdict { rule_id: String, choice: Option<String> },
    /// A choice answer without a confidence.
    MissingConfidence,
    /// No answer for location question `index`.
    MissingLocation { index: usize },
    /// A location answer without a probability.
    MissingProbability,
}

/// The key of the question at `index`: `q` and the index in decimal.
pub open spec fn question_key(index: nat) -> Seq<char> {
    seq!['q'] + decimal(index)
}

/// `q{index}`.
pub fn question_name(index: usize) -> (r: String)
    ensures
        r@ == question_key(index as nat),
{
    let mut r = String::new();
    crate::text::push_char(&mut r, 'q');
    let d = decimal_string(index);
    push_str(&mut r, d.as_str());
    r
}

/// The instructions of the verdict question for a rule.
pub fn lint_instructions(rule: &Rule) -> (r: String)
    ensures
        r@ == "Apply this lint rule:\n\n"@ + rule.markdown@,
{
    let mut r = String::new();
    push_str(&mut r, "Apply this lint rule:\n\n");
    push_str(&mut r, rule.markdown.as_str());
    r
}

/// The instructions of a location question.
pub fn locate_instructions(question: &LineQuestion) -> (r: String)
    ensures
        r@ == "Does line "@ + decimal(question.line as nat)
            + " contain or participate in a violation of this rule?\n\n"@ + question.rule.markdown@,
{
    let mut r = String::new();
    push_str(&mut r, "Does line ");
    push_str(&mut r, decimal_string(question.line).as_str());
    push_str(&mut r, " contain or participate in a violation of this rule?\n\n");
    push_str(&mut r, question.rule.markdown.as_str());
    r
}

/// The verdict that a choice names, if it names one.
pub open spec fn verdict_of(choice: Option<Seq<char>>) -> Option<Verdict> {
    if choice == Some(seq!['p', 'a', 's', 's']) {
        Some(Verdict::Pass)
    } else if choice == Some(seq!['f', 'a', 'i', 'l']) {
        Some(Verdict::Fail)
    } else {
        None
    }
}

/// The text of an optional string.
pub open spec fn opt_text(s: Option<String>) -> Option<Seq<char>> {
    match s {
        Some(v) => Some(v@),
        None => None,
    }
}

/// How the answer to question `index` reads.
pub enum Reading {
    /// There is no answer.
    Missing,
    /// The choice names no verdict.
    Unexpected,
    /// The answer has no confidence or probability.
    Incomplete,
    /// The verdict (or violation) and its confidence (or probability).
    Read(bool, u64),
}

/// How the choice answer to question `index` reads; `true` stands for a
/// failed rule.
pub open spec fn read_verdict(answers: Map<Seq<char>, ApiAnswer>, index: int) -> Reading {
    if !answers.dom().contains(question_key(index as nat)) {
        Reading::Missing
    } else {
        let a = answers[question_key(index as nat)];
        match verdict_of(opt_text(a.choice)) {
            None => Reading::Unexpected,
            Some(v) => match a.confidence {
                None => Reading::Incomplete,
                Some(c) => Reading::Read(v == Verdict::Fail, c),
            },
        }
    }
}

/// The error that a failed reading of the verdict for `rule` gives.
pub open spec fn verdict_error(reading: Reading, rule_id: Seq<char>, choice: Option<String>, err: AnswerError) -> bool {
    match reading {
        Reading::Missing => err matches AnswerError::MissingAnswer { rule_id: id } && id@ == rule_id,
        Reading::Unexpected => err matches AnswerError::UnexpectedVerdict { rule_id: id, choice: c } && id@ == rule_id && c == choice,
        Reading::Incomplete => err == AnswerError::MissingConfidence,
        Reading::Read(_, _) => false,
    }
}

/// The answer at `key`, if any.
fn answer_at<'a>(answers: &'a Vec<(String, ApiAnswer)>, key: &String) -> (r: Option<&'a ApiAnswer>)
    requires
        ascending(answers@, false),
    ensures
        r is Some <==> as_map(answers@).dom().contains(key@),
        r matches Some(a) ==> *a == as_map(answers@)[key@],
{
    match sorted_map::find(answers, key.as_str(), false) {
        Ok(i) => {
            proof {
                sorted_map::lemma_as_map_index(answers@, false, i as int);
            }
            Some(&answers[i].1)
        },
        Err(_) => None,
    }
}

fn is_word(s: &String, w: &str) -> (r: bool)
    ensures
        r == (s@ == w@),
{
    let a = crate::text::chars_of(s.as_str());
    let b = crate::text::chars_of(w);
    if a.len() != b.len() {
        return false;
    }
    let mut i: usize = 0;
    while i < a.len()
        invariant
            i <= a.len(),
            a@ == s@,
            b@ == w@,
            a.len() == b.len(),
            a@.take(i as int) == b@.take(i as int),
        decreases a.len() - i,
    {
        if a[i] != b[i] {
            proof {
                assert(a@[i as int] != b@[i as int]);
            }
            return false;
        }
        proof {
            assert(a@.take(i + 1) == a@.take(i as int).push(a@[i as int]));
            assert(b@.take(i + 1) == b@.take(i as int).push(b@[i as int]));
        }
        i += 1;
    }
    proof {
        assert(a@.take(a.len() as int) == a@);
        assert(b@.take(b.len() as int) == b@);
    }
    true
}

/// The choice of the answer to question `index`, if there is an answer.
pub open spec fn choice_at(answers: Map<Seq<char>, ApiAnswer>, index: int) -> Option<String> {
    if answers.dom().contains(question_key(index as nat)) {
        answers[question_key(index as nat)].choice
    } else {
        None
    }
}

fn read_one(answers: &Vec<(String, ApiAnswer)>, index: usize, rule: &Rule, model: &String) -> (r: Result<RuleAnswer, AnswerError>)
    requires
        ascending(answers@, false),
    ensures
        r is Ok <==> read_verdict(as_map(answers@), index as int) is Read,
        r matches Ok(a) ==> a.rule_id@ == rule.id@ && read_verdict(as_map(answers@), index as int) == Reading::Read(a.verdict == Verdict::Fail, a.confidence) && a.resolved_model@ == model@,
        r matches Err(e) ==> verdict_error(read_verdict(as_map(answers@), index as int), rule.id@, choice_at(as_map(answers@), index as int), e),
{
    let key = question_name(index);
    let answer = match answer_at(answers, &key) {
        None => {
            return Err(AnswerError::MissingAnswer { rule_id: rule.id.clone() });
        },
        Some(a) => a,
    };
    proof {
        reveal_strlit("fail");
        reveal_strlit("pass");
        assert("pass"@ =~= seq!['p', 'a', 's', 's']);
        assert("fail"@ =~= seq!['f', 'a', 'i', 'l']);
    }
    let verdict = match &answer.choice {
        Some(c) => {
            if is_word(c, "pass") {
                Verdict::Pass
            } else if is_word(c, "fail") {
                Verdict::Fail
            } else {
                return Err(AnswerError::UnexpectedVerdict { rule_id: rule.id.clone(), choice: Some(c.clone()) });
            }
        },
        None => {
            return Err(AnswerError::UnexpectedVerdict { rule_id: rule.id.clone(), choice: None });
        },
    };
    let confidence = match answer.confidence {
        Some(c) => c,
        None => {
            return Err(AnswerError::MissingConfidence);
        },
    };
    Ok(RuleAnswer { rule_id: rule.id.clone(), verdict, confidence, resolved_model: model.clone() })
}

/// Reads the service's verdicts, question `q{i}` for `rules[i]`, all tagged
/// with the model that answered. The first rule whose answer is missing,
/// names no verdict, or has no confidence gives the error.
pub fn read_rule_answers(rules: &[Rule], answers: &Vec<(String, ApiAnswer)>, model: &String) -> (r: Result<Vec<RuleAnswer>, AnswerError>)
    requires
        ascending(answers@, false),
    ensures
        r is Ok <==> forall|i: int| 0 <= i < rules@.len() ==> #[trigger] read_verdict(as_map(answers@), i) is Read,
        r matches Ok(v) ==> v@.len() == rules@.len() && forall|i: int| 0 <= i < rules@.len() ==> {
            &&& (#[trigger] v@[i]).rule_id@ == rules@[i].id@
            &&& read_verdict(as_map(answers@), i) == Reading::Read(v@[i].verdict == Verdict::Fail, v@[i].confidence)
            &&& v@[i].resolved_model@ == model@
        },
        r matches Err(e) ==> exists|i: int| 0 <= i < rules@.len() && !(#[trigger] read_verdict(as_map(answers@), i) is Read)
            && (forall|j: int| 0 <= j < i ==> #[trigger] read_verdict(as_map(answers@), j) is Read)
            && verdict_error(read_verdict(as_map(answers@), i), rules@[i].id@, choice_at(as_map(answers@), i), e),
{
    let mut out: Vec<RuleAnswer> = Vec::new();
    let mut i: usize = 0;
    while i < rules.len()
        invariant
            i <= rules@.len(),
            ascending(answers@, false),
            out@.len() == i,
            forall|j: int| 0 <= j < i ==> #[trigger] read_verdict(as_map(answers@), j) is Read,
            forall|j: int| 0 <= j < i ==> {
                &&& (#[trigger] out@[j]).rule_id@ == rules@[j].id@
                &&& read_verdict(as_map(answers@), j) == Reading::Read(out@[j].verdict == Verdict::Fail, out@[j].confidence)
                &&& out@[j].resolved_model@ == model@
            },
        decreases rules@.len() - i,
    {
        match read_one(answers, i, &rules[i], model) {
            Ok(a) => {
                out.push(a);
            },
            Err(e) => {
                proof {
                    assert(!(read_verdict(as_map(answers@), i as int) is Read));
                }
                return Err(e);
            },
        }
        i += 1;
    }
    Ok(out)
}

} // verus!

verus! {

/// How the probability answer to location question `index` reads: the line
/// is violated when the probability is at least one half.
pub open spec fn read_location(answers: Map<Seq<char>, ApiAnswer>, index: int) -> Reading {
    if !answers.dom().contains(question_key(index as nat)) {
        Reading::Missing
    } else {
        match answers[question_key(index as nat)].noul {
            None => Reading::Incomplete,
            Some(p) => Reading::Read(ge(p, HALF), p),
        }
    }
}

/// A location answer as read: the rule and line asked about, whether the
/// line is violated, and the probability that the service gave.
#[derive(Clone, Debug)]
pub struct LineReading {
    pub rule_id: String,
    pub line: usize,
    pub violated: bool,
    /// A binary64 pattern.
    pub probability: u64,
    pub resolved_model: String,
}

fn read_location_one(answers: &Vec<(String, ApiAnswer)>, index: usize, question: &LineQuestion, model: &String) -> (r: Result<LineReading, AnswerError>)
    requires
        ascending(answers@, false),
    ensures
        r is Ok <==> read_location(as_map(answers@), index as int) is Read,
        r matches Ok(a) ==> a.rule_id@ == question.rule.id@ && a.line == question.line
            && read_location(as_map(answers@), index as int) == Reading::Read(a.violated, a.probability)
            && a.resolved_model@ == model@,
        r matches Err(e) ==> (read_location(as_map(answers@), index as int) is Missing ==> e == AnswerError::MissingLocation { index })
            && (read_location(as_map(answers@), index as int) is Incomplete ==> e == AnswerError::MissingProbability),
{
    let key = question_name(index);
    let answer = match answer_at(answers, &key) {
        None => {
            return Err(AnswerError::MissingLocation { index });
        },
        Some(a) => a,
    };
    let probability = match answer.noul {
        Some(p) => p,
        None => {
            return Err(AnswerError::MissingProbability);
        },
    };
    Ok(LineReading {
        rule_id: question.rule.id.clone(),
        line: question.line,
        violated: crate::float_bits::f64_ge(probability, HALF),
        probability,
        resolved_model: model.clone(),
    })
}

/// Reads the service's location answers, question `q{i}` for
/// `questions[i]`. The first missing answer or probability gives the error.
pub fn read_line_answers(questions: &[LineQuestion], answers: &Vec<(String, ApiAnswer)>, model: &String) -> (r: Result<Vec<LineReading>, AnswerError>)
    requires
        ascending(answers@, false),
    ensures
        r is Ok <==> forall|i: int| 0 <= i < questions@.len() ==> #[trigger] read_location(as_map(answers@), i) is Read,
        r matches Ok(v) ==> v@.len() == questions@.len() && forall|i: int| 0 <= i < questions@.len() ==> {
            &&& (#[trigger] v@[i]).rule_id@ == questions@[i].rule.id@
            &&& v@[i].line == questions@[i].line
            &&& read_location(as_map(answers@), i) == Reading::Read(v@[i].violated, v@[i].probability)
            &&& v@[i].resolved_model@ == model@
        },
        r matches Err(e) ==> exists|i: int| 0 <= i < questions@.len() && !(#[trigger] read_location(as_map(answers@), i) is Read)
            && (forall|j: int| 0 <= j < i ==> #[trigger] read_location(as_map(answers@), j) is Read)
            && (read_location(as_map(answers@), i) is Missing ==> e == AnswerError::MissingLocation { index: i as usize })
            && (read_location(as_map(answers@), i) is Incomplete ==> e == AnswerError::MissingProbability),
{
    let mut out: Vec<LineReading> = Vec::new();
    let mut i: usize = 0;
    while i < questions.len()
        invariant
            i <= questions@.len(),
            ascending(answers@, false),
            out@.len() == i,
            forall|j: int| 0 <= j < i ==> #[trigger] read_location(as_map(answers@), j) is Read,
            forall|j: int| 0 <= j < i ==> {
                &&& (#[trigger] out@[j]).rule_id@ == questions@[j].rule.id@
                &&& out@[j].line == questions@[j].line
                &&& read_location(as_map(answers@), j) == Reading::Read(out@[j].violated, out@[j].probability)
                &&& out@[j].resolved_model@ == model@
            },
        decreases questions@.len() - i,
    {
        match read_location_one(answers, i, &questions[i], model) {
            Ok(a) => {
                out.push(a);
            },
            Err(e) => {
                proof {
                    assert(!(read_location(as_map(answers@), i as int) is Read));
                }
                return Err(e);
            },
        }
        i += 1;
    }
    Ok(out)
}

} // verus!
