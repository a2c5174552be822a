//! The command line's text report of a run.
use vstd::prelude::*;
use crate::engine::{severity_count, LineRegion, RunReport, Violation};
use crate::precondition::PreconditionFailure;
use crate::rule::Severity;
use crate::text::{
    char_is_whitespace, chars_of, decimal, decimal_string, is_white_space, join, join_strings,
    line_ranges, lines_of, push_str, string_of, trim, trim_bounds, trim_start, trim_start_char,
    views,
};

verus! {

/// A line of a rule message as the report shows it: trimmed, without its
/// leading `#` marks and the white space after them.
pub open spec fn compact_line(line: Seq<char>) -> Seq<char> {
    trim_start(trim_start_char(trim(line), '#'))
}

/// The lines that hold more than white space, each compacted.
pub open spec fn compact_lines(lines: Seq<Seq<char>>) -> Seq<Seq<char>>
    decreases lines.len(),
{
    if lines.len() == 0 {
        Seq::empty()
    } else if trim(lines.last()).len() > 0 {
        compact_lines(lines.drop_last()).push(compact_line(lines.last()))
    } else {
        compact_lines(lines.drop_last())
    }
}

/// A rule message on one line: its lines with text, compacted, joined by
/// spaces.
pub open spec fn compact(message: Seq<char>) -> Seq<char> {
    join(compact_lines(lines_of(message)), " "@)
}

/// The first position from `from` on that is not `c`.
fn skip_char(cs: &[char], from: usize, to: usize, c: char) -> (r: usize)
    requires
        from <= to <= cs@.len(),
    ensures
        from <= r <= to,
        cs@.subrange(r as int, to as int) == trim_start_char(cs@.subrange(from as int, to as int), c),
{
    let mut a = from;
    while a < to && cs[a] == c
        invariant
            from <= a <= to <= cs@.len(),
            trim_start_char(cs@.subrange(from as int, to as int), c) == trim_start_char(
                cs@.subrange(a as int, to as int),
                c,
            ),
        decreases to - a,
    {
        proof {
            assert(cs@.subrange(a as int, to as int).drop_first() == cs@.subrange(a + 1, to as int));
        }
        a += 1;
    }
    a
}

/// The first position from `from` on that is not white space.
fn skip_white(cs: &[char], from: usize, to: usize) -> (r: usize)
    requires
        from <= to <= cs@.len(),
    ensures
        from <= r <= to,
        cs@.subrange(r as int, to as int) == trim_start(cs@.subrange(from as int, to as int)),
{
    let mut a = from;
    while a < to && char_is_whitespace(cs[a])
        invariant
            from <= a <= to <= cs@.len(),
            trim_start(cs@.subrange(from as int, to as int)) == trim_start(cs@.subrange(a as int, to as int)),
        decreases to - a,
    {
        proof {
            assert(cs@.subrange(a as int, to as int).drop_first() == cs@.subrange(a + 1, to as int));
        }
        a += 1;
    }
    a
}

/// The rule message on one line, as [`compact`] says.
pub fn compact_message(message: &str) -> (r: String)
    ensures
        r@ == compact(message@),
{
    let cs = chars_of(message);
    let ranges = line_ranges(cs.as_slice());
    let ghost lines = lines_of(cs@);
    let mut parts: Vec<String> = Vec::new();
    let mut k: usize = 0;
    while k < ranges.len()
        invariant
            crate::text::line_ranges_match(cs@, ranges@),
            lines == lines_of(cs@),
            k <= ranges.len(),
            views(parts@) == compact_lines(lines.take(k as int)),
        decreases ranges.len() - k,
    {
        let (a, b) = ranges[k];
        proof {
            assert(crate::text::spells(cs@, ranges@[k as int], lines[k as int], cs@.len() as int));
            assert(lines.take(k + 1).drop_last() == lines.take(k as int));
            assert(lines.take(k + 1).last() == lines[k as int]);
        }
        let (a2, b2) = trim_bounds(cs.as_slice(), a, b);
        if a2 < b2 {
            let a3 = skip_char(cs.as_slice(), a2, b2, '#');
            let a4 = skip_white(cs.as_slice(), a3, b2);
            let ghost before = parts@;
            parts.push(string_of(cs.as_slice(), a4, b2));
            proof {
                crate::text::lemma_views_push(before, parts@[before.len() as int]);
            }
        }
        k += 1;
    }
    proof {
        assert(lines.take(ranges@.len() as int) == lines);
    }
    join_strings(&parts, " ")
}

/// How a region of lines is shown: one line number, or the first and last
/// joined by `-`.
pub open spec fn region_text(region: LineRegion) -> Seq<char> {
    if region.start == region.end {
        decimal(region.start as nat)
    } else {
        decimal(region.start as nat) + "-"@ + decimal(region.end as nat)
    }
}

/// The region as [`region_text`] says.
pub fn display_region(region: &LineRegion) -> (r: String)
    ensures
        r@ == region_text(*region),
{
    if region.start == region.end {
        decimal_string(region.start)
    } else {
        let mut r = decimal_string(region.start);
        push_str(&mut r, "-");
        let end = decimal_string(region.end);
        push_str(&mut r, end.as_str());
        r
    }
}

/// The report line of a violation, for one region or, with none, for the
/// whole file; `confidence` is the confidence written with two decimals.
pub open spec fn violation_text(v: Violation, region: Option<LineRegion>, confidence: Seq<char>) -> Seq<char> {
    v.path@ + (match region {
        Some(r) => ":"@ + region_text(r),
        None => Seq::empty(),
    }) + ": "@ + v.severity.spec_label() + " ["@ + v.rule_id@ + "] "@ + compact(v.message@) + " (rule: "@
        + v.rule_path@ + ", confidence: "@ + confidence + ")"@
}

/// The report lines of a violation: one per region, or one for the whole
/// file when it has none.
pub open spec fn violation_texts(v: Violation, confidence: Seq<char>) -> Seq<Seq<char>> {
    if v.regions@.len() == 0 {
        seq![violation_text(v, None, confidence)]
    } else {
        v.regions@.map_values(|r: LineRegion| violation_text(v, Some(r), confidence))
    }
}

/// The report lines of the violations, in order.
pub open spec fn violations_texts(vs: Seq<Violation>, confidences: Seq<String>) -> Seq<Seq<char>>
    decreases vs.len(),
{
    if vs.len() == 0 {
        Seq::empty()
    } else {
        violations_texts(vs.drop_last(), confidences) + violation_texts(vs.last(), confidences[vs.len() - 1]@)
    }
}

/// The line of a violation, as [`violation_text`] says.
pub fn violation_line(v: &Violation, region: Option<&LineRegion>, confidence: &str) -> (r: String)
    ensures
        r@ == violation_text(
            *v,
            match region {
                Some(x) => Some(*x),
                None => None,
            },
            confidence@,
        ),
{
    let mut r = String::new();
    push_str(&mut r, v.path.as_str());
    match region {
        Some(x) => {
            push_str(&mut r, ":");
            let shown = display_region(x);
            push_str(&mut r, shown.as_str());
        },
        None => {},
    }
    push_str(&mut r, ": ");
    let label = v.severity.label();
    push_str(&mut r, label.as_str());
    push_str(&mut r, " [");
    push_str(&mut r, v.rule_id.as_str());
    push_str(&mut r, "] ");
    let message = compact_message(v.message.as_str());
    push_str(&mut r, message.as_str());
    push_str(&mut r, " (rule: ");
    push_str(&mut r, v.rule_path.as_str());
    push_str(&mut r, ", confidence: ");
    push_str(&mut r, confidence);
    push_str(&mut r, ")");
    proof {
        let region_part = match region {
            Some(x) => ":"@ + region_text(*x),
            None => Seq::<char>::empty(),
        };
        assert(r@ =~= v.path@ + region_part + ": "@ + v.severity.spec_label() + " ["@ + v.rule_id@ + "] "@
            + compact(v.message@) + " (rule: "@ + v.rule_path@ + ", confidence: "@ + confidence@ + ")"@);
    }
    r
}

/// The report lines of the violations, as [`violations_texts`] says;
/// `confidences` holds each violation's confidence written with two
/// decimals.
pub fn print_violations(violations: &Vec<Violation>, confidences: &Vec<String>) -> (r: Vec<String>)
    requires
        confidences@.len() == violations@.len(),
    ensures
        views(r@) == violations_texts(violations@, confidences@),
{
    let mut r: Vec<String> = Vec::new();
    let mut i: usize = 0;
    while i < violations.len()
        invariant
            i <= violations@.len(),
            confidences@.len() == violations@.len(),
            views(r@) == violations_texts(violations@.take(i as int), confidences@),
        decreases violations@.len() - i,
    {
        let v = &violations[i];
        let confidence = confidences[i].as_str();
        let ghost base = views(r@);
        proof {
            assert(violations@.take(i + 1).drop_last() == violations@.take(i as int));
            assert(violations@.take(i + 1).last() == *v);
        }
        if v.regions.len() == 0 {
            let ghost before = r@;
            r.push(violation_line(v, None, confidence));
            proof {
                crate::text::lemma_views_push(before, r@[before.len() as int]);
                assert(views(r@) =~= base + violation_texts(*v, confidence@));
            }
        } else {
            let mut k: usize = 0;
            while k < v.regions.len()
                invariant
                    k <= v.regions@.len(),
                    views(r@) == base + v.regions@.take(k as int).map_values(
                        |x: LineRegion| violation_text(*v, Some(x), confidence@),
                    ),
                decreases v.regions@.len() - k,
            {
                let ghost before = r@;
                r.push(violation_line(v, Some(&v.regions[k]), confidence));
                proof {
                    crate::text::lemma_views_push(before, r@[before.len() as int]);
                    assert(v.regions@.take(k + 1) == v.regions@.take(k as int).push(v.regions@[k as int]));
                    v.regions@.take(k as int).lemma_push_map_commute(
                        |x: LineRegion| violation_text(*v, Some(x), confidence@),
                        v.regions@[k as int],
                    );
                    assert(views(r@) =~= base + v.regions@.take(k + 1).map_values(
                        |x: LineRegion| violation_text(*v, Some(x), confidence@),
                    ));
                }
                k += 1;
            }
            proof {
                assert(v.regions@.take(v.regions@.len() as int) == v.regions@);
            }
        }
        i += 1;
    }
    proof {
        assert(violations@.take(violations@.len() as int) == violations@);
    }
    r
}

/// The closing line of a report: its counts.
pub open spec fn summary_text(report: RunReport) -> Seq<char> {
    "jevlint: "@ + decimal(report.files_checked as nat) + " files, "@ + decimal(report.rules as nat)
        + " rules, "@ + decimal(report.api_requests as nat) + " API requests, "@ + decimal(
        report.cache_hits as nat,
    ) + " cached, "@ + decimal(severity_count(report.violations@, Severity::Error)) + " errors, "@
        + decimal(severity_count(report.violations@, Severity::Warning)) + " warnings"@
}

/// The closing line of a report, as [`summary_text`] says.
pub fn print_summary(report: &RunReport) -> (r: String)
    ensures
        r@ == summary_text(*report),
{
    let mut r = String::new();
    push_str(&mut r, "jevlint: ");
    push_str(&mut r, decimal_string(report.files_checked).as_str());
    push_str(&mut r, " files, ");
    push_str(&mut r, decimal_string(report.rules).as_str());
    push_str(&mut r, " rules, ");
    push_str(&mut r, decimal_string(report.api_requests).as_str());
    push_str(&mut r, " API requests, ");
    push_str(&mut r, decimal_string(report.cache_hits).as_str());
    push_str(&mut r, " cached, ");
    push_str(&mut r, decimal_string(report.count(Severity::Error)).as_str());
    push_str(&mut r, " errors, ");
    push_str(&mut r, decimal_string(report.count(Severity::Warning)).as_str());
    push_str(&mut r, " warnings");
    proof {
        assert(r@ =~= summary_text(*report));
    }
    r
}

/// An integer as `Display` writes it.
pub open spec fn signed_decimal(n: int) -> Seq<char> {
    if n < 0 {
        "-"@ + decimal((-n) as nat)
    } else {
        decimal(n as nat)
    }
}

/// An exit code as `Display` writes it.
fn exit_code_string(code: i32) -> (r: String)
    ensures
        r@ == signed_decimal(code as int),
{
    if code < 0 {
        let magnitude: i64 = -(code as i64);
        let mut r = String::new();
        push_str(&mut r, "-");
        push_str(&mut r, decimal_string(magnitude as usize).as_str());
        r
    } else {
        decimal_string(code as usize)
    }
}

/// How the report names the end of a precondition command: its exit code,
/// or `signal`.
pub open spec fn exit_text(status: Option<i32>) -> Seq<char> {
    match status {
        Some(code) => signed_decimal(code as int),
        None => "signal"@,
    }
}

/// The report of a failed precondition: what ended the command, the
/// command, its output unless empty, and each skipped file.
pub open spec fn precondition_texts(failure: PreconditionFailure) -> Seq<Seq<char>> {
    seq![
        "jevlint: precondition failed (exit "@ + exit_text(failure.status) + ")"@,
        "command: "@ + join(views(failure.command@), " "@),
    ] + (if failure.output@.len() > 0 {
        seq![failure.output@]
    } else {
        Seq::empty()
    }) + failure.files@.map_values(|p: String| p@ + ": skipped (precondition failed)"@)
}

/// The lines a report writes to standard output and to standard error.
pub struct Printout {
    pub output: Vec<String>,
    pub errors: Vec<String>,
}

/// The report of a run: for a failed precondition, its report on standard
/// error and nothing on standard output; otherwise each violation's lines,
/// then the counts, on standard output. `confidences` holds each
/// violation's confidence written with two decimals.
pub fn print(report: &RunReport, confidences: &Vec<String>) -> (r: Printout)
    requires
        confidences@.len() == report.violations@.len(),
    ensures
        report.precondition_failure matches Some(f) ==> views(r.errors@) == precondition_texts(f) && r.output@.len() == 0,
        report.precondition_failure is None ==> r.errors@.len() == 0 && views(r.output@) == violations_texts(
            report.violations@,
            confidences@,
        ).push(summary_text(*report)),
{
    match &report.precondition_failure {
        Some(failure) => {
            let mut errors: Vec<String> = Vec::new();
            let mut first = String::new();
            push_str(&mut first, "jevlint: precondition failed (exit ");
            let status = match failure.status {
                Some(code) => exit_code_string(code),
                None => "signal".to_string(),
            };
            push_str(&mut first, status.as_str());
            push_str(&mut first, ")");
            errors.push(first);
            let mut second = String::new();
            push_str(&mut second, "command: ");
            push_str(&mut second, join_strings(&failure.command, " ").as_str());
            errors.push(second);
            let has_output = failure.output.as_str().unicode_len() > 0;
            if has_output {
                errors.push(failure.output.clone());
            }
            let ghost head = views(errors@);
            proof {
                assert(head =~= seq![
                    "jevlint: precondition failed (exit "@ + exit_text(failure.status) + ")"@,
                    "command: "@ + join(views(failure.command@), " "@),
                ] + (if failure.output@.len() > 0 {
                    seq![failure.output@]
                } else {
                    Seq::<Seq<char>>::empty()
                }));
            }
            let mut i: usize = 0;
            while i < failure.files.len()
                invariant
                    i <= failure.files@.len(),
                    views(errors@) == head + failure.files@.take(i as int).map_values(
                        |p: String| p@ + ": skipped (precondition failed)"@,
                    ),
                decreases failure.files@.len() - i,
            {
                let mut line = failure.files[i].clone();
                push_str(&mut line, ": skipped (precondition failed)");
                let ghost before = errors@;
                errors.push(line);
                proof {
                    crate::text::lemma_views_push(before, errors@[before.len() as int]);
                    assert(failure.files@.take(i + 1) == failure.files@.take(i as int).push(failure.files@[i as int]));
                    failure.files@.take(i as int).lemma_push_map_commute(
                        |p: String| p@ + ": skipped (precondition failed)"@,
                        failure.files@[i as int],
                    );
                    assert(views(errors@) =~= head + failure.files@.take(i + 1).map_values(
                        |p: String| p@ + ": skipped (precondition failed)"@,
                    ));
                }
                i += 1;
            }
            proof {
                assert(failure.files@.take(failure.files@.len() as int) == failure.files@);
            }
            Printout { output: Vec::new(), errors }
        },
        None => {
            let mut output = print_violations(&report.violations, confidences);
            let ghost before = output@;
            output.push(print_summary(report));
            proof {
                crate::text::lemma_views_push(before, output@[before.len() as int]);
            }
            Printout { output, errors: Vec::new() }
        },
    }
}

/// The exit status of a one-shot check: 1 when its precondition failed or
/// it found an error-severity violation, 0 otherwise; warnings alone leave
/// it at 0.
pub fn exit_status(report: &RunReport) -> (r: i32)
    ensures
        r == if report.precondition_failure is Some || crate::engine::some_error(report.violations@) {
            1i32
        } else {
            0i32
        },
{
    if report.precondition_failure.is_some() || report.has_errors() {
        1
    } else {
        0
    }
}

} // verus!
