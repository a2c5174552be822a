//! Run reports, violations, and the steps that turn verdicts into them.
use vstd::prelude::*;
use crate::rule::{Rule, Severity};
use crate::precondition::PreconditionFailure;
use crate::order::{
    lemma_distinct_keys_unique, lemma_keys_unique_permutation, lemma_sorted_unique, lex_le, sort_by_key, sorted_by_key,
    Keyed,
};
use crate::text::{chars_of, contains_chars, contains_text, line_ranges, lines_of};

verus! {

/// An inclusive range of one-based source lines.
#[derive(Clone, Copy, Debug, PartialEq, Eq)]
pub struct LineRegion {
    pub start: usize,
    pub end: usize,
}

/// Adds one line to a region list: it extends the last region when it
/// directly follows it, and opens a region of its own otherwise.
pub open spec fn extend_regions(regions: Seq<LineRegion>, line: usize) -> Seq<LineRegion> {
    if regions.len() > 0 && regions.last().end + 1 == line {
        regions.update(
            regions.len() - 1,
            LineRegion { start: regions.last().start, end: line },
        )
    } else {
        regions.push(LineRegion { start: line, end: line })
    }
}

/// The regions that `lines`, read from left to right, form.
pub open spec fn regions_of(lines: Seq<usize>) -> Seq<LineRegion>
    decreases lines.len(),
{
    if lines.len() == 0 {
        Seq::empty()
    } else {
        extend_regions(regions_of(lines.drop_last()), lines.last())
    }
}

/// Joins runs of consecutive line numbers into regions.
pub fn regions(lines: &[usize]) -> (result: Vec<LineRegion>)
    ensures
        result@ == regions_of(lines@),
{
    let mut result: Vec<LineRegion> = Vec::new();
    let mut i: usize = 0;
    while i < lines.len()
        invariant
            i <= lines.len(),
            result@ == regions_of(lines@.take(i as int)),
        decreases lines.len() - i,
    {
        let line = lines[i];
        proof {
            assert(lines@.take(i + 1).drop_last() == lines@.take(i as int));
        }
        let n = result.len();
        if n > 0 && line > 0 && result[n - 1].end == line - 1 {
            let start = result[n - 1].start;
            result.set(n - 1, LineRegion { start, end: line });
        } else {
            result.push(LineRegion { start: line, end: line });
        }
        i += 1;
    }
    proof {
        assert(lines@.take(lines.len() as int) == lines@);
    }
    result
}

/// The line numbers rise strictly from left to right.
pub open spec fn strictly_increasing(lines: Seq<usize>) -> bool {
    forall|i: int, j: int| 0 <= i < j < lines.len() ==> lines[i] < lines[j]
}

/// Some region of the list holds `line`.
pub open spec fn covered(regions: Seq<LineRegion>, line: int) -> bool {
    exists|k: int| 0 <= k < regions.len() && #[trigger] regions[k].start <= line <= regions[k].end
}

/// Some entry of `lines` is `line`.
pub open spec fn lists_line(lines: Seq<usize>, line: int) -> bool {
    exists|j: int| 0 <= j < lines.len() && #[trigger] lines[j] as int == line
}

/// Regions are nonempty, ascending, and separated by at least one missing line.
pub open spec fn separated(regions: Seq<LineRegion>) -> bool {
    &&& forall|k: int| 0 <= k < regions.len() ==> regions[k].start <= regions[k].end
    &&& forall|k: int|
        0 <= k < regions.len() - 1 ==> #[trigger] regions[k].end + 1 < regions[k + 1].start
}

proof fn lemma_lists_line_step(lines: Seq<usize>)
    requires
        lines.len() > 0,
    ensures
        forall|n: int|
            lists_line(lines, n) <==> (lists_line(lines.drop_last(), n) || n
                == lines.last() as int),
{
    let prefix = lines.drop_last();
    assert forall|n: int|
        lists_line(lines, n) <==> (lists_line(prefix, n) || n == lines.last() as int) by {
        if lists_line(lines, n) {
            let j = choose|j: int| 0 <= j < lines.len() && #[trigger] lines[j] as int == n;
            if j < lines.len() - 1 {
                assert(prefix[j] as int == n);
            }
        }
        if lists_line(prefix, n) {
            let j = choose|j: int| 0 <= j < prefix.len() && #[trigger] prefix[j] as int == n;
            assert(lines[j] as int == n);
        }
        if n == lines.last() as int {
            assert(lines[lines.len() - 1] as int == n);
        }
    }
}

proof fn lemma_covered_step(regions: Seq<LineRegion>, line: usize)
    requires
        forall|k: int| 0 <= k < regions.len() ==> regions[k].start <= regions[k].end,
    ensures
        forall|n: int|
            covered(extend_regions(regions, line), n) <==> (covered(regions, n) || n
                == line as int),
{
    let out = extend_regions(regions, line);
    assert forall|n: int| covered(out, n) <==> (covered(regions, n) || n == line as int) by {
        if regions.len() > 0 && regions.last().end + 1 == line {
            let last = regions.len() - 1;
            if covered(out, n) {
                let k = choose|k: int| 0 <= k < out.len() && #[trigger] out[k].start <= n <= out[k].end;
                if k < last {
                    assert(regions[k] == out[k]);
                } else if n != line as int {
                    assert(regions[last].start <= n <= regions[last].end);
                }
            }
            if covered(regions, n) {
                let k = choose|k: int| 0 <= k < regions.len() && #[trigger] regions[k].start <= n <= regions[k].end;
                assert(out[k].start <= n <= out[k].end);
            }
            if n == line as int {
                assert(out[last].start <= n <= out[last].end);
            }
        } else {
            let last = regions.len() as int;
            if covered(out, n) {
                let k = choose|k: int| 0 <= k < out.len() && #[trigger] out[k].start <= n <= out[k].end;
                if k < last {
                    assert(regions[k] == out[k]);
                }
            }
            if covered(regions, n) {
                let k = choose|k: int| 0 <= k < regions.len() && #[trigger] regions[k].start <= n <= regions[k].end;
                assert(out[k].start <= n <= out[k].end);
            }
            if n == line as int {
                assert(out[last].start <= n <= out[last].end);
            }
        }
    }
}

/// For strictly increasing line numbers the regions hold exactly those lines,
/// and no two regions could be merged: they are separated by a missing line.
pub proof fn lemma_regions_cover_exactly(lines: Seq<usize>)
    requires
        strictly_increasing(lines),
    ensures
        separated(regions_of(lines)),
        forall|n: int| covered(regions_of(lines), n) <==> lists_line(lines, n),
        lines.len() > 0 ==> regions_of(lines).last().end == lines.last(),
    decreases lines.len(),
{
    if lines.len() > 0 {
        let prefix = lines.drop_last();
        assert(strictly_increasing(prefix));
        lemma_regions_cover_exactly(prefix);
        let rs = regions_of(prefix);
        if prefix.len() > 0 {
            assert(prefix.last() < lines.last());
        }
        lemma_covered_step(rs, lines.last());
        lemma_lists_line_step(lines);
    }
}

} // verus!

verus! {

/// A rule that a file violates, where, and how surely.
#[derive(Clone, Debug)]
pub struct Violation {
    pub path: String,
    pub rule_id: String,
    pub rule_path: String,
    pub message: String,
    /// A binary64 pattern.
    pub confidence: u64,
    pub severity: Severity,
    pub regions: Vec<LineRegion>,
}

/// The outcome of a run.
#[derive(Debug)]
pub struct RunReport {
    pub files_checked: usize,
    pub rules: usize,
    pub api_requests: usize,
    pub cache_hits: usize,
    pub violations: Vec<Violation>,
    pub precondition_failure: Option<PreconditionFailure>,
}

/// The number of violations with the given severity.
pub open spec fn severity_count(violations: Seq<Violation>, severity: Severity) -> nat
    decreases violations.len(),
{
    if violations.len() == 0 {
        0
    } else {
        severity_count(violations.drop_last(), severity) + if violations.last().severity == severity {
            1nat
        } else {
            0nat
        }
    }
}

/// Some violation is an error.
pub open spec fn some_error(violations: Seq<Violation>) -> bool {
    exists|i: int| 0 <= i < violations.len() && #[trigger] violations[i].severity == Severity::Error
}

proof fn lemma_count_bounded(violations: Seq<Violation>, severity: Severity)
    ensures
        severity_count(violations, severity) <= violations.len(),
    decreases violations.len(),
{
    if violations.len() > 0 {
        lemma_count_bounded(violations.drop_last(), severity);
    }
}

impl RunReport {
    /// The number of violations of the given severity.
    pub fn count(&self, severity: Severity) -> (r: usize)
        ensures
            r == severity_count(self.violations@, severity),
    {
        let mut n: usize = 0;
        let mut i: usize = 0;
        while i < self.violations.len()
            invariant
                i <= self.violations@.len(),
                n == severity_count(self.violations@.take(i as int), severity),
            decreases self.violations@.len() - i,
        {
            proof {
                let t = self.violations@.take(i + 1);
                assert(t.drop_last() == self.violations@.take(i as int));
                lemma_count_bounded(self.violations@.take(i as int), severity);
            }
            if self.violations[i].severity == severity {
                n += 1;
            }
            i += 1;
        }
        proof {
            assert(self.violations@.take(self.violations@.len() as int) == self.violations@);
        }
        n
    }

    /// Whether some violation is an error.
    pub fn has_errors(&self) -> (r: bool)
        ensures
            r == some_error(self.violations@),
    {
        let mut i: usize = 0;
        while i < self.violations.len()
            invariant
                i <= self.violations@.len(),
                forall|j: int| 0 <= j < i ==> self.violations@[j].severity != Severity::Error,
            decreases self.violations@.len() - i,
        {
            if self.violations[i].severity == Severity::Error {
                return true;
            }
            i += 1;
        }
        false
    }
}

/// The violations of the given severity, in order.
pub open spec fn with_severity(violations: Seq<Violation>, severity: Severity) -> Seq<Violation> {
    violations.filter(|v: Violation| v.severity == severity)
}

/// The count of a severity is the number of violations that have it.
pub proof fn lemma_severity_count_counts(violations: Seq<Violation>, severity: Severity)
    ensures
        severity_count(violations, severity) == with_severity(violations, severity).len(),
    decreases violations.len(),
{
    reveal(Seq::filter);
    if violations.len() > 0 {
        lemma_severity_count_counts(violations.drop_last(), severity);
    }
}

/// Every violation is an error or a warning, so the two counts add up to
/// the number of violations; and a report has errors exactly when its error
/// count is not zero.
pub proof fn lemma_counts_partition(violations: Seq<Violation>)
    ensures
        severity_count(violations, Severity::Error) + severity_count(violations, Severity::Warning)
            == violations.len(),
        some_error(violations) <==> severity_count(violations, Severity::Error) > 0,
    decreases violations.len(),
{
    if violations.len() > 0 {
        let u = violations.drop_last();
        lemma_counts_partition(u);
        if some_error(violations) && !some_error(u) {
            let i = choose|i: int| 0 <= i < violations.len() && #[trigger] violations[i].severity == Severity::Error;
            if i < u.len() {
                assert(u[i].severity == Severity::Error);
            }
        }
        if some_error(u) {
            let i = choose|i: int| 0 <= i < u.len() && #[trigger] u[i].severity == Severity::Error;
            assert(violations[i].severity == Severity::Error);
        }
        if violations.last().severity == Severity::Error {
            assert(violations[violations.len() - 1].severity == Severity::Error);
        }
    }
}

/// What linting one file gave.
#[derive(Debug)]
pub struct FileReport {
    pub path: String,
    pub api_requests: usize,
    pub cache_hits: usize,
    pub violations: Vec<Violation>,
}

impl Keyed for FileReport {
    open spec fn sort_key(&self) -> Seq<char> {
        self.path@
    }

    fn key_chars(&self) -> (r: Vec<char>) {
        crate::text::chars_of(self.path.as_str())
    }
}

/// The total of the API requests of the reports.
pub open spec fn total_requests(reports: Seq<FileReport>) -> int
    decreases reports.len(),
{
    if reports.len() == 0 {
        0
    } else {
        total_requests(reports.drop_last()) + reports.last().api_requests
    }
}

/// The total of the cache hits of the reports.
pub open spec fn total_hits(reports: Seq<FileReport>) -> int
    decreases reports.len(),
{
    if reports.len() == 0 {
        0
    } else {
        total_hits(reports.drop_last()) + reports.last().cache_hits
    }
}

/// The violations of the reports, report after report.
pub open spec fn all_violations(reports: Seq<FileReport>) -> Seq<Violation>
    decreases reports.len(),
{
    if reports.len() == 0 {
        Seq::empty()
    } else {
        all_violations(reports.drop_last()) + reports.last().violations@
    }
}

/// The totals of reports put together are the totals of the one and of
/// the other, and the totals of one report are its own counts.
pub proof fn lemma_totals_append(a: Seq<FileReport>, b: Seq<FileReport>)
    ensures
        total_requests(a + b) == total_requests(a) + total_requests(b),
        total_hits(a + b) == total_hits(a) + total_hits(b),
        b.len() == 1 ==> total_requests(b) == b[0].api_requests && total_hits(b) == b[0].cache_hits,
    decreases b.len(),
{
    if b.len() == 0 {
        assert(a + b =~= a);
    } else {
        lemma_totals_append(a, b.drop_last());
        assert((a + b).drop_last() =~= a + b.drop_last());
        assert((a + b).last() == b.last());
        if b.len() == 1 {
            assert(b.drop_last() =~= Seq::<FileReport>::empty());
            assert(total_requests(b.drop_last()) == 0);
            assert(total_hits(b.drop_last()) == 0);
        }
    }
}

proof fn lemma_totals_nonnegative(reports: Seq<FileReport>, k: int)
    requires
        0 <= k <= reports.len(),
    ensures
        0 <= total_requests(reports.take(k)) <= total_requests(reports),
        0 <= total_hits(reports.take(k)) <= total_hits(reports),
    decreases reports.len(),
{
    if reports.len() > 0 {
        if k == reports.len() {
            assert(reports.take(k) == reports);
            lemma_totals_nonnegative(reports.drop_last(), k - 1);
            assert(reports.drop_last().take(k - 1) == reports.drop_last());
        } else {
            lemma_totals_nonnegative(reports.drop_last(), k);
            assert(reports.drop_last().take(k) == reports.take(k));
        }
    }
}

/// The run report of the file reports: the counts added up over all of
/// them, the violations taken report by report from `sorted`.
pub open spec fn aggregated(reports: Seq<FileReport>, sorted: Seq<FileReport>, rules: usize, report: RunReport) -> bool {
    &&& report.files_checked == reports.len()
    &&& report.rules == rules
    &&& report.api_requests == total_requests(reports)
    &&& report.cache_hits == total_hits(reports)
    &&& report.violations@ == all_violations(sorted)
    &&& report.precondition_failure is None
}

/// Puts the file reports in path order and adds them up.
pub fn aggregate(reports: Vec<FileReport>, rules: usize) -> (r: RunReport)
    requires
        total_requests(reports@) <= usize::MAX,
        total_hits(reports@) <= usize::MAX,
    ensures
        exists|sorted: Seq<FileReport>| {
            &&& sorted_by_key(sorted, true)
            &&& sorted.to_multiset() == reports@.to_multiset()
            &&& #[trigger] aggregated(reports@, sorted, rules, r)
        },
{
    let mut api_requests: usize = 0;
    let mut cache_hits: usize = 0;
    let mut i: usize = 0;
    while i < reports.len()
        invariant
            i <= reports@.len(),
            api_requests == total_requests(reports@.take(i as int)),
            cache_hits == total_hits(reports@.take(i as int)),
            total_requests(reports@) <= usize::MAX,
            total_hits(reports@) <= usize::MAX,
        decreases reports@.len() - i,
    {
        proof {
            assert(reports@.take(i + 1).drop_last() == reports@.take(i as int));
            lemma_totals_nonnegative(reports@, i + 1);
        }
        api_requests = api_requests + reports[i].api_requests;
        cache_hits = cache_hits + reports[i].cache_hits;
        i += 1;
    }
    proof {
        assert(reports@.take(reports@.len() as int) == reports@);
    }
    let files_checked = reports.len();
    let ghost initial = reports@;
    let sorted = sort_by_key(reports, true);
    let ghost s = sorted@;
    let bound = sorted.len();
    let mut violations: Vec<Violation> = Vec::new();
    let mut sorted = sorted;
    let mut rest: Vec<FileReport> = Vec::new();
    // Reverse, so that popping yields the reports in path order.
    while sorted.len() > 0
        invariant
            s == sorted@ + rest@.reverse(),
        decreases sorted.len(),
    {
        let ghost before = sorted@;
        let x = sorted.pop().unwrap();
        proof {
            assert(before == sorted@.push(x));
        }
        let ghost rb = rest@;
        rest.push(x);
        proof {
            assert(rest@.reverse() =~= seq![x] + rb.reverse());
            assert(s =~= sorted@ + rest@.reverse());
        }
    }
    proof {
        assert(s =~= rest@.reverse());
    }
    let mut k: usize = 0;
    while rest.len() > 0
        invariant
            k <= s.len(),
            s.len() == bound,
            s == s.take(k as int) + rest@.reverse(),
            rest@.len() == s.len() - k,
            violations@ == all_violations(s.take(k as int)),
        decreases rest.len(),
    {
        let ghost before = rest@;
        let report = rest.pop().unwrap();
        proof {
            assert(before == rest@.push(report));
            assert(before.reverse()[0] == report);
            assert(s[k as int] == (s.take(k as int) + before.reverse())[k as int]);
            assert(s[k as int] == report);
            assert(s.take(k + 1).drop_last() == s.take(k as int));
            assert(s.take(k + 1).last() == report);
            assert(s =~= s.take(k + 1) + rest@.reverse()) by {
                assert forall|j: int| 0 <= j < s.len() implies s[j] == (s.take(k + 1) + rest@.reverse())[j] by {
                    if j > k {
                        assert((s.take(k as int) + before.reverse())[j] == before.reverse()[j - k]);
                        assert(before.reverse()[j - k] == rest@.reverse()[j - k - 1]);
                    }
                }
            }
        }
        let mut vs = report.violations;
        violations.append(&mut vs);
        k += 1;
    }
    proof {
        assert(s.take(s.len() as int) == s);
    }
    let r = RunReport {
        files_checked,
        rules,
        api_requests,
        cache_hits,
        violations,
        precondition_failure: None,
    };
    proof {
        assert(aggregated(initial, s, rules, r));
    }
    r
}

proof fn lemma_requests_fold(s: Seq<FileReport>, f: spec_fn(int, FileReport) -> int)
    requires
        forall|acc: int, x: FileReport| #[trigger] f(acc, x) == acc + x.api_requests,
    ensures
        total_requests(s) == s.fold_left(0int, f),
    decreases s.len(),
{
    if s.len() > 0 {
        lemma_requests_fold(s.drop_last(), f);
    }
}

proof fn lemma_hits_fold(s: Seq<FileReport>, f: spec_fn(int, FileReport) -> int)
    requires
        forall|acc: int, x: FileReport| #[trigger] f(acc, x) == acc + x.cache_hits,
    ensures
        total_hits(s) == s.fold_left(0int, f),
    decreases s.len(),
{
    if s.len() > 0 {
        lemma_hits_fold(s.drop_last(), f);
    }
}

/// The totals do not depend on the order of the file reports.
proof fn lemma_totals_permutation(a: Seq<FileReport>, b: Seq<FileReport>)
    requires
        a.to_multiset() == b.to_multiset(),
    ensures
        total_requests(a) == total_requests(b),
        total_hits(a) == total_hits(b),
{
    let f = |acc: int, x: FileReport| acc + x.api_requests;
    let g = |acc: int, x: FileReport| acc + x.cache_hits;
    assert(vstd::seq_lib::commutative_foldl(f));
    assert(vstd::seq_lib::commutative_foldl(g));
    lemma_requests_fold(a, f);
    lemma_requests_fold(b, f);
    lemma_hits_fold(a, g);
    lemma_hits_fold(b, g);
    vstd::seq_lib::lemma_fold_left_permutation(a, b, f, 0int);
    vstd::seq_lib::lemma_fold_left_permutation(a, b, g, 0int);
}

/// The run report does not depend on the order in which the file reports
/// arrive, which is the order in which concurrently linted files happen to
/// finish: the same file reports, each path once, arriving in any two
/// orders, add up to the same report.
pub proof fn lemma_aggregate_order_independent(
    a: Seq<FileReport>,
    b: Seq<FileReport>,
    rules: usize,
    ra: RunReport,
    rb: RunReport,
)
    requires
        a.to_multiset() == b.to_multiset(),
        forall|i: int, j: int| 0 <= i < j < a.len() ==> (#[trigger] a[i]).path@ != (#[trigger] a[j]).path@,
        exists|sorted: Seq<FileReport>| {
            &&& sorted_by_key(sorted, true)
            &&& sorted.to_multiset() == a.to_multiset()
            &&& #[trigger] aggregated(a, sorted, rules, ra)
        },
        exists|sorted: Seq<FileReport>| {
            &&& sorted_by_key(sorted, true)
            &&& sorted.to_multiset() == b.to_multiset()
            &&& #[trigger] aggregated(b, sorted, rules, rb)
        },
    ensures
        ra.files_checked == rb.files_checked,
        ra.rules == rb.rules,
        ra.api_requests == rb.api_requests,
        ra.cache_hits == rb.cache_hits,
        ra.violations@ == rb.violations@,
        ra.precondition_failure == rb.precondition_failure,
{
    broadcast use vstd::seq_lib::group_to_multiset_ensures;
    let sa = choose|sorted: Seq<FileReport>| {
        &&& sorted_by_key(sorted, true)
        &&& sorted.to_multiset() == a.to_multiset()
        &&& #[trigger] aggregated(a, sorted, rules, ra)
    };
    let sb = choose|sorted: Seq<FileReport>| {
        &&& sorted_by_key(sorted, true)
        &&& sorted.to_multiset() == b.to_multiset()
        &&& #[trigger] aggregated(b, sorted, rules, rb)
    };
    assert forall|i: int, j: int| 0 <= i < j < a.len() implies (#[trigger] a[i]).sort_key()
        != (#[trigger] a[j]).sort_key() by {
        assert(a[i].path@ != a[j].path@);
    }
    lemma_distinct_keys_unique(a);
    lemma_keys_unique_permutation(a, sa);
    lemma_sorted_unique(sa, sb, true);
    lemma_totals_permutation(a, b);
    assert(a.len() == a.to_multiset().len());
    assert(b.len() == b.to_multiset().len());
}


/// Each violation of the reports lies in the file of one of them, and, the
/// reports being in path order, the violations are in path order too.
proof fn lemma_violations_in_path_order(s: Seq<FileReport>)
    requires
        sorted_by_key(s, true),
        forall|k: int, m: int|
            0 <= k < s.len() && 0 <= m < s[k].violations@.len() ==> (#[trigger] s[k].violations@[m]).path@ == s[k].path@,
    ensures
        forall|i: int|
            0 <= i < all_violations(s).len() ==> exists|k: int|
                0 <= k < s.len() && (#[trigger] all_violations(s)[i]).path@ == s[k].path@,
        forall|i: int, j: int|
            0 <= i < j < all_violations(s).len() ==> lex_le(
                (#[trigger] all_violations(s)[i]).path@,
                (#[trigger] all_violations(s)[j]).path@,
                true,
            ),
    decreases s.len(),
{
    if s.len() > 0 {
        let d = s.drop_last();
        assert forall|a: int, b: int| 0 <= a < b < d.len() implies lex_le(
            #[trigger] d[a].sort_key(),
            #[trigger] d[b].sort_key(),
            true,
        ) by {
            assert(d[a] == s[a] && d[b] == s[b]);
        }
        assert forall|k: int, m: int|
            0 <= k < d.len() && 0 <= m < d[k].violations@.len() implies (#[trigger] d[k].violations@[m]).path@
            == d[k].path@ by {
            assert(d[k] == s[k]);
        }
        lemma_violations_in_path_order(d);
        let front = all_violations(d);
        let last = s.last().violations@;
        let all = all_violations(s);
        assert(all == front + last);
        let n = s.len() - 1;
        assert forall|i: int| 0 <= i < all.len() implies exists|k: int|
            0 <= k < s.len() && (#[trigger] all[i]).path@ == s[k].path@ by {
            if i < front.len() {
                assert(all[i] == front[i]);
                let k = choose|k: int| 0 <= k < d.len() && front[i].path@ == d[k].path@;
                assert(d[k] == s[k]);
            } else {
                assert(all[i] == last[i - front.len()]);
                assert(s[n].violations@[i - front.len()].path@ == s[n].path@);
            }
        }
        assert forall|i: int, j: int| 0 <= i < j < all.len() implies lex_le(
            (#[trigger] all[i]).path@,
            (#[trigger] all[j]).path@,
            true,
        ) by {
            if j < front.len() {
                assert(all[i] == front[i] && all[j] == front[j]);
            } else if i >= front.len() {
                assert(all[i] == last[i - front.len()] && all[j] == last[j - front.len()]);
                assert(s[n].violations@[i - front.len()].path@ == s[n].path@);
                assert(s[n].violations@[j - front.len()].path@ == s[n].path@);
                crate::order::lemma_lex_asymmetric(s[n].path@, s[n].path@, true);
            } else {
                assert(all[i] == front[i] && all[j] == last[j - front.len()]);
                let k = choose|k: int| 0 <= k < d.len() && front[i].path@ == d[k].path@;
                assert(d[k] == s[k]);
                assert(s[n].violations@[j - front.len()].path@ == s[n].path@);
                assert(lex_le(s[k].sort_key(), s[n].sort_key(), true));
            }
        }
    }
}

/// Over a whole run, whose file reports are one for each file that was
/// selected, each with its violations in its own file: the run report counts
/// every selected file, adds up the requests and cache hits of all of them,
/// and lists violations of selected files only, in path order.
pub proof fn lemma_run_report(files: Seq<String>, reports: Seq<FileReport>, rules: usize, r: RunReport)
    requires
        reports.len() == files.len(),
        forall|j: int| 0 <= j < reports.len() ==> exists|i: int| 0 <= i < files.len() && files[i]@ == (#[trigger] reports[j]).path@,
        forall|k: int, m: int|
            0 <= k < reports.len() && 0 <= m < reports[k].violations@.len() ==> (#[trigger] reports[k].violations@[m]).path@
                == reports[k].path@,
        exists|sorted: Seq<FileReport>| {
            &&& sorted_by_key(sorted, true)
            &&& sorted.to_multiset() == reports.to_multiset()
            &&& #[trigger] aggregated(reports, sorted, rules, r)
        },
    ensures
        r.files_checked == files.len(),
        r.api_requests == total_requests(reports),
        r.cache_hits == total_hits(reports),
        r.precondition_failure is None,
        forall|i: int|
            0 <= i < r.violations@.len() ==> exists|f: int| 0 <= f < files.len() && files[f]@ == (#[trigger] r.violations@[i]).path@,
        forall|i: int, j: int|
            0 <= i < j < r.violations@.len() ==> lex_le(
                (#[trigger] r.violations@[i]).path@,
                (#[trigger] r.violations@[j]).path@,
                true,
            ),
{
    broadcast use vstd::seq_lib::group_to_multiset_ensures;
    let s = choose|sorted: Seq<FileReport>| {
        &&& sorted_by_key(sorted, true)
        &&& sorted.to_multiset() == reports.to_multiset()
        &&& #[trigger] aggregated(reports, sorted, rules, r)
    };
    assert forall|k: int| 0 <= k < s.len() implies reports.contains(#[trigger] s[k]) by {
        assert(s.to_multiset().count(s[k]) > 0);
    }
    assert forall|k: int, m: int|
        0 <= k < s.len() && 0 <= m < s[k].violations@.len() implies (#[trigger] s[k].violations@[m]).path@
        == s[k].path@ by {
        assert(reports.contains(s[k]));
        let q = choose|q: int| 0 <= q < reports.len() && reports[q] == s[k];
        assert(reports[q].violations@[m].path@ == reports[q].path@);
    }
    lemma_violations_in_path_order(s);
    assert(r.violations@ == all_violations(s));
    assert forall|i: int| 0 <= i < r.violations@.len() implies exists|f: int|
        0 <= f < files.len() && files[f]@ == (#[trigger] r.violations@[i]).path@ by {
        let k = choose|k: int| 0 <= k < s.len() && all_violations(s)[i].path@ == s[k].path@;
        assert(reports.contains(s[k]));
        let q = choose|q: int| 0 <= q < reports.len() && reports[q] == s[k];
        assert(exists|f: int| 0 <= f < files.len() && files[f]@ == reports[q].path@);
    }
}

} // verus!

verus! {

/// The values of the cached entries, in order.
pub open spec fn cached_values<T>(cached: Seq<Option<T>>) -> Seq<T>
    decreases cached.len(),
{
    if cached.len() == 0 {
        Seq::empty()
    } else {
        match cached.last() {
            Some(v) => cached_values(cached.drop_last()).push(v),
            None => cached_values(cached.drop_last()),
        }
    }
}

/// The positions of the entries missing from the cache, ascending.
pub open spec fn missing_positions<T>(cached: Seq<Option<T>>) -> Seq<usize>
    decreases cached.len(),
{
    if cached.len() == 0 {
        Seq::empty()
    } else {
        match cached.last() {
            Some(_) => missing_positions(cached.drop_last()),
            None => missing_positions(cached.drop_last()).push((cached.len() - 1) as usize),
        }
    }
}

/// The positions asked of the service are exactly the entries the cache
/// lacks, ascending, each within the lookups.
pub proof fn lemma_missing_positions<T>(cached: Seq<Option<T>>)
    requires
        cached.len() <= usize::MAX,
    ensures
        strictly_increasing(missing_positions(cached)),
        forall|k: int| 0 <= k < missing_positions(cached).len() ==> #[trigger] missing_positions(cached)[k] < cached.len(),
        forall|i: int| 0 <= i < cached.len() ==> (#[trigger] cached[i] is None <==> lists_line(missing_positions(cached), i)),
    decreases cached.len(),
{
    if cached.len() > 0 {
        let rest = cached.drop_last();
        let n = cached.len() - 1;
        lemma_missing_positions(rest);
        let m = missing_positions(rest);
        let mm = missing_positions(cached);
        assert forall|i: int| 0 <= i < n implies cached[i] == rest[i] by {}
        if cached.last() is None {
            assert(mm == m.push(n as usize));
            assert(mm.drop_last() == m);
            assert(mm.last() == n as usize);
            lemma_lists_line_step(mm);
            assert forall|a: int, b: int| 0 <= a < b < mm.len() implies mm[a] < mm[b] by {
                assert(mm[a] == m[a]);
                if b == mm.len() - 1 {
                    assert(m[a] < rest.len());
                    assert(mm[b] == n);
                } else {
                    assert(mm[b] == m[b]);
                    assert(m[a] < m[b]);
                }
            }
            assert forall|k: int| 0 <= k < mm.len() implies #[trigger] mm[k] < cached.len() by {
                if k < m.len() {
                    assert(mm[k] == m[k]);
                }
            }
            assert forall|i: int| 0 <= i < cached.len() implies (#[trigger] cached[i] is None <==> lists_line(mm, i)) by {
                if i < n {
                    assert(cached[i] == rest[i]);
                    if lists_line(mm, i) && !lists_line(m, i) {
                        assert(i == n as int);
                    }
                } else {
                    assert(mm[mm.len() - 1] as int == i);
                }
            }
        } else {
            assert(mm == m);
            assert forall|i: int| 0 <= i < cached.len() implies (#[trigger] cached[i] is None <==> lists_line(mm, i)) by {
                if i < n {
                    assert(cached[i] == rest[i]);
                } else {
                    if lists_line(m, i) {
                        let j = choose|j: int| 0 <= j < m.len() && #[trigger] m[j] as int == i;
                        assert(m[j] < rest.len());
                    }
                }
            }
        }
    }
}

/// Splits cache lookups into the values found, in order, and the positions
/// of the keys that were not found.
pub fn partition_cached<T>(cached: Vec<Option<T>>) -> (r: (Vec<T>, Vec<usize>))
    ensures
        r.0@ == cached_values(cached@),
        r.1@ == missing_positions(cached@),
        r.0@.len() + r.1@.len() == cached@.len(),
{
    let ghost all = cached@;
    let mut rest: Vec<Option<T>> = Vec::new();
    let mut cached = cached;
    while cached.len() > 0
        invariant
            all == cached@ + rest@.reverse(),
        decreases cached.len(),
    {
        let ghost before = cached@;
        let x = cached.pop().unwrap();
        let ghost rb = rest@;
        rest.push(x);
        proof {
            assert(before == cached@.push(x));
            assert(rest@.reverse() =~= seq![x] + rb.reverse());
            assert(all =~= cached@ + rest@.reverse());
        }
    }
    proof {
        assert(all =~= rest@.reverse());
    }
    let mut values: Vec<T> = Vec::new();
    let mut missing: Vec<usize> = Vec::new();
    let mut k: usize = 0;
    let bound = rest.len();
    while rest.len() > 0
        invariant
            k <= all.len(),
            all.len() == bound,
            all == all.take(k as int) + rest@.reverse(),
            rest@.len() == all.len() - k,
            values@ == cached_values(all.take(k as int)),
            missing@ == missing_positions(all.take(k as int)),
            values@.len() + missing@.len() == k,
        decreases rest.len(),
    {
        let ghost before = rest@;
        let x = rest.pop().unwrap();
        proof {
            assert(before == rest@.push(x));
            assert(before.reverse()[0] == x);
            assert(all[k as int] == (all.take(k as int) + before.reverse())[k as int]);
            assert(all.take(k + 1).drop_last() == all.take(k as int));
            assert(all.take(k + 1).last() == x);
            assert(all.take(k + 1).len() - 1 == k);
            assert(all =~= all.take(k + 1) + rest@.reverse()) by {
                assert forall|j: int| 0 <= j < all.len() implies all[j] == (all.take(k + 1) + rest@.reverse())[j] by {
                    if j > k {
                        assert((all.take(k as int) + before.reverse())[j] == before.reverse()[j - k]);
                        assert(before.reverse()[j - k] == rest@.reverse()[j - k - 1]);
                    }
                }
            }
        }
        match x {
            Some(v) => values.push(v),
            None => missing.push(k),
        }
        k += 1;
    }
    proof {
        assert(all.take(all.len() as int) == all);
    }
    (values, missing)
}

/// A lookup that the cache answers in full asks nothing more: no position
/// is missing and every entry is a value found.
pub proof fn lemma_fully_cached<T>(cached: Seq<Option<T>>)
    requires
        forall|i: int| 0 <= i < cached.len() ==> #[trigger] cached[i] is Some,
    ensures
        missing_positions(cached).len() == 0,
        cached_values(cached).len() == cached.len(),
    decreases cached.len(),
{
    if cached.len() > 0 {
        let rest = cached.drop_last();
        assert forall|i: int| 0 <= i < rest.len() implies #[trigger] rest[i] is Some by {
            assert(rest[i] == cached[i]);
        }
        lemma_fully_cached(rest);
        assert(cached.last() == cached[cached.len() - 1]);
    }
}

/// A pass over a file whose verdicts and line answers the cache holds in
/// full asks the service nothing: the verdict lookup has no rule to ask, the
/// line lookup no request to make, and every entry is a cache hit.
pub proof fn lemma_cached_file_asks_nothing(
    verdicts: Seq<Option<crate::jev::RuleAnswer>>,
    lines: Seq<Option<crate::jev::LineAnswer>>,
    max_questions: usize,
)
    requires
        forall|i: int| 0 <= i < verdicts.len() ==> #[trigger] verdicts[i] is Some,
        forall|i: int| 0 <= i < lines.len() ==> #[trigger] lines[i] is Some,
        max_questions > 0,
    ensures
        missing_positions(verdicts).len() == 0,
        cached_values(verdicts).len() == verdicts.len(),
        chunks_from(0, missing_positions(lines).len() as int, max_questions as int).len() == 0,
        cached_values(lines).len() == lines.len(),
{
    lemma_fully_cached(verdicts);
    lemma_fully_cached(lines);
}

/// What linting a file has cost so far: requests to the service and
/// entries taken from the cache.
#[derive(Clone, Copy, Debug, PartialEq, Eq)]
pub struct Tally {
    pub api_requests: usize,
    pub cache_hits: usize,
}

/// The verdict lookup of a file: the verdicts the cache holds, in order;
/// the rules to ask the service about, all in one request, when the cache
/// lacks any; and the tally after it.
pub struct VerdictLookup {
    pub found: Vec<crate::jev::RuleAnswer>,
    /// Positions among the file's rules.
    pub ask: Option<Vec<usize>>,
    pub tally: Tally,
}

/// Sorts out a file's cached verdicts: each found verdict is a cache hit,
/// and the missing ones take one request.
pub fn look_up_verdicts(cached: Vec<Option<crate::jev::RuleAnswer>>) -> (r: VerdictLookup)
    ensures
        r.found@ == cached_values(cached@),
        r.ask is Some <==> missing_positions(cached@).len() > 0,
        r.ask matches Some(m) ==> m@ == missing_positions(cached@),
        r.tally.api_requests == (if missing_positions(cached@).len() > 0 { 1usize } else { 0usize }),
        r.tally.cache_hits == cached_values(cached@).len(),
{
    let (found, missing) = partition_cached(cached);
    let cache_hits = found.len();
    if missing.len() > 0 {
        VerdictLookup { found, ask: Some(missing), tally: Tally { api_requests: 1, cache_hits } }
    } else {
        VerdictLookup { found, ask: None, tally: Tally { api_requests: 0, cache_hits } }
    }
}

/// The cache entries that fresh answers make: the answer to the `i`-th
/// question asked goes under the key of the lookup it was asked for.
pub fn entries_to_store<T>(asked: &Vec<usize>, keys: &Vec<String>, fresh: Vec<T>) -> (r: Vec<(String, T)>)
    requires
        asked@.len() == fresh@.len(),
        forall|i: int| 0 <= i < asked@.len() ==> #[trigger] asked@[i] < keys@.len(),
    ensures
        r@.len() == fresh@.len(),
        forall|i: int|
            0 <= i < r@.len() ==> (#[trigger] r@[i]).0 == keys@[asked@[i] as int] && r@[i].1 == fresh@[i],
{
    let ghost answers = fresh@;
    let mut rest = fresh;
    let mut reversed: Vec<T> = Vec::new();
    while rest.len() > 0
        invariant
            answers == rest@ + reversed@.reverse(),
        decreases rest.len(),
    {
        let ghost before = rest@;
        let x = rest.pop().unwrap();
        let ghost rb = reversed@;
        reversed.push(x);
        proof {
            assert(before == rest@.push(x));
            assert(reversed@.reverse() =~= seq![x] + rb.reverse());
            assert(answers =~= rest@ + reversed@.reverse());
        }
    }
    proof {
        assert(answers =~= reversed@.reverse());
    }
    let mut r: Vec<(String, T)> = Vec::new();
    let mut i: usize = 0;
    let n = asked.len();
    while reversed.len() > 0
        invariant
            n == asked@.len(),
            i <= answers.len(),
            answers.len() == asked@.len(),
            forall|j: int| 0 <= j < asked@.len() ==> #[trigger] asked@[j] < keys@.len(),
            reversed@.len() == answers.len() - i,
            forall|j: int| 0 <= j < reversed@.len() ==> #[trigger] reversed@.reverse()[j] == answers[i + j],
            r@.len() == i,
            forall|j: int| 0 <= j < i ==> (#[trigger] r@[j]).0 == keys@[asked@[j] as int] && r@[j].1 == answers[j],
        decreases reversed.len(),
    {
        let ghost before = reversed@;
        let x = reversed.pop().unwrap();
        proof {
            assert(before == reversed@.push(x));
            assert(before.reverse()[0] == x);
            assert(x == answers[i as int]);
            assert forall|j: int| 0 <= j < reversed@.len() implies #[trigger] reversed@.reverse()[j] == answers[i + 1
                + j] by {
                assert(before.reverse()[j + 1] == answers[i + j + 1]);
                assert(reversed@.reverse()[j] == before.reverse()[j + 1]);
            }
        }
        let k = keys[asked[i]].clone();
        r.push((k, x));
        i += 1;
    }
    r
}

/// Whether the failed rules of a file are located by line: only when line
/// detection is on and some rule failed.
pub fn needs_location(line_detection: bool, failed: &Vec<crate::jev::RuleAnswer>) -> (r: bool)
    ensures
        r == (line_detection && failed@.len() > 0),
{
    line_detection && failed.len() > 0
}

/// The line lookup of a file: the line answers the cache holds, in order;
/// the requests to make for the rest, each a run of at most the configured
/// number of questions; and the tally after them.
pub struct LineLookup {
    pub found: Vec<crate::jev::LineAnswer>,
    /// Each request's questions, as positions among the location questions.
    pub requests: Vec<Vec<usize>>,
    pub tally: Tally,
}

/// Sorts out a file's cached line answers: each found answer is a cache
/// hit, and the missing questions are asked in runs of at most
/// `max_questions`, one request each.
pub fn look_up_lines(tally: Tally, cached: Vec<Option<crate::jev::LineAnswer>>, max_questions: usize) -> (r: LineLookup)
    requires
        max_questions > 0,
        tally.api_requests + cached@.len() <= usize::MAX,
        tally.cache_hits + cached@.len() <= usize::MAX,
    ensures
        r.found@ == cached_values(cached@),
        r.requests@.len() == chunks_from(0, missing_positions(cached@).len() as int, max_questions as int).len(),
        forall|k: int| 0 <= k < r.requests@.len() ==> {
            let bounds = chunks_from(0, missing_positions(cached@).len() as int, max_questions as int)[k];
            (#[trigger] r.requests@[k])@ == missing_positions(cached@).subrange(bounds.0 as int, bounds.1 as int)
        },
        r.tally.api_requests == tally.api_requests + r.requests@.len(),
        r.tally.cache_hits == tally.cache_hits + r.found@.len(),
{
    let ghost all = cached@;
    let (found, missing) = partition_cached(cached);
    let bounds = chunk_bounds(missing.len(), max_questions);
    proof {
        lemma_chunks_tile(0, missing@.len() as int, max_questions as int);
    }
    let mut requests: Vec<Vec<usize>> = Vec::new();
    let mut k: usize = 0;
    while k < bounds.len()
        invariant
            k <= bounds@.len(),
            bounds@ == chunks_from(0, missing@.len() as int, max_questions as int),
            forall|j: int| 0 <= j < bounds@.len() ==> (#[trigger] bounds@[j]).0 < bounds@[j].1 <= bounds@[j].0 + max_questions,
            forall|j: int| 0 <= j < bounds@.len() - 1 ==> (#[trigger] bounds@[j]).1 == bounds@[j + 1].0,
            bounds@.len() > 0 ==> bounds@[0].0 == 0 && bounds@.last().1 == missing@.len(),
            requests@.len() == k,
            forall|j: int| 0 <= j < k ==> (#[trigger] requests@[j])@ == missing@.subrange(bounds@[j].0 as int, bounds@[j].1 as int),
        decreases bounds@.len() - k,
    {
        let (start, end) = bounds[k];
        proof {
            lemma_chunk_within(bounds@, k as int, missing@.len() as int);
        }
        let mut request: Vec<usize> = Vec::new();
        let mut i = start;
        while i < end
            invariant
                start <= i <= end <= missing@.len(),
                request@ == missing@.subrange(start as int, i as int),
            decreases end - i,
        {
            request.push(missing[i]);
            proof {
                assert(missing@.subrange(start as int, i + 1) == missing@.subrange(start as int, i as int).push(missing@[i as int]));
            }
            i += 1;
        }
        let ghost before = requests@;
        requests.push(request);
        proof {
            assert forall|j: int| 0 <= j < k + 1 implies (#[trigger] requests@[j])@ == missing@.subrange(bounds@[j].0 as int, bounds@[j].1 as int) by {
                if j < k {
                    assert(requests@[j] == before[j]);
                }
            }
        }
        k += 1;
    }
    proof {
        lemma_chunk_count(bounds@, missing@.len() as int);
        assert(found@.len() + missing@.len() == all.len());
    }
    let api_requests = tally.api_requests + requests.len();
    let cache_hits = tally.cache_hits + found.len();
    LineLookup { found, requests, tally: Tally { api_requests, cache_hits } }
}

/// A chunk of a tiling lies within the positions it tiles.
proof fn lemma_chunk_within(c: Seq<(usize, usize)>, k: int, len: int)
    requires
        0 <= k < c.len(),
        forall|j: int| 0 <= j < c.len() ==> (#[trigger] c[j]).0 < c[j].1,
        forall|j: int| 0 <= j < c.len() - 1 ==> (#[trigger] c[j]).1 == c[j + 1].0,
        c[0].0 == 0,
        c.last().1 == len,
    ensures
        0 <= c[k].0 < c[k].1 <= len,
    decreases c.len() - k,
{
    if k == 0 {
        if c.len() > 1 {
            lemma_chunk_within(c, 1, len);
            assert(c[0].1 == c[1].0);
        }
    } else if k < c.len() - 1 {
        lemma_chunk_within(c, k + 1, len);
        lemma_chunk_start(c, k);
        assert(c[k].1 == c[k + 1].0);
    } else {
        lemma_chunk_start(c, k);
    }
}

/// Chunk starts grow from zero.
proof fn lemma_chunk_start(c: Seq<(usize, usize)>, k: int)
    requires
        0 <= k < c.len(),
        forall|j: int| 0 <= j < c.len() ==> (#[trigger] c[j]).0 < c[j].1,
        forall|j: int| 0 <= j < c.len() - 1 ==> (#[trigger] c[j]).1 == c[j + 1].0,
        c[0].0 == 0,
    ensures
        c[k].0 >= k,
    decreases k,
{
    if k > 0 {
        lemma_chunk_start(c, k - 1);
        assert(c[k - 1].1 == c[k].0);
    }
}

/// There are no more chunks than positions.
proof fn lemma_chunk_count(c: Seq<(usize, usize)>, len: int)
    requires
        forall|j: int| 0 <= j < c.len() ==> (#[trigger] c[j]).0 < c[j].1,
        forall|j: int| 0 <= j < c.len() - 1 ==> (#[trigger] c[j]).1 == c[j + 1].0,
        c.len() > 0 ==> c[0].0 == 0 && c.last().1 == len,
        len >= 0,
    ensures
        c.len() <= len,
{
    if c.len() > 0 {
        lemma_chunk_start(c, c.len() - 1);
    }
}

} // verus!

verus! {

/// Adds a line number to a strictly increasing list, keeping it so.
pub fn insert_line(lines: &mut Vec<usize>, line: usize)
    requires
        strictly_increasing(old(lines)@),
    ensures
        strictly_increasing(final(lines)@),
        final(lines)@.to_set() == old(lines)@.to_set().insert(line),
{
    let mut p: usize = 0;
    while p < lines.len() && lines[p] < line
        invariant
            p <= lines@.len(),
            forall|q: int| 0 <= q < p ==> lines@[q] < line,
        decreases lines@.len() - p,
    {
        p += 1;
    }
    let ghost before = lines@;
    if p < lines.len() && lines[p] == line {
        proof {
            assert(before.to_set() =~= before.to_set().insert(line)) by {
                assert(before.to_set().contains(line)) by {
                    assert(before[p as int] == line);
                }
            }
        }
        return;
    }
    lines.insert(p, line);
    proof {
        assert(lines@ == before.insert(p as int, line));
        assert forall|i: int, j: int| 0 <= i < j < lines@.len() implies lines@[i] < lines@[j] by {
            if j < p {
                assert(lines@[i] == before[i] && lines@[j] == before[j]);
            } else if j == p {
                assert(lines@[i] == before[i]);
            } else if i == p {
                assert(lines@[j] == before[j - 1]);
                if p < before.len() {
                    assert(before[p as int] > line);
                    if j - 1 > p {
                        assert(before[p as int] < before[j - 1]);
                    }
                }
            } else if i < p {
                assert(lines@[i] == before[i] && lines@[j] == before[j - 1]);
            } else {
                assert(lines@[i] == before[i - 1] && lines@[j] == before[j - 1]);
            }
        }
        assert forall|x: usize| lines@.to_set().contains(x) <==> before.to_set().insert(line).contains(x) by {
            if lines@.contains(x) {
                let i = choose|i: int| 0 <= i < lines@.len() && lines@[i] == x;
                if i < p {
                    assert(before[i] == x);
                } else if i > p {
                    assert(before[i - 1] == x);
                }
            }
            if before.contains(x) {
                let i = choose|i: int| 0 <= i < before.len() && before[i] == x;
                if i < p {
                    assert(lines@[i] == x);
                } else {
                    assert(lines@[i + 1] == x);
                }
            }
            if x == line {
                assert(lines@[p as int] == x);
            }
        }
        assert(lines@.to_set() =~= before.to_set().insert(line));
    }
}

/// For each rule, the set of lines that the answers mark as violated.
pub open spec fn violated_line_sets(answers: Seq<crate::jev::LineAnswer>) -> Map<Seq<char>, Set<usize>>
    decreases answers.len(),
{
    if answers.len() == 0 {
        Map::empty()
    } else {
        let m = violated_line_sets(answers.drop_last());
        let a = answers.last();
        if a.violated {
            let known = if m.dom().contains(a.rule_id@) {
                m[a.rule_id@]
            } else {
                Set::empty()
            };
            m.insert(a.rule_id@, known.insert(a.line))
        } else {
            m
        }
    }
}

/// The violated lines, by rule: each rule's lines ascending and without
/// repeats, the rules in id order.
pub fn violated_lines(answers: &Vec<crate::jev::LineAnswer>) -> (r: Vec<(String, Vec<usize>)>)
    ensures
        crate::sorted_map::ascending(r@, false),
        crate::sorted_map::as_map(r@).dom() == violated_line_sets(answers@).dom(),
        forall|k: Seq<char>| #[trigger] crate::sorted_map::as_map(r@).dom().contains(k) ==> {
            &&& strictly_increasing(crate::sorted_map::as_map(r@)[k]@)
            &&& crate::sorted_map::as_map(r@)[k]@.to_set() == violated_line_sets(answers@)[k]
        },
{
    let mut r: Vec<(String, Vec<usize>)> = Vec::new();
    let mut i: usize = 0;
    while i < answers.len()
        invariant
            i <= answers@.len(),
            crate::sorted_map::ascending(r@, false),
            crate::sorted_map::as_map(r@).dom() == violated_line_sets(answers@.take(i as int)).dom(),
            forall|k: Seq<char>| #[trigger] crate::sorted_map::as_map(r@).dom().contains(k) ==> {
                &&& strictly_increasing(crate::sorted_map::as_map(r@)[k]@)
                &&& crate::sorted_map::as_map(r@)[k]@.to_set() == violated_line_sets(answers@.take(i as int))[k]
            },
        decreases answers@.len() - i,
    {
        let a = &answers[i];
        proof {
            assert(answers@.take(i + 1).drop_last() == answers@.take(i as int));
            assert(answers@.take(i + 1).last() == *a);
        }
        let ghost m_old = violated_line_sets(answers@.take(i as int));
        let ghost m_new = violated_line_sets(answers@.take(i + 1));
        if a.violated {
            match crate::sorted_map::find(&r, a.rule_id.as_str(), false) {
                Ok(p) => {
                    let ghost before = r@;
                    proof {
                        crate::sorted_map::lemma_as_map_index(before, false, p as int);
                    }
                    let (key, mut lines) = r.remove(p);
                    insert_line(&mut lines, a.line);
                    r.insert(p, (key, lines));
                    proof {
                        assert(r@.len() == before.len());
                        assert forall|j: int| 0 <= j < before.len() && j != p implies r@[j] == before[j] by {}
                        assert(crate::sorted_map::ascending(r@, false)) by {
                            assert forall|x: int, y: int| 0 <= x < y < r@.len() implies crate::order::lex_lt(#[trigger] r@[x].0@, #[trigger] r@[y].0@, false) by {
                                assert(r@[x].0@ == before[x].0@ && r@[y].0@ == before[y].0@);
                            }
                        }
                        crate::sorted_map::lemma_map_after_update(before, r@, p as int, false);
                        let mr = crate::sorted_map::as_map(r@);
                        assert(mr.dom() =~= m_new.dom());
                        assert forall|k: Seq<char>| #[trigger] mr.dom().contains(k) implies {
                            &&& strictly_increasing(mr[k]@)
                            &&& mr[k]@.to_set() == m_new[k]
                        } by {
                            if k != a.rule_id@ {
                                assert(crate::sorted_map::as_map(before).dom().contains(k));
                            }
                        }
                    }
                },
                Err(_) => {
                    let mut lines: Vec<usize> = Vec::new();
                    lines.push(a.line);
                    proof {
                        assert(lines@.to_set() =~= Set::<usize>::empty().insert(a.line)) by {
                            assert(lines@[0] == a.line);
                        }
                        assert(!m_old.dom().contains(a.rule_id@));
                    }
                    let ghost before = r@;
                    crate::sorted_map::insert(&mut r, a.rule_id.clone(), lines, false);
                    proof {
                        let mr = crate::sorted_map::as_map(r@);
                        assert(mr.dom() =~= m_new.dom());
                        assert forall|k: Seq<char>| #[trigger] mr.dom().contains(k) implies {
                            &&& strictly_increasing(mr[k]@)
                            &&& mr[k]@.to_set() == m_new[k]
                        } by {
                            if k != a.rule_id@ {
                                assert(crate::sorted_map::as_map(before).dom().contains(k));
                            }
                        }
                    }
                },
            }
        }
        i += 1;
    }
    proof {
        assert(answers@.take(answers@.len() as int) == answers@);
    }
    r
}

} // verus!

verus! {

impl Keyed for crate::jev::RuleAnswer {
    open spec fn sort_key(&self) -> Seq<char> {
        self.rule_id@
    }

    fn key_chars(&self) -> (r: Vec<char>) {
        crate::text::chars_of(self.rule_id.as_str())
    }
}

/// The cached and the fresh verdicts of a file together, in rule id order.
pub fn order_answers(cached: Vec<crate::jev::RuleAnswer>, fresh: Vec<crate::jev::RuleAnswer>) -> (r: Vec<crate::jev::RuleAnswer>)
    ensures
        sorted_by_key(r@, false),
        r@.to_multiset() == (cached@ + fresh@).to_multiset(),
{
    let mut all = cached;
    let mut fresh = fresh;
    let ghost a = all@;
    let ghost f = fresh@;
    all.append(&mut fresh);
    proof {
        assert(all@ == a + f);
    }
    sort_by_key(all, false)
}

/// A verdict becomes a violation when it is a failure with at least the
/// confidence that the file's setting for the rule asks for.
pub open spec fn reportable(
    answer: crate::jev::RuleAnswer,
    settings: Map<Seq<char>, crate::files::RuleSetting>,
) -> bool {
    &&& answer.verdict == crate::jev::Verdict::Fail
    &&& settings.dom().contains(answer.rule_id@)
    &&& crate::float_bits::ge(answer.confidence, settings[answer.rule_id@].threshold)
}

/// The verdicts that become violations, in their order.
pub fn failed_answers(answers: Vec<crate::jev::RuleAnswer>, settings: &Vec<(String, crate::files::RuleSetting)>) -> (r: Vec<crate::jev::RuleAnswer>)
    requires
        crate::sorted_map::ascending(settings@, false),
    ensures
        r@ == answers@.filter(|a: crate::jev::RuleAnswer| reportable(a, crate::sorted_map::as_map(settings@))),
{
    let ghost pred = |a: crate::jev::RuleAnswer| reportable(a, crate::sorted_map::as_map(settings@));
    let ghost all = answers@;
    let mut rest: Vec<crate::jev::RuleAnswer> = Vec::new();
    let mut answers = answers;
    while answers.len() > 0
        invariant
            all == answers@ + rest@.reverse(),
        decreases answers.len(),
    {
        let ghost before = answers@;
        let x = answers.pop().unwrap();
        let ghost rb = rest@;
        rest.push(x);
        proof {
            assert(before == answers@.push(x));
            assert(rest@.reverse() =~= seq![x] + rb.reverse());
            assert(all =~= answers@ + rest@.reverse());
        }
    }
    proof {
        assert(all =~= rest@.reverse());
    }
    let mut out: Vec<crate::jev::RuleAnswer> = Vec::new();
    let mut k: usize = 0;
    let bound = rest.len();
    while rest.len() > 0
        invariant
            k <= all.len(),
            all.len() == bound,
            all == all.take(k as int) + rest@.reverse(),
            rest@.len() == all.len() - k,
            crate::sorted_map::ascending(settings@, false),
            pred == (|a: crate::jev::RuleAnswer| reportable(a, crate::sorted_map::as_map(settings@))),
            out@ == all.take(k as int).filter(pred),
        decreases rest.len(),
    {
        let ghost before = rest@;
        let x = rest.pop().unwrap();
        proof {
            assert(before == rest@.push(x));
            assert(before.reverse()[0] == x);
            assert(all[k as int] == (all.take(k as int) + before.reverse())[k as int]);
            assert(all.take(k + 1) == all.take(k as int).push(x));
            all.take(k as int).lemma_filter_push(x, pred);
            assert(all =~= all.take(k + 1) + rest@.reverse()) by {
                assert forall|j: int| 0 <= j < all.len() implies all[j] == (all.take(k + 1) + rest@.reverse())[j] by {
                    if j > k {
                        assert((all.take(k as int) + before.reverse())[j] == before.reverse()[j - k]);
                        assert(before.reverse()[j - k] == rest@.reverse()[j - k - 1]);
                    }
                }
            }
        }
        let keep = if x.verdict == crate::jev::Verdict::Fail {
            match crate::sorted_map::find(settings, x.rule_id.as_str(), false) {
                Ok(p) => {
                    proof {
                        crate::sorted_map::lemma_as_map_index(settings@, false, p as int);
                    }
                    crate::float_bits::f64_ge(x.confidence, settings[p].1.threshold)
                },
                Err(_) => false,
            }
        } else {
            false
        };
        if keep {
            out.push(x);
        }
        k += 1;
    }
    proof {
        assert(all.take(all.len() as int) == all);
    }
    out
}

/// `source.lines().count().max(1)`.
pub open spec fn line_total(source: Seq<char>) -> nat {
    if crate::text::lines_of(source).len() == 0 {
        1
    } else {
        crate::text::lines_of(source).len()
    }
}

/// The number of lines that location questions cover: at least one.
pub fn line_count(source: &str) -> (r: usize)
    ensures
        r == line_total(source@),
{
    let cs = crate::text::chars_of(source);
    let ranges = crate::text::line_ranges(cs.as_slice());
    if ranges.len() == 0 {
        1
    } else {
        ranges.len()
    }
}

/// The position in `rules` of the rule of each failed verdict.
pub open spec fn rule_position(rules: Seq<Rule>, id: Seq<char>) -> Option<int>
    decreases rules.len(),
{
    if rules.len() == 0 {
        None
    } else if rules[0].id@ == id {
        Some(0)
    } else {
        match rule_position(rules.drop_first(), id) {
            Some(i) => Some(i + 1),
            None => None,
        }
    }
}

/// Why the engine stopped.
#[derive(Debug, PartialEq, Eq)]
pub enum EngineError {
    /// A failed verdict names a rule that was not loaded.
    UnknownFailedRule { rule_id: String },
    /// `rule_sets[index]` enables `rule_id`, which no rule file defines.
    UnknownRule { index: usize, rule_id: String },
    /// The provider answered a different number of rules than asked.
    WrongRuleAnswerCount,
    /// The provider answered a different number of lines than asked.
    WrongLineAnswerCount,
}

fn find_rule(rules: &[Rule], id: &String) -> (r: Option<usize>)
    ensures
        r matches Some(i) ==> rule_position(rules@, id@) == Some(i as int) && i < rules@.len(),
        r is None ==> rule_position(rules@, id@) is None,
{
    let mut i: usize = 0;
    proof {
        assert(rules@.skip(0) == rules@);
    }
    while i < rules.len()
        invariant
            i <= rules@.len(),
            rule_position(rules@, id@) == match rule_position(rules@.skip(i as int), id@) {
                Some(j) => Some(j + i),
                None => None::<int>,
            },
        decreases rules@.len() - i,
    {
        proof {
            assert(rules@.skip(i as int)[0] == rules@[i as int]);
            assert(rules@.skip(i as int).drop_first() == rules@.skip(i + 1));
        }
        if rules[i].id == *id {
            return Some(i);
        }
        i += 1;
    }
    None
}

/// The rule positions of the failed verdicts, in order; fails on the first
/// verdict whose rule is unknown.
pub fn failed_rule_positions(failed: &Vec<crate::jev::RuleAnswer>, rules: &[Rule]) -> (r: Result<Vec<usize>, EngineError>)
    ensures
        r is Ok <==> forall|k: int| 0 <= k < failed@.len() ==> rule_position(rules@, #[trigger] failed@[k].rule_id@) is Some,
        r matches Ok(v) ==> v@.len() == failed@.len() && forall|k: int| 0 <= k < failed@.len() ==> rule_position(rules@, failed@[k].rule_id@) == Some(#[trigger] v@[k] as int),
        r matches Err(e) ==> exists|k: int| 0 <= k < failed@.len() && rule_position(rules@, #[trigger] failed@[k].rule_id@) is None
            && (e matches EngineError::UnknownFailedRule { rule_id } && rule_id@ == failed@[k].rule_id@),
{
    let mut v: Vec<usize> = Vec::new();
    let mut k: usize = 0;
    while k < failed.len()
        invariant
            k <= failed@.len(),
            v@.len() == k,
            forall|j: int| 0 <= j < k ==> rule_position(rules@, failed@[j].rule_id@) == Some(#[trigger] v@[j] as int),
            forall|j: int| 0 <= j < k ==> rule_position(rules@, #[trigger] failed@[j].rule_id@) is Some,
        decreases failed@.len() - k,
    {
        match find_rule(rules, &failed[k].rule_id) {
            Some(i) => v.push(i),
            None => {
                return Err(EngineError::UnknownFailedRule { rule_id: failed[k].rule_id.clone() });
            },
        }
        k += 1;
    }
    Ok(v)
}

/// The location questions, as (rule position, line) pairs: for each failed
/// rule in turn, every line from one to `lines`.
pub open spec fn line_entries_of(positions: Seq<usize>, lines: nat) -> Seq<(usize, usize)>
    decreases positions.len(),
{
    if positions.len() == 0 {
        Seq::empty()
    } else {
        line_entries_of(positions.drop_last(), lines) + Seq::new(lines, |l: int| (positions.last(), (l + 1) as usize))
    }
}

/// The location questions for the failed rules' positions.
pub fn line_entries(positions: &Vec<usize>, lines: usize) -> (r: Vec<(usize, usize)>)
    ensures
        r@ == line_entries_of(positions@, lines as nat),
{
    let mut r: Vec<(usize, usize)> = Vec::new();
    let mut k: usize = 0;
    while k < positions.len()
        invariant
            k <= positions@.len(),
            r@ == line_entries_of(positions@.take(k as int), lines as nat),
        decreases positions@.len() - k,
    {
        let p = positions[k];
        let ghost base = r@;
        let mut done: usize = 0;
        while done < lines
            invariant
                done <= lines,
                r@ == base + Seq::new(done as nat, |l: int| (p, (l + 1) as usize)),
            decreases lines - done,
        {
            r.push((p, done + 1));
            proof {
                assert(r@ =~= base + Seq::new((done + 1) as nat, |l: int| (p, (l + 1) as usize)));
            }
            done += 1;
        }
        proof {
            assert(positions@.take(k + 1).drop_last() == positions@.take(k as int));
            assert(positions@.take(k + 1).last() == p);
        }
        k += 1;
    }
    proof {
        assert(positions@.take(positions@.len() as int) == positions@);
    }
    r
}

} // verus!

verus! {

/// The rules to ask about for one file, and the settings they have there.
pub struct FileJob {
    pub path: String,
    /// Positions in the loaded rules, ascending.
    pub rule_positions: Vec<usize>,
    /// The file's rule settings, in id order.
    pub settings: Vec<(String, crate::files::RuleSetting)>,
}

/// The positions of the loaded rules whose ids `selected` holds, ascending.
pub open spec fn selected_positions(rules: Seq<Rule>, selected: Set<Seq<char>>) -> Seq<usize>
    decreases rules.len(),
{
    if rules.len() == 0 {
        Seq::empty()
    } else if selected.contains(rules.last().id@) {
        selected_positions(rules.drop_last(), selected).push((rules.len() - 1) as usize)
    } else {
        selected_positions(rules.drop_last(), selected)
    }
}

/// Plans the lint of one file: its rule settings and the loaded rules that
/// they select.
pub fn plan_job(matcher: &crate::files::FileMatcher, rules: &[Rule], path: String) -> (r: FileJob)
    requires
        matcher.wf(),
    ensures
        r.path@ == path@,
        crate::sorted_map::ascending(r.settings@, false),
        crate::sorted_map::as_map(r.settings@) == matcher.rules_map_for(path@),
        r.rule_positions@ == selected_positions(rules@, matcher.rules_map_for(path@).dom()),
{
    let settings = matcher.rules_for(path.as_str());
    let ghost selected = crate::sorted_map::as_map(settings@).dom();
    let mut positions: Vec<usize> = Vec::new();
    let mut k: usize = 0;
    while k < rules.len()
        invariant
            k <= rules@.len(),
            crate::sorted_map::ascending(settings@, false),
            selected == crate::sorted_map::as_map(settings@).dom(),
            positions@ == selected_positions(rules@.take(k as int), selected),
        decreases rules@.len() - k,
    {
        proof {
            assert(rules@.take(k + 1).drop_last() == rules@.take(k as int));
            assert(rules@.take(k + 1).last() == rules@[k as int]);
        }
        match crate::sorted_map::find(&settings, rules[k].id.as_str(), false) {
            Ok(p) => {
                proof {
                    crate::sorted_map::lemma_as_map_index(settings@, false, p as int);
                }
                positions.push(k);
            },
            Err(_) => {},
        }
        k += 1;
    }
    proof {
        assert(rules@.take(rules@.len() as int) == rules@);
    }
    FileJob { path, rule_positions: positions, settings }
}

/// Every rule that a rule set enables must be a loaded rule.
pub fn check_rule_references(matcher: &crate::files::FileMatcher, rules: &[Rule]) -> (r: Result<(), EngineError>)
    requires
        matcher.wf(),
    ensures
        r is Ok <==> forall|i: int| 0 <= i < matcher.sets().len() ==> crate::files::set_rules_known(#[trigger] matcher.sets()[i], rules@),
        r matches Err(e) ==> exists|i: int, id: Seq<char>| {
            &&& 0 <= i < matcher.sets().len()
            &&& #[trigger] matcher.sets()[i].rules_map().dom().contains(id)
            &&& crate::files::enabling(matcher.sets()[i].rules_map()[id])
            &&& !crate::files::known_rule(rules@, id)
            &&& forall|j: int| 0 <= j < i ==> crate::files::set_rules_known(#[trigger] matcher.sets()[j], rules@)
            &&& e matches EngineError::UnknownRule { index, rule_id } && index == i && rule_id@ == id
        },
{
    match matcher.unknown_rule(rules) {
        None => Ok(()),
        Some((index, rule_id)) => {
            proof {
                assert(matcher.sets()[index as int].rules_map().dom().contains(rule_id@));
            }
            Err(EngineError::UnknownRule { index, rule_id })
        },
    }
}

/// The decision after the precondition: a failed precondition stops the
/// run before any file is read or any request made, with the report of a
/// skipped run; otherwise the run goes on.
pub fn stop_on_precondition(rules: usize, outcome: Option<PreconditionFailure>) -> (r: Option<RunReport>)
    ensures
        outcome is None <==> r is None,
        outcome matches Some(f) ==> r matches Some(report) && {
            &&& report.files_checked == 0
            &&& report.rules == rules
            &&& report.api_requests == 0
            &&& report.cache_hits == 0
            &&& report.violations@.len() == 0
            &&& report.precondition_failure == Some(f)
        },
{
    match outcome {
        Some(failure) => Some(skipped_report(rules, failure)),
        None => None,
    }
}

/// The report of a run with nothing to lint: no files, rules, requests,
/// hits or violations, and no failure.
pub fn empty_report() -> (r: RunReport)
    ensures
        r.files_checked == 0,
        r.rules == 0,
        r.api_requests == 0,
        r.cache_hits == 0,
        r.violations@.len() == 0,
        r.precondition_failure is None,
{
    RunReport {
        files_checked: 0,
        rules: 0,
        api_requests: 0,
        cache_hits: 0,
        violations: Vec::new(),
        precondition_failure: None,
    }
}

/// The report of a run that a failed precondition stopped: nothing
/// checked, no requests, the failure recorded.
pub fn skipped_report(rules: usize, failure: PreconditionFailure) -> (r: RunReport)
    ensures
        r.files_checked == 0,
        r.rules == rules,
        r.api_requests == 0,
        r.cache_hits == 0,
        r.violations@.len() == 0,
        r.precondition_failure == Some(failure),
{
    RunReport {
        files_checked: 0,
        rules,
        api_requests: 0,
        cache_hits: 0,
        violations: Vec::new(),
        precondition_failure: Some(failure),
    }
}

/// The bounds of the chunks of at most `size` positions that `len` positions
/// split into, from `start` on.
pub open spec fn chunks_from(start: int, len: int, size: int) -> Seq<(usize, usize)>
    decreases len - start,
{
    if start >= len || size <= 0 {
        Seq::empty()
    } else {
        let end = if len - start > size {
            start + size
        } else {
            len
        };
        seq![(start as usize, end as usize)] + chunks_from(end, len, size)
    }
}

/// The chunks tile the positions in order: each holds at least one and at
/// most `size` of them, each starts where the last ended, the first starts
/// at `start` and the last ends at `len`.
pub proof fn lemma_chunks_tile(start: int, len: int, size: int)
    requires
        0 <= start <= len,
        size > 0,
        len <= usize::MAX,
    ensures
        ({
            let c = chunks_from(start, len, size);
            &&& forall|k: int| 0 <= k < c.len() ==> (#[trigger] c[k]).0 < c[k].1 <= c[k].0 + size
            &&& forall|k: int| 0 <= k < c.len() - 1 ==> (#[trigger] c[k]).1 == c[k + 1].0
            &&& c.len() == 0 <==> start == len
            &&& c.len() > 0 ==> c[0].0 == start && c.last().1 == len
        }),
    decreases len - start,
{
    let c = chunks_from(start, len, size);
    if start < len {
        let end = if len - start > size { start + size } else { len };
        let rest = chunks_from(end, len, size);
        lemma_chunks_tile(end, len, size);
        assert(c == seq![(start as usize, end as usize)] + rest);
        assert forall|k: int| 0 <= k < c.len() implies (#[trigger] c[k]).0 < c[k].1 <= c[k].0 + size by {
            if k > 0 {
                assert(c[k] == rest[k - 1]);
            }
        }
        assert forall|k: int| 0 <= k < c.len() - 1 implies (#[trigger] c[k]).1 == c[k + 1].0 by {
            if k > 0 {
                assert(c[k] == rest[k - 1]);
                assert(c[k + 1] == rest[k]);
            } else {
                assert(c[1] == rest[0]);
            }
        }
        if rest.len() > 0 {
            assert(c.last() == rest.last());
        }
    }
}

/// `slice.chunks(size)` as bounds.
pub fn chunk_bounds(len: usize, size: usize) -> (r: Vec<(usize, usize)>)
    requires
        size > 0,
    ensures
        r@ == chunks_from(0, len as int, size as int),
{
    let mut r: Vec<(usize, usize)> = Vec::new();
    let mut start: usize = 0;
    while start < len
        invariant
            start <= len,
            size > 0,
            r@ + chunks_from(start as int, len as int, size as int) == chunks_from(0, len as int, size as int),
        decreases len - start,
    {
        let end = if len - start > size {
            start + size
        } else {
            len
        };
        let ghost before = r@;
        r.push((start, end));
        proof {
            assert(chunks_from(start as int, len as int, size as int) == seq![(start, end)] + chunks_from(end as int, len as int, size as int));
            assert(r@ + chunks_from(end as int, len as int, size as int) =~= before + chunks_from(start as int, len as int, size as int));
        }
        start = end;
    }
    proof {
        assert(r@ + chunks_from(start as int, len as int, size as int) =~= r@);
    }
    r
}

/// A source with numbered lines: each line prefixed with its one-based
/// number and `: `, lines joined by `\n`; `1: ` for an empty source.
pub open spec fn numbered(source: Seq<char>) -> Seq<char> {
    if source.len() == 0 {
        seq!['1', ':', ' ']
    } else {
        crate::text::join(
            Seq::new(
                crate::text::lines_of(source).len(),
                |i: int| crate::text::decimal((i + 1) as nat) + seq![':', ' '] + crate::text::lines_of(source)[i],
            ),
            seq!['\n'],
        )
    }
}

/// The source with numbered lines that location questions quote.
pub fn numbered_source(source: &str) -> (r: String)
    ensures
        r@ == numbered(source@),
{
    let cs = crate::text::chars_of(source);
    if cs.len() == 0 {
        let mut r = String::new();
        crate::text::push_char(&mut r, '1');
        crate::text::push_char(&mut r, ':');
        crate::text::push_char(&mut r, ' ');
        return r;
    }
    let ranges = crate::text::line_ranges(cs.as_slice());
    let ghost lines = crate::text::lines_of(cs@);
    let ghost wanted = Seq::new(lines.len(), |i: int| crate::text::decimal((i + 1) as nat) + seq![':', ' '] + lines[i]);
    let mut parts: Vec<String> = Vec::new();
    let mut k: usize = 0;
    while k < ranges.len()
        invariant
            k <= ranges@.len(),
            crate::text::line_ranges_match(cs@, ranges@),
            lines == crate::text::lines_of(cs@),
            wanted == Seq::new(lines.len(), |i: int| crate::text::decimal((i + 1) as nat) + seq![':', ' '] + lines[i]),
            parts@.len() == k,
            forall|j: int| 0 <= j < k ==> #[trigger] parts@[j]@ == wanted[j],
        decreases ranges@.len() - k,
    {
        let (a, b) = ranges[k];
        proof {
            assert(crate::text::spells(cs@, ranges@[k as int], lines[k as int], cs@.len() as int));
        }
        let mut part = crate::text::decimal_string(k + 1);
        crate::text::push_char(&mut part, ':');
        crate::text::push_char(&mut part, ' ');
        crate::text::push_chars(&mut part, cs.as_slice(), a, b);
        proof {
            assert(cs@.subrange(a as int, b as int) == lines[k as int]);
            assert(part@ == wanted[k as int]);
        }
        let ghost before = parts@;
        parts.push(part);
        proof {
            assert forall|j: int| 0 <= j < k + 1 implies #[trigger] parts@[j]@ == wanted[j] by {
                if j < k {
                    assert(parts@[j] == before[j]);
                }
            }
        }
        k += 1;
    }
    proof {
        assert(crate::text::views(parts@) =~= wanted);
        reveal_strlit("\n");
        assert("\n"@ =~= seq!['\n']);
    }
    crate::text::join_strings(&parts, "\n")
}

} // verus!

verus! {

/// The provider answered as many questions as it was asked.
pub fn check_rule_answer_count(answered: usize, asked: usize) -> (r: Result<(), EngineError>)
    ensures
        r is Ok <==> answered == asked,
        r is Err ==> r == Err::<(), EngineError>(EngineError::WrongRuleAnswerCount),
{
    if answered == asked {
        Ok(())
    } else {
        Err(EngineError::WrongRuleAnswerCount)
    }
}

/// The provider answered as many location questions as it was asked.
pub fn check_line_answer_count(answered: usize, asked: usize) -> (r: Result<(), EngineError>)
    ensures
        r is Ok <==> answered == asked,
        r is Err ==> r == Err::<(), EngineError>(EngineError::WrongLineAnswerCount),
{
    if answered == asked {
        Ok(())
    } else {
        Err(EngineError::WrongLineAnswerCount)
    }
}

/// The violated lines that the locations give a rule: none when it has none.
pub open spec fn located_lines(locations: Map<Seq<char>, Vec<usize>>, id: Seq<char>) -> Seq<usize> {
    if locations.dom().contains(id) {
        locations[id]@
    } else {
        Seq::empty()
    }
}

/// The text that suppresses a reported line.
pub open spec fn ignore_marker() -> Seq<char> {
    seq!['j', 'e', 'v', 'l', 'i', 'n', 't', '-', 'i', 'g', 'n', 'o', 'r', 'e']
}

/// Line `line` (one-based) of the source holds the marker.
pub open spec fn suppressed(source: Seq<char>, line: usize) -> bool {
    1 <= line <= lines_of(source).len() && contains_text(lines_of(source)[line - 1], ignore_marker())
}

/// The located lines that are not suppressed, in order.
pub open spec fn visible_lines(source: Seq<char>, lines: Seq<usize>) -> Seq<usize> {
    lines.filter(|l: usize| !suppressed(source, l))
}

/// A failed verdict is reported unless every line located for it is
/// suppressed; one with no located line is reported for the whole file.
pub open spec fn shown_finding(source: Seq<char>, locations: Map<Seq<char>, Vec<usize>>, id: Seq<char>) -> bool {
    located_lines(locations, id).len() == 0 || visible_lines(source, located_lines(locations, id)).len() > 0
}

/// The positions of the failed verdicts that are reported, in order.
pub open spec fn shown_positions(
    source: Seq<char>,
    failed: Seq<crate::jev::RuleAnswer>,
    locations: Map<Seq<char>, Vec<usize>>,
) -> Seq<int> {
    Seq::new(failed.len(), |k: int| k).filter(|k: int| shown_finding(source, locations, failed[k].rule_id@))
}

/// `v` is the violation that the failed verdict `answer` on `path` gives.
pub open spec fn violation_of(
    path: Seq<char>,
    source: Seq<char>,
    answer: crate::jev::RuleAnswer,
    rule: Rule,
    settings: Map<Seq<char>, crate::files::RuleSetting>,
    locations: Map<Seq<char>, Vec<usize>>,
    v: Violation,
) -> bool {
    &&& v.path@ == path
    &&& v.rule_id@ == answer.rule_id@
    &&& v.rule_path@ == rule.source_path@
    &&& v.message@ == rule.message@
    &&& v.confidence == answer.confidence
    &&& v.severity == settings[answer.rule_id@].severity
    &&& v.regions@ == regions_of(visible_lines(source, located_lines(locations, answer.rule_id@)))
}

proof fn lemma_visible_lines(source: Seq<char>, lines: Seq<usize>)
    requires
        strictly_increasing(lines),
    ensures
        strictly_increasing(visible_lines(source, lines)),
        forall|n: usize| #[trigger] lists_line(visible_lines(source, lines), n as int) <==> (lists_line(lines, n as int) && !suppressed(source, n)),
    decreases lines.len(),
{
    reveal(Seq::filter);
    let v = visible_lines(source, lines);
    if lines.len() > 0 {
        let prefix = lines.drop_last();
        let last = lines.last();
        assert(strictly_increasing(prefix));
        lemma_visible_lines(source, prefix);
        let vp = visible_lines(source, prefix);
        assert(v == if !suppressed(source, last) { vp.push(last) } else { vp });
        lemma_lists_line_step(lines);
        if !suppressed(source, last) {
            assert(v.drop_last() == vp);
            lemma_lists_line_step(v);
            assert forall|i: int, j: int| 0 <= i < j < v.len() implies v[i] < v[j] by {
                if j == v.len() - 1 {
                    assert(vp[i] == v[i]);
                    assert(lists_line(vp, v[i] as int));
                    assert(lists_line(lines, v[i] as int));
                    let m = choose|m: int| 0 <= m < lines.len() && #[trigger] lines[m] as int == v[i] as int;
                    if m == lines.len() - 1 {
                        assert(!suppressed(source, v[i]));
                        assert(lists_line(prefix, v[i] as int));
                        let q = choose|q: int| 0 <= q < prefix.len() && #[trigger] prefix[q] as int == v[i] as int;
                        assert(lines[q] == prefix[q]);
                    } else {
                        assert(lines[m] < lines[lines.len() - 1]);
                    }
                } else {
                    assert(vp[i] == v[i] && vp[j] == v[j]);
                }
            }
        }
    } else {
        assert(v.len() == 0);
    }
}

/// Suppression hides exactly the marked lines: the regions of the visible
/// lines cover a line just when it was located and its source line does not
/// hold the marker.
pub proof fn lemma_suppressed_lines_hidden(source: Seq<char>, lines: Seq<usize>, n: usize)
    requires
        strictly_increasing(lines),
    ensures
        covered(regions_of(visible_lines(source, lines)), n as int) <==> (lists_line(lines, n as int) && !suppressed(source, n)),
{
    let v = visible_lines(source, lines);
    lemma_visible_lines(source, lines);
    lemma_regions_cover_exactly(v);
    assert(covered(regions_of(v), n as int) <==> lists_line(v, n as int));
    assert(lists_line(v, n as int) <==> (lists_line(lines, n as int) && !suppressed(source, n)));
}

/// Which lines of the source hold the suppression marker, by zero-based
/// index.
#[verifier::rlimit(40)]
pub fn marked_lines(source: &str) -> (r: Vec<bool>)
    ensures
        r@.len() == lines_of(source@).len(),
        forall|i: int| 0 <= i < r@.len() ==> r@[i] == contains_text(#[trigger] lines_of(source@)[i], ignore_marker()),
{
    let cs = chars_of(source);
    let ranges = line_ranges(cs.as_slice());
    let marker: Vec<char> = vec!['j', 'e', 'v', 'l', 'i', 'n', 't', '-', 'i', 'g', 'n', 'o', 'r', 'e'];
    proof {
        assert(marker@ =~= ignore_marker());
    }
    let mut r: Vec<bool> = Vec::new();
    let mut k: usize = 0;
    while k < ranges.len()
        invariant
            crate::text::line_ranges_match(cs@, ranges@),
            cs@ == source@,
            marker@ == ignore_marker(),
            k <= ranges@.len(),
            r@.len() == k,
            forall|i: int| 0 <= i < k ==> r@[i] == contains_text(#[trigger] lines_of(source@)[i], ignore_marker()),
        decreases ranges@.len() - k,
    {
        let (a, b) = ranges[k];
        proof {
            assert(crate::text::spells(cs@, ranges@[k as int], lines_of(cs@)[k as int], cs@.len() as int));
            assert(cs@.subrange(a as int, b as int) == lines_of(source@)[k as int]);
        }
        let found = contains_chars(cs.as_slice(), a, b, marker.as_slice());
        let ghost before = r@;
        r.push(found);
        proof {
            assert forall|i: int| 0 <= i < k + 1 implies r@[i] == contains_text(#[trigger] lines_of(source@)[i], ignore_marker()) by {
                if i < k {
                    assert(r@[i] == before[i]);
                }
            }
        }
        k += 1;
    }
    r
}

/// The lines that the marks leave visible, in order.
fn visible(lines: &Vec<usize>, marked: &Vec<bool>, source: Ghost<Seq<char>>) -> (r: Vec<usize>)
    requires
        marked@.len() == lines_of(source@).len(),
        forall|i: int| 0 <= i < marked@.len() ==> marked@[i] == contains_text(#[trigger] lines_of(source@)[i], ignore_marker()),
    ensures
        r@ == visible_lines(source@, lines@),
{
    let ghost pred = |l: usize| !suppressed(source@, l);
    let mut r: Vec<usize> = Vec::new();
    let mut i: usize = 0;
    while i < lines.len()
        invariant
            i <= lines@.len(),
            marked@.len() == lines_of(source@).len(),
            forall|j: int| 0 <= j < marked@.len() ==> marked@[j] == contains_text(#[trigger] lines_of(source@)[j], ignore_marker()),
            pred == (|l: usize| !suppressed(source@, l)),
            r@ == lines@.take(i as int).filter(pred),
        decreases lines@.len() - i,
    {
        let line = lines[i];
        proof {
            assert(lines@.take(i + 1) == lines@.take(i as int).push(line));
            lines@.take(i as int).lemma_filter_push(line, pred);
        }
        let hidden = line >= 1 && line <= marked.len() && marked[line - 1];
        proof {
            if line >= 1 && line <= marked@.len() {
                assert(marked@[line - 1] == contains_text(lines_of(source@)[line - 1], ignore_marker()));
            }
            assert(hidden == suppressed(source@, line));
        }
        if !hidden {
            r.push(line);
        }
        i += 1;
    }
    proof {
        assert(lines@.take(lines@.len() as int) == lines@);
    }
    r
}

/// The violations of one file: one per failed verdict that is reported
/// (see [`shown_finding`]), in order, each with its rule's file and
/// message, the file's severity for the rule, and the regions of its
/// violated lines that the source does not suppress.
pub fn build_violations(
    path: &String,
    source: &str,
    failed: &Vec<crate::jev::RuleAnswer>,
    positions: &Vec<usize>,
    rules: &[Rule],
    settings: &Vec<(String, crate::files::RuleSetting)>,
    locations: &Vec<(String, Vec<usize>)>,
) -> (r: Vec<Violation>)
    requires
        positions@.len() == failed@.len(),
        forall|k: int| 0 <= k < positions@.len() ==> #[trigger] positions@[k] < rules@.len()
            && rules@[positions@[k] as int].id@ == failed@[k].rule_id@,
        crate::sorted_map::ascending(settings@, false),
        crate::sorted_map::ascending(locations@, false),
        forall|k: int| 0 <= k < failed@.len() ==> crate::sorted_map::as_map(settings@).dom().contains(#[trigger] failed@[k].rule_id@),
    ensures
        r@.len() == shown_positions(source@, failed@, crate::sorted_map::as_map(locations@)).len(),
        forall|j: int| 0 <= j < r@.len() ==> {
            let k = shown_positions(source@, failed@, crate::sorted_map::as_map(locations@))[j];
            violation_of(
                path@,
                source@,
                failed@[k],
                rules@[positions@[k] as int],
                crate::sorted_map::as_map(settings@),
                crate::sorted_map::as_map(locations@),
                #[trigger] r@[j],
            )
        },
{
    let ghost locs = crate::sorted_map::as_map(locations@);
    let ghost shown = |k: int| shown_finding(source@, locs, failed@[k].rule_id@);
    let ghost ids = |k: int| k;
    let marked = marked_lines(source);
    let mut r: Vec<Violation> = Vec::new();
    let mut k: usize = 0;
    proof {
        assert(Seq::new(0, ids).filter(shown) =~= Seq::<int>::empty());
    }
    while k < failed.len()
        invariant
            k <= failed@.len(),
            positions@.len() == failed@.len(),
            forall|j: int| 0 <= j < positions@.len() ==> #[trigger] positions@[j] < rules@.len()
                && rules@[positions@[j] as int].id@ == failed@[j].rule_id@,
            crate::sorted_map::ascending(settings@, false),
            crate::sorted_map::ascending(locations@, false),
            forall|j: int| 0 <= j < failed@.len() ==> crate::sorted_map::as_map(settings@).dom().contains(#[trigger] failed@[j].rule_id@),
            locs == crate::sorted_map::as_map(locations@),
            shown == (|k: int| shown_finding(source@, locs, failed@[k].rule_id@)),
            ids == (|k: int| k),
            marked@.len() == lines_of(source@).len(),
            forall|i: int| 0 <= i < marked@.len() ==> marked@[i] == contains_text(#[trigger] lines_of(source@)[i], ignore_marker()),
            r@.len() == Seq::new(k as nat, ids).filter(shown).len(),
            forall|j: int| 0 <= j < r@.len() ==> {
                let m = Seq::new(k as nat, ids).filter(shown)[j];
                violation_of(
                    path@,
                    source@,
                    failed@[m],
                    rules@[positions@[m] as int],
                    crate::sorted_map::as_map(settings@),
                    locs,
                    #[trigger] r@[j],
                )
            },
        decreases failed@.len() - k,
    {
        let answer = &failed[k];
        let rule = &rules[positions[k]];
        let ghost before = Seq::new(k as nat, ids).filter(shown);
        proof {
            assert(crate::sorted_map::as_map(settings@).dom().contains(failed@[k as int].rule_id@));
            assert(Seq::new((k + 1) as nat, ids) =~= Seq::new(k as nat, ids).push(k as int));
            Seq::new(k as nat, ids).lemma_filter_push(k as int, shown);
        }
        let severity = match crate::sorted_map::find(settings, answer.rule_id.as_str(), false) {
            Ok(p) => {
                proof {
                    crate::sorted_map::lemma_as_map_index(settings@, false, p as int);
                }
                settings[p].1.severity
            },
            Err(_) => {
                proof {
                    assert(false);
                }
                crate::rule::Severity::Error
            },
        };
        let (located, shown_lines) = match crate::sorted_map::find(locations, answer.rule_id.as_str(), false) {
            Ok(p) => {
                proof {
                    crate::sorted_map::lemma_as_map_index(locations@, false, p as int);
                }
                (locations[p].1.len(), visible(&locations[p].1, &marked, Ghost(source@)))
            },
            Err(_) => {
                let none: Vec<usize> = Vec::new();
                proof {
                    assert(none@.filter(|l: usize| !suppressed(source@, l)) =~= Seq::<usize>::empty());
                }
                (0, none)
            },
        };
        if located == 0 || shown_lines.len() > 0 {
            r.push(Violation {
                path: path.clone(),
                rule_id: answer.rule_id.clone(),
                rule_path: rule.source_path.clone(),
                message: rule.message.clone(),
                confidence: answer.confidence,
                severity,
                regions: regions(shown_lines.as_slice()),
            });
            proof {
                assert(Seq::new((k + 1) as nat, ids).filter(shown) == before.push(k as int));
            }
        } else {
            proof {
                assert(Seq::new((k + 1) as nat, ids).filter(shown) == before);
            }
        }
        k += 1;
    }
    proof {
        assert(Seq::new(failed@.len(), ids) =~= Seq::new(failed@.len(), |k: int| k));
    }
    r
}

} // verus!
