//! Watch mode: the diagnostics kept between runs, the snapshots that report
//! them, and the decisions about which runs a file change calls for.
use vstd::prelude::*;
use crate::engine::{LineRegion, RunReport, Violation};
use crate::precondition::PreconditionFailure;
use crate::rule::Severity;
use crate::config::Config;
use crate::files::{config_globs_build, config_lintable, discover, FileMatcher, GlobError};
use crate::jev::opt_text;
use crate::order::{path_lt, sorted_by_key, str_lt};
use crate::path::{components, join, join_path, path_starts_with, same_path, starts_with, strip_prefix, stripped};
use crate::sorted_map::{self, ascending, as_map};
use crate::text::{chars_of, clone_strings, push_char, views};

verus! {

/// The version of the watch protocol.
pub const PROTOCOL_VERSION: u8 = 1;

/// Where watch mode writes its messages.
pub struct WatchOptions {
    /// A file replaced with each snapshot.
    pub snapshot_file: Option<String>,
    /// Whether messages go to standard output.
    pub stdout: bool,
}

/// An inclusive range of one-based lines.
#[derive(Clone, Copy, Debug, PartialEq, Eq)]
pub struct Region {
    pub start_line: usize,
    pub end_line: usize,
}

/// A reported violation, as the protocol carries it.
#[derive(Debug)]
pub struct Diagnostic {
    pub path: String,
    pub rule_id: String,
    pub rule_path: String,
    pub message: String,
    pub severity: Severity,
    /// A binary64 pattern.
    pub confidence: u64,
    pub regions: Vec<Region>,
}

/// The content of a diagnostic.
pub struct DiagnosticView {
    pub path: Seq<char>,
    pub rule_id: Seq<char>,
    pub rule_path: Seq<char>,
    pub message: Seq<char>,
    pub severity: Severity,
    pub confidence: u64,
    pub regions: Seq<(usize, usize)>,
}

impl View for Diagnostic {
    type V = DiagnosticView;

    open spec fn view(&self) -> DiagnosticView {
        DiagnosticView {
            path: self.path@,
            rule_id: self.rule_id@,
            rule_path: self.rule_path@,
            message: self.message@,
            severity: self.severity,
            confidence: self.confidence,
            regions: self.regions@.map_values(|r: Region| (r.start_line, r.end_line)),
        }
    }
}

/// The diagnostic that a violation becomes.
pub open spec fn violation_view(v: Violation) -> DiagnosticView {
    DiagnosticView {
        path: v.path@,
        rule_id: v.rule_id@,
        rule_path: v.rule_path@,
        message: v.message@,
        severity: v.severity,
        confidence: v.confidence,
        regions: v.regions@.map_values(|r: LineRegion| (r.start, r.end)),
    }
}

/// The diagnostic for a violation.
pub fn diagnostic_from(v: Violation) -> (d: Diagnostic)
    ensures
        d@ == violation_view(v),
{
    let Violation { path, rule_id, rule_path, message, confidence, severity, regions: lines } = v;
    let mut regions: Vec<Region> = Vec::new();
    let mut i: usize = 0;
    while i < lines.len()
        invariant
            i <= lines@.len(),
            regions@.map_values(|r: Region| (r.start_line, r.end_line)) == lines@.take(i as int).map_values(
                |r: LineRegion| (r.start, r.end),
            ),
        decreases lines@.len() - i,
    {
        let ghost before = regions@;
        regions.push(Region { start_line: lines[i].start, end_line: lines[i].end });
        proof {
            assert(regions@ == before.push(Region { start_line: lines@[i as int].start, end_line: lines@[i as int].end }));
            assert(lines@.take(i + 1) == lines@.take(i as int).push(lines@[i as int]));
            before.lemma_push_map_commute(|r: Region| (r.start_line, r.end_line), Region { start_line: lines@[i as int].start, end_line: lines@[i as int].end });
            lines@.take(i as int).lemma_push_map_commute(|r: LineRegion| (r.start, r.end), lines@[i as int]);
            assert(regions@.map_values(|r: Region| (r.start_line, r.end_line)) =~= lines@.take(i + 1).map_values(
                |r: LineRegion| (r.start, r.end),
            ));
        }
        i += 1;
    }
    proof {
        assert(lines@.take(lines@.len() as int) == lines@);
    }
    Diagnostic { path, rule_id, rule_path, message, severity, confidence, regions }
}

/// The diagnostics of the latest runs, by file.
pub struct WatchState {
    diagnostics: Vec<(String, Vec<Diagnostic>)>,
}

/// The views of a list of diagnostics.
pub open spec fn views_of(ds: Seq<Diagnostic>) -> Seq<DiagnosticView> {
    ds.map_values(|d: Diagnostic| d@)
}

/// The diagnostics of the entries, file after file.
pub open spec fn flattened(entries: Seq<(String, Vec<Diagnostic>)>) -> Seq<DiagnosticView>
    decreases entries.len(),
{
    if entries.len() == 0 {
        Seq::empty()
    } else {
        flattened(entries.drop_last()) + views_of(entries.last().1@)
    }
}

proof fn lemma_flattened_in_order(d: Seq<(String, Vec<Diagnostic>)>, m: Map<Seq<char>, Seq<DiagnosticView>>, k: int)
    requires
        0 <= k <= d.len(),
        forall|i: int| 0 <= i < d.len() ==> #[trigger] m[d[i].0@] == views_of(d[i].1@),
    ensures
        flattened(d.take(k)) == diagnostics_in_order(m, d.map_values(|e: (String, Vec<Diagnostic>)| e.0@).take(k)),
    decreases k,
{
    let ps = d.map_values(|e: (String, Vec<Diagnostic>)| e.0@);
    if k > 0 {
        lemma_flattened_in_order(d, m, k - 1);
        assert(d.take(k).drop_last() == d.take(k - 1));
        assert(d.take(k).last() == d[k - 1]);
        assert(ps.take(k).drop_last() == ps.take(k - 1));
        assert(ps.take(k).last() == d[k - 1].0@);
    } else {
        assert(d.take(0) == Seq::<(String, Vec<Diagnostic>)>::empty());
        assert(ps.take(0) == Seq::<Seq<char>>::empty());
    }
}

/// The diagnostics of the given files, file after file.
pub open spec fn diagnostics_in_order(m: Map<Seq<char>, Seq<DiagnosticView>>, paths: Seq<Seq<char>>) -> Seq<DiagnosticView>
    decreases paths.len(),
{
    if paths.len() == 0 {
        Seq::empty()
    } else {
        diagnostics_in_order(m, paths.drop_last()) + m[paths.last()]
    }
}

impl View for WatchState {
    type V = Map<Seq<char>, Seq<DiagnosticView>>;

    /// The diagnostics of each file.
    closed spec fn view(&self) -> Map<Seq<char>, Seq<DiagnosticView>> {
        as_map(self.diagnostics@).map_values(|ds: Vec<Diagnostic>| views_of(ds@))
    }
}

impl WatchState {
    /// Files are held in path order.
    pub closed spec fn wf(&self) -> bool {
        ascending(self.diagnostics@, true)
    }

    /// All diagnostics, file by file in path order.
    pub closed spec fn all_views(&self) -> Seq<DiagnosticView> {
        flattened(self.diagnostics@)
    }

    /// The files with diagnostics, in path order.
    pub closed spec fn spec_paths(&self) -> Seq<Seq<char>> {
        self.diagnostics@.map_values(|e: (String, Vec<Diagnostic>)| e.0@)
    }

    /// All diagnostics are those of each file in turn, files in path order.
    pub proof fn lemma_all_views(&self)
        requires
            self.wf(),
        ensures
            self.all_views() == diagnostics_in_order(self@, self.spec_paths()),
    {
        let d = self.diagnostics@;
        let ps = self.spec_paths();
        let m = self@;
        assert forall|i: int| 0 <= i < d.len() implies #[trigger] m[d[i].0@] == views_of(d[i].1@) by {
            sorted_map::lemma_as_map_index(d, true, i);
        }
        lemma_flattened_in_order(d, m, d.len() as int);
        assert(d.take(d.len() as int) == d);
        assert(ps.take(ps.len() as int) == ps);
    }

    /// The paths are the files of the map, ascending.
    pub proof fn lemma_paths(&self)
        requires
            self.wf(),
        ensures
            forall|i: int, j: int| 0 <= i < j < self.spec_paths().len() ==> crate::order::path_lt(#[trigger] self.spec_paths()[i], #[trigger] self.spec_paths()[j]),
            forall|p: Seq<char>| self@.dom().contains(p) <==> self.spec_paths().contains(p),
    {
        assert forall|p: Seq<char>| self@.dom().contains(p) <==> self.spec_paths().contains(p) by {
            if self@.dom().contains(p) {
                let j = choose|j: int| 0 <= j < self.diagnostics@.len() && #[trigger] self.diagnostics@[j].0@ == p;
                assert(self.spec_paths()[j] == p);
            }
            if self.spec_paths().contains(p) {
                let j = choose|j: int| 0 <= j < self.spec_paths().len() && self.spec_paths()[j] == p;
                assert(self.diagnostics@[j].0@ == p);
            }
        }
    }

    /// No diagnostics.
    pub fn new() -> (r: Self)
        ensures
            r.wf(),
            r@ == Map::<Seq<char>, Seq<DiagnosticView>>::empty(),
            r.all_views() == Seq::<DiagnosticView>::empty(),
    {
        let r = WatchState { diagnostics: Vec::new() };
        proof {
            assert(r@ =~= Map::<Seq<char>, Seq<DiagnosticView>>::empty());
        }
        r
    }

    /// The files with diagnostics, in path order.
    pub fn paths(&self) -> (r: Vec<String>)
        ensures
            r@.map_values(|p: String| p@) == self.spec_paths(),
    {
        let mut r: Vec<String> = Vec::new();
        let mut i: usize = 0;
        while i < self.diagnostics.len()
            invariant
                i <= self.diagnostics@.len(),
                r@.map_values(|p: String| p@) == self.spec_paths().take(i as int),
            decreases self.diagnostics@.len() - i,
        {
            let ghost before = r@;
            r.push(self.diagnostics[i].0.clone());
            proof {
                before.lemma_push_map_commute(|p: String| p@, r@[i as int]);
                assert(self.spec_paths().take(i + 1) == self.spec_paths().take(i as int).push(self.diagnostics@[i as int].0@));
                assert(r@.map_values(|p: String| p@) =~= self.spec_paths().take(i + 1));
            }
            i += 1;
        }
        proof {
            assert(self.spec_paths().take(i as int) == self.spec_paths());
        }
        r
    }

    /// Whether the file has diagnostics.
    pub fn contains(&self, path: &str) -> (r: bool)
        requires
            self.wf(),
        ensures
            r == self@.dom().contains(path@),
    {
        match sorted_map::find(&self.diagnostics, path, true) {
            Ok(i) => {
                proof {
                    sorted_map::lemma_as_map_index(self.diagnostics@, true, i as int);
                }
                true
            },
            Err(_) => false,
        }
    }
}

} // verus!

verus! {

/// A copy of a diagnostic.
pub fn clone_diagnostic(d: &Diagnostic) -> (r: Diagnostic)
    ensures
        r@ == d@,
{
    let mut regions: Vec<Region> = Vec::new();
    let mut i: usize = 0;
    while i < d.regions.len()
        invariant
            i <= d.regions@.len(),
            regions@ == d.regions@.take(i as int),
        decreases d.regions@.len() - i,
    {
        regions.push(d.regions[i]);
        proof {
            assert(d.regions@.take(i + 1) == d.regions@.take(i as int).push(d.regions@[i as int]));
        }
        i += 1;
    }
    proof {
        assert(d.regions@.take(d.regions@.len() as int) == d.regions@);
    }
    Diagnostic {
        path: d.path.clone(),
        rule_id: d.rule_id.clone(),
        rule_path: d.rule_path.clone(),
        message: d.message.clone(),
        severity: d.severity,
        confidence: d.confidence,
        regions,
    }
}

impl WatchState {
    /// Every diagnostic, file by file in path order.
    pub fn all_diagnostics(&self) -> (r: Vec<Diagnostic>)
        ensures
            views_of(r@) == self.all_views(),
    {
        let mut r: Vec<Diagnostic> = Vec::new();
        let mut i: usize = 0;
        while i < self.diagnostics.len()
            invariant
                i <= self.diagnostics@.len(),
                views_of(r@) == flattened(self.diagnostics@.take(i as int)),
            decreases self.diagnostics@.len() - i,
        {
            let ds = &self.diagnostics[i].1;
            let ghost base = r@;
            let mut k: usize = 0;
            while k < ds.len()
                invariant
                    k <= ds@.len(),
                    views_of(r@) == views_of(base) + views_of(ds@.take(k as int)),
                decreases ds@.len() - k,
            {
                let ghost before = r@;
                r.push(clone_diagnostic(&ds[k]));
                proof {
                    before.lemma_push_map_commute(|d: Diagnostic| d@, r@[before.len() as int]);
                    ds@.take(k as int).lemma_push_map_commute(|d: Diagnostic| d@, ds@[k as int]);
                    assert(ds@.take(k + 1) == ds@.take(k as int).push(ds@[k as int]));
                    assert(views_of(r@) =~= views_of(base) + views_of(ds@.take(k + 1)));
                }
                k += 1;
            }
            proof {
                assert(ds@.take(ds@.len() as int) == ds@);
                assert(self.diagnostics@.take(i + 1).drop_last() == self.diagnostics@.take(i as int));
                assert(self.diagnostics@.take(i + 1).last() == self.diagnostics@[i as int]);
            }
            i += 1;
        }
        proof {
            assert(self.diagnostics@.take(self.diagnostics@.len() as int) == self.diagnostics@);
        }
        r
    }
}

/// The diagnostics that the violations give a file, in order.
pub open spec fn violations_at(violations: Seq<Violation>, path: Seq<char>) -> Seq<DiagnosticView>
    decreases violations.len(),
{
    if violations.len() == 0 {
        Seq::empty()
    } else if violations.last().path@ == path {
        violations_at(violations.drop_last(), path).push(violation_view(violations.last()))
    } else {
        violations_at(violations.drop_last(), path)
    }
}

/// The new diagnostics of a file are the views of the run's violations in
/// that file, in the order the run reported them.
pub proof fn lemma_violations_at_filter(violations: Seq<Violation>, path: Seq<char>)
    ensures
        violations_at(violations, path) == violations.filter(|v: Violation| v.path@ == path).map_values(
            |v: Violation| violation_view(v),
        ),
    decreases violations.len(),
{
    reveal(Seq::filter);
    if violations.len() > 0 {
        lemma_violations_at_filter(violations.drop_last(), path);
        let f = violations.drop_last().filter(|v: Violation| v.path@ == path);
        assert(f.push(violations.last()).map_values(|v: Violation| violation_view(v)) =~= f.map_values(
            |v: Violation| violation_view(v),
        ).push(violation_view(violations.last())));
    }
}

/// The file's diagnostics survive the run: it had some and was not updated.
pub open spec fn kept(old: Map<Seq<char>, Seq<DiagnosticView>>, updated: Seq<Seq<char>>, path: Seq<char>) -> bool {
    old.dom().contains(path) && !updated.contains(path)
}

/// The diagnostics after a run: those of files not updated are kept, those
/// of updated files are dropped, and each violation of the run is added to
/// its file's list.
pub open spec fn refreshed(
    old: Map<Seq<char>, Seq<DiagnosticView>>,
    updated: Seq<Seq<char>>,
    violations: Seq<Violation>,
) -> Map<Seq<char>, Seq<DiagnosticView>> {
    Map::new(
        |p: Seq<char>| kept(old, updated, p) || violations_at(violations, p).len() > 0,
        |p: Seq<char>|
            (if kept(old, updated, p) {
                old[p]
            } else {
                Seq::empty()
            }) + violations_at(violations, p),
    )
}

/// How a snapshot sums up the run.
#[derive(Clone, Copy, Debug, PartialEq, Eq, Structural)]
pub enum Status {
    Clean,
    Violations,
    PreconditionFailed,
    Error,
}

/// The counts of a run, with the diagnostics then current.
#[derive(Clone, Copy, Debug, PartialEq, Eq)]
pub struct Stats {
    pub files_checked: usize,
    pub rules: usize,
    pub api_requests: usize,
    pub cache_hits: usize,
    pub violations: usize,
    pub errors: usize,
    pub warnings: usize,
}

/// A failed precondition as the protocol reports it.
#[derive(Debug)]
pub struct PreconditionStatus {
    pub command: Vec<String>,
    pub exit_code: Option<i32>,
    pub output: String,
    pub skipped_files: Vec<String>,
}

/// The protocol's report of a failed precondition.
pub fn precondition_status(failure: PreconditionFailure) -> (r: PreconditionStatus)
    ensures
        r.command == failure.command,
        r.exit_code == failure.status,
        r.output == failure.output,
        r.skipped_files == failure.files,
{
    PreconditionStatus {
        command: failure.command,
        exit_code: failure.status,
        output: failure.output,
        skipped_files: failure.files,
    }
}

/// The complete, current diagnostics after a run.
#[derive(Debug)]
pub struct Snapshot {
    pub schema_version: u8,
    pub sequence: u64,
    pub root: String,
    pub line_base: u8,
    pub status: Status,
    pub full_update: bool,
    pub updated_paths: Vec<String>,
    pub diagnostics: Vec<Diagnostic>,
    pub stats: Option<Stats>,
    pub precondition: Option<PreconditionStatus>,
    pub error: Option<String>,
}

/// The number of error diagnostics.
pub open spec fn error_count(ds: Seq<DiagnosticView>) -> nat
    decreases ds.len(),
{
    if ds.len() == 0 {
        0
    } else {
        error_count(ds.drop_last()) + if ds.last().severity == Severity::Error {
            1nat
        } else {
            0nat
        }
    }
}

proof fn lemma_error_count_bounded(ds: Seq<DiagnosticView>)
    ensures
        error_count(ds) <= ds.len(),
    decreases ds.len(),
{
    if ds.len() > 0 {
        lemma_error_count_bounded(ds.drop_last());
    }
}

/// The error diagnostics among `ds`, in order.
pub open spec fn errors_of(ds: Seq<DiagnosticView>) -> Seq<DiagnosticView> {
    ds.filter(|d: DiagnosticView| d.severity == Severity::Error)
}

/// The warning diagnostics among `ds`, in order.
pub open spec fn warnings_of(ds: Seq<DiagnosticView>) -> Seq<DiagnosticView> {
    ds.filter(|d: DiagnosticView| d.severity != Severity::Error)
}

/// No diagnostics hold no errors, and one diagnostic holds one error
/// exactly when it is an error.
pub proof fn lemma_error_count_single(d: DiagnosticView)
    ensures
        error_count(Seq::<DiagnosticView>::empty()) == 0,
        error_count(seq![d]) == if d.severity == Severity::Error { 1nat } else { 0nat },
{
    assert(seq![d].drop_last() =~= Seq::<DiagnosticView>::empty());
    assert(error_count(seq![d].drop_last()) == 0);
    assert(seq![d].last() == d);
}

/// The errors of two lists of diagnostics put together are the errors of
/// the one and of the other.
pub proof fn lemma_error_count_append(a: Seq<DiagnosticView>, b: Seq<DiagnosticView>)
    ensures
        error_count(a + b) == error_count(a) + error_count(b),
    decreases b.len(),
{
    if b.len() == 0 {
        assert(a + b =~= a);
    } else {
        lemma_error_count_append(a, b.drop_last());
        assert((a + b).drop_last() =~= a + b.drop_last());
        assert((a + b).last() == b.last());
    }
}

/// The error count is the number of diagnostics whose severity is `Error`,
/// and the rest are the warnings.
pub proof fn lemma_error_count_counts(ds: Seq<DiagnosticView>)
    ensures
        error_count(ds) == errors_of(ds).len(),
        errors_of(ds).len() + warnings_of(ds).len() == ds.len(),
    decreases ds.len(),
{
    reveal(Seq::filter);
    if ds.len() > 0 {
        lemma_error_count_counts(ds.drop_last());
        assert(ds.drop_last() == ds.drop_last());
    }
}

fn count_errors(ds: &Vec<Diagnostic>) -> (r: usize)
    ensures
        r == error_count(views_of(ds@)),
        r <= ds@.len(),
{
    let mut n: usize = 0;
    let mut i: usize = 0;
    while i < ds.len()
        invariant
            i <= ds@.len(),
            n == error_count(views_of(ds@).take(i as int)),
            n <= i,
        decreases ds@.len() - i,
    {
        proof {
            assert(views_of(ds@).take(i + 1).drop_last() == views_of(ds@).take(i as int));
            assert(views_of(ds@).take(i + 1).last() == ds@[i as int]@);
        }
        if ds[i].severity == Severity::Error {
            n += 1;
        }
        i += 1;
    }
    proof {
        assert(views_of(ds@).take(ds@.len() as int) == views_of(ds@));
    }
    n
}

/// What a snapshot says of the diagnostics it carries.
pub open spec fn snapshot_counts(snapshot: Snapshot, report: RunReport) -> bool {
    let ds = views_of(snapshot.diagnostics@);
    snapshot.stats == Some(
        Stats {
            files_checked: report.files_checked,
            rules: report.rules,
            api_requests: report.api_requests,
            cache_hits: report.cache_hits,
            violations: ds.len() as usize,
            errors: error_count(ds) as usize,
            warnings: (ds.len() - error_count(ds)) as usize,
        },
    )
}

/// The counts of a snapshot add up: its errors and warnings together are
/// its violations, the diagnostics it carries.
pub proof fn lemma_stats_add_up(snapshot: Snapshot, report: RunReport)
    requires
        snapshot_counts(snapshot, report),
        snapshot.diagnostics@.len() <= usize::MAX,
    ensures
        snapshot.stats matches Some(stats) && stats.errors + stats.warnings == stats.violations
            && stats.violations == snapshot.diagnostics@.len(),
{
    lemma_error_count_bounded(views_of(snapshot.diagnostics@));
}

impl Snapshot {
    /// The snapshot after a run. Unless its precondition failed, the
    /// diagnostics of the updated files are replaced by the run's
    /// violations and all other diagnostics are kept; the snapshot carries
    /// every diagnostic then current.
    pub fn from_report(
        root: &str,
        sequence: u64,
        report: RunReport,
        updated_paths: Vec<String>,
        full_update: bool,
        state: &mut WatchState,
    ) -> (r: Snapshot)
        requires
            old(state).wf(),
        ensures
            final(state).wf(),
            report.precondition_failure is Some ==> final(state)@ == old(state)@ && r.updated_paths@.len() == 0 && !r.full_update
                && r.status == Status::PreconditionFailed,
            report.precondition_failure is None ==> {
                &&& final(state)@ == refreshed(old(state)@, updated_paths@.map_values(|p: String| p@), report.violations@)
                &&& r.updated_paths@ == updated_paths@
                &&& r.full_update == full_update
                &&& r.status == if r.diagnostics@.len() == 0 { Status::Clean } else { Status::Violations }
            },
            views_of(r.diagnostics@) == final(state).all_views(),
            snapshot_counts(r, report),
            r.stats matches Some(st) ==> st.errors == errors_of(views_of(r.diagnostics@)).len()
                && st.warnings == warnings_of(views_of(r.diagnostics@)).len(),
            r.schema_version == PROTOCOL_VERSION,
            r.sequence == sequence,
            r.root@ == root@,
            r.line_base == 1,
            r.error is None,
            (r.precondition is Some) == (report.precondition_failure is Some),
            report.precondition_failure matches Some(f) ==> r.precondition matches Some(p) && p.command == f.command
                && p.exit_code == f.status && p.output == f.output && p.skipped_files == f.files,
    {
        let RunReport { files_checked, rules, api_requests, cache_hits, violations, precondition_failure } = report;
        let precondition_failed = precondition_failure.is_some();
        let (updated, full) = if precondition_failed {
            (Vec::new(), false)
        } else {
            refresh(state, &updated_paths, violations);
            (updated_paths, full_update)
        };
        let diagnostics = state.all_diagnostics();
        let errors = count_errors(&diagnostics);
        proof {
            lemma_error_count_counts(views_of(diagnostics@));
        }
        let warnings = diagnostics.len() - errors;
        let status = if precondition_failed {
            Status::PreconditionFailed
        } else if diagnostics.len() == 0 {
            Status::Clean
        } else {
            Status::Violations
        };
        let stats = Stats {
            files_checked,
            rules,
            api_requests,
            cache_hits,
            violations: diagnostics.len(),
            errors,
            warnings,
        };
        let precondition = match precondition_failure {
            Some(f) => Some(precondition_status(f)),
            None => None,
        };
        Snapshot {
            schema_version: PROTOCOL_VERSION,
            sequence,
            root: root.to_owned(),
            line_base: 1,
            status,
            full_update: full,
            updated_paths: updated,
            diagnostics,
            stats: Some(stats),
            precondition,
            error: None,
        }
    }

    /// The snapshot of a run that could not complete: no diagnostics, so
    /// that stale ones are cleared, no counts, and the error. The kept state
    /// is left as it is.
    pub fn error(root: &str, sequence: u64, error: String, _state: &WatchState) -> (r: Snapshot)
        ensures
            r.schema_version == PROTOCOL_VERSION,
            r.sequence == sequence,
            r.root@ == root@,
            r.line_base == 1,
            r.status == Status::Error,
            !r.full_update,
            r.updated_paths@.len() == 0,
            r.diagnostics@.len() == 0,
            r.stats is None,
            r.precondition is None,
            r.error == Some(error),
    {
        Snapshot {
            schema_version: PROTOCOL_VERSION,
            sequence,
            root: root.to_owned(),
            line_base: 1,
            status: Status::Error,
            full_update: false,
            updated_paths: Vec::new(),
            diagnostics: Vec::new(),
            stats: None,
            precondition: None,
            error: Some(error),
        }
    }
}

proof fn lemma_views_insert(m: Map<Seq<char>, Vec<Diagnostic>>, k: Seq<char>, v: Vec<Diagnostic>)
    ensures
        m.insert(k, v).map_values(|ds: Vec<Diagnostic>| views_of(ds@)) == m.map_values(|ds: Vec<Diagnostic>| views_of(ds@)).insert(k, views_of(v@)),
{
    assert(m.insert(k, v).map_values(|ds: Vec<Diagnostic>| views_of(ds@)) =~= m.map_values(|ds: Vec<Diagnostic>| views_of(ds@)).insert(k, views_of(v@)));
}

proof fn lemma_views_remove(m: Map<Seq<char>, Vec<Diagnostic>>, k: Seq<char>)
    ensures
        m.remove(k).map_values(|ds: Vec<Diagnostic>| views_of(ds@)) == m.map_values(|ds: Vec<Diagnostic>| views_of(ds@)).remove(k),
{
    assert(m.remove(k).map_values(|ds: Vec<Diagnostic>| views_of(ds@)) =~= m.map_values(|ds: Vec<Diagnostic>| views_of(ds@)).remove(k));
}

/// The diagnostics left once the first updated paths are dropped.
pub open spec fn without(old: Map<Seq<char>, Seq<DiagnosticView>>, dropped: Seq<Seq<char>>) -> Map<Seq<char>, Seq<DiagnosticView>> {
    Map::new(|p: Seq<char>| old.dom().contains(p) && !dropped.contains(p), |p: Seq<char>| old[p])
}

proof fn lemma_violations_at_push(vs: Seq<Violation>, x: Violation, p: Seq<char>)
    ensures
        violations_at(vs.push(x), p) == if p == x.path@ {
            violations_at(vs, p).push(violation_view(x))
        } else {
            violations_at(vs, p)
        },
{
    assert(vs.push(x).drop_last() == vs);
}

/// One more violation adds its diagnostic at the end of its file's list.
proof fn lemma_refreshed_step(
    old: Map<Seq<char>, Seq<DiagnosticView>>,
    updated: Seq<Seq<char>>,
    vs: Seq<Violation>,
    x: Violation,
)
    ensures
        refreshed(old, updated, vs.push(x)) == refreshed(old, updated, vs).insert(
            x.path@,
            (if refreshed(old, updated, vs).dom().contains(x.path@) {
                refreshed(old, updated, vs)[x.path@]
            } else {
                Seq::<DiagnosticView>::empty()
            }).push(violation_view(x)),
        ),
{
    let before = refreshed(old, updated, vs);
    let after = refreshed(old, updated, vs.push(x));
    let q = x.path@;
    assert forall|p: Seq<char>| #[trigger] violations_at(vs.push(x), p) == if p == q {
        violations_at(vs, p).push(violation_view(x))
    } else {
        violations_at(vs, p)
    } by {
        lemma_violations_at_push(vs, x, p);
    }
    if !before.dom().contains(q) {
        assert(violations_at(vs, q) =~= Seq::<DiagnosticView>::empty());
    }
    assert(after =~= before.insert(
        q,
        (if before.dom().contains(q) { before[q] } else { Seq::<DiagnosticView>::empty() }).push(violation_view(x)),
    ));
}

/// Drops the diagnostics of the updated files and adds the run's.
fn refresh(state: &mut WatchState, updated_paths: &Vec<String>, violations: Vec<Violation>)
    requires
        old(state).wf(),
    ensures
        final(state).wf(),
        final(state)@ == refreshed(old(state)@, updated_paths@.map_values(|p: String| p@), violations@),
{
    let ghost old_map = state@;
    let ghost ups = updated_paths@.map_values(|p: String| p@);
    let mut k: usize = 0;
    proof {
        assert(state@ =~= without(old_map, ups.take(0)));
    }
    while k < updated_paths.len()
        invariant
            k <= updated_paths@.len(),
            ups == updated_paths@.map_values(|p: String| p@),
            state.wf(),
            state@ == without(old_map, ups.take(k as int)),
        decreases updated_paths@.len() - k,
    {
        let ghost before = as_map(state.diagnostics@);
        let _ = sorted_map::remove(&mut state.diagnostics, updated_paths[k].as_str(), true);
        proof {
            let key = ups[k as int];
            assert(updated_paths@[k as int]@ == key);
            lemma_views_remove(before, key);
            assert(state@ == before.map_values(|ds: Vec<Diagnostic>| views_of(ds@)).remove(key));
            let t0 = ups.take(k as int);
            let t1 = ups.take(k + 1);
            assert(t1 == t0.push(key));
            assert forall|p: Seq<char>| #[trigger] t1.contains(p) <==> (t0.contains(p) || p == key) by {
                if t1.contains(p) {
                    let j = choose|j: int| 0 <= j < t1.len() && t1[j] == p;
                    if j < k {
                        assert(t0[j] == p);
                    }
                }
                if t0.contains(p) {
                    let j = choose|j: int| 0 <= j < t0.len() && t0[j] == p;
                    assert(t1[j] == p);
                }
                if p == key {
                    assert(t1[k as int] == p);
                }
            }
            assert(state@ =~= without(old_map, t1));
        }
        k += 1;
    }
    proof {
        assert(ups.take(ups.len() as int) == ups);
    }
    let ghost base = state@;
    let ghost all = violations@;
    let mut rest: Vec<Violation> = Vec::new();
    let mut vs = violations;
    while vs.len() > 0
        invariant
            all == vs@ + rest@.reverse(),
        decreases vs.len(),
    {
        let ghost b = vs@;
        let x = vs.pop().unwrap();
        let ghost rb = rest@;
        rest.push(x);
        proof {
            assert(b == vs@.push(x));
            assert(rest@.reverse() =~= seq![x] + rb.reverse());
            assert(all =~= vs@ + rest@.reverse());
        }
    }
    proof {
        assert(all =~= rest@.reverse());
        assert(state@ =~= refreshed(old_map, ups, all.take(0)));
    }
    let mut n: usize = 0;
    let bound = rest.len();
    while rest.len() > 0
        invariant
            n <= all.len(),
            all.len() == bound,
            all == all.take(n as int) + rest@.reverse(),
            rest@.len() == all.len() - n,
            base == without(old_map, ups),
            state.wf(),
            state@ == refreshed(old_map, ups, all.take(n as int)),
        decreases rest.len(),
    {
        let ghost b = rest@;
        let x = rest.pop().unwrap();
        proof {
            assert(b == rest@.push(x));
            assert(b.reverse()[0] == x);
            assert(all[n as int] == (all.take(n as int) + b.reverse())[n as int]);
            assert(all.take(n + 1).drop_last() == all.take(n as int));
            assert(all.take(n + 1).last() == x);
            assert(all =~= all.take(n + 1) + rest@.reverse()) by {
                assert forall|j: int| 0 <= j < all.len() implies all[j] == (all.take(n + 1) + rest@.reverse())[j] by {
                    if j > n {
                        assert((all.take(n as int) + b.reverse())[j] == b.reverse()[j - n]);
                        assert(b.reverse()[j - n] == rest@.reverse()[j - n - 1]);
                    }
                }
            }
        }
        let path = x.path.clone();
        let ghost q = path@;
        let ghost prev_state = state@;
        let ghost prev_map = as_map(state.diagnostics@);
        let existing = sorted_map::remove(&mut state.diagnostics, path.as_str(), true);
        let mut list = match existing {
            Some(l) => l,
            None => Vec::new(),
        };
        let ghost list_before = list@;
        proof {
            if prev_map.dom().contains(q) {
                assert(prev_state[q] == views_of(list_before));
            } else {
                assert(views_of(list_before) =~= Seq::<DiagnosticView>::empty());
                assert(!prev_state.dom().contains(q));
            }
        }
        let d = diagnostic_from(x);
        list.push(d);
        let ghost mid_map = as_map(state.diagnostics@);
        sorted_map::insert(&mut state.diagnostics, path, list, true);
        proof {
            list_before.lemma_push_map_commute(|d: Diagnostic| d@, list@[list_before.len() as int]);
            assert(views_of(list@) == views_of(list_before).push(violation_view(x)));
            lemma_views_insert(mid_map, q, list);
            lemma_views_remove(prev_map, q);
            let t = all.take(n + 1);
            let t0 = all.take(n as int);
            assert(t == t0.push(x));
            lemma_refreshed_step(old_map, ups, t0, x);
            let earlier = if prev_state.dom().contains(q) { prev_state[q] } else { Seq::<DiagnosticView>::empty() };
            assert(views_of(list_before) == earlier);
            assert(state@ =~= prev_state.insert(q, earlier.push(violation_view(x))));
        }
        n += 1;
    }
    proof {
        assert(all.take(all.len() as int) == all);
    }
}

} // verus!

verus! {

/// A change to the path calls for linting every file again: it is the
/// configuration file or the shared system prompt, or it lies in the rules
/// directory.
pub open spec fn linter_input(root: Seq<char>, config_path: Seq<char>, config: Config, p: Seq<char>) -> bool {
    ||| components(p) == components(config_path)
    ||| components(p) == components(join_path(root, config.system_prompt@))
    ||| path_starts_with(p, join_path(root, config.rules_dir@))
}

/// Whether a changed path is a linter input (see [`linter_input`]).
fn is_linter_input(rules: &str, prompt: &str, config_path: &str, p: &str) -> (r: bool)
    ensures
        r == (components(p@) == components(config_path@) || components(p@) == components(prompt@)
            || path_starts_with(p@, rules@)),
{
    same_path(p, config_path) || same_path(p, prompt) || starts_with(p, rules)
}

/// Whether the changes call for linting every file again: some changed
/// path is a linter input.
pub fn requires_full_run(root: &str, config_path: &str, config: &Config, paths: &Vec<String>) -> (r: bool)
    ensures
        r == exists|i: int| 0 <= i < paths@.len() && linter_input(root@, config_path@, *config, #[trigger] paths@[i]@),
{
    let rules = join(root, config.rules_dir.as_str());
    let prompt = join(root, config.system_prompt.as_str());
    let mut i: usize = 0;
    while i < paths.len()
        invariant
            i <= paths@.len(),
            rules@ == join_path(root@, config.rules_dir@),
            prompt@ == join_path(root@, config.system_prompt@),
            forall|j: int| 0 <= j < i ==> !linter_input(root@, config_path@, *config, #[trigger] paths@[j]@),
        decreases paths@.len() - i,
    {
        if is_linter_input(rules.as_str(), prompt.as_str(), config_path, paths[i].as_str()) {
            return true;
        }
        i += 1;
    }
    false
}

/// A change that watch mode makes itself: the snapshot file, or anything
/// in the cache directory.
pub open spec fn self_made(root: Seq<char>, config: Config, snapshot_file: Option<Seq<char>>, p: Seq<char>) -> bool {
    ||| (snapshot_file matches Some(f) && components(p) == components(f))
    ||| path_starts_with(p, join_path(root, config.cache_dir@))
}

/// A change that calls for a run: not one watch mode made itself, and
/// either a linter input or a file under the root that the configuration
/// lints.
pub open spec fn relevant_change(
    root: Seq<char>,
    config_path: Seq<char>,
    config: Config,
    snapshot_file: Option<Seq<char>>,
    p: Seq<char>,
) -> bool {
    &&& !self_made(root, config, snapshot_file, p)
    &&& {
        ||| linter_input(root, config_path, config, p)
        ||| (stripped(p, root) matches Some(rel) && config_lintable(config, rel))
    }
}

/// Whether any of the changed paths calls for a run; fails with the text
/// of the first glob error of the configuration.
pub fn is_relevant(
    root: &str,
    config_path: &str,
    config: &Config,
    options: &WatchOptions,
    paths: &Vec<String>,
) -> (r: Result<bool, GlobError>)
    ensures
        r is Ok <==> config_globs_build(*config),
        r matches Ok(b) ==> b == exists|i: int|
            0 <= i < paths@.len() && relevant_change(
                root@,
                config_path@,
                *config,
                opt_text(options.snapshot_file),
                #[trigger] paths@[i]@,
            ),
{
    let matcher = FileMatcher::new(config)?;
    let rules = join(root, config.rules_dir.as_str());
    let prompt = join(root, config.system_prompt.as_str());
    let cache = join(root, config.cache_dir.as_str());
    let ghost snapshot = opt_text(options.snapshot_file);
    let mut i: usize = 0;
    while i < paths.len()
        invariant
            i <= paths@.len(),
            matcher.built_from(*config),
            config_globs_build(*config),
            snapshot == opt_text(options.snapshot_file),
            rules@ == join_path(root@, config.rules_dir@),
            prompt@ == join_path(root@, config.system_prompt@),
            cache@ == join_path(root@, config.cache_dir@),
            forall|j: int|
                0 <= j < i ==> !relevant_change(root@, config_path@, *config, snapshot, #[trigger] paths@[j]@),
        decreases paths@.len() - i,
    {
        let p = paths[i].as_str();
        let own_snapshot = match &options.snapshot_file {
            Some(f) => same_path(p, f.as_str()),
            None => false,
        };
        if !own_snapshot && !starts_with(p, cache.as_str()) {
            if is_linter_input(rules.as_str(), prompt.as_str(), config_path, p) {
                return Ok(true);
            }
            match strip_prefix(p, root) {
                Some(relative) => {
                    proof {
                        matcher.lemma_built_from(*config, relative@);
                    }
                    if matcher.is_lintable(relative.as_str()) {
                        return Ok(true);
                    }
                },
                None => {},
            }
        }
        i += 1;
    }
    Ok(false)
}

/// `c` with `\` read as `/`.
pub open spec fn forward_slashes(s: Seq<char>) -> Seq<char> {
    s.map_values(|c: char| if c == '\\' { '/' } else { c })
}

/// How a changed path is shown: relative to the root when it lies under
/// it, with forward slashes.
pub open spec fn shown_path(root: Seq<char>, p: Seq<char>) -> Seq<char> {
    forward_slashes(
        match stripped(p, root) {
            Some(rel) => rel,
            None => p,
        },
    )
}

fn with_forward_slashes(s: &str) -> (r: String)
    ensures
        r@ == forward_slashes(s@),
{
    let cs = chars_of(s);
    let mut r = String::new();
    let mut i: usize = 0;
    while i < cs.len()
        invariant
            i <= cs@.len(),
            cs@ == s@,
            r@ == forward_slashes(cs@.take(i as int)),
        decreases cs@.len() - i,
    {
        push_char(&mut r, if cs[i] == '\\' { '/' } else { cs[i] });
        proof {
            assert(forward_slashes(cs@.take(i + 1)) =~= forward_slashes(cs@.take(i as int)).push(
                if cs@[i as int] == '\\' { '/' } else { cs@[i as int] },
            ));
        }
        i += 1;
    }
    proof {
        assert(cs@.take(cs@.len() as int) == cs@);
    }
    r
}

/// The changed paths as a run announces them: each shown as
/// [`shown_path`] says, each once, in ascending order.
pub fn relative_paths(root: &str, paths: &Vec<String>) -> (r: Vec<String>)
    ensures
        forall|i: int, j: int| 0 <= i < j < r@.len() ==> str_lt(#[trigger] r@[i]@, #[trigger] r@[j]@),
        forall|s: Seq<char>|
            views(r@).contains(s) <==> exists|i: int| 0 <= i < paths@.len() && shown_path(root@, #[trigger] paths@[i]@) == s,
{
    let mut set: Vec<(String, ())> = Vec::new();
    let mut i: usize = 0;
    while i < paths.len()
        invariant
            i <= paths@.len(),
            ascending(set@, false),
            forall|s: Seq<char>|
                #[trigger] as_map(set@).dom().contains(s) <==> exists|j: int|
                    0 <= j < i && shown_path(root@, #[trigger] paths@[j]@) == s,
        decreases paths@.len() - i,
    {
        let p = paths[i].as_str();
        let base = match strip_prefix(p, root) {
            Some(rel) => rel,
            None => p.to_string(),
        };
        let shown = with_forward_slashes(base.as_str());
        let ghost before = as_map(set@);
        sorted_map::insert(&mut set, shown, (), false);
        proof {
            assert forall|s: Seq<char>| #[trigger] as_map(set@).dom().contains(s) <==> exists|j: int|
                0 <= j < i + 1 && shown_path(root@, #[trigger] paths@[j]@) == s by {
                if s == shown_path(root@, paths@[i as int]@) {
                    assert(shown_path(root@, paths@[i as int]@) == s);
                }
                if exists|j: int| 0 <= j < i + 1 && shown_path(root@, #[trigger] paths@[j]@) == s {
                    let j = choose|j: int| 0 <= j < i + 1 && shown_path(root@, #[trigger] paths@[j]@) == s;
                    if j < i {
                        assert(before.dom().contains(s));
                    }
                }
            }
        }
        i += 1;
    }
    let r = sorted_map::keys(&set);
    proof {
        assert forall|s: Seq<char>| views(r@).contains(s) <==> exists|i: int|
            0 <= i < paths@.len() && shown_path(root@, #[trigger] paths@[i]@) == s by {
            sorted_map::lemma_keys_dom(set@, s);
        }
        let ks = set@.map_values(|e: (String, ())| e.0@);
        assert(views(r@).len() == r@.len());
        assert(ks.len() == set@.len());
        assert forall|i: int, j: int| 0 <= i < j < r@.len() implies str_lt(#[trigger] r@[i]@, #[trigger] r@[j]@) by {
            assert(views(r@)[i] == r@[i]@);
            assert(views(r@)[j] == r@[j]@);
            assert(ks[i] == set@[i].0@);
            assert(ks[j] == set@[j].0@);
        }
    }
    r
}

} // verus!

verus! {

/// What a run lints, and the files whose diagnostics its snapshot replaces.
pub struct RunSelection {
    /// Project-relative paths to lint.
    pub lint_paths: Vec<String>,
    /// Project-relative paths whose diagnostics the run replaces.
    pub updated_paths: Vec<String>,
    /// Whether the run replaces every file's diagnostics.
    pub full_update: bool,
}

/// Each path once, ascending in path order.
pub open spec fn path_sorted(s: Seq<String>) -> bool {
    forall|i: int, j: int| 0 <= i < j < s.len() ==> path_lt(#[trigger] s[i]@, #[trigger] s[j]@)
}

/// The change to `p` updates the project-relative file `s`: `p` lies under
/// the root at `s`, and `s` is linted or has diagnostics.
pub open spec fn updates_file(
    root: Seq<char>,
    config: Config,
    with_diagnostics: Set<Seq<char>>,
    p: Seq<char>,
    s: Seq<char>,
) -> bool {
    stripped(p, root) == Some(s) && (config_lintable(config, s) || with_diagnostics.contains(s))
}

/// Some change leaves a regular file at the project-relative path `s`.
pub open spec fn changed_to_file(root: Seq<char>, changes: Seq<(String, bool)>, s: Seq<char>) -> bool {
    exists|i: int| 0 <= i < changes.len() && changes[i].1 && stripped(#[trigger] changes[i].0@, root) == Some(s)
}

/// The keys of an ascending set, which ascend.
proof fn lemma_set_keys(set: Seq<(String, ())>, r: Seq<String>, p: bool)
    requires
        ascending(set, p),
        views(r) == set.map_values(|e: (String, ())| e.0@),
    ensures
        forall|i: int, j: int| 0 <= i < j < r.len() ==> crate::order::lex_lt(#[trigger] r[i]@, #[trigger] r[j]@, p),
        forall|s: Seq<char>| #[trigger] views(r).contains(s) <==> as_map(set).dom().contains(s),
{
    let ks = set.map_values(|e: (String, ())| e.0@);
    assert(views(r).len() == r.len());
    assert forall|i: int, j: int| 0 <= i < j < r.len() implies crate::order::lex_lt(#[trigger] r[i]@, #[trigger] r[j]@, p) by {
        assert(views(r)[i] == r[i]@);
        assert(views(r)[j] == r[j]@);
        assert(ks[i] == set[i].0@);
        assert(ks[j] == set[j].0@);
    }
    assert forall|s: Seq<char>| #[trigger] views(r).contains(s) <==> as_map(set).dom().contains(s) by {
        sorted_map::lemma_keys_dom(set, s);
    }
}

impl RunSelection {
    /// Lint every file the configuration selects, and replace the
    /// diagnostics of those files and of every file that had any. `files`
    /// are the project's files, as for [`crate::files::discover`].
    pub fn full(config: &Config, files: Vec<String>, state: &WatchState) -> (r: Result<RunSelection, GlobError>)
        requires
            state.wf(),
        ensures
            r is Ok <==> config_globs_build(*config),
            r matches Ok(selection) ==> {
                &&& sorted_by_key(selection.lint_paths@, true)
                &&& selection.lint_paths@.to_multiset() == files@.filter(
                    |p: String| config_lintable(*config, p@),
                ).to_multiset()
                &&& path_sorted(selection.updated_paths@)
                &&& forall|s: Seq<char>|
                    #[trigger] views(selection.updated_paths@).contains(s) <==> (views(selection.lint_paths@).contains(s)
                        || state@.dom().contains(s))
                &&& selection.full_update
            },
    {
        let lint_paths = discover(config, files)?;
        let known = state.paths();
        proof {
            state.lemma_paths();
        }
        let mut set: Vec<(String, ())> = Vec::new();
        let mut i: usize = 0;
        while i < lint_paths.len()
            invariant
                i <= lint_paths@.len(),
                ascending(set@, true),
                forall|s: Seq<char>| #[trigger] as_map(set@).dom().contains(s) <==> views(lint_paths@).take(i as int).contains(s),
            decreases lint_paths@.len() - i,
        {
            let ghost before = as_map(set@);
            sorted_map::insert(&mut set, lint_paths[i].clone(), (), true);
            proof {
                let t = views(lint_paths@).take(i as int);
                assert(views(lint_paths@).take(i + 1) == t.push(lint_paths@[i as int]@));
                assert forall|s: Seq<char>| #[trigger] as_map(set@).dom().contains(s) <==> views(lint_paths@).take(i + 1).contains(s) by {
                    let t1 = views(lint_paths@).take(i + 1);
                    if t1.contains(s) {
                        let j = choose|j: int| 0 <= j < t1.len() && t1[j] == s;
                        if j < i {
                            assert(t[j] == s);
                        }
                    }
                    if t.contains(s) {
                        let j = choose|j: int| 0 <= j < t.len() && t[j] == s;
                        assert(t1[j] == s);
                    }
                    if s == lint_paths@[i as int]@ {
                        assert(t1[i as int] == s);
                    }
                }
            }
            i += 1;
        }
        proof {
            assert(views(lint_paths@).take(lint_paths@.len() as int) == views(lint_paths@));
            assert(views(known@).take(0) =~= Seq::<Seq<char>>::empty());
        }
        let mut k: usize = 0;
        while k < known.len()
            invariant
                k <= known@.len(),
                views(known@) == state.spec_paths(),
                ascending(set@, true),
                forall|s: Seq<char>|
                    #[trigger] as_map(set@).dom().contains(s) <==> (views(lint_paths@).contains(s) || views(known@).take(k as int).contains(s)),
            decreases known@.len() - k,
        {
            sorted_map::insert(&mut set, known[k].clone(), (), true);
            proof {
                let t = views(known@).take(k as int);
                let t1 = views(known@).take(k + 1);
                assert(t1 == t.push(known@[k as int]@));
                assert forall|s: Seq<char>| #[trigger] t1.contains(s) <==> (t.contains(s) || s == known@[k as int]@) by {
                    if t1.contains(s) {
                        let j = choose|j: int| 0 <= j < t1.len() && t1[j] == s;
                        if j < k {
                            assert(t[j] == s);
                        }
                    }
                    if t.contains(s) {
                        let j = choose|j: int| 0 <= j < t.len() && t[j] == s;
                        assert(t1[j] == s);
                    }
                    if s == known@[k as int]@ {
                        assert(t1[k as int] == s);
                    }
                }
            }
            k += 1;
        }
        proof {
            assert(views(lint_paths@).take(lint_paths@.len() as int) == views(lint_paths@));
            assert(views(known@).take(known@.len() as int) == views(known@));
        }
        let updated_paths = sorted_map::keys(&set);
        proof {
            lemma_set_keys(set@, updated_paths@, true);
        }
        Ok(RunSelection { lint_paths, updated_paths, full_update: true })
    }

    /// After a change to some files: replace the diagnostics of each
    /// changed file under the root that is linted or had diagnostics, and
    /// lint those of them that are linted and are now regular files. Each
    /// change is a path and whether a regular file is now there.
    pub fn changed(
        root: &str,
        config: &Config,
        changes: &Vec<(String, bool)>,
        state: &WatchState,
    ) -> (r: Result<RunSelection, GlobError>)
        requires
            state.wf(),
        ensures
            r is Ok <==> config_globs_build(*config),
            r matches Ok(selection) ==> {
                &&& path_sorted(selection.updated_paths@)
                &&& forall|s: Seq<char>|
                    #[trigger] views(selection.updated_paths@).contains(s) <==> exists|i: int|
                        0 <= i < changes@.len() && updates_file(root@, *config, state@.dom(), #[trigger] changes@[i].0@, s)
                &&& views(selection.lint_paths@) == views(selection.updated_paths@).filter(
                    |s: Seq<char>| config_lintable(*config, s) && changed_to_file(root@, changes@, s),
                )
                &&& !selection.full_update
            },
    {
        let matcher = FileMatcher::new(config)?;
        let mut set: Vec<(String, ())> = Vec::new();
        let mut i: usize = 0;
        while i < changes.len()
            invariant
                i <= changes@.len(),
                matcher.built_from(*config),
                state.wf(),
                ascending(set@, true),
                forall|s: Seq<char>|
                    #[trigger] as_map(set@).dom().contains(s) <==> exists|j: int|
                        0 <= j < i && updates_file(root@, *config, state@.dom(), #[trigger] changes@[j].0@, s),
            decreases changes@.len() - i,
        {
            match strip_prefix(changes[i].0.as_str(), root) {
                Some(relative) => {
                    proof {
                        matcher.lemma_built_from(*config, relative@);
                    }
                    if matcher.is_lintable(relative.as_str()) || state.contains(relative.as_str()) {
                        let ghost before = as_map(set@);
                        let ghost q = relative@;
                        sorted_map::insert(&mut set, relative, (), true);
                        proof {
                            assert forall|s: Seq<char>| #[trigger] as_map(set@).dom().contains(s) <==> exists|j: int|
                                0 <= j < i + 1 && updates_file(root@, *config, state@.dom(), #[trigger] changes@[j].0@, s) by {
                                if s == q {
                                    assert(updates_file(root@, *config, state@.dom(), changes@[i as int].0@, s));
                                }
                                if exists|j: int| 0 <= j < i + 1 && updates_file(root@, *config, state@.dom(), #[trigger] changes@[j].0@, s) {
                                    let j = choose|j: int| 0 <= j < i + 1 && updates_file(root@, *config, state@.dom(), #[trigger] changes@[j].0@, s);
                                    if j < i {
                                        assert(before.dom().contains(s));
                                    }
                                }
                            }
                        }
                    } else {
                        proof {
                            assert forall|s: Seq<char>| #[trigger] as_map(set@).dom().contains(s) <==> exists|j: int|
                                0 <= j < i + 1 && updates_file(root@, *config, state@.dom(), #[trigger] changes@[j].0@, s) by {
                                if exists|j: int| 0 <= j < i + 1 && updates_file(root@, *config, state@.dom(), #[trigger] changes@[j].0@, s) {
                                    let j = choose|j: int| 0 <= j < i + 1 && updates_file(root@, *config, state@.dom(), #[trigger] changes@[j].0@, s);
                                    assert(j < i);
                                }
                            }
                        }
                    }
                },
                None => {
                    proof {
                        assert forall|s: Seq<char>| #[trigger] as_map(set@).dom().contains(s) <==> exists|j: int|
                            0 <= j < i + 1 && updates_file(root@, *config, state@.dom(), #[trigger] changes@[j].0@, s) by {
                            if exists|j: int| 0 <= j < i + 1 && updates_file(root@, *config, state@.dom(), #[trigger] changes@[j].0@, s) {
                                let j = choose|j: int| 0 <= j < i + 1 && updates_file(root@, *config, state@.dom(), #[trigger] changes@[j].0@, s);
                                assert(j < i);
                            }
                        }
                    }
                },
            }
            i += 1;
        }
        let updated_paths = sorted_map::keys(&set);
        proof {
            lemma_set_keys(set@, updated_paths@, true);
        }
        let ghost pred = |s: Seq<char>| config_lintable(*config, s) && changed_to_file(root@, changes@, s);
        let mut lint_paths: Vec<String> = Vec::new();
        let mut k: usize = 0;
        while k < updated_paths.len()
            invariant
                k <= updated_paths@.len(),
                matcher.built_from(*config),
                pred == (|s: Seq<char>| config_lintable(*config, s) && changed_to_file(root@, changes@, s)),
                views(lint_paths@) == views(updated_paths@).take(k as int).filter(pred),
            decreases updated_paths@.len() - k,
        {
            let candidate = updated_paths[k].as_str();
            proof {
                assert(views(updated_paths@).take(k + 1) == views(updated_paths@).take(k as int).push(candidate@));
                views(updated_paths@).take(k as int).lemma_filter_push(candidate@, pred);
                matcher.lemma_built_from(*config, candidate@);
            }
            let wanted = updated_paths[k].clone();
            let mut file = false;
            let mut j: usize = 0;
            while j < changes.len()
                invariant
                    j <= changes@.len(),
                    wanted@ == candidate@,
                    file == exists|m: int| 0 <= m < j && changes@[m].1 && stripped(#[trigger] changes@[m].0@, root@) == Some(candidate@),
                decreases changes@.len() - j,
            {
                if changes[j].1 {
                    match strip_prefix(changes[j].0.as_str(), root) {
                        Some(relative) => {
                            if relative == wanted {
                                file = true;
                            }
                        },
                        None => {},
                    }
                }
                proof {
                    if file {
                        if !(exists|m: int| 0 <= m < j && changes@[m].1 && stripped(#[trigger] changes@[m].0@, root@) == Some(candidate@)) {
                            assert(changes@[j as int].1 && stripped(changes@[j as int].0@, root@) == Some(candidate@));
                        }
                    }
                }
                j += 1;
            }
            if matcher.is_lintable(candidate) && file {
                let ghost before = lint_paths@;
                lint_paths.push(updated_paths[k].clone());
                proof {
                    crate::text::lemma_views_push(before, lint_paths@[before.len() as int]);
                }
            }
            k += 1;
        }
        proof {
            assert(views(updated_paths@).take(updated_paths@.len() as int) == views(updated_paths@));
        }
        Ok(RunSelection { lint_paths, updated_paths, full_update: false })
    }
}

} // verus!

verus! {

/// What started a run.
#[derive(Clone, Copy, Debug, PartialEq, Eq, Structural)]
pub enum Trigger {
    /// The first run of a watch session.
    Initial,
    /// A change on disk.
    Filesystem,
}

/// The message that announces a run.
#[derive(Debug)]
pub struct Started {
    pub schema_version: u8,
    pub sequence: u64,
    pub trigger: Trigger,
    /// Project-relative, informational.
    pub changed_paths: Vec<String>,
}

/// The announcement of a run; there is one only when messages go to
/// standard output.
pub fn emit_started(sequence: u64, trigger: Trigger, changed_paths: &Vec<String>, options: &WatchOptions) -> (r: Option<
    Started,
>)
    ensures
        r is Some <==> options.stdout,
        r matches Some(m) ==> {
            &&& m.schema_version == PROTOCOL_VERSION
            &&& m.sequence == sequence
            &&& m.trigger == trigger
            &&& m.changed_paths@ == changed_paths@
        },
{
    if options.stdout {
        Some(
            Started {
                schema_version: PROTOCOL_VERSION,
                sequence,
                trigger,
                changed_paths: clone_strings(changed_paths),
            },
        )
    } else {
        None
    }
}

/// The state a watch session keeps between batches of changes.
pub struct WatchLoop {
    /// The sequence number of the latest run; the initial run has 1.
    pub sequence: u64,
}

impl WatchLoop {
    /// A session whose initial run has the sequence number 1.
    pub fn new() -> (r: WatchLoop)
        ensures
            r.sequence == 1,
    {
        WatchLoop { sequence: 1 }
    }
}

/// What a batch of changes calls for.
#[derive(Debug)]
pub enum BatchStep {
    /// Nothing relevant changed: no run, and the sequence number stays.
    Skip,
    /// A run with the next sequence number: its announcement, when
    /// messages go to standard output, and whether it lints every file.
    Run { started: Option<Started>, full: bool },
}

/// The decision on a batch of changed paths, against the configuration in
/// force. A batch with no relevant change is skipped and leaves the
/// sequence number alone; any other advances it by one, announces a
/// filesystem run with the changed paths as [`relative_paths`] shows them,
/// and lints every file again when a linter input changed. Fails, leaving
/// the session as it was, when a glob of the configuration does not build.
pub fn on_batch(
    lp: &mut WatchLoop,
    root: &str,
    config_path: &str,
    config: &Config,
    options: &WatchOptions,
    paths: &Vec<String>,
) -> (r: Result<BatchStep, GlobError>)
    requires
        old(lp).sequence < u64::MAX,
    ensures
        r is Ok <==> config_globs_build(*config),
        r is Err ==> final(lp).sequence == old(lp).sequence,
        r matches Ok(BatchStep::Skip) ==> {
            &&& final(lp).sequence == old(lp).sequence
            &&& !exists|i: int|
                0 <= i < paths@.len() && relevant_change(
                    root@,
                    config_path@,
                    *config,
                    opt_text(options.snapshot_file),
                    #[trigger] paths@[i]@,
                )
        },
        r matches Ok(BatchStep::Run { started, full }) ==> {
            &&& final(lp).sequence == old(lp).sequence + 1
            &&& exists|i: int|
                0 <= i < paths@.len() && relevant_change(
                    root@,
                    config_path@,
                    *config,
                    opt_text(options.snapshot_file),
                    #[trigger] paths@[i]@,
                )
            &&& full == exists|i: int|
                0 <= i < paths@.len() && linter_input(root@, config_path@, *config, #[trigger] paths@[i]@)
            &&& (started is Some <==> options.stdout)
            &&& started matches Some(s) ==> {
                &&& s.schema_version == PROTOCOL_VERSION
                &&& s.sequence == final(lp).sequence
                &&& s.trigger == Trigger::Filesystem
                &&& forall|i: int, j: int|
                    0 <= i < j < s.changed_paths@.len() ==> str_lt(
                        #[trigger] s.changed_paths@[i]@,
                        #[trigger] s.changed_paths@[j]@,
                    )
                &&& forall|t: Seq<char>|
                    views(s.changed_paths@).contains(t) <==> exists|i: int|
                        0 <= i < paths@.len() && shown_path(root@, #[trigger] paths@[i]@) == t
            }
        },
{
    let relevant = is_relevant(root, config_path, config, options, paths)?;
    if !relevant {
        return Ok(BatchStep::Skip);
    }
    lp.sequence = lp.sequence + 1;
    let changed = relative_paths(root, paths);
    let started = emit_started(lp.sequence, Trigger::Filesystem, &changed, options);
    let full = requires_full_run(root, config_path, config, paths);
    Ok(BatchStep::Run { started, full })
}

/// What follows the reload of the configuration in a run: the new
/// configuration, or, when it could not be read, the error snapshot of the
/// run, after which the session keeps its configuration and goes on
/// watching.
pub fn after_reload(sequence: u64, root: &str, reload: Result<Config, String>, state: &WatchState) -> (r: Result<
    Config,
    Snapshot,
>)
    ensures
        reload matches Ok(c) ==> r matches Ok(d) && d == c,
        reload matches Err(e) ==> r matches Err(s) && {
            &&& s.schema_version == PROTOCOL_VERSION
            &&& s.sequence == sequence
            &&& s.root@ == root@
            &&& s.status == Status::Error
            &&& s.error == Some(e)
            &&& s.diagnostics@.len() == 0
            &&& s.updated_paths@.len() == 0
            &&& !s.full_update
            &&& s.stats is None
        },
{
    match reload {
        Ok(c) => Ok(c),
        Err(e) => Err(Snapshot::error(root, sequence, e, state)),
    }
}

/// Whether a run has files to lint; a run without any reports without
/// asking the service anything.
pub fn needs_lint(selection: &RunSelection) -> (r: bool)
    ensures
        r == (selection.lint_paths@.len() > 0),
{
    selection.lint_paths.len() > 0
}

/// A file that no violation names gets no new diagnostics.
proof fn lemma_violations_at_none(vs: Seq<Violation>, p: Seq<char>)
    requires
        forall|i: int| 0 <= i < vs.len() ==> (#[trigger] vs[i]).path@ != p,
    ensures
        violations_at(vs, p) == Seq::<DiagnosticView>::empty(),
    decreases vs.len(),
{
    if vs.len() > 0 {
        assert(vs.last() == vs[vs.len() - 1]);
        lemma_violations_at_none(vs.drop_last(), p);
    }
}

/// A run leaves the diagnostics of a file alone when it did not update the
/// file and reported no violation in it.
pub proof fn lemma_unaffected_file_kept(
    old: Map<Seq<char>, Seq<DiagnosticView>>,
    updated: Seq<Seq<char>>,
    violations: Seq<Violation>,
    p: Seq<char>,
)
    requires
        !updated.contains(p),
        forall|i: int| 0 <= i < violations.len() ==> (#[trigger] violations[i]).path@ != p,
    ensures
        refreshed(old, updated, violations).dom().contains(p) == old.dom().contains(p),
        old.dom().contains(p) ==> refreshed(old, updated, violations)[p] == old[p],
{
    lemma_violations_at_none(violations, p);
    assert(old[p] + Seq::<DiagnosticView>::empty() == old[p]);
}

/// After a run, an updated file has exactly the diagnostics of the run's
/// violations in it, in order, and none if the run reported none.
pub proof fn lemma_updated_file_replaced(
    old: Map<Seq<char>, Seq<DiagnosticView>>,
    updated: Seq<Seq<char>>,
    violations: Seq<Violation>,
    p: Seq<char>,
)
    requires
        updated.contains(p),
    ensures
        refreshed(old, updated, violations).dom().contains(p) <==> violations_at(violations, p).len() > 0,
        refreshed(old, updated, violations).dom().contains(p) ==> refreshed(old, updated, violations)[p]
            == violations_at(violations, p),
{
    assert(Seq::<DiagnosticView>::empty() + violations_at(violations, p) == violations_at(violations, p));
}

/// Two ascending path lists holding the same paths are one list.
proof fn lemma_ascending_paths_unique(a: Seq<Seq<char>>, b: Seq<Seq<char>>)
    requires
        forall|i: int, j: int| 0 <= i < j < a.len() ==> path_lt(#[trigger] a[i], #[trigger] a[j]),
        forall|i: int, j: int| 0 <= i < j < b.len() ==> path_lt(#[trigger] b[i], #[trigger] b[j]),
        forall|p: Seq<char>| a.contains(p) <==> b.contains(p),
    ensures
        a == b,
    decreases a.len(),
{
    if a.len() == 0 {
        if b.len() > 0 {
            assert(b.contains(b[0]));
        }
        assert(a =~= b);
    } else if b.len() == 0 {
        assert(a.contains(a[0]));
    } else {
        assert(a.contains(a[0]) && b.contains(b[0]));
        let i = choose|i: int| 0 <= i < a.len() && a[i] == b[0];
        let j = choose|j: int| 0 <= j < b.len() && b[j] == a[0];
        if i > 0 && j > 0 {
            assert(path_lt(a[0], a[i]));
            assert(path_lt(b[0], b[j]));
            crate::order::lemma_lex_asymmetric(a[0], b[0], true);
        }
        assert(a[0] == b[0]);
        let ad = a.drop_first();
        let bd = b.drop_first();
        assert forall|p: Seq<char>| ad.contains(p) <==> bd.contains(p) by {
            if ad.contains(p) {
                let k = choose|k: int| 0 <= k < ad.len() && ad[k] == p;
                assert(a[k + 1] == p);
                assert(path_lt(a[0], a[k + 1]));
                crate::order::lemma_lex_asymmetric(a[0], a[0], true);
                assert(b.contains(p));
                let m = choose|m: int| 0 <= m < b.len() && b[m] == p;
                assert(m != 0);
                assert(bd[m - 1] == p);
            }
            if bd.contains(p) {
                let k = choose|k: int| 0 <= k < bd.len() && bd[k] == p;
                assert(b[k + 1] == p);
                assert(path_lt(b[0], b[k + 1]));
                crate::order::lemma_lex_asymmetric(b[0], b[0], true);
                assert(a.contains(p));
                let m = choose|m: int| 0 <= m < a.len() && a[m] == p;
                assert(m != 0);
                assert(ad[m - 1] == p);
            }
        }
        assert forall|x: int, y: int| 0 <= x < y < ad.len() implies path_lt(#[trigger] ad[x], #[trigger] ad[y]) by {
            assert(ad[x] == a[x + 1] && ad[y] == a[y + 1]);
        }
        assert forall|x: int, y: int| 0 <= x < y < bd.len() implies path_lt(#[trigger] bd[x], #[trigger] bd[y]) by {
            assert(bd[x] == b[x + 1] && bd[y] == b[y + 1]);
        }
        lemma_ascending_paths_unique(ad, bd);
        assert(a =~= seq![a[0]] + ad);
        assert(b =~= seq![b[0]] + bd);
    }
}

/// Refreshing the diagnostics a second time with the same run changes
/// nothing, when every violation of the run lies in a file it updated.
pub proof fn lemma_refresh_idempotent(
    old: Map<Seq<char>, Seq<DiagnosticView>>,
    updated: Seq<Seq<char>>,
    violations: Seq<Violation>,
)
    requires
        forall|i: int| 0 <= i < violations.len() ==> updated.contains((#[trigger] violations[i]).path@),
    ensures
        refreshed(refreshed(old, updated, violations), updated, violations) == refreshed(old, updated, violations),
{
    let once = refreshed(old, updated, violations);
    let twice = refreshed(once, updated, violations);
    assert forall|p: Seq<char>| !updated.contains(p) implies violations_at(violations, p)
        == Seq::<DiagnosticView>::empty() by {
        assert forall|i: int| 0 <= i < violations.len() implies (#[trigger] violations[i]).path@ != p by {
            assert(updated.contains(violations[i].path@));
        }
        lemma_violations_at_none(violations, p);
    }
    assert forall|p: Seq<char>| #[trigger] twice.dom().contains(p) <==> once.dom().contains(p) by {}
    assert forall|p: Seq<char>| #[trigger] twice.dom().contains(p) implies twice[p] == once[p] by {
        if !updated.contains(p) {
            assert(violations_at(violations, p) == Seq::<DiagnosticView>::empty());
            assert(old[p] + Seq::<DiagnosticView>::empty() == old[p]);
            assert(once[p] + Seq::<DiagnosticView>::empty() == once[p]);
        }
    }
    assert(twice =~= once);
}

/// Two well-formed watch states with the same diagnostics per file list the
/// same diagnostics in the same order.
pub proof fn lemma_same_view_same_diagnostics(a: &WatchState, b: &WatchState)
    requires
        a.wf(),
        b.wf(),
        a@ == b@,
    ensures
        a.all_views() == b.all_views(),
{
    a.lemma_all_views();
    b.lemma_all_views();
    a.lemma_paths();
    b.lemma_paths();
    lemma_ascending_paths_unique(a.spec_paths(), b.spec_paths());
}

/// Reporting the same run a second time, as a snapshot after a snapshot
/// with the same report does, leaves the diagnostics per file as the first
/// report made them, and lists the same diagnostics in the same order, when
/// every violation of the run lies in a file it updated.
pub proof fn lemma_repeated_report_changes_nothing(
    old: Map<Seq<char>, Seq<DiagnosticView>>,
    updated: Seq<Seq<char>>,
    violations: Seq<Violation>,
    first: &WatchState,
    second: &WatchState,
)
    requires
        first.wf(),
        second.wf(),
        forall|i: int| 0 <= i < violations.len() ==> updated.contains((#[trigger] violations[i]).path@),
        first@ == refreshed(old, updated, violations),
        second@ == refreshed(first@, updated, violations),
    ensures
        second@ == first@,
        second.all_views() == first.all_views(),
{
    lemma_refresh_idempotent(old, updated, violations);
    lemma_same_view_same_diagnostics(first, second);
}

} // verus!
