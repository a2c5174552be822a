//! Which files are linted, and by which rules with which severities.
use vstd::prelude::*;
use globset::{Glob, GlobSet, GlobSetBuilder};
use crate::config::{Config, RuleSet};
use crate::float_bits::{self, ge, lt, min_one, ONE, ZERO};
use crate::rule::Severity;
use crate::sorted_map::{self, ascending, as_map};
use crate::text::views;
use crate::order::{
    lemma_distinct_keys_unique, lemma_keys_unique_filter, lemma_keys_unique_permutation, lemma_sorted_strict, path_lt,
    sort_by_key, sorted_by_key, Keyed,
};

verus! {

/// `globset::GlobSet`, which the library holds without looking inside; what
/// it holds is named by [`glob_set_patterns`].
#[verifier::external_type_specification]
#[verifier::external_body]
pub struct ExGlobSet(GlobSet);

/// `globset::Glob`, held without looking inside; its pattern is named by
/// [`glob_text`].
#[verifier::external_type_specification]
#[verifier::external_body]
pub struct ExGlob(Glob);

/// `globset::GlobSetBuilder`, held without looking inside; the patterns it
/// has collected are named by [`builder_patterns`].
#[verifier::external_type_specification]
#[verifier::external_body]
pub struct ExGlobSetBuilder(GlobSetBuilder);

/// `globset::Error`, carried to [`error_text`].
#[verifier::external_type_specification]
#[verifier::external_body]
pub struct ExGlobError(globset::Error);

/// The patterns, in order, of the globs that a glob set was built from.
pub uninterp spec fn glob_set_patterns(set: GlobSet) -> Seq<Seq<char>>;

/// The pattern that a glob was parsed from.
pub uninterp spec fn glob_text(glob: Glob) -> Seq<char>;

/// The patterns of the globs added to a builder, in order.
pub uninterp spec fn builder_patterns(builder: GlobSetBuilder) -> Seq<Seq<char>>;

/// Whether `Glob::new` accepts the pattern.
pub uninterp spec fn glob_parses(pattern: Seq<char>) -> bool;

/// Whether `GlobSetBuilder::build` accepts the globs of these patterns.
pub uninterp spec fn set_builds(patterns: Seq<Seq<char>>) -> bool;

/// Whether `Glob::new(pattern)` (default options) matches `path`.
pub uninterp spec fn glob_matches(pattern: Seq<char>, path: Seq<char>) -> bool;

/// Every pattern parses and the globs build into a set.
pub open spec fn globs_build(patterns: Seq<Seq<char>>) -> bool {
    &&& forall|i: int| 0 <= i < patterns.len() ==> glob_parses(#[trigger] patterns[i])
    &&& set_builds(patterns)
}

/// Some pattern matches the path.
pub open spec fn any_glob_matches(patterns: Seq<Seq<char>>, path: Seq<char>) -> bool {
    exists|i: int| 0 <= i < patterns.len() && glob_matches(#[trigger] patterns[i], path)
}

/// Calls `Glob::new`. Trusted: it succeeds exactly when the named condition
/// holds of the pattern, and the glob keeps the pattern, which `Glob::glob`
/// returns.
#[verifier::external_body]
fn new_glob(pattern: &str) -> (r: Result<Glob, globset::Error>)
    ensures
        r is Ok <==> glob_parses(pattern@),
        r matches Ok(glob) ==> glob_text(glob) == pattern@,
{
    Glob::new(pattern)
}

/// Calls `GlobSetBuilder::new`. Trusted: the builder holds no glob yet.
#[verifier::external_body]
fn new_builder() -> (r: GlobSetBuilder)
    ensures
        builder_patterns(r) == Seq::<Seq<char>>::empty(),
{
    GlobSetBuilder::new()
}

/// Calls `GlobSetBuilder::add`. Trusted: as its source shows, the glob is
/// pushed after those already added.
#[verifier::external_body]
fn add_glob(builder: &mut GlobSetBuilder, glob: Glob)
    ensures
        builder_patterns(*final(builder)) == builder_patterns(*old(builder)).push(glob_text(glob)),
{
    builder.add(glob);
}

/// Calls `GlobSetBuilder::build`. Trusted: it succeeds exactly when the
/// named condition holds of the collected patterns, and the set holds those
/// patterns in order.
#[verifier::external_body]
fn build_set(builder: &GlobSetBuilder) -> (r: Result<GlobSet, globset::Error>)
    ensures
        r is Ok <==> set_builds(builder_patterns(*builder)),
        r matches Ok(set) ==> glob_set_patterns(set) == builder_patterns(*builder),
{
    builder.build()
}

/// The `Display` text of a glob error, which names the glob when there is
/// one. Nothing is claimed of the text.
#[verifier::external_body]
fn error_text(error: &globset::Error) -> (r: String) {
    error.to_string()
}

/// Why globs could not be built.
#[derive(Debug, PartialEq, Eq)]
pub enum GlobError {
    /// `pattern` is not a valid glob; `message` says why.
    InvalidGlob { pattern: String, message: String },
    /// The valid globs could not be combined into a set.
    Build { message: String },
}

/// Parses the patterns and builds their set. The first pattern that does
/// not parse gives the error; otherwise the set is built from them all.
fn build_globs(patterns: &Vec<String>) -> (r: Result<GlobSet, GlobError>)
    ensures
        r is Ok <==> globs_build(views(patterns@)),
        r matches Ok(set) ==> glob_set_patterns(set) == views(patterns@),
        r matches Err(GlobError::InvalidGlob { pattern, .. }) ==> exists|i: int|
            0 <= i < patterns@.len() && !glob_parses(#[trigger] views(patterns@)[i]) && pattern@ == views(patterns@)[i]
                && forall|j: int| 0 <= j < i ==> glob_parses(#[trigger] views(patterns@)[j]),
        r matches Err(GlobError::Build { .. }) ==> (forall|i: int| 0 <= i < patterns@.len() ==> glob_parses(#[trigger] views(patterns@)[i]))
            && !set_builds(views(patterns@)),
{
    let mut builder = new_builder();
    let mut i: usize = 0;
    while i < patterns.len()
        invariant
            i <= patterns@.len(),
            builder_patterns(builder) == views(patterns@).take(i as int),
            forall|j: int| 0 <= j < i ==> glob_parses(#[trigger] views(patterns@)[j]),
        decreases patterns@.len() - i,
    {
        match new_glob(patterns[i].as_str()) {
            Ok(glob) => {
                add_glob(&mut builder, glob);
                proof {
                    assert(views(patterns@).take(i + 1) == views(patterns@).take(i as int).push(patterns@[i as int]@));
                }
            },
            Err(error) => {
                let message = error_text(&error);
                proof {
                    assert(views(patterns@)[i as int] == patterns@[i as int]@);
                }
                return Err(GlobError::InvalidGlob { pattern: patterns[i].clone(), message });
            },
        }
        i += 1;
    }
    proof {
        assert(views(patterns@).take(patterns@.len() as int) == views(patterns@));
    }
    match build_set(&builder) {
        Ok(set) => Ok(set),
        Err(error) => Err(GlobError::Build { message: error_text(&error) }),
    }
}

/// `GlobSet::is_match`. Trusted: as its documentation says, it is true
/// exactly when some glob of the set matches the path; an empty set matches
/// nothing.
#[verifier::external_body]
fn glob_set_is_match(set: &GlobSet, path: &str) -> (r: bool)
    ensures
        r == (exists|i: int| 0 <= i < glob_set_patterns(*set).len() && glob_matches(#[trigger] glob_set_patterns(*set)[i], path@)),
{
    set.is_match(path)
}

/// The severity and minimum confidence with which a rule applies to a file.
#[derive(Clone, Copy, Debug, PartialEq)]
pub struct RuleSetting {
    pub severity: Severity,
    /// A binary64 pattern between zero and one.
    pub threshold: u64,
}

/// The settings of one rule set, by rule id.
pub struct RuleSetMatcher {
    files: GlobSet,
    excluded_files: GlobSet,
    rules: Vec<(String, RuleSetting)>,
}

/// Selects files and their rules from the configured rule sets.
pub struct FileMatcher {
    exclude: GlobSet,
    rule_sets: Vec<RuleSetMatcher>,
}

/// Every listing of a rule set in order: its error rules, then its warn
/// rules, thresholds capped at one.
pub open spec fn set_listings(rule_set: RuleSet) -> Seq<(Seq<char>, RuleSetting)> {
    rule_set.error@.map_values(
        |e: (String, u64)| (e.0@, RuleSetting { severity: Severity::Error, threshold: min_one(e.1) }),
    ) + rule_set.warn@.map_values(
        |e: (String, u64)| (e.0@, RuleSetting { severity: Severity::Warning, threshold: min_one(e.1) }),
    )
}

/// A setting that enables its rule: its threshold is not below zero.
pub open spec fn enabling(setting: RuleSetting) -> bool {
    ge(setting.threshold, ZERO)
}

/// The listings of a rule set that enable their rule, in order.
pub open spec fn setting_entries(rule_set: RuleSet) -> Seq<(Seq<char>, RuleSetting)> {
    set_listings(rule_set).filter(|e: (Seq<char>, RuleSetting)| enabling(e.1))
}

/// Collects entries into a map; a later entry replaces an earlier one.
pub open spec fn collect_map<V>(entries: Seq<(Seq<char>, V)>) -> Map<Seq<char>, V>
    decreases entries.len(),
{
    if entries.len() == 0 {
        Map::empty()
    } else {
        collect_map(entries.drop_last()).insert(entries.last().0, entries.last().1)
    }
}

/// What a rule set says of each rule it lists: its last enabling listing,
/// or, when every listing of the rule is below zero, its last listing,
/// which disables the rule.
pub open spec fn rule_set_rules(rule_set: RuleSet) -> Map<Seq<char>, RuleSetting> {
    collect_map(set_listings(rule_set)).union_prefer_right(collect_map(setting_entries(rule_set)))
}

/// The rules of a map of settings that are enabled.
pub open spec fn enabled(m: Map<Seq<char>, RuleSetting>) -> Map<Seq<char>, RuleSetting> {
    Map::new(|k: Seq<char>| m.dom().contains(k) && enabling(m[k]), |k: Seq<char>| m[k])
}

impl RuleSetMatcher {
    pub closed spec fn files_patterns(&self) -> Seq<Seq<char>> {
        glob_set_patterns(self.files)
    }

    pub closed spec fn excluded_patterns(&self) -> Seq<Seq<char>> {
        glob_set_patterns(self.excluded_files)
    }

    pub closed spec fn rules_map(&self) -> Map<Seq<char>, RuleSetting> {
        as_map(self.rules@)
    }

    pub closed spec fn wf(&self) -> bool {
        ascending(self.rules@, false)
    }

    /// The rule set applies to the path.
    pub open spec fn selects(&self, path: Seq<char>) -> bool {
        any_glob_matches(self.files_patterns(), path) && !any_glob_matches(
            self.excluded_patterns(),
            path,
        )
    }
}

/// What the rule sets that apply to `path` say of each rule they list; a
/// later rule set's setting for a rule, enabling or not, replaces an
/// earlier one's.
pub open spec fn selected_rules(sets: Seq<RuleSetMatcher>, path: Seq<char>) -> Map<Seq<char>, RuleSetting>
    decreases sets.len(),
{
    if sets.len() == 0 {
        Map::empty()
    } else {
        let earlier = selected_rules(sets.drop_last(), path);
        if sets.last().selects(path) {
            earlier.union_prefer_right(sets.last().rules_map())
        } else {
            earlier
        }
    }
}

impl FileMatcher {
    /// The patterns of the globally excluded files.
    pub closed spec fn exclude_patterns(&self) -> Seq<Seq<char>> {
        glob_set_patterns(self.exclude)
    }

    /// The matchers of the rule sets, in configuration order.
    pub closed spec fn sets(&self) -> Seq<RuleSetMatcher> {
        self.rule_sets@
    }

    /// Every rule set matcher holds its rules in id order.
    pub open spec fn wf(&self) -> bool {
        forall|i: int| 0 <= i < self.sets().len() ==> (#[trigger] self.sets()[i]).wf()
    }

    /// The rules, with their settings, that apply to `path`: those that the
    /// last applying rule set to list them enables; none for an excluded
    /// path.
    pub open spec fn rules_map_for(&self, path: Seq<char>) -> Map<Seq<char>, RuleSetting> {
        if any_glob_matches(self.exclude_patterns(), path) {
            Map::empty()
        } else {
            enabled(selected_rules(self.sets(), path))
        }
    }

    /// The path is not excluded and some rule applies to it.
    pub open spec fn lintable(&self, path: Seq<char>) -> bool {
        !any_glob_matches(self.exclude_patterns(), path) && self.rules_map_for(path).dom().len() > 0
    }

    /// The matcher was built from `config`.
    pub open spec fn built_from(&self, config: Config) -> bool {
        &&& self.wf()
        &&& self.exclude_patterns() == views(config.exclude@)
        &&& self.sets().len() == config.rule_sets@.len()
        &&& forall|i: int|
            0 <= i < self.sets().len() ==> {
                &&& (#[trigger] self.sets()[i]).files_patterns() == views(config.rule_sets@[i].patterns@)
                &&& self.sets()[i].excluded_patterns() == views(config.rule_sets@[i].exclude@)
                &&& self.sets()[i].rules_map() == rule_set_rules(config.rule_sets@[i])
            }
    }
}

/// Every glob of the configuration builds.
pub open spec fn config_globs_build(config: Config) -> bool {
    &&& globs_build(views(config.exclude@))
    &&& forall|i: int|
        0 <= i < config.rule_sets@.len() ==> globs_build(views((#[trigger] config.rule_sets@[i]).patterns@))
            && globs_build(views(config.rule_sets@[i].exclude@))
}

/// What the configured rule sets that apply to `path` say of each rule they
/// list; a later rule set's setting for a rule, enabling or not, replaces an
/// earlier one's.
pub open spec fn configured_rules(sets: Seq<RuleSet>, path: Seq<char>) -> Map<Seq<char>, RuleSetting>
    decreases sets.len(),
{
    if sets.len() == 0 {
        Map::empty()
    } else {
        let earlier = configured_rules(sets.drop_last(), path);
        let set = sets.last();
        if any_glob_matches(views(set.patterns@), path) && !any_glob_matches(views(set.exclude@), path) {
            earlier.union_prefer_right(rule_set_rules(set))
        } else {
            earlier
        }
    }
}

/// The rules, with their settings, that the configuration applies to a
/// project-relative path: those that the last applying rule set to list
/// them enables; none for an excluded path.
pub open spec fn config_rules_for(config: Config, path: Seq<char>) -> Map<Seq<char>, RuleSetting> {
    if any_glob_matches(views(config.exclude@), path) {
        Map::empty()
    } else {
        enabled(configured_rules(config.rule_sets@, path))
    }
}

/// The configuration lints the path: it is not excluded and some rule
/// applies to it.
pub open spec fn config_lintable(config: Config, path: Seq<char>) -> bool {
    !any_glob_matches(views(config.exclude@), path) && config_rules_for(config, path).dom().len() > 0
}

proof fn lemma_selected_rules_configured(sets: Seq<RuleSetMatcher>, configured: Seq<RuleSet>, path: Seq<char>)
    requires
        sets.len() == configured.len(),
        forall|i: int|
            0 <= i < sets.len() ==> {
                &&& (#[trigger] sets[i]).files_patterns() == views(configured[i].patterns@)
                &&& sets[i].excluded_patterns() == views(configured[i].exclude@)
                &&& sets[i].rules_map() == rule_set_rules(configured[i])
            },
    ensures
        selected_rules(sets, path) == configured_rules(configured, path),
    decreases sets.len(),
{
    if sets.len() > 0 {
        let n = sets.len() - 1;
        assert(sets[n].files_patterns() == views(configured[n].patterns@));
        lemma_selected_rules_configured(sets.drop_last(), configured.drop_last(), path);
    }
}

impl FileMatcher {
    /// A matcher built from a configuration selects what the configuration
    /// says.
    pub proof fn lemma_built_from(&self, config: Config, path: Seq<char>)
        requires
            self.built_from(config),
        ensures
            self.rules_map_for(path) == config_rules_for(config, path),
            self.lintable(path) == config_lintable(config, path),
    {
        lemma_selected_rules_configured(self.sets(), config.rule_sets@, path);
    }
}

proof fn lemma_collect_map_value<V>(entries: Seq<(Seq<char>, V)>, k: Seq<char>)
    requires
        collect_map(entries).dom().contains(k),
    ensures
        exists|i: int| 0 <= i < entries.len() && entries[i].0 == k && #[trigger] entries[i].1 == collect_map(entries)[k],
    decreases entries.len(),
{
    let rest = entries.drop_last();
    if entries.last().0 == k {
        assert(entries[entries.len() - 1].1 == collect_map(entries)[k]);
    } else {
        lemma_collect_map_value(rest, k);
        let i = choose|i: int| 0 <= i < rest.len() && rest[i].0 == k && #[trigger] rest[i].1 == collect_map(rest)[k];
        assert(entries[i] == rest[i]);
    }
}

/// A listing's threshold is never above one.
proof fn lemma_listing_capped(rule_set: RuleSet, j: int)
    requires
        0 <= j < set_listings(rule_set).len(),
    ensures
        !lt(ONE, set_listings(rule_set)[j].1.threshold),
{
    let errors = rule_set.error@.map_values(
        |e: (String, u64)| (e.0@, RuleSetting { severity: Severity::Error, threshold: min_one(e.1) }),
    );
    let warns = rule_set.warn@.map_values(
        |e: (String, u64)| (e.0@, RuleSetting { severity: Severity::Warning, threshold: min_one(e.1) }),
    );
    let all = set_listings(rule_set);
    if j < errors.len() {
        assert(all[j] == errors[j]);
        assert(all[j].1.threshold == min_one(rule_set.error@[j].1));
    } else {
        assert(all[j] == warns[j - errors.len()]);
        assert(all[j].1.threshold == min_one(rule_set.warn@[j - errors.len()].1));
    }
}

/// What a rule set says of a rule comes from one of its listings, and a
/// listing that enables the rule when one does.
proof fn lemma_set_rule_listed(rule_set: RuleSet, id: Seq<char>)
    requires
        rule_set_rules(rule_set).dom().contains(id),
    ensures
        exists|j: int| 0 <= j < set_listings(rule_set).len() && set_listings(rule_set)[j].0 == id
            && #[trigger] set_listings(rule_set)[j].1 == rule_set_rules(rule_set)[id],
{
    broadcast use vstd::seq_lib::group_filter_ensures;
    let all = set_listings(rule_set);
    let pred = |e: (Seq<char>, RuleSetting)| enabling(e.1);
    let entries = setting_entries(rule_set);
    if collect_map(entries).dom().contains(id) {
        lemma_collect_map_value(entries, id);
        let i = choose|i: int| 0 <= i < entries.len() && entries[i].0 == id && #[trigger] entries[i].1 == collect_map(entries)[id];
        assert(entries.contains(entries[i]));
        all.lemma_filter_contains_rev(pred, entries[i]);
        let j = choose|j: int| 0 <= j < all.len() && all[j] == entries[i];
        assert(all[j].1 == rule_set_rules(rule_set)[id]);
    } else {
        lemma_collect_map_value(all, id);
    }
}

/// Every threshold that the configuration gives a file's rule is between
/// zero and one: values above one are lowered to one, and a rule whose
/// deciding setting is below zero is left out.
pub proof fn lemma_thresholds_in_unit_range(config: Config, path: Seq<char>, id: Seq<char>)
    requires
        config_rules_for(config, path).dom().contains(id),
    ensures
        ge(config_rules_for(config, path)[id].threshold, ZERO),
        !lt(ONE, config_rules_for(config, path)[id].threshold),
{
    lemma_configured_rules(config.rule_sets@, path, id);
    let i = choose|i: int|
        0 <= i < config.rule_sets@.len() && set_selects(config.rule_sets@[i], path) && #[trigger] rule_set_rules(config.rule_sets@[i]).dom().contains(id)
            && configured_rules(config.rule_sets@, path)[id] == rule_set_rules(config.rule_sets@[i])[id] && forall|j: int|
            i < j < config.rule_sets@.len() && set_selects(config.rule_sets@[j], path) ==> !#[trigger] rule_set_rules(config.rule_sets@[j]).dom().contains(id);
    let set = config.rule_sets@[i];
    lemma_set_rule_listed(set, id);
    let j = choose|j: int| 0 <= j < set_listings(set).len() && set_listings(set)[j].0 == id
        && #[trigger] set_listings(set)[j].1 == rule_set_rules(set)[id];
    lemma_listing_capped(set, j);
}

/// The rule set at `i` applies to `path`.
pub open spec fn set_selects(set: RuleSet, path: Seq<char>) -> bool {
    any_glob_matches(views(set.patterns@), path) && !any_glob_matches(views(set.exclude@), path)
}

proof fn lemma_configured_rules(sets: Seq<RuleSet>, path: Seq<char>, id: Seq<char>)
    ensures
        configured_rules(sets, path).dom().contains(id) <==> exists|i: int|
            0 <= i < sets.len() && set_selects(sets[i], path) && #[trigger] rule_set_rules(sets[i]).dom().contains(id),
        configured_rules(sets, path).dom().contains(id) ==> exists|i: int|
            0 <= i < sets.len() && set_selects(sets[i], path) && #[trigger] rule_set_rules(sets[i]).dom().contains(id)
                && configured_rules(sets, path)[id] == rule_set_rules(sets[i])[id] && forall|j: int|
                i < j < sets.len() && set_selects(sets[j], path) ==> !#[trigger] rule_set_rules(sets[j]).dom().contains(id),
    decreases sets.len(),
{
    if sets.len() > 0 {
        let rest = sets.drop_last();
        let n = sets.len() - 1;
        lemma_configured_rules(rest, path, id);
        assert(sets[n] == sets.last());
        if exists|i: int| 0 <= i < rest.len() && set_selects(rest[i], path) && #[trigger] rule_set_rules(rest[i]).dom().contains(id) {
            let i = choose|i: int| 0 <= i < rest.len() && set_selects(rest[i], path) && #[trigger] rule_set_rules(rest[i]).dom().contains(id);
            assert(sets[i] == rest[i]);
        }
        if exists|i: int| 0 <= i < sets.len() && set_selects(sets[i], path) && #[trigger] rule_set_rules(sets[i]).dom().contains(id) {
            let i = choose|i: int| 0 <= i < sets.len() && set_selects(sets[i], path) && #[trigger] rule_set_rules(sets[i]).dom().contains(id);
            if i < n {
                assert(rest[i] == sets[i]);
            }
        }
        if configured_rules(sets, path).dom().contains(id) {
            if set_selects(sets[n], path) && rule_set_rules(sets[n]).dom().contains(id) {
                assert(configured_rules(sets, path)[id] == rule_set_rules(sets[n])[id]);
            } else {
                let i = choose|i: int|
                    0 <= i < rest.len() && set_selects(rest[i], path) && #[trigger] rule_set_rules(rest[i]).dom().contains(id)
                        && configured_rules(rest, path)[id] == rule_set_rules(rest[i])[id] && forall|j: int|
                        i < j < rest.len() && set_selects(rest[j], path) ==> !#[trigger] rule_set_rules(rest[j]).dom().contains(id);
                assert(sets[i] == rest[i]);
                assert forall|j: int| i < j < sets.len() && set_selects(sets[j], path) implies !#[trigger] rule_set_rules(sets[j]).dom().contains(id) by {
                    if j < n {
                        assert(rest[j] == sets[j]);
                    }
                }
            }
        }
    }
}

/// The last rule set that applies to a file and lists a rule decides it:
/// the file gets that set's setting when it enables the rule, and not the
/// rule when it lies below zero.
pub proof fn lemma_last_listing_decides(config: Config, path: Seq<char>, id: Seq<char>, i: int)
    requires
        !any_glob_matches(views(config.exclude@), path),
        0 <= i < config.rule_sets@.len(),
        set_selects(config.rule_sets@[i], path),
        rule_set_rules(config.rule_sets@[i]).dom().contains(id),
        forall|j: int|
            i < j < config.rule_sets@.len() && set_selects(config.rule_sets@[j], path)
                ==> !#[trigger] rule_set_rules(config.rule_sets@[j]).dom().contains(id),
    ensures
        config_rules_for(config, path).dom().contains(id) == enabling(rule_set_rules(config.rule_sets@[i])[id]),
        enabling(rule_set_rules(config.rule_sets@[i])[id]) ==> config_rules_for(config, path)[id]
            == rule_set_rules(config.rule_sets@[i])[id],
{
    let sets = config.rule_sets@;
    lemma_configured_rules(sets, path, id);
    let k = choose|k: int|
        0 <= k < sets.len() && set_selects(sets[k], path) && #[trigger] rule_set_rules(sets[k]).dom().contains(id)
            && configured_rules(sets, path)[id] == rule_set_rules(sets[k])[id] && forall|j: int|
            k < j < sets.len() && set_selects(sets[j], path) ==> !#[trigger] rule_set_rules(sets[j]).dom().contains(id);
    if k < i {
        assert(!rule_set_rules(sets[i]).dom().contains(id));
    } else if k > i {
        assert(!rule_set_rules(sets[k]).dom().contains(id));
    }
}

/// A file that no global exclusion matches gets a rule only from the last
/// rule set that applies to it and lists the rule, and only when that set
/// enables it; a rule that no applying set lists it does not get; and a
/// file that no rule set applies to is not linted.
pub proof fn lemma_rule_sets_combine(config: Config, path: Seq<char>, id: Seq<char>)
    requires
        !any_glob_matches(views(config.exclude@), path),
    ensures
        config_rules_for(config, path).dom().contains(id) ==> exists|i: int|
            0 <= i < config.rule_sets@.len() && set_selects(config.rule_sets@[i], path)
                && #[trigger] rule_set_rules(config.rule_sets@[i]).dom().contains(id)
                && enabling(rule_set_rules(config.rule_sets@[i])[id])
                && config_rules_for(config, path)[id] == rule_set_rules(config.rule_sets@[i])[id] && forall|j: int|
                i < j < config.rule_sets@.len() && set_selects(config.rule_sets@[j], path)
                    ==> !#[trigger] rule_set_rules(config.rule_sets@[j]).dom().contains(id),
        (forall|i: int| 0 <= i < config.rule_sets@.len() && set_selects(config.rule_sets@[i], path)
            ==> !#[trigger] rule_set_rules(config.rule_sets@[i]).dom().contains(id))
            ==> !config_rules_for(config, path).dom().contains(id),
        config_lintable(config, path) ==> exists|i: int|
            0 <= i < config.rule_sets@.len() && #[trigger] set_selects(config.rule_sets@[i], path),
{
    lemma_configured_rules(config.rule_sets@, path, id);
    if config_lintable(config, path) {
        let m = config_rules_for(config, path);
        lemma_configured_finite(config.rule_sets@, path);
        let c = configured_rules(config.rule_sets@, path);
        assert(m.dom().subset_of(c.dom()));
        vstd::set_lib::lemma_set_subset_finite(c.dom(), m.dom());
        let k = m.dom().choose();
        vstd::set::axiom_set_choose_len(m.dom());
        lemma_configured_rules(config.rule_sets@, path, k);
    }
}

proof fn lemma_collect_finite<V>(entries: Seq<(Seq<char>, V)>)
    ensures
        collect_map(entries).dom().finite(),
    decreases entries.len(),
{
    if entries.len() > 0 {
        lemma_collect_finite(entries.drop_last());
        vstd::set::axiom_set_insert_finite(collect_map(entries.drop_last()).dom(), entries.last().0);
        assert(collect_map(entries).dom() =~= collect_map(entries.drop_last()).dom().insert(entries.last().0));
    }
}

proof fn lemma_configured_finite(sets: Seq<RuleSet>, path: Seq<char>)
    ensures
        configured_rules(sets, path).dom().finite(),
    decreases sets.len(),
{
    if sets.len() > 0 {
        let earlier = configured_rules(sets.drop_last(), path);
        lemma_configured_finite(sets.drop_last(), path);
        let own = rule_set_rules(sets.last());
        let listed = collect_map(set_listings(sets.last()));
        let enabled_listed = collect_map(setting_entries(sets.last()));
        lemma_collect_finite(set_listings(sets.last()));
        lemma_collect_finite(setting_entries(sets.last()));
        vstd::set::axiom_set_union_finite(listed.dom(), enabled_listed.dom());
        assert(own.dom() =~= listed.dom().union(enabled_listed.dom()));
        vstd::set::axiom_set_union_finite(earlier.dom(), own.dom());
        assert(earlier.union_prefer_right(own).dom() =~= earlier.dom().union(own.dom()));
    }
}

proof fn lemma_collect_push<V>(entries: Seq<(Seq<char>, V)>, e: (Seq<char>, V))
    ensures
        collect_map(entries.push(e)) == collect_map(entries).insert(e.0, e.1),
{
    assert(entries.push(e).drop_last() == entries);
}

/// The text of each listing's id, with its setting.
pub open spec fn listing_view(v: Seq<(String, RuleSetting)>) -> Seq<(Seq<char>, RuleSetting)> {
    v.map_values(|e: (String, RuleSetting)| (e.0@, e.1))
}

/// Every listing of a rule set, in order.
fn listings_of(rule_set: &RuleSet) -> (r: Vec<(String, RuleSetting)>)
    ensures
        listing_view(r@) == set_listings(*rule_set),
{
    let ghost errors = rule_set.error@.map_values(
        |e: (String, u64)| (e.0@, RuleSetting { severity: Severity::Error, threshold: min_one(e.1) }),
    );
    let ghost warns = rule_set.warn@.map_values(
        |e: (String, u64)| (e.0@, RuleSetting { severity: Severity::Warning, threshold: min_one(e.1) }),
    );
    let mut r: Vec<(String, RuleSetting)> = Vec::new();
    let mut i: usize = 0;
    while i < rule_set.error.len()
        invariant
            i <= rule_set.error@.len(),
            errors == rule_set.error@.map_values(
                |e: (String, u64)| (e.0@, RuleSetting { severity: Severity::Error, threshold: min_one(e.1) }),
            ),
            listing_view(r@) == errors.take(i as int),
        decreases rule_set.error@.len() - i,
    {
        let setting = RuleSetting { severity: Severity::Error, threshold: float_bits::f64_min_one(rule_set.error[i].1) };
        let ghost before = r@;
        r.push((rule_set.error[i].0.clone(), setting));
        proof {
            before.lemma_push_map_commute(|e: (String, RuleSetting)| (e.0@, e.1), r@[before.len() as int]);
            assert(errors.take(i + 1) == errors.take(i as int).push(errors[i as int]));
        }
        i += 1;
    }
    proof {
        assert(errors.take(errors.len() as int) == errors);
        assert(errors + warns.take(0) == errors);
    }
    let mut i: usize = 0;
    while i < rule_set.warn.len()
        invariant
            i <= rule_set.warn@.len(),
            warns == rule_set.warn@.map_values(
                |e: (String, u64)| (e.0@, RuleSetting { severity: Severity::Warning, threshold: min_one(e.1) }),
            ),
            listing_view(r@) == errors + warns.take(i as int),
        decreases rule_set.warn@.len() - i,
    {
        let setting = RuleSetting { severity: Severity::Warning, threshold: float_bits::f64_min_one(rule_set.warn[i].1) };
        let ghost before = r@;
        r.push((rule_set.warn[i].0.clone(), setting));
        proof {
            before.lemma_push_map_commute(|e: (String, RuleSetting)| (e.0@, e.1), r@[before.len() as int]);
            assert(errors + warns.take(i + 1) == (errors + warns.take(i as int)).push(warns[i as int]));
        }
        i += 1;
    }
    proof {
        assert(warns.take(warns.len() as int) == warns);
    }
    r
}

fn rule_set_settings(rule_set: &RuleSet) -> (r: Vec<(String, RuleSetting)>)
    ensures
        ascending(r@, false),
        as_map(r@) == rule_set_rules(*rule_set),
{
    let listings = listings_of(rule_set);
    let ghost all = set_listings(*rule_set);
    let ghost pred = |e: (Seq<char>, RuleSetting)| enabling(e.1);
    let mut r: Vec<(String, RuleSetting)> = Vec::new();
    let mut k: usize = 0;
    while k < listings.len()
        invariant
            k <= listings@.len(),
            listing_view(listings@) == all,
            ascending(r@, false),
            as_map(r@) == collect_map(all.take(k as int)),
        decreases listings@.len() - k,
    {
        proof {
            assert(all.take(k + 1) == all.take(k as int).push(all[k as int]));
            assert(all[k as int] == (listings@[k as int].0@, listings@[k as int].1));
            lemma_collect_push(all.take(k as int), all[k as int]);
        }
        sorted_map::insert(&mut r, listings[k].0.clone(), listings[k].1, false);
        k += 1;
    }
    proof {
        assert(all.take(all.len() as int) == all);
        assert(all.take(0).filter(pred) =~= Seq::<(Seq<char>, RuleSetting)>::empty()) by {
            reveal_with_fuel(Seq::filter, 1);
        }
        assert(collect_map(all).union_prefer_right(collect_map(all.take(0).filter(pred))) =~= collect_map(all));
    }
    let mut k: usize = 0;
    while k < listings.len()
        invariant
            k <= listings@.len(),
            listing_view(listings@) == all,
            pred == (|e: (Seq<char>, RuleSetting)| enabling(e.1)),
            ascending(r@, false),
            as_map(r@) == collect_map(all).union_prefer_right(collect_map(all.take(k as int).filter(pred))),
        decreases listings@.len() - k,
    {
        let ghost e = all[k as int];
        proof {
            assert(all.take(k + 1) == all.take(k as int).push(e));
            assert(e == (listings@[k as int].0@, listings@[k as int].1));
            all.take(k as int).lemma_filter_push(e, pred);
            lemma_collect_push(all.take(k as int).filter(pred), e);
            let c = collect_map(all.take(k as int).filter(pred));
            assert(collect_map(all).union_prefer_right(c.insert(e.0, e.1)) =~= collect_map(all).union_prefer_right(c).insert(e.0, e.1));
        }
        if float_bits::f64_ge(listings[k].1.threshold, ZERO) {
            sorted_map::insert(&mut r, listings[k].0.clone(), listings[k].1, false);
        }
        k += 1;
    }
    proof {
        assert(all.take(all.len() as int) == all);
    }
    r
}

impl FileMatcher {
    /// Builds the matcher; fails with the text of the first glob error.
    pub fn new(config: &Config) -> (r: Result<Self, GlobError>)
        ensures
            r is Ok <==> config_globs_build(*config),
            r matches Ok(m) ==> m.built_from(*config),
            r matches Err(GlobError::InvalidGlob { pattern, .. }) ==> !glob_parses(pattern@),
    {
        let mut rule_sets: Vec<RuleSetMatcher> = Vec::new();
        let mut i: usize = 0;
        while i < config.rule_sets.len()
            invariant
                i <= config.rule_sets@.len(),
                rule_sets@.len() == i,
                forall|j: int| 0 <= j < i ==> globs_build(views((#[trigger] config.rule_sets@[j]).patterns@))
                    && globs_build(views(config.rule_sets@[j].exclude@)),
                forall|j: int|
                    0 <= j < i ==> {
                        &&& (#[trigger] rule_sets@[j]).wf()
                        &&& rule_sets@[j].files_patterns() == views(config.rule_sets@[j].patterns@)
                        &&& rule_sets@[j].excluded_patterns() == views(config.rule_sets@[j].exclude@)
                        &&& rule_sets@[j].rules_map() == rule_set_rules(config.rule_sets@[j])
                    },
            decreases config.rule_sets@.len() - i,
        {
            let rule_set = &config.rule_sets[i];
            let rules = rule_set_settings(rule_set);
            let files = match build_globs(&rule_set.patterns) {
                Ok(set) => set,
                Err(message) => {
                    proof {
                        assert(!config_globs_build(*config));
                    }
                    return Err(message);
                },
            };
            let excluded_files = match build_globs(&rule_set.exclude) {
                Ok(set) => set,
                Err(message) => {
                    proof {
                        assert(!config_globs_build(*config));
                    }
                    return Err(message);
                },
            };
            rule_sets.push(RuleSetMatcher { files, excluded_files, rules });
            i += 1;
        }
        let exclude = match build_globs(&config.exclude) {
            Ok(set) => set,
            Err(message) => {
                return Err(message);
            },
        };
        Ok(FileMatcher { exclude, rule_sets })
    }

    /// Whether a project-relative path is linted: it is not excluded and at
    /// least one rule applies to it.
    pub fn is_lintable(&self, relative_path: &str) -> (r: bool)
        requires
            self.wf(),
        ensures
            r == self.lintable(relative_path@),
    {
        !glob_set_is_match(&self.exclude, relative_path) && self.rules_for(relative_path).len() > 0
    }

    /// The rules that apply to a project-relative path, in id order, with
    /// the setting of the last matching rule set that names each.
    pub fn rules_for(&self, relative_path: &str) -> (r: Vec<(String, RuleSetting)>)
        requires
            self.wf(),
        ensures
            ascending(r@, false),
            as_map(r@) == self.rules_map_for(relative_path@),
            as_map(r@).dom().finite(),
            r@.len() == as_map(r@).dom().len(),
    {
        let mut r: Vec<(String, RuleSetting)> = Vec::new();
        if glob_set_is_match(&self.exclude, relative_path) {
            proof {
                assert(as_map(r@) =~= Map::<Seq<char>, RuleSetting>::empty());
            }
            return r;
        }
        let mut i: usize = 0;
        proof {
            assert(self.rule_sets@.take(0) == Seq::<RuleSetMatcher>::empty());
            assert(as_map(r@) =~= Map::<Seq<char>, RuleSetting>::empty());
        }
        while i < self.rule_sets.len()
            invariant
                i <= self.rule_sets@.len(),
                self.wf(),
                ascending(r@, false),
                as_map(r@) == selected_rules(self.rule_sets@.take(i as int), relative_path@),
            decreases self.rule_sets@.len() - i,
        {
            let set = &self.rule_sets[i];
            proof {
                assert(self.rule_sets@.take(i + 1).drop_last() == self.rule_sets@.take(i as int));
                assert(self.rule_sets@.take(i + 1).last() == *set);
                assert(self.sets()[i as int] == *set);
                assert(set.wf());
            }
            if glob_set_is_match(&set.files, relative_path) && !glob_set_is_match(
                &set.excluded_files,
                relative_path,
            ) {
                let ghost before = as_map(r@);
                let mut k: usize = 0;
                while k < set.rules.len()
                    invariant
                        k <= set.rules@.len(),
                        ascending(set.rules@, false),
                        ascending(r@, false),
                        as_map(r@) == before.union_prefer_right(as_map(set.rules@.take(k as int))),
                    decreases set.rules@.len() - k,
                {
                    let (id, setting) = (set.rules[k].0.clone(), set.rules[k].1);
                    proof {
                        let t = set.rules@.take(k + 1);
                        assert(ascending(t, false));
                        assert(t.drop_last() == set.rules@.take(k as int));
                        lemma_as_map_push(set.rules@.take(k as int), set.rules@[k as int]);
                        assert(t == set.rules@.take(k as int).push(set.rules@[k as int]));
                        assert(before.union_prefer_right(as_map(t)) =~= before.union_prefer_right(
                            as_map(set.rules@.take(k as int)),
                        ).insert(id@, setting));
                    }
                    sorted_map::insert(&mut r, id, setting, false);
                    k += 1;
                }
                proof {
                    assert(set.rules@.take(set.rules@.len() as int) == set.rules@);
                }
            }
            i += 1;
        }
        proof {
            assert(self.rule_sets@.take(self.rule_sets@.len() as int) == self.rule_sets@);
        }
        let r = keep_enabled(&r);
        proof {
            sorted_map::lemma_ascending_len(r@, false);
        }
        r
    }
}

/// The pairs whose setting enables its rule, in order.
fn keep_enabled(v: &Vec<(String, RuleSetting)>) -> (r: Vec<(String, RuleSetting)>)
    requires
        ascending(v@, false),
    ensures
        ascending(r@, false),
        as_map(r@) == enabled(as_map(v@)),
{
    let mut r: Vec<(String, RuleSetting)> = Vec::new();
    let mut k: usize = 0;
    proof {
        assert(v@.take(0) == Seq::<(String, RuleSetting)>::empty());
        assert(as_map(r@) =~= enabled(as_map(v@.take(0))));
    }
    while k < v.len()
        invariant
            k <= v@.len(),
            ascending(v@, false),
            ascending(r@, false),
            as_map(r@) == enabled(as_map(v@.take(k as int))),
            forall|j: int| 0 <= j < r@.len() ==> exists|m: int| 0 <= m < k && #[trigger] r@[j] == v@[m],
        decreases v@.len() - k,
    {
        let e = (v[k].0.clone(), v[k].1);
        let ghost t = v@.take(k as int);
        proof {
            assert(e == v@[k as int]);
            assert(ascending(v@.take(k + 1), false)) by {
                assert forall|a: int, b: int| 0 <= a < b < k + 1 implies crate::order::lex_lt(#[trigger] v@.take(k + 1)[a].0@, #[trigger] v@.take(k + 1)[b].0@, false) by {
                    assert(v@.take(k + 1)[a] == v@[a] && v@.take(k + 1)[b] == v@[b]);
                }
            }
            assert(v@.take(k + 1) == t.push(v@[k as int]));
            lemma_as_map_push(t, v@[k as int]);
            assert(!as_map(t).dom().contains(e.0@)) by {
                if sorted_map::has_key(t, e.0@) {
                    let m = choose|m: int| 0 <= m < t.len() && #[trigger] t[m].0@ == e.0@;
                    assert(crate::order::lex_lt(v@[m].0@, v@[k as int].0@, false));
                    crate::order::lemma_lex_asymmetric(e.0@, e.0@, false);
                }
            }
            if enabling(e.1) {
                assert(enabled(as_map(t).insert(e.0@, e.1)) =~= enabled(as_map(t)).insert(e.0@, e.1));
            } else {
                assert(enabled(as_map(t).insert(e.0@, e.1)) =~= enabled(as_map(t)));
            }
        }
        if float_bits::f64_ge(v[k].1.threshold, ZERO) {
            let ghost before = r@;
            proof {
                assert(ascending(before.push(e), false)) by {
                    assert forall|a: int, b: int| 0 <= a < b < before.len() + 1 implies crate::order::lex_lt(#[trigger] before.push(e)[a].0@, #[trigger] before.push(e)[b].0@, false) by {
                        if b == before.len() {
                            let m = choose|m: int| 0 <= m < k && #[trigger] before[a] == v@[m];
                            assert(before.push(e)[a] == v@[m]);
                        } else {
                            assert(before.push(e)[a] == before[a] && before.push(e)[b] == before[b]);
                        }
                    }
                }
                lemma_as_map_push(before, e);
            }
            r.push(e);
            proof {
                assert forall|j: int| 0 <= j < r@.len() implies exists|m: int| 0 <= m < k + 1 && #[trigger] r@[j] == v@[m] by {
                    if j < before.len() {
                        let m = choose|m: int| 0 <= m < k && #[trigger] before[j] == v@[m];
                        assert(r@[j] == v@[m]);
                    } else {
                        assert(r@[j] == v@[k as int]);
                    }
                }
            }
        }
        k += 1;
    }
    proof {
        assert(v@.take(v@.len() as int) == v@);
    }
    r
}

/// Adding a pair whose key is larger than every key adds it to the map.
proof fn lemma_as_map_push<V>(v: Seq<(String, V)>, e: (String, V))
    requires
        ascending(v.push(e), false),
    ensures
        as_map(v.push(e)) == as_map(v).insert(e.0@, e.1),
{
    let w = v.push(e);
    assert(ascending(v, false)) by {
        assert forall|a: int, b: int| 0 <= a < b < v.len() implies crate::order::lex_lt(#[trigger] v[a].0@, #[trigger] v[b].0@, false) by {
            assert(w[a] == v[a] && w[b] == v[b]);
        }
    }
    assert(w == v.insert(v.len() as int, e));
    sorted_map::lemma_map_after_insert_pub(v, w, v.len() as int, false);
    assert(w[v.len() as int] == e);
}

/// The lintable paths among the project's files, in path order. The
/// project's files are its regular files, walked with Git ignore rules
/// honored, given relative to the project root.
pub fn discover(config: &Config, files: Vec<String>) -> (r: Result<Vec<String>, GlobError>)
    ensures
        r is Ok <==> config_globs_build(*config),
        r matches Ok(selected) ==> {
            &&& sorted_by_key(selected@, true)
            &&& selected@.to_multiset() == files@.filter(|p: String| config_lintable(*config, p@)).to_multiset()
            &&& (forall|i: int, j: int| 0 <= i < j < files@.len() ==> (#[trigger] files@[i])@ != (#[trigger] files@[j])@)
                ==> forall|i: int, j: int|
                0 <= i < j < selected@.len() ==> path_lt(#[trigger] selected@[i]@, #[trigger] selected@[j]@)
        },
{
    let matcher = FileMatcher::new(config)?;
    let ghost pred = |p: String| matcher.lintable(p@);
    let mut chosen: Vec<String> = Vec::new();
    let mut i: usize = 0;
    while i < files.len()
        invariant
            i <= files@.len(),
            matcher.wf(),
            pred == (|p: String| matcher.lintable(p@)),
            chosen@ == files@.take(i as int).filter(pred),
        decreases files@.len() - i,
    {
        proof {
            assert(files@.take(i + 1) == files@.take(i as int).push(files@[i as int]));
            files@.take(i as int).lemma_filter_push(files@[i as int], pred);
        }
        if matcher.is_lintable(files[i].as_str()) {
            chosen.push(files[i].clone());
        }
        i += 1;
    }
    proof {
        assert(files@.take(files@.len() as int) == files@);
    }
    proof {
        assert forall|p: String| #[trigger] matcher.lintable(p@) == config_lintable(*config, p@) by {
            matcher.lemma_built_from(*config, p@);
        }
        assert(pred =~= (|p: String| config_lintable(*config, p@)));
    }
    let selected = sort_by_key(chosen, true);
    proof {
        if forall|i: int, j: int| 0 <= i < j < files@.len() ==> (#[trigger] files@[i])@ != (#[trigger] files@[j])@ {
            assert forall|i: int, j: int| 0 <= i < j < files@.len() implies (#[trigger] files@[i]).sort_key()
                != (#[trigger] files@[j]).sort_key() by {
                assert(files@[i]@ != files@[j]@);
            }
            lemma_distinct_keys_unique(files@);
            lemma_keys_unique_filter(files@, pred);
            lemma_keys_unique_permutation(files@.filter(pred), selected@);
            lemma_sorted_strict(selected@, true);
            assert forall|i: int, j: int| 0 <= i < j < selected@.len() implies path_lt(
                #[trigger] selected@[i]@,
                #[trigger] selected@[j]@,
            ) by {
                assert(crate::order::lex_lt(selected@[i].sort_key(), selected@[j].sort_key(), true));
            }
        }
    }
    Ok(selected)
}

} // verus!

verus! {

/// Some loaded rule has the id.
pub open spec fn known_rule(rules: Seq<crate::rule::Rule>, id: Seq<char>) -> bool {
    exists|k: int| 0 <= k < rules.len() && #[trigger] rules[k].id@ == id
}

/// Every rule that the rule set enables is a loaded rule.
pub open spec fn set_rules_known(set: RuleSetMatcher, rules: Seq<crate::rule::Rule>) -> bool {
    forall|id: Seq<char>| #[trigger] set.rules_map().dom().contains(id) && enabling(set.rules_map()[id]) ==> known_rule(rules, id)
}

fn is_known(rules: &[crate::rule::Rule], id: &String) -> (r: bool)
    ensures
        r == known_rule(rules@, id@),
{
    let mut k: usize = 0;
    while k < rules.len()
        invariant
            k <= rules@.len(),
            forall|j: int| 0 <= j < k ==> rules@[j].id@ != id@,
        decreases rules@.len() - k,
    {
        if rules[k].id == *id {
            return true;
        }
        k += 1;
    }
    false
}

impl FileMatcher {
    /// The first enabled rule id that no loaded rule has: the first rule set
    /// that has one, and in it the first such id in id order.
    pub fn unknown_rule(&self, rules: &[crate::rule::Rule]) -> (r: Option<(usize, String)>)
        requires
            self.wf(),
        ensures
            r is None <==> forall|i: int| 0 <= i < self.sets().len() ==> set_rules_known(#[trigger] self.sets()[i], rules@),
            r matches Some((i, id)) ==> {
                &&& i < self.sets().len()
                &&& self.sets()[i as int].rules_map().dom().contains(id@)
                &&& enabling(self.sets()[i as int].rules_map()[id@])
                &&& !known_rule(rules@, id@)
                &&& forall|j: int| 0 <= j < i ==> set_rules_known(#[trigger] self.sets()[j], rules@)
            },
    {
        let mut i: usize = 0;
        while i < self.rule_sets.len()
            invariant
                i <= self.rule_sets@.len(),
                self.wf(),
                forall|j: int| 0 <= j < i ==> set_rules_known(#[trigger] self.sets()[j], rules@),
            decreases self.rule_sets@.len() - i,
        {
            let set = &self.rule_sets[i];
            proof {
                assert(self.sets()[i as int] == *set);
                assert(set.wf());
            }
            let mut k: usize = 0;
            while k < set.rules.len()
                invariant
                    k <= set.rules@.len(),
                    i < self.rule_sets@.len(),
                    self.sets()[i as int] == *set,
                    ascending(set.rules@, false),
                    forall|j: int| 0 <= j < i ==> set_rules_known(#[trigger] self.sets()[j], rules@),
                    forall|j: int| 0 <= j < k ==> enabling(set.rules@[j].1) ==> known_rule(rules@, #[trigger] set.rules@[j].0@),
                decreases set.rules@.len() - k,
            {
                if float_bits::f64_ge(set.rules[k].1.threshold, ZERO) && !is_known(rules, &set.rules[k].0) {
                    proof {
                        crate::sorted_map::lemma_as_map_index(set.rules@, false, k as int);
                        assert(set.rules_map().dom().contains(set.rules@[k as int].0@));
                        assert(!set_rules_known(self.sets()[i as int], rules@));
                    }
                    return Some((i, set.rules[k].0.clone()));
                }
                k += 1;
            }
            proof {
                assert forall|id: Seq<char>| #[trigger] set.rules_map().dom().contains(id) && enabling(set.rules_map()[id]) implies known_rule(rules@, id) by {
                    let j = choose|j: int| 0 <= j < set.rules@.len() && #[trigger] set.rules@[j].0@ == id;
                    crate::sorted_map::lemma_as_map_index(set.rules@, false, j);
                    assert(known_rule(rules@, set.rules@[j].0@));
                }
            }
            i += 1;
        }
        None
    }
}

} // verus!
