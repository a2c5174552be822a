//! The project configuration and its validation.
//!
//! Rule thresholds are IEEE 754 binary64 numbers held as their bit patterns
//! (see [`crate::float_bits`]); rule maps are held as vectors of `(id,
//! threshold)` pairs in ascending id order, the order of a `BTreeMap`.
use vstd::prelude::*;
use crate::float_bits::{self, is_finite, lt, ge, ZERO};
use crate::order::str_lt;

verus! {

/// Line detection settings.
#[derive(Clone, Debug)]
pub struct LineDetectionConfig {
    pub enabled: bool,
    /// At least one.
    pub max_questions_per_request: usize,
}

/// The optional project precondition command.
#[derive(Clone, Debug)]
pub struct PreconditionConfig {
    pub command: Vec<String>,
}

/// A set of files and the rules that apply to them.
#[derive(Clone, Debug)]
pub struct RuleSet {
    /// File globs relative to the config directory, such as `**/*.ts`.
    pub patterns: Vec<String>,
    pub exclude: Vec<String>,
    /// Rule ids with their minimum verdict confidence, as binary64 patterns.
    pub error: Vec<(String, u64)>,
    /// Rule ids with their minimum verdict confidence, as binary64 patterns.
    pub warn: Vec<(String, u64)>,
}

/// Watch mode settings.
#[derive(Clone, Debug)]
pub struct WatchConfig {
    pub debounce_milliseconds: u64,
}

/// The project configuration.
#[derive(Clone, Debug)]
pub struct Config {
    pub schema: Option<String>,
    pub exclude: Vec<String>,
    pub rules_dir: String,
    pub rule_sets: Vec<RuleSet>,
    pub system_prompt: String,
    pub cache_dir: String,
    pub typesafe_api_key_file: Option<String>,
    pub model: String,
    /// At least one.
    pub concurrency: usize,
    pub request_timeout_seconds: u64,
    pub line_detection: LineDetectionConfig,
    pub watch: WatchConfig,
    pub precondition: Option<PreconditionConfig>,
}

/// The ids of a rule map ascend strictly, as the keys of a map do.
pub open spec fn ids_ascending(entries: Seq<(String, u64)>) -> bool {
    forall|i: int, j: int|
        0 <= i < j < entries.len() ==> str_lt(#[trigger] entries[i].0@, #[trigger] entries[j].0@)
}

impl RuleSet {
    /// Both rule maps are maps: ids ascend strictly.
    pub open spec fn wf(&self) -> bool {
        ids_ascending(self.error@) && ids_ascending(self.warn@)
    }
}

impl Config {
    /// The counts that must not be zero are not, and the rule maps are maps.
    pub open spec fn wf(&self) -> bool {
        &&& self.concurrency > 0
        &&& self.line_detection.max_questions_per_request > 0
        &&& forall|i: int| 0 <= i < self.rule_sets@.len() ==> (#[trigger] self.rule_sets@[i]).wf()
    }
}

/// Why a configuration was rejected.
#[derive(Debug, PartialEq, Eq)]
pub enum ConfigError {
    /// `rule_sets` is empty.
    NoRuleSets,
    /// `precondition.command` is empty.
    EmptyPreconditionCommand,
    /// `rule_sets[index].match` is empty.
    EmptyPatterns { index: usize },
    /// `rule_sets[index]` names no error and no warn rule.
    NoRules { index: usize },
    /// `rule_sets[index]` enables `id` both as an error and as a warning.
    SeverityConflict { index: usize, id: String },
    /// A threshold of `rule_sets[index]` is infinite or NaN.
    NonFiniteThreshold { index: usize },
}

/// The threshold that a rule map gives `id`.
pub open spec fn lookup(entries: Seq<(String, u64)>, id: Seq<char>) -> Option<u64>
    decreases entries.len(),
{
    if entries.len() == 0 {
        None
    } else if entries[0].0@ == id {
        Some(entries[0].1)
    } else {
        lookup(entries.drop_first(), id)
    }
}

/// The `k`-th error rule is enabled (threshold not below zero) and the same
/// id is an enabled warn rule.
pub open spec fn conflict_at(rule_set: RuleSet, k: int) -> bool {
    &&& !lt(rule_set.error@[k].1, ZERO)
    &&& lookup(rule_set.warn@, rule_set.error@[k].0@) matches Some(w) && ge(w, ZERO)
}

/// Every threshold of the rule set is finite.
pub open spec fn all_finite(rule_set: RuleSet) -> bool {
    &&& forall|k: int| 0 <= k < rule_set.error@.len() ==> is_finite(#[trigger] rule_set.error@[k].1)
    &&& forall|k: int| 0 <= k < rule_set.warn@.len() ==> is_finite(#[trigger] rule_set.warn@[k].1)
}

/// What is wrong with `rule_sets[index]`, checked in the order the checks
/// are listed: patterns, rules, conflicts (the first in id order), finiteness.
pub open spec fn rule_set_error(rule_set: RuleSet, index: usize, err: ConfigError) -> bool {
    if rule_set.patterns@.len() == 0 {
        err == ConfigError::EmptyPatterns { index }
    } else if rule_set.error@.len() == 0 && rule_set.warn@.len() == 0 {
        err == ConfigError::NoRules { index }
    } else if exists|k: int| 0 <= k < rule_set.error@.len() && #[trigger] conflict_at(rule_set, k) {
        err matches ConfigError::SeverityConflict { index: i, id } && i == index && exists|k: int|
            0 <= k < rule_set.error@.len() && #[trigger] conflict_at(rule_set, k) && (forall|j: int|
                0 <= j < k ==> !#[trigger] conflict_at(rule_set, j)) && id@ == rule_set.error@[k].0@
    } else {
        !all_finite(rule_set) && err == ConfigError::NonFiniteThreshold { index }
    }
}

/// The rule set passes every check.
pub open spec fn rule_set_valid(rule_set: RuleSet) -> bool {
    &&& rule_set.patterns@.len() > 0
    &&& rule_set.error@.len() > 0 || rule_set.warn@.len() > 0
    &&& forall|k: int| 0 <= k < rule_set.error@.len() ==> !conflict_at(rule_set, k)
    &&& all_finite(rule_set)
}

/// The configuration passes every check.
pub open spec fn config_valid(config: Config) -> bool {
    &&& config.rule_sets@.len() > 0
    &&& config.precondition matches Some(p) ==> p.command@.len() > 0
    &&& forall|i: int| 0 <= i < config.rule_sets@.len() ==> rule_set_valid(#[trigger] config.rule_sets@[i])
}

/// The error that validation reports for an invalid configuration: the first
/// failing check, in the order listed by [`Config::validate`].
pub open spec fn config_error(config: Config, err: ConfigError) -> bool {
    if config.rule_sets@.len() == 0 {
        err == ConfigError::NoRuleSets
    } else if config.precondition matches Some(p) && p.command@.len() == 0 {
        err == ConfigError::EmptyPreconditionCommand
    } else {
        exists|i: int|
            0 <= i < config.rule_sets@.len() && !rule_set_valid(config.rule_sets@[i]) && (forall|j: int|
                0 <= j < i ==> rule_set_valid(#[trigger] config.rule_sets@[j])) && rule_set_error(
                config.rule_sets@[i],
                i as usize,
                err,
            )
    }
}

/// A rule map gives `id` a threshold exactly when some entry names `id`,
/// and the threshold is that of the first entry naming it.
pub proof fn lemma_lookup_finds(entries: Seq<(String, u64)>, id: Seq<char>)
    ensures
        lookup(entries, id) is Some <==> exists|i: int| 0 <= i < entries.len() && (#[trigger] entries[i]).0@ == id,
        lookup(entries, id) matches Some(t) ==> exists|i: int|
            0 <= i < entries.len() && (#[trigger] entries[i]).0@ == id && entries[i].1 == t && forall|j: int|
                0 <= j < i ==> (#[trigger] entries[j]).0@ != id,
    decreases entries.len(),
{
    if entries.len() > 0 {
        let rest = entries.drop_first();
        lemma_lookup_finds(rest, id);
        if entries[0].0@ == id {
            assert(entries[0].0@ == id);
        } else {
            assert forall|i: int| 0 <= i < rest.len() implies rest[i] == entries[i + 1] by {}
            if exists|i: int| 0 <= i < entries.len() && (#[trigger] entries[i]).0@ == id {
                let i = choose|i: int| 0 <= i < entries.len() && (#[trigger] entries[i]).0@ == id;
                assert(rest[i - 1].0@ == id);
            }
            if lookup(rest, id) is Some {
                let i = choose|i: int|
                    0 <= i < rest.len() && (#[trigger] rest[i]).0@ == id && rest[i].1 == lookup(rest, id)->0
                        && forall|j: int| 0 <= j < i ==> (#[trigger] rest[j]).0@ != id;
                assert(entries[i + 1] == rest[i]);
                assert forall|j: int| 0 <= j < i + 1 implies (#[trigger] entries[j]).0@ != id by {
                    if j > 0 {
                        assert(entries[j] == rest[j - 1]);
                    }
                }
            }
        }
    }
}

/// The rule set lists the id of its `k`-th error rule, with a threshold not
/// below zero, as its `w`-th warn rule with a threshold of at least zero, and
/// no earlier warn entry names that id.
pub open spec fn enabled_in_both(rule_set: RuleSet, k: int, w: int) -> bool {
    &&& 0 <= k < rule_set.error@.len()
    &&& 0 <= w < rule_set.warn@.len()
    &&& rule_set.warn@[w].0@ == rule_set.error@[k].0@
    &&& forall|j: int| 0 <= j < w ==> (#[trigger] rule_set.warn@[j]).0@ != rule_set.error@[k].0@
    &&& !lt(rule_set.error@[k].1, ZERO)
    &&& ge(rule_set.warn@[w].1, ZERO)
}

/// A rule set that lists one id with a threshold of at least zero among its
/// error rules and among its warn rules, where no earlier warn entry names
/// the id (so anywhere in the warn list when, as in a map, each id is
/// listed once), is invalid: validation rejects it.
pub proof fn lemma_severity_conflict_rejected(rule_set: RuleSet, k: int, w: int)
    requires
        enabled_in_both(rule_set, k, w),
    ensures
        conflict_at(rule_set, k),
        !rule_set_valid(rule_set),
{
    let id = rule_set.error@[k].0@;
    lemma_lookup_finds(rule_set.warn@, id);
    assert(rule_set.warn@[w].0@ == id);
    let i = choose|i: int|
        0 <= i < rule_set.warn@.len() && (#[trigger] rule_set.warn@[i]).0@ == id && rule_set.warn@[i].1
            == lookup(rule_set.warn@, id)->0 && forall|j: int| 0 <= j < i ==> (#[trigger] rule_set.warn@[j]).0@ != id;
    if i < w {
        assert(rule_set.warn@[i].0@ != id);
    } else if w < i {
        assert(rule_set.warn@[w].0@ != id);
    }
    assert(conflict_at(rule_set, k));
}

/// A configuration with a rule set that lists one id with a threshold of at
/// least zero both among its error rules and among its warn rules (the
/// first warn entry naming it) does not pass validation.
pub proof fn lemma_config_conflict_rejected(config: Config, i: int, k: int, w: int)
    requires
        0 <= i < config.rule_sets@.len(),
        enabled_in_both(config.rule_sets@[i], k, w),
    ensures
        !config_valid(config),
{
    lemma_severity_conflict_rejected(config.rule_sets@[i], k, w);
}

fn lookup_threshold(entries: &Vec<(String, u64)>, id: &String) -> (r: Option<u64>)
    ensures
        r == lookup(entries@, id@),
        r is Some <==> exists|i: int| 0 <= i < entries@.len() && (#[trigger] entries@[i]).0@ == id@,
        r matches Some(t) ==> exists|i: int|
            0 <= i < entries@.len() && (#[trigger] entries@[i]).0@ == id@ && entries@[i].1 == t && forall|j: int|
                0 <= j < i ==> (#[trigger] entries@[j]).0@ != id@,
{
    let mut i: usize = 0;
    proof {
        lemma_skip_zero(entries@);
    }
    while i < entries.len()
        invariant
            i <= entries.len(),
            lookup(entries@, id@) == lookup(entries@.skip(i as int), id@),
        decreases entries.len() - i,
    {
        proof {
            assert(entries@.skip(i as int)[0] == entries@[i as int]);
            assert(entries@.skip(i as int).drop_first() == entries@.skip(i + 1));
        }
        if entries[i].0 == *id {
            proof {
                lemma_lookup_finds(entries@, id@);
            }
            return Some(entries[i].1);
        }
        i += 1;
    }
    proof {
        lemma_lookup_finds(entries@, id@);
    }
    None
}

proof fn lemma_skip_zero<T>(s: Seq<T>)
    ensures
        s.skip(0) == s,
{
}

fn check_rule_set(rule_set: &RuleSet, index: usize) -> (r: Result<(), ConfigError>)
    ensures
        r is Ok <==> rule_set_valid(*rule_set),
        r matches Err(e) ==> rule_set_error(*rule_set, index, e),
{
    if rule_set.patterns.len() == 0 {
        return Err(ConfigError::EmptyPatterns { index });
    }
    if rule_set.error.len() == 0 && rule_set.warn.len() == 0 {
        return Err(ConfigError::NoRules { index });
    }
    let mut k: usize = 0;
    while k < rule_set.error.len()
        invariant
            k <= rule_set.error@.len(),
            rule_set.patterns@.len() > 0,
            !(rule_set.error@.len() == 0 && rule_set.warn@.len() == 0),
            forall|j: int| 0 <= j < k ==> !conflict_at(*rule_set, j),
        decreases rule_set.error@.len() - k,
    {
        let threshold = rule_set.error[k].1;
        let warned = lookup_threshold(&rule_set.warn, &rule_set.error[k].0);
        let conflicting = !float_bits::f64_lt(threshold, ZERO) && match warned {
            Some(w) => float_bits::f64_ge(w, ZERO),
            None => false,
        };
        if conflicting {
            let id = rule_set.error[k].0.clone();
            proof {
                assert(conflict_at(*rule_set, k as int));
                assert(rule_set.patterns@.len() > 0);
                assert(!(rule_set.error@.len() == 0 && rule_set.warn@.len() == 0));
                assert(id@ == rule_set.error@[k as int].0@);
            }
            return Err(ConfigError::SeverityConflict { index, id });
        }
        k += 1;
    }
    let mut k: usize = 0;
    while k < rule_set.error.len()
        invariant
            k <= rule_set.error@.len(),
            rule_set.patterns@.len() > 0,
            !(rule_set.error@.len() == 0 && rule_set.warn@.len() == 0),
            forall|j: int| 0 <= j < rule_set.error@.len() ==> !conflict_at(*rule_set, j),
            forall|j: int| 0 <= j < k ==> is_finite(#[trigger] rule_set.error@[j].1),
        decreases rule_set.error@.len() - k,
    {
        if !float_bits::f64_is_finite(rule_set.error[k].1) {
            proof {
                assert(!all_finite(*rule_set));
                assert(!exists|k: int| 0 <= k < rule_set.error@.len() && #[trigger] conflict_at(*rule_set, k));
            }
            return Err(ConfigError::NonFiniteThreshold { index });
        }
        k += 1;
    }
    let mut k: usize = 0;
    while k < rule_set.warn.len()
        invariant
            k <= rule_set.warn@.len(),
            rule_set.patterns@.len() > 0,
            !(rule_set.error@.len() == 0 && rule_set.warn@.len() == 0),
            forall|j: int| 0 <= j < rule_set.error@.len() ==> !conflict_at(*rule_set, j),
            forall|j: int| 0 <= j < rule_set.error@.len() ==> is_finite(#[trigger] rule_set.error@[j].1),
            forall|j: int| 0 <= j < k ==> is_finite(#[trigger] rule_set.warn@[j].1),
        decreases rule_set.warn@.len() - k,
    {
        if !float_bits::f64_is_finite(rule_set.warn[k].1) {
            proof {
                assert(!all_finite(*rule_set));
                assert(!exists|k: int| 0 <= k < rule_set.error@.len() && #[trigger] conflict_at(*rule_set, k));
            }
            return Err(ConfigError::NonFiniteThreshold { index });
        }
        k += 1;
    }
    Ok(())
}

impl Config {
    /// Checks the configuration: at least one rule set, a nonempty
    /// precondition command if there is one, and for each rule set in turn a
    /// pattern, a rule, no rule enabled both as an error and as a warning,
    /// and only finite thresholds. The first failing check is reported.
    pub fn validate(&self) -> (r: Result<(), ConfigError>)
        ensures
            r is Ok <==> config_valid(*self),
            r matches Err(e) ==> config_error(*self, e),
            forall|i: int, k: int, w: int|
                0 <= i < self.rule_sets@.len() && #[trigger] enabled_in_both(self.rule_sets@[i], k, w) ==> r is Err,
    {
        if self.rule_sets.len() == 0 {
            return Err(ConfigError::NoRuleSets);
        }
        match &self.precondition {
            Some(p) => {
                if p.command.len() == 0 {
                    return Err(ConfigError::EmptyPreconditionCommand);
                }
            },
            None => {},
        }
        let mut i: usize = 0;
        while i < self.rule_sets.len()
            invariant
                i <= self.rule_sets@.len(),
                self.rule_sets@.len() > 0,
                self.precondition matches Some(p) ==> p.command@.len() > 0,
                forall|j: int| 0 <= j < i ==> rule_set_valid(#[trigger] self.rule_sets@[j]),
            decreases self.rule_sets@.len() - i,
        {
            match check_rule_set(&self.rule_sets[i], i) {
                Err(e) => {
                    proof {
                        assert(!rule_set_valid(self.rule_sets@[i as int]));
                    }
                    return Err(e);
                },
                Ok(()) => {},
            }
            i += 1;
        }
        proof {
            assert forall|i: int, k: int, w: int|
                0 <= i < self.rule_sets@.len() && #[trigger] enabled_in_both(self.rule_sets@[i], k, w) implies false by {
                lemma_config_conflict_rejected(*self, i, k, w);
            }
        }
        Ok(())
    }
}

} // verus!

verus! {

/// `.jevlint-rules`
pub fn default_rules_dir() -> (r: String)
    ensures
        r@ == ".jevlint-rules"@,
{
    ".jevlint-rules".to_owned()
}

/// `.jevlint-system.md`
pub fn default_system_prompt() -> (r: String)
    ensures
        r@ == ".jevlint-system.md"@,
{
    ".jevlint-system.md".to_owned()
}

/// `.jevlint`
pub fn default_cache_dir() -> (r: String)
    ensures
        r@ == ".jevlint"@,
{
    ".jevlint".to_owned()
}

/// `jev-latest`
pub fn default_model() -> (r: String)
    ensures
        r@ == "jev-latest"@,
{
    "jev-latest".to_owned()
}

/// Five files at a time.
pub fn default_concurrency() -> (r: usize)
    ensures
        r == 5,
{
    5
}

/// Thirty seconds.
pub fn default_timeout() -> (r: u64)
    ensures
        r == 30,
{
    30
}

impl Default for LineDetectionConfig {
    fn default() -> (r: Self)
        ensures
            r.enabled,
            r.max_questions_per_request == 200,
    {
        LineDetectionConfig { enabled: true, max_questions_per_request: 200 }
    }
}

impl Default for WatchConfig {
    fn default() -> (r: Self)
        ensures
            r.debounce_milliseconds == 300,
    {
        WatchConfig { debounce_milliseconds: 300 }
    }
}

impl Default for Config {
    /// The defaults: no rule sets, `target/**` and `.jevlint/**` excluded.
    fn default() -> (r: Self)
        ensures
            r.schema is None,
            r.exclude@.len() == 2,
            r.exclude@[0]@ == "target/**"@,
            r.exclude@[1]@ == ".jevlint/**"@,
            r.rules_dir@ == ".jevlint-rules"@,
            r.rule_sets@.len() == 0,
            r.system_prompt@ == ".jevlint-system.md"@,
            r.cache_dir@ == ".jevlint"@,
            r.typesafe_api_key_file is None,
            r.model@ == "jev-latest"@,
            r.concurrency == 5,
            r.request_timeout_seconds == 30,
            r.line_detection.enabled,
            r.line_detection.max_questions_per_request == 200,
            r.watch.debounce_milliseconds == 300,
            r.precondition is None,
            r.wf(),
    {
        let mut exclude: Vec<String> = Vec::new();
        exclude.push("target/**".to_owned());
        exclude.push(".jevlint/**".to_owned());
        Config {
            schema: None,
            exclude,
            rules_dir: default_rules_dir(),
            rule_sets: Vec::new(),
            system_prompt: default_system_prompt(),
            cache_dir: default_cache_dir(),
            typesafe_api_key_file: None,
            model: default_model(),
            concurrency: default_concurrency(),
            request_timeout_seconds: default_timeout(),
            line_detection: LineDetectionConfig::default(),
            watch: WatchConfig::default(),
            precondition: None,
        }
    }
}

/// Why no API key could be found.
#[derive(Debug, PartialEq, Eq)]
pub enum KeyError {
    /// `HOME` is needed but not set.
    HomeNotSet,
    /// The key file at `path` holds nothing but white space.
    EmptyKeyFile { path: String },
}

/// The path without a leading `~` component and the separators after it,
/// or `None` when its first component is not `~`.
pub open spec fn strip_tilde(path: Seq<char>) -> Option<Seq<char>> {
    if path == seq!['~'] {
        Some(Seq::empty())
    } else if path.len() >= 2 && path[0] == '~' && path[1] == '/' {
        Some(drop_separators(path.skip(1)))
    } else {
        None
    }
}

/// The path without its leading separators.
pub open spec fn drop_separators(path: Seq<char>) -> Seq<char>
    decreases path.len(),
{
    if path.len() > 0 && path[0] == '/' {
        drop_separators(path.drop_first())
    } else {
        path
    }
}

/// Where a configured key path points: absolute paths as they are, `~`
/// paths below the home directory, others below the project root.
pub open spec fn key_path_of(root: Seq<char>, path: Seq<char>, home: Option<Seq<char>>) -> Result<
    Seq<char>,
    KeyError,
> {
    if path.len() > 0 && path[0] == '/' {
        Ok(path)
    } else {
        match strip_tilde(path) {
            Some(rest) => match home {
                Some(h) => Ok(crate::path::join_path(h, rest)),
                None => Err(KeyError::HomeNotSet),
            },
            None => Ok(crate::path::join_path(root, path)),
        }
    }
}

/// The text of an optional string.
pub open spec fn text_of(value: Option<&str>) -> Option<Seq<char>> {
    match value {
        Some(v) => Some(v@),
        None => None,
    }
}

/// Resolves the configured key file path; `home` is the value of `HOME`.
pub fn resolve_key_path(root: &str, path: &str, home: Option<&str>) -> (r: Result<String, KeyError>)
    ensures
        r matches Ok(p) ==> key_path_of(root@, path@, text_of(home)) == Ok::<Seq<char>, KeyError>(p@),
        r matches Err(e) ==> key_path_of(root@, path@, text_of(home)) == Err::<Seq<char>, KeyError>(e),
{
    let cs = crate::text::chars_of(path);
    if cs.len() > 0 && cs[0] == '/' {
        return Ok(path.to_owned());
    }
    let tilde = (cs.len() == 1 && cs[0] == '~') || (cs.len() >= 2 && cs[0] == '~' && cs[1] == '/');
    proof {
        if cs@ == seq!['~'] {
            assert(cs@[0] == '~');
        }
    }
    if tilde {
        let mut start: usize = 1;
        proof {
            assert(cs@.skip(1) == cs@.subrange(1, cs@.len() as int));
        }
        while start < cs.len() && cs[start] == '/'
            invariant
                1 <= start <= cs@.len(),
                cs@.len() >= 2 ==> strip_tilde(cs@) == Some(drop_separators(cs@.subrange(start as int, cs@.len() as int))),
            decreases cs@.len() - start,
        {
            proof {
                assert(cs@.subrange(start as int, cs@.len() as int).drop_first() == cs@.subrange(start + 1, cs@.len() as int));
            }
            start += 1;
        }
        proof {
            if cs@.len() >= 2 {
                assert(drop_separators(cs@.subrange(start as int, cs@.len() as int)) == cs@.subrange(start as int, cs@.len() as int));
            } else {
                assert(cs@ == seq!['~']);
                assert(cs@.subrange(start as int, cs@.len() as int) == Seq::<char>::empty());
            }
        }
        let rest = crate::text::string_of(cs.as_slice(), start, cs.len());
        match home {
            Some(h) => Ok(crate::path::join(h, rest.as_str())),
            None => Err(KeyError::HomeNotSet),
        }
    } else {
        proof {
            if strip_tilde(cs@) is Some {
                if cs@ == seq!['~'] {
                    assert(cs@.len() == 1 && cs@[0] == '~');
                }
            }
        }
        Ok(crate::path::join(root, path))
    }
}

/// `~/.config/jevlint/typesafe-api-key` below the home directory.
pub fn default_key_path(home: Option<&str>) -> (r: Result<String, KeyError>)
    ensures
        r matches Ok(p) ==> home matches Some(h) && p@ == crate::path::join_path(
            h@,
            ".config/jevlint/typesafe-api-key"@,
        ),
        r is Err <==> home is None,
        r is Err ==> r == Err::<String, KeyError>(KeyError::HomeNotSet),
{
    match home {
        Some(h) => Ok(crate::path::join(h, ".config/jevlint/typesafe-api-key")),
        None => Err(KeyError::HomeNotSet),
    }
}

/// The key taken from the environment: the trimmed value of
/// `TYPESAFE_API_KEY`, unless it is unset or only white space.
pub fn key_from_environment(value: Option<&str>) -> (r: Option<String>)
    ensures
        r matches Some(k) ==> value matches Some(v) && k@ == crate::text::trim(v@) && k@.len() > 0,
        r is None <==> (value is None || crate::text::trim(value->0@).len() == 0),
{
    match value {
        None => None,
        Some(v) => {
            let t = crate::text::trimmed(v);
            if t.as_str().is_empty() {
                None
            } else {
                Some(t)
            }
        },
    }
}

/// The key read from the key file at `path`: its trimmed contents, which
/// must not be empty.
pub fn key_from_file(path: &str, contents: &str) -> (r: Result<String, KeyError>)
    ensures
        r matches Ok(k) ==> k@ == crate::text::trim(contents@) && k@.len() > 0,
        r is Err <==> crate::text::trim(contents@).len() == 0,
        r matches Err(e) ==> e matches KeyError::EmptyKeyFile { path: p } && p@ == path@,
{
    let t = crate::text::trimmed(contents);
    if t.as_str().is_empty() {
        Err(KeyError::EmptyKeyFile { path: path.to_owned() })
    } else {
        Ok(t)
    }
}

/// Where the API key comes from.
#[derive(Debug, PartialEq, Eq)]
pub enum KeySource {
    /// The trimmed value of `TYPESAFE_API_KEY`.
    Environment(String),
    /// The key file at this path.
    File(String),
}

/// The key that the environment gives: the trimmed value of the variable,
/// unless it is unset or only white space.
pub open spec fn env_key(variable: Option<&str>) -> Option<Seq<char>> {
    match variable {
        Some(v) => if crate::text::trim(v@).len() > 0 {
            Some(crate::text::trim(v@))
        } else {
            None
        },
        None => None,
    }
}

/// The key file: the configured one, resolved as [`key_path_of`] says, or
/// `~/.config/jevlint/typesafe-api-key`.
pub open spec fn key_file_path(config: Config, root: Seq<char>, home: Option<Seq<char>>) -> Result<Seq<char>, KeyError> {
    match config.typesafe_api_key_file {
        Some(p) => key_path_of(root, p@, home),
        None => match home {
            Some(h) => Ok(crate::path::join_path(h, ".config/jevlint/typesafe-api-key"@)),
            None => Err(KeyError::HomeNotSet),
        },
    }
}

/// Where the API key is taken from: the environment variable when it holds
/// more than white space, otherwise the key file. `variable` is the value
/// of `TYPESAFE_API_KEY` and `home` that of `HOME`.
pub fn api_key_source(config: &Config, root: &str, variable: Option<&str>, home: Option<&str>) -> (r: Result<KeySource, KeyError>)
    ensures
        env_key(variable) matches Some(k) ==> (r matches Ok(KeySource::Environment(x)) && x@ == k),
        env_key(variable) is None ==> match r {
            Ok(KeySource::File(p)) => key_file_path(*config, root@, text_of(home)) == Ok::<Seq<char>, KeyError>(p@),
            Ok(KeySource::Environment(_)) => false,
            Err(e) => key_file_path(*config, root@, text_of(home)) == Err::<Seq<char>, KeyError>(e),
        },
{
    match key_from_environment(variable) {
        Some(key) => return Ok(KeySource::Environment(key)),
        None => {},
    }
    let path = match &config.typesafe_api_key_file {
        Some(p) => resolve_key_path(root, p.as_str(), home),
        None => default_key_path(home),
    };
    match path {
        Ok(p) => Ok(KeySource::File(p)),
        Err(e) => Err(e),
    }
}

} // verus!
