//! Validation of a configuration: the checks, in the order in which the first failing one is
//! reported, and the independent checks that are reported together.
use crate::config::{
    Config, ConfigOverride, FingerprintSuppression, ForbiddenDependency, LayerConfig, PathSuppression, RuleConfig,
    RuleOptions, CURRENT_CONFIG_VERSION,
};
use crate::map::OrderedMap;
use crate::decimal::{decimal, decimal_text, parse_u32, u32_value};
use crate::domain::{ConfigError, ConfigErrorKind};
use crate::glob::{glob_error, glob_rejection};
use crate::rule_registry::{configurable_ids, configurable_of, descriptor, option_supported, rule_table};
use crate::sort::{is_sorted, lemma_reorder_contains, sort_ranked, Ranked};
use crate::text::{
    lemma_text_lt_irreflexive, lemma_text_lt_negatively_transitive, lemma_text_lt_total, lemma_text_lt_transitive,
    text_less, text_lt,
};
use crate::text::{concat, has_prefix, owned, split_char, split_seq, starts_with, text_equal, trim, trimmed};
use crate::text_set::{texts_contain, texts_of};
use vstd::prelude::*;

verus! {

/// A configuration problem: its kind, the configuration path it concerns and its message.
pub type Problem = (ConfigErrorKind, Seq<char>, Seq<char>);

/// The first problem that `f` finds among the elements of `s`, by position.
pub open spec fn first_some<T>(s: Seq<T>, f: spec_fn(int, T) -> Option<Problem>) -> Option<Problem>
    decreases s.len(),
{
    if s.len() == 0 {
        None
    } else {
        match first_some(s.drop_last(), f) {
            Some(p) => Some(p),
            None => f(s.len() - 1, s.last()),
        }
    }
}

/// Every problem that `f` finds among the elements of `s`, in order.
pub open spec fn all_some<T>(s: Seq<T>, f: spec_fn(int, T) -> Option<Problem>) -> Seq<Problem>
    decreases s.len(),
{
    if s.len() == 0 {
        Seq::empty()
    } else {
        let earlier = all_some(s.drop_last(), f);
        match f(s.len() - 1, s.last()) {
            Some(p) => earlier.push(p),
            None => earlier,
        }
    }
}

/// `a` when it is a problem, else `b`.
pub open spec fn or_else(a: Option<Problem>, b: Option<Problem>) -> Option<Problem> {
    match a {
        Some(p) => Some(p),
        None => b,
    }
}

/// The problem as a sequence of zero or one elements.
pub open spec fn listed(p: Option<Problem>) -> Seq<Problem> {
    match p {
        Some(q) => seq![q],
        None => Seq::empty(),
    }
}

/// `e` reports the problem `p`.
pub open spec fn reports(e: ConfigError, p: Problem) -> bool {
    &&& e.kind == p.0
    &&& e.path matches Some(q) && q@ == p.1
    &&& e.message@ == p.2
}

/// `r` reports exactly the problem `p`, or nothing when there is none.
pub open spec fn reports_opt(r: Option<ConfigError>, p: Option<Problem>) -> bool {
    match (r, p) {
        (Some(e), Some(q)) => reports(e, q),
        (None, None) => true,
        _ => false,
    }
}

pub proof fn lemma_first_some_step<T>(s: Seq<T>, f: spec_fn(int, T) -> Option<Problem>, i: int)
    requires
        0 <= i < s.len(),
    ensures
        first_some(s.take(i + 1), f) == or_else(first_some(s.take(i), f), f(i, s[i])),
        all_some(s.take(i + 1), f) == all_some(s.take(i), f) + listed(f(i, s[i])),
{
    assert(s.take(i + 1).drop_last() =~= s.take(i));
    assert(s.take(i + 1).last() == s[i]);
    match f(i, s[i]) {
        Some(p) => {},
        None => {
            assert(all_some(s.take(i), f) + listed(f(i, s[i])) =~= all_some(s.take(i), f));
        },
    }
}

/// Once a prefix has a problem, the whole sequence has the same first problem.
pub proof fn lemma_first_some_prefix<T>(s: Seq<T>, f: spec_fn(int, T) -> Option<Problem>, k: int)
    requires
        0 <= k <= s.len(),
        first_some(s.take(k), f) is Some,
    ensures
        first_some(s, f) == first_some(s.take(k), f),
    decreases s.len() - k,
{
    if k == s.len() {
        assert(s.take(k) =~= s);
    } else {
        let t = s.drop_last();
        assert(t.take(k) =~= s.take(k));
        lemma_first_some_prefix(t, f, k);
    }
}

pub proof fn lemma_take_all<T>(s: Seq<T>)
    ensures
        s.take(s.len() as int) == s,
{
    assert(s.take(s.len() as int) =~= s);
}

fn located(kind: ConfigErrorKind, path: String, message: String) -> (r: ConfigError)
    ensures
        reports(r, (kind, path@, message@)),
{
    ConfigError { kind, message, path: Some(path) }
}

fn join3(a: &str, b: &str, c: &str) -> (r: String)
    ensures
        r@ == a@ + b@ + c@,
{
    let ab = concat(a, b);
    concat(ab.as_str(), c)
}

/// The text is empty or white space only.
pub open spec fn blank(s: Seq<char>) -> bool {
    trimmed(s).len() == 0
}

fn is_blank(s: &str) -> (r: bool)
    ensures
        r == blank(s@),
{
    let t = trim(s);
    t.as_str().is_empty()
}

/// The problem with the first pattern of `patterns` that globset rejects, reported at `field`.
pub open spec fn pattern_problem(patterns: Seq<Seq<char>>, field: Seq<char>) -> Option<Problem> {
    first_some(
        patterns,
        |i: int, p: Seq<char>|
            match glob_rejection(p) {
                Some(m) => Some((ConfigErrorKind::InvalidPattern, field, "invalid glob `"@ + p + "`: "@ + m)),
                None => None,
            },
    )
}

/// Checks that globset accepts every pattern.
pub fn check_patterns(patterns: &Vec<String>, field: &str) -> (r: Option<ConfigError>)
    ensures
        reports_opt(r, pattern_problem(texts_of(patterns@), field@)),
{
    let ghost s = texts_of(patterns@);
    let ghost f = |i: int, p: Seq<char>|
        match glob_rejection(p) {
            Some(m) => Some((ConfigErrorKind::InvalidPattern, field@, "invalid glob `"@ + p + "`: "@ + m)),
            None => None,
        };
    let mut i: usize = 0;
    while i < patterns.len()
        invariant
            i <= patterns@.len(),
            s == texts_of(patterns@),
            f == (|i: int, p: Seq<char>|
                match glob_rejection(p) {
                    Some(m) => Some((ConfigErrorKind::InvalidPattern, field@, "invalid glob `"@ + p + "`: "@ + m)),
                    None => None,
                }),
            first_some(s.take(i as int), f) is None,
        decreases patterns@.len() - i,
    {
        proof {
            lemma_first_some_step(s, f, i as int);
            assert(s[i as int] == patterns@[i as int]@);
        }
        match glob_error(patterns[i].as_str()) {
            Some(reason) => {
                let message = join3("invalid glob `", patterns[i].as_str(), "`: ");
                let message = concat(message.as_str(), reason.as_str());
                proof {
                    lemma_first_some_prefix(s, f, i + 1);
                }
                return Some(located(ConfigErrorKind::InvalidPattern, owned(field), message));
            },
            None => {},
        }
        i = i + 1;
    }
    proof {
        lemma_take_all(s);
    }
    None
}

/// The value is not a non-empty relative path inside the project: it is blank, absolute (starts
/// with `/`), or has a `..` component.
pub open spec fn outside_project(value: Seq<char>) -> bool {
    blank(value) || has_prefix(value, "/"@) || split_seq(value, '/').contains(".."@)
}

/// The problem with a path value that leaves the project, reported at `field`.
pub open spec fn relative_problem(value: Seq<char>, field: Seq<char>) -> Option<Problem> {
    if outside_project(value) {
        Some(
            (
                ConfigErrorKind::ConflictingConfig,
                field,
                "`"@ + value + "` must be a non-empty relative path inside the project"@,
            ),
        )
    } else {
        None
    }
}

fn check_relative(value: &str, field: &str) -> (r: Option<ConfigError>)
    ensures
        reports_opt(r, relative_problem(value@, field@)),
{
    let segments = split_char(value, '/');
    assert(texts_of(segments@) == split_seq(value@, '/'));
    if is_blank(value) || starts_with(value, "/") || texts_contain(&segments, "..") {
        let message = join3("`", value, "` must be a non-empty relative path inside the project");
        Some(located(ConfigErrorKind::ConflictingConfig, owned(field), message))
    } else {
        None
    }
}

/// The problem with the first of `values` that leaves the project, reported at `field`.
pub open spec fn relatives_problem(values: Seq<Seq<char>>, field: Seq<char>) -> Option<Problem> {
    first_some(values, |i: int, v: Seq<char>| relative_problem(v, field))
}

fn check_relatives(values: &Vec<&str>, field: &str) -> (r: Option<ConfigError>)
    ensures
        reports_opt(r, relatives_problem(values@.map_values(|s: &str| s@), field@)),
{
    let ghost s = values@.map_values(|s: &str| s@);
    let ghost f = |i: int, v: Seq<char>| relative_problem(v, field@);
    let mut i: usize = 0;
    while i < values.len()
        invariant
            i <= values@.len(),
            s == values@.map_values(|s: &str| s@),
            f == (|i: int, v: Seq<char>| relative_problem(v, field@)),
            first_some(s.take(i as int), f) is None,
        decreases values@.len() - i,
    {
        proof {
            lemma_first_some_step(s, f, i as int);
        }
        let found = check_relative(values[i], field);
        if found.is_some() {
            proof {
                lemma_first_some_prefix(s, f, i + 1);
            }
            return found;
        }
        i = i + 1;
    }
    proof {
        lemma_take_all(s);
    }
    None
}

/// A leap year of the Gregorian calendar.
pub open spec fn leap_year(y: int) -> bool {
    y % 4 == 0 && (y % 100 != 0 || y % 400 == 0)
}

/// The number of days in `month`, or 0 for a month that does not exist.
pub open spec fn month_days(month: int, leap: bool) -> int {
    if month == 1 || month == 3 || month == 5 || month == 7 || month == 8 || month == 10 || month == 12 {
        31
    } else if month == 4 || month == 6 || month == 9 || month == 11 {
        30
    } else if month == 2 {
        if leap {
            29
        } else {
            28
        }
    } else {
        0
    }
}

/// A `YYYY-MM-DD` date: three `-`-separated `u32` parts, a year from 1970 on and a day that
/// exists in its month.
pub open spec fn valid_date(date: Seq<char>) -> bool {
    let parts = split_seq(date, '-');
    &&& parts.len() == 3
    &&& forall|i: int| 0 <= i < 3 ==> #[trigger] u32_value(parts[i]) is Some
    &&& {
        let y = u32_value(parts[0])->0;
        let m = u32_value(parts[1])->0;
        let d = u32_value(parts[2])->0;
        y >= 1970 && d > 0 && d <= month_days(m, leap_year(y))
    }
}

fn date_is_valid(date: &str) -> (r: bool)
    ensures
        r == valid_date(date@),
{
    let parts = split_char(date, '-');
    let ghost views = split_seq(date@, '-');
    assert(texts_of(parts@) == views);
    if parts.len() != 3 {
        return false;
    }
    assert(views[0] == parts@[0]@ && views[1] == parts@[1]@ && views[2] == parts@[2]@);
    let year = match parse_u32(parts[0].as_str()) {
        Some(v) => v,
        None => return false,
    };
    let month = match parse_u32(parts[1].as_str()) {
        Some(v) => v,
        None => return false,
    };
    let day = match parse_u32(parts[2].as_str()) {
        Some(v) => v,
        None => return false,
    };
    assert(forall|i: int| 0 <= i < 3 ==> #[trigger] u32_value(views[i]) is Some) by {
        assert(u32_value(views[0]) is Some && u32_value(views[1]) is Some && u32_value(views[2]) is Some);
    }
    let leap = year % 4 == 0 && (year % 100 != 0 || year % 400 == 0);
    let maximum: u32 = if month == 1 || month == 3 || month == 5 || month == 7 || month == 8 || month == 10
        || month == 12 {
        31
    } else if month == 4 || month == 6 || month == 9 || month == 11 {
        30
    } else if month == 2 {
        if leap {
            29
        } else {
            28
        }
    } else {
        0
    };
    year >= 1970 && day > 0 && day <= maximum
}

/// The problem with a suppression's owner, ticket or expiration date, reported under `path`.
pub open spec fn metadata_problem(
    owner: Option<String>,
    ticket: Option<String>,
    expires_at: Option<String>,
    path: Seq<char>,
) -> Option<Problem> {
    if owner matches Some(o) && blank(o@) {
        Some((ConfigErrorKind::ConflictingConfig, path + ".owner"@, "suppression owner cannot be empty"@))
    } else if ticket matches Some(t) && blank(t@) {
        Some((ConfigErrorKind::ConflictingConfig, path + ".ticket"@, "suppression ticket cannot be empty"@))
    } else if expires_at matches Some(d) && !valid_date(d@) {
        Some(
            (
                ConfigErrorKind::ConflictingConfig,
                path + ".expires_at"@,
                "suppression expiration must be a valid YYYY-MM-DD date"@,
            ),
        )
    } else {
        None
    }
}

fn check_metadata(
    owner: &Option<String>,
    ticket: &Option<String>,
    expires_at: &Option<String>,
    path: &str,
) -> (r: Option<ConfigError>)
    ensures
        reports_opt(r, metadata_problem(*owner, *ticket, *expires_at, path@)),
{
    if let Some(o) = owner {
        if is_blank(o.as_str()) {
            return Some(
                located(
                    ConfigErrorKind::ConflictingConfig,
                    concat(path, ".owner"),
                    owned("suppression owner cannot be empty"),
                ),
            );
        }
    }
    if let Some(t) = ticket {
        if is_blank(t.as_str()) {
            return Some(
                located(
                    ConfigErrorKind::ConflictingConfig,
                    concat(path, ".ticket"),
                    owned("suppression ticket cannot be empty"),
                ),
            );
        }
    }
    if let Some(d) = expires_at {
        if !date_is_valid(d.as_str()) {
            return Some(
                located(
                    ConfigErrorKind::ConflictingConfig,
                    concat(path, ".expires_at"),
                    owned("suppression expiration must be a valid YYYY-MM-DD date"),
                ),
            );
        }
    }
    None
}

/// `id` names a rule that users can configure.
pub open spec fn known_rule(id: Seq<char>) -> bool {
    configurable_of(rule_table()).contains(id)
}

fn is_known_rule(id: &str) -> (r: bool)
    ensures
        r == known_rule(id@),
{
    let ids = configurable_ids();
    let ghost views = configurable_of(rule_table());
    let mut i: usize = 0;
    while i < ids.len()
        invariant
            i <= ids@.len(),
            ids@.map_values(|s: &'static str| s@) == views,
            views == configurable_of(rule_table()),
            forall|k: int| 0 <= k < i ==> views[k] != id@,
        decreases ids@.len() - i,
    {
        assert(views[i as int] == ids@[i as int]@);
        if text_equal(ids[i], id) {
            assert(views[i as int] == id@);
            return true;
        }
        i = i + 1;
    }
    false
}

fn index_text(prefix: &str, i: usize) -> (r: String)
    ensures
        r@ == prefix@ + decimal_text(i as nat),
{
    let n = decimal(i as u64);
    concat(prefix, n.as_str())
}

/// The version is not the one this engine reads.
pub open spec fn version_problem(c: Config) -> Option<Problem> {
    if c.version != CURRENT_CONFIG_VERSION {
        Some(
            (
                ConfigErrorKind::UnsupportedVersion,
                "version"@,
                "unsupported config version "@ + decimal_text(c.version as nat) + "; expected 1"@,
            ),
        )
    } else {
        None
    }
}

fn check_version(c: &Config) -> (r: Option<ConfigError>)
    ensures
        reports_opt(r, version_problem(*c)),
{
    if c.version != CURRENT_CONFIG_VERSION {
        let v = decimal(c.version as u64);
        let message = join3("unsupported config version ", v.as_str(), "; expected 1");
        Some(located(ConfigErrorKind::UnsupportedVersion, owned("version"), message))
    } else {
        None
    }
}

/// A configured rule that does not exist.
pub open spec fn unknown_rule_problem(e: (String, RuleConfig)) -> Option<Problem> {
    if known_rule(e.0@) {
        None
    } else {
        Some((ConfigErrorKind::UnknownRule, "rules."@ + e.0@, "unknown rule `"@ + e.0@ + "`"@))
    }
}

fn check_unknown_rule(id: &String) -> (r: Option<ConfigError>)
    ensures
        forall|c: RuleConfig| reports_opt(r, #[trigger] unknown_rule_problem((*id, c))),
{
    if is_known_rule(id.as_str()) {
        None
    } else {
        Some(
            located(
                ConfigErrorKind::UnknownRule,
                concat("rules.", id.as_str()),
                join3("unknown rule `", id.as_str(), "`"),
            ),
        )
    }
}

/// The first configured rule that does not exist.
pub open spec fn rules_problem(c: Config) -> Option<Problem> {
    first_some(c.rules.pairs(), unknown_check())
}

/// `unknown_rule_problem` as a check of each rule entry.
pub open spec fn unknown_check() -> spec_fn(int, (String, RuleConfig)) -> Option<Problem> {
    |i: int, e: (String, RuleConfig)| unknown_rule_problem(e)
}

fn check_rules(c: &Config) -> (r: Option<ConfigError>)
    ensures
        reports_opt(r, rules_problem(*c)),
{
    let entries = c.rules.entries();
    let ghost s = c.rules.pairs();
    let ghost f = unknown_check();
    let mut i: usize = 0;
    while i < entries.len()
        invariant
            i <= entries@.len(),
            entries@ == s,
            s == c.rules.pairs(),
            f == unknown_check(),
            first_some(s.take(i as int), f) is None,
        decreases entries@.len() - i,
    {
        proof {
            lemma_first_some_step(s, f, i as int);
        }
        let found = check_unknown_rule(&entries[i].0);
        proof {
            assert(reports_opt(found, unknown_rule_problem((entries@[i as int].0, entries@[i as int].1))));
            assert((entries@[i as int].0, entries@[i as int].1) == s[i as int]);
            assert(f(i as int, s[i as int]) == unknown_rule_problem(s[i as int]));
        }
        if found.is_some() {
            proof {
                lemma_first_some_prefix(s, f, i + 1);
            }
            return found;
        }
        i = i + 1;
    }
    proof {
        lemma_take_all(s);
    }
    None
}

/// No project root is configured.
pub open spec fn roots_problem(c: Config) -> Option<Problem> {
    if c.project.roots@.len() == 0 {
        Some((ConfigErrorKind::ConflictingConfig, "project.roots"@, "at least one project root is required"@))
    } else {
        None
    }
}

fn check_roots(c: &Config) -> (r: Option<ConfigError>)
    ensures
        reports_opt(r, roots_problem(*c)),
{
    if c.project.roots.len() == 0 {
        Some(
            located(
                ConfigErrorKind::ConflictingConfig,
                owned("project.roots"),
                owned("at least one project root is required"),
            ),
        )
    } else {
        None
    }
}

/// The coverage minimum is above 100.
pub open spec fn coverage_problem(c: Config) -> Option<Problem> {
    if c.architecture.coverage.minimum matches Some(m) && m > 100 {
        Some(
            (
                ConfigErrorKind::InvalidDependency,
                "architecture.coverage.minimum"@,
                "architecture coverage minimum must be between 0 and 100"@,
            ),
        )
    } else {
        None
    }
}

fn check_coverage(c: &Config) -> (r: Option<ConfigError>)
    ensures
        reports_opt(r, coverage_problem(*c)),
{
    match c.architecture.coverage.minimum {
        Some(m) => if m > 100 {
            Some(
                located(
                    ConfigErrorKind::InvalidDependency,
                    owned("architecture.coverage.minimum"),
                    owned("architecture coverage minimum must be between 0 and 100"),
                ),
            )
        } else {
            None
        },
        None => None,
    }
}

/// A blank custom resolution condition at position `i`.
pub open spec fn condition_problem(i: int, condition: String) -> Option<Problem> {
    if blank(condition@) {
        Some(
            (
                ConfigErrorKind::ConflictingConfig,
                "resolution.custom_conditions."@ + decimal_text(i as nat),
                "custom resolution conditions cannot be empty"@,
            ),
        )
    } else {
        None
    }
}

/// A framework adapter other than `nextjs` enabled at position `i`.
pub open spec fn framework_problem(i: int, framework: String) -> Option<Problem> {
    if framework@ != "nextjs"@ {
        Some(
            (
                ConfigErrorKind::ConflictingConfig,
                "framework.enabled."@ + decimal_text(i as nat),
                "unsupported framework adapter `"@ + framework@ + "`"@,
            ),
        )
    } else {
        None
    }
}

fn condition_error(i: usize, condition: &String) -> (r: Option<ConfigError>)
    ensures
        reports_opt(r, condition_problem(i as int, *condition)),
{
    if is_blank(condition.as_str()) {
        Some(
            located(
                ConfigErrorKind::ConflictingConfig,
                index_text("resolution.custom_conditions.", i),
                owned("custom resolution conditions cannot be empty"),
            ),
        )
    } else {
        None
    }
}

fn framework_error(i: usize, framework: &String) -> (r: Option<ConfigError>)
    ensures
        reports_opt(r, framework_problem(i as int, *framework)),
{
    if !text_equal(framework.as_str(), "nextjs") {
        Some(
            located(
                ConfigErrorKind::ConflictingConfig,
                index_text("framework.enabled.", i),
                join3("unsupported framework adapter `", framework.as_str(), "`"),
            ),
        )
    } else {
        None
    }
}

/// A layer may import `target` only when it is the layer itself or a configured layer.
pub open spec fn import_problem(layers: OrderedMap<String, LayerConfig>, name: Seq<char>, target: Seq<char>) -> Option<
    Problem,
> {
    if target != name && layers.lookup(target) is None {
        Some(
            (
                ConfigErrorKind::InvalidDependency,
                "architecture.layers."@ + name + ".canImport"@,
                "unknown layer `"@ + target + "`"@,
            ),
        )
    } else {
        None
    }
}

/// The problem with a layer: a rejected pattern, then an import of an unknown layer.
pub open spec fn layer_problem(layers: OrderedMap<String, LayerConfig>, e: (String, LayerConfig)) -> Option<Problem> {
    or_else(
        pattern_problem(texts_of(e.1.patterns@), "architecture.layers."@ + e.0@ + ".patterns"@),
        first_some(texts_of(e.1.can_import@), import_check(layers, e.0@)),
    )
}

/// `import_problem` for the layer `name`, as a check of each permitted import.
pub open spec fn import_check(layers: OrderedMap<String, LayerConfig>, name: Seq<char>) -> spec_fn(int, Seq<char>) -> Option<
    Problem,
> {
    |j: int, t: Seq<char>| import_problem(layers, name, t)
}

fn layer_error(layers: &OrderedMap<String, LayerConfig>, name: &String, layer: &LayerConfig) -> (r: Option<
    ConfigError,
>)
    ensures
        reports_opt(r, layer_problem(*layers, (*name, *layer))),
{
    let field = join3("architecture.layers.", name.as_str(), ".patterns");
    let found = check_patterns(&layer.patterns, field.as_str());
    if found.is_some() {
        return found;
    }
    let ghost s = texts_of(layer.can_import@);
    let ghost f = import_check(*layers, name@);
    let mut j: usize = 0;
    while j < layer.can_import.len()
        invariant
            j <= layer.can_import@.len(),
            s == texts_of(layer.can_import@),
            f == import_check(*layers, name@),
            pattern_problem(texts_of(layer.patterns@), "architecture.layers."@ + name@ + ".patterns"@) is None,
            first_some(s.take(j as int), f) is None,
        decreases layer.can_import@.len() - j,
    {
        proof {
            lemma_first_some_step(s, f, j as int);
            assert(s[j as int] == layer.can_import@[j as int]@);
        }
        let target = layer.can_import[j].as_str();
        if !text_equal(target, name.as_str()) && !layers.contains_key(target) {
            proof {
                lemma_first_some_prefix(s, f, j + 1);
            }
            return Some(
                located(
                    ConfigErrorKind::InvalidDependency,
                    join3("architecture.layers.", name.as_str(), ".canImport"),
                    join3("unknown layer `", target, "`"),
                ),
            );
        }
        j = j + 1;
    }
    proof {
        lemma_take_all(s);
    }
    None
}

/// The first layer with a problem, in name order.
pub open spec fn layers_problem(c: Config) -> Option<Problem> {
    first_some(
        c.architecture.layers.pairs(),
        |i: int, e: (String, LayerConfig)| layer_problem(c.architecture.layers, e),
    )
}

fn check_layers(c: &Config) -> (r: Option<ConfigError>)
    ensures
        reports_opt(r, layers_problem(*c)),
{
    let layers = &c.architecture.layers;
    let entries = layers.entries();
    let ghost s = c.architecture.layers.pairs();
    let ghost f = |i: int, e: (String, LayerConfig)| layer_problem(c.architecture.layers, e);
    let mut i: usize = 0;
    while i < entries.len()
        invariant
            i <= entries@.len(),
            entries@ == s,
            s == c.architecture.layers.pairs(),
            *layers == c.architecture.layers,
            f == (|i: int, e: (String, LayerConfig)| layer_problem(c.architecture.layers, e)),
            first_some(s.take(i as int), f) is None,
        decreases entries@.len() - i,
    {
        proof {
            lemma_first_some_step(s, f, i as int);
            assert((entries@[i as int].0, entries@[i as int].1) == s[i as int]);
        }
        let found = layer_error(layers, &entries[i].0, &entries[i].1);
        if found.is_some() {
            proof {
                lemma_first_some_prefix(s, f, i + 1);
            }
            return found;
        }
        i = i + 1;
    }
    proof {
        lemma_take_all(s);
    }
    None
}

/// The problem with the path suppression at position `i`: its pattern, its rules, its reason
/// (when reasons are required) and its metadata, in that order.
pub open spec fn path_suppression_problem(require_reason: bool, i: int, s: PathSuppression) -> Option<Problem> {
    let prefix = "suppressions.paths."@ + decimal_text(i as nat);
    or_else(
        pattern_problem(seq![s.pattern@], prefix + ".pattern"@),
        if s.rules@.len() == 0 {
            Some(
                (
                    ConfigErrorKind::ConflictingConfig,
                    prefix + ".rules"@,
                    "a path suppression must name at least one rule"@,
                ),
            )
        } else {
            or_else(
                first_some(texts_of(s.rules@), rule_reference_check(prefix)),
                if require_reason && blank(s.reason@) {
                    Some((ConfigErrorKind::ConflictingConfig, prefix + ".reason"@, "path suppression requires a reason"@))
                } else {
                    metadata_problem(s.owner, s.ticket, s.expires_at, prefix)
                },
            )
        },
    )
}

/// A suppression under `prefix` that names an unknown rule.
pub open spec fn rule_reference_check(prefix: Seq<char>) -> spec_fn(int, Seq<char>) -> Option<Problem> {
    |j: int, r: Seq<char>|
        if known_rule(r) {
            None
        } else {
            Some((ConfigErrorKind::UnknownRule, prefix + ".rules"@, "suppression references unknown rule `"@ + r + "`"@))
        }
}

fn single(s: &String) -> (r: Vec<String>)
    ensures
        texts_of(r@) == seq![s@],
{
    let mut v: Vec<String> = Vec::new();
    v.push(s.clone());
    assert(texts_of(v@) =~= seq![s@]);
    v
}

fn path_suppression_error(require_reason: bool, i: usize, s: &PathSuppression) -> (r: Option<ConfigError>)
    ensures
        reports_opt(r, path_suppression_problem(require_reason, i as int, *s)),
{
    let prefix = index_text("suppressions.paths.", i);
    let ghost p = prefix@;
    let field = concat(prefix.as_str(), ".pattern");
    let found = check_patterns(&single(&s.pattern), field.as_str());
    if found.is_some() {
        return found;
    }
    if s.rules.len() == 0 {
        return Some(
            located(
                ConfigErrorKind::ConflictingConfig,
                concat(prefix.as_str(), ".rules"),
                owned("a path suppression must name at least one rule"),
            ),
        );
    }
    let ghost rs = texts_of(s.rules@);
    let ghost f = rule_reference_check(p);
    let mut j: usize = 0;
    while j < s.rules.len()
        invariant
            j <= s.rules@.len(),
            rs == texts_of(s.rules@),
            p == prefix@,
            f == rule_reference_check(p),
            p == "suppressions.paths."@ + decimal_text(i as nat),
            s.rules@.len() > 0,
            pattern_problem(seq![s.pattern@], p + ".pattern"@) is None,
            first_some(rs.take(j as int), f) is None,
        decreases s.rules@.len() - j,
    {
        proof {
            lemma_first_some_step(rs, f, j as int);
            assert(rs[j as int] == s.rules@[j as int]@);
        }
        if !is_known_rule(s.rules[j].as_str()) {
            proof {
                lemma_first_some_prefix(rs, f, j + 1);
            }
            return Some(
                located(
                    ConfigErrorKind::UnknownRule,
                    concat(prefix.as_str(), ".rules"),
                    join3("suppression references unknown rule `", s.rules[j].as_str(), "`"),
                ),
            );
        }
        j = j + 1;
    }
    proof {
        lemma_take_all(rs);
    }
    if require_reason && is_blank(s.reason.as_str()) {
        return Some(
            located(
                ConfigErrorKind::ConflictingConfig,
                concat(prefix.as_str(), ".reason"),
                owned("path suppression requires a reason"),
            ),
        );
    }
    check_metadata(&s.owner, &s.ticket, &s.expires_at, prefix.as_str())
}

/// The problem with the fingerprint suppression at position `i`.
pub open spec fn fingerprint_problem(require_reason: bool, i: int, s: FingerprintSuppression) -> Option<Problem> {
    let prefix = "suppressions.fingerprints."@ + decimal_text(i as nat);
    if blank(s.fingerprint@) {
        Some((ConfigErrorKind::ConflictingConfig, prefix + ".fingerprint"@, "suppression fingerprint cannot be empty"@))
    } else if require_reason && blank(s.reason@) {
        Some((ConfigErrorKind::ConflictingConfig, prefix + ".reason"@, "fingerprint suppression requires a reason"@))
    } else {
        metadata_problem(s.owner, s.ticket, s.expires_at, prefix)
    }
}

fn fingerprint_error(require_reason: bool, i: usize, s: &FingerprintSuppression) -> (r: Option<ConfigError>)
    ensures
        reports_opt(r, fingerprint_problem(require_reason, i as int, *s)),
{
    let prefix = index_text("suppressions.fingerprints.", i);
    if is_blank(s.fingerprint.as_str()) {
        return Some(
            located(
                ConfigErrorKind::ConflictingConfig,
                concat(prefix.as_str(), ".fingerprint"),
                owned("suppression fingerprint cannot be empty"),
            ),
        );
    }
    if require_reason && is_blank(s.reason.as_str()) {
        return Some(
            located(
                ConfigErrorKind::ConflictingConfig,
                concat(prefix.as_str(), ".reason"),
                owned("fingerprint suppression requires a reason"),
            ),
        );
    }
    check_metadata(&s.owner, &s.ticket, &s.expires_at, prefix.as_str())
}

/// The problem with the dependency policy at position `i` of the list at `base`: its `from`
/// glob, then its `to` glob.
pub open spec fn forbidden_problem(base: Seq<char>, i: int, d: ForbiddenDependency) -> Option<Problem> {
    let prefix = base + "."@ + decimal_text(i as nat);
    or_else(
        pattern_problem(seq![d.from@], prefix + ".from"@),
        pattern_problem(seq![d.to@], prefix + ".to"@),
    )
}

fn forbidden_error(base: &str, i: usize, d: &ForbiddenDependency) -> (r: Option<ConfigError>)
    ensures
        reports_opt(r, forbidden_problem(base@, i as int, *d)),
{
    let with_dot = concat(base, ".");
    let prefix = index_text(with_dot.as_str(), i);
    let from_field = concat(prefix.as_str(), ".from");
    let found = check_patterns(&single(&d.from), from_field.as_str());
    if found.is_some() {
        return found;
    }
    let to_field = concat(prefix.as_str(), ".to");
    check_patterns(&single(&d.to), to_field.as_str())
}

/// Options that only a whole-project evaluation can honour.
pub open spec fn structural(o: RuleOptions) -> bool {
    o.max_depth is Some || o.max_fan_out is Some || o.max_fan_in is Some || o.entrypoints@.len() > 0
}

/// The problem with the rule entry `e` of the override whose path prefix is `prefix`.
pub open spec fn override_rule_problem(prefix: Seq<char>, e: (String, RuleConfig)) -> Option<Problem> {
    if !known_rule(e.0@) {
        Some(
            (
                ConfigErrorKind::UnknownRule,
                prefix + ".rules."@ + e.0@,
                "override references unknown rule `"@ + e.0@ + "`"@,
            ),
        )
    } else if e.1 matches RuleConfig::Detailed(o) && structural(o) {
        Some(
            (
                ConfigErrorKind::ConflictingConfig,
                prefix + ".rules."@ + e.0@,
                "path overrides may change only rule enablement and severity; structural options are project-wide"@,
            ),
        )
    } else {
        None
    }
}

/// `override_rule_problem` under `prefix`, as a check of each rule entry.
pub open spec fn override_rule_check(prefix: Seq<char>) -> spec_fn(int, (String, RuleConfig)) -> Option<Problem> {
    |j: int, e: (String, RuleConfig)| override_rule_problem(prefix, e)
}

/// The problem with the override at position `i`.
pub open spec fn override_problem(i: int, o: ConfigOverride) -> Option<Problem> {
    let prefix = "overrides."@ + decimal_text(i as nat);
    if o.files@.len() == 0 {
        Some(
            (
                ConfigErrorKind::ConflictingConfig,
                prefix + ".files"@,
                "an override must include at least one file glob"@,
            ),
        )
    } else {
        or_else(
            pattern_problem(texts_of(o.files@), prefix + ".files"@),
            or_else(
                pattern_problem(texts_of(o.excluded_files@), prefix + ".excluded_files"@),
                first_some(o.rules.pairs(), override_rule_check(prefix)),
            ),
        )
    }
}

fn is_structural(o: &RuleOptions) -> (r: bool)
    ensures
        r == structural(*o),
{
    o.max_depth.is_some() || o.max_fan_out.is_some() || o.max_fan_in.is_some() || o.entrypoints.len() > 0
}

fn override_rule_error(prefix: &str, id: &String, rule: &RuleConfig) -> (r: Option<ConfigError>)
    ensures
        reports_opt(r, override_rule_problem(prefix@, (*id, *rule))),
{
    let rules_prefix = concat(prefix, ".rules.");
    if !is_known_rule(id.as_str()) {
        return Some(
            located(
                ConfigErrorKind::UnknownRule,
                concat(rules_prefix.as_str(), id.as_str()),
                join3("override references unknown rule `", id.as_str(), "`"),
            ),
        );
    }
    match rule.options() {
        Some(options) => if is_structural(options) {
            Some(
                located(
                    ConfigErrorKind::ConflictingConfig,
                    concat(rules_prefix.as_str(), id.as_str()),
                    owned(
                        "path overrides may change only rule enablement and severity; structural options are project-wide",
                    ),
                ),
            )
        } else {
            None
        },
        None => None,
    }
}

fn override_error(i: usize, o: &ConfigOverride) -> (r: Option<ConfigError>)
    ensures
        reports_opt(r, override_problem(i as int, *o)),
{
    let prefix = index_text("overrides.", i);
    if o.files.len() == 0 {
        return Some(
            located(
                ConfigErrorKind::ConflictingConfig,
                concat(prefix.as_str(), ".files"),
                owned("an override must include at least one file glob"),
            ),
        );
    }
    let files_field = concat(prefix.as_str(), ".files");
    let found = check_patterns(&o.files, files_field.as_str());
    if found.is_some() {
        return found;
    }
    let excluded_field = concat(prefix.as_str(), ".excluded_files");
    let found = check_patterns(&o.excluded_files, excluded_field.as_str());
    if found.is_some() {
        return found;
    }
    let entries = o.rules.entries();
    let ghost s = o.rules.pairs();
    let ghost p = prefix@;
    let ghost f = override_rule_check(p);
    let mut j: usize = 0;
    while j < entries.len()
        invariant
            j <= entries@.len(),
            entries@ == s,
            s == o.rules.pairs(),
            p == prefix@,
            f == override_rule_check(p),
            p == "overrides."@ + decimal_text(i as nat),
            o.files@.len() > 0,
            pattern_problem(texts_of(o.files@), p + ".files"@) is None,
            pattern_problem(texts_of(o.excluded_files@), p + ".excluded_files"@) is None,
            first_some(s.take(j as int), f) is None,
        decreases entries@.len() - j,
    {
        proof {
            lemma_first_some_step(s, f, j as int);
            assert((entries@[j as int].0, entries@[j as int].1) == s[j as int]);
        }
        let found = override_rule_error(prefix.as_str(), &entries[j].0, &entries[j].1);
        if found.is_some() {
            proof {
                lemma_first_some_prefix(s, f, j + 1);
            }
            return found;
        }
        j = j + 1;
    }
    proof {
        lemma_take_all(s);
    }
    None
}

/// An option configured for a rule that does not consume it.
pub open spec fn unsupported_option(id: Seq<char>, name: Seq<char>, configured: bool) -> Option<Problem> {
    if configured && !option_supported(id, name) {
        Some(
            (
                ConfigErrorKind::ConflictingConfig,
                "rules."@ + id + "."@ + name,
                "rule `"@ + id + "` does not support option `"@ + name + "`"@,
            ),
        )
    } else {
        None
    }
}

/// A limit configured as zero.
pub open spec fn zero_option(id: Seq<char>, name: Seq<char>, value: Option<usize>) -> Option<Problem> {
    if value == Some(0usize) {
        Some((ConfigErrorKind::ConflictingConfig, "rules."@ + id + "."@ + name, "`"@ + name + "` must be greater than zero"@))
    } else {
        None
    }
}

/// The problem with the detailed options of rule `id`: unsupported options first, then zero
/// limits, then rejected entrypoint globs.
pub open spec fn options_problem(id: Seq<char>, o: RuleOptions) -> Option<Problem> {
    or_else(
        unsupported_option(id, "max_depth"@, o.max_depth is Some),
        or_else(
            unsupported_option(id, "max_fan_out"@, o.max_fan_out is Some),
            or_else(
                unsupported_option(id, "max_fan_in"@, o.max_fan_in is Some),
                or_else(
                    unsupported_option(id, "entrypoints"@, o.entrypoints@.len() > 0),
                    or_else(
                        zero_option(id, "max_depth"@, o.max_depth),
                        or_else(
                            zero_option(id, "max_fan_out"@, o.max_fan_out),
                            or_else(
                                zero_option(id, "max_fan_in"@, o.max_fan_in),
                                pattern_problem(texts_of(o.entrypoints@), "rules."@ + id + ".entrypoints"@),
                            ),
                        ),
                    ),
                ),
            ),
        ),
    )
}

fn supported(id: &str, name: &str) -> (r: bool)
    ensures
        r == option_supported(id@, name@),
{
    proof {
        let t = rule_table();
        assert(t[5].0 == "ARCH-006"@ && t[6].0 == "ARCH-007"@ && t[7].0 == "ARCH-008"@ && t[8].0 == "ARCH-009"@);
    }
    match descriptor(id) {
        Some(d) => d.supports_option(name),
        None => false,
    }
}

fn unsupported_error(id: &str, name: &str, configured: bool) -> (r: Option<ConfigError>)
    ensures
        reports_opt(r, unsupported_option(id@, name@, configured)),
{
    if configured && !supported(id, name) {
        let path = join3("rules.", id, ".");
        let path = concat(path.as_str(), name);
        let message = join3("rule `", id, "` does not support option `");
        let message = join3(message.as_str(), name, "`");
        Some(located(ConfigErrorKind::ConflictingConfig, path, message))
    } else {
        None
    }
}

fn zero_error(id: &str, name: &str, value: Option<usize>) -> (r: Option<ConfigError>)
    ensures
        reports_opt(r, zero_option(id@, name@, value)),
{
    if value == Some(0usize) {
        let path = join3("rules.", id, ".");
        let path = concat(path.as_str(), name);
        Some(located(ConfigErrorKind::ConflictingConfig, path, join3("`", name, "` must be greater than zero")))
    } else {
        None
    }
}

fn options_error(id: &str, o: &RuleOptions) -> (r: Option<ConfigError>)
    ensures
        reports_opt(r, options_problem(id@, *o)),
{
    let found = unsupported_error(id, "max_depth", o.max_depth.is_some());
    if found.is_some() {
        return found;
    }
    let found = unsupported_error(id, "max_fan_out", o.max_fan_out.is_some());
    if found.is_some() {
        return found;
    }
    let found = unsupported_error(id, "max_fan_in", o.max_fan_in.is_some());
    if found.is_some() {
        return found;
    }
    let found = unsupported_error(id, "entrypoints", o.entrypoints.len() > 0);
    if found.is_some() {
        return found;
    }
    let found = zero_error(id, "max_depth", o.max_depth);
    if found.is_some() {
        return found;
    }
    let found = zero_error(id, "max_fan_out", o.max_fan_out);
    if found.is_some() {
        return found;
    }
    let found = zero_error(id, "max_fan_in", o.max_fan_in);
    if found.is_some() {
        return found;
    }
    let field = join3("rules.", id, ".entrypoints");
    check_patterns(&o.entrypoints, field.as_str())
}

/// `options_problem` for a rule entry with detailed options.
pub open spec fn rule_options_check() -> spec_fn(int, (String, RuleConfig)) -> Option<Problem> {
    |i: int, e: (String, RuleConfig)|
        match e.1 {
            RuleConfig::Detailed(o) => options_problem(e.0@, o),
            RuleConfig::Severity(_) => None,
        }
}

fn rule_options_error(id: &String, rule: &RuleConfig) -> (r: Option<ConfigError>)
    ensures
        forall|i: int| reports_opt(r, #[trigger] (rule_options_check())(i, (*id, *rule))),
{
    match rule {
        RuleConfig::Detailed(options) => options_error(id.as_str(), options),
        RuleConfig::Severity(_) => None,
    }
}

pub open spec fn path_check(require_reason: bool) -> spec_fn(int, PathSuppression) -> Option<Problem> {
    |i: int, s: PathSuppression| path_suppression_problem(require_reason, i, s)
}

pub open spec fn fingerprint_check(require_reason: bool) -> spec_fn(int, FingerprintSuppression) -> Option<Problem> {
    |i: int, s: FingerprintSuppression| fingerprint_problem(require_reason, i, s)
}

pub open spec fn condition_check() -> spec_fn(int, String) -> Option<Problem> {
    |i: int, x: String| condition_problem(i, x)
}

pub open spec fn framework_check() -> spec_fn(int, String) -> Option<Problem> {
    |i: int, x: String| framework_problem(i, x)
}

pub open spec fn forbidden_check(base: Seq<char>) -> spec_fn(int, ForbiddenDependency) -> Option<Problem> {
    |i: int, d: ForbiddenDependency| forbidden_problem(base, i, d)
}

pub open spec fn override_check() -> spec_fn(int, ConfigOverride) -> Option<Problem> {
    |i: int, o: ConfigOverride| override_problem(i, o)
}

fn check_path_suppressions(c: &Config) -> (r: Option<ConfigError>)
    ensures
        reports_opt(r, first_some(c.suppressions.paths@, path_check(c.suppressions.require_reason))),
{
    let items = &c.suppressions.paths;
    let ghost s = c.suppressions.paths@;
    let ghost f = path_check(c.suppressions.require_reason);
    let mut i: usize = 0;
    while i < items.len()
        invariant
            i <= items@.len(),
            items@ == s,
            s == c.suppressions.paths@,
            f == path_check(c.suppressions.require_reason),
            first_some(s.take(i as int), f) is None,
        decreases items@.len() - i,
    {
        proof {
            lemma_first_some_step(s, f, i as int);
        }
        let found = path_suppression_error(c.suppressions.require_reason, i, &items[i]);
        if found.is_some() {
            proof {
                lemma_first_some_prefix(s, f, i + 1);
            }
            return found;
        }
        i = i + 1;
    }
    proof {
        lemma_take_all(s);
    }
    None
}

fn check_fingerprints(c: &Config) -> (r: Option<ConfigError>)
    ensures
        reports_opt(r, first_some(c.suppressions.fingerprints@, fingerprint_check(c.suppressions.require_reason))),
{
    let items = &c.suppressions.fingerprints;
    let ghost s = c.suppressions.fingerprints@;
    let ghost f = fingerprint_check(c.suppressions.require_reason);
    let mut i: usize = 0;
    while i < items.len()
        invariant
            i <= items@.len(),
            items@ == s,
            s == c.suppressions.fingerprints@,
            f == fingerprint_check(c.suppressions.require_reason),
            first_some(s.take(i as int), f) is None,
        decreases items@.len() - i,
    {
        proof {
            lemma_first_some_step(s, f, i as int);
        }
        let found = fingerprint_error(c.suppressions.require_reason, i, &items[i]);
        if found.is_some() {
            proof {
                lemma_first_some_prefix(s, f, i + 1);
            }
            return found;
        }
        i = i + 1;
    }
    proof {
        lemma_take_all(s);
    }
    None
}

fn check_conditions(c: &Config) -> (r: Option<ConfigError>)
    ensures
        reports_opt(r, first_some(c.resolution.custom_conditions@, condition_check())),
{
    let items = &c.resolution.custom_conditions;
    let ghost s = c.resolution.custom_conditions@;
    let ghost f = condition_check();
    let mut i: usize = 0;
    while i < items.len()
        invariant
            i <= items@.len(),
            items@ == s,
            s == c.resolution.custom_conditions@,
            f == condition_check(),
            first_some(s.take(i as int), f) is None,
        decreases items@.len() - i,
    {
        proof {
            lemma_first_some_step(s, f, i as int);
        }
        let found = condition_error(i, &items[i]);
        if found.is_some() {
            proof {
                lemma_first_some_prefix(s, f, i + 1);
            }
            return found;
        }
        i = i + 1;
    }
    proof {
        lemma_take_all(s);
    }
    None
}

fn check_frameworks(c: &Config) -> (r: Option<ConfigError>)
    ensures
        reports_opt(r, first_some(c.framework.enabled@, framework_check())),
{
    let items = &c.framework.enabled;
    let ghost s = c.framework.enabled@;
    let ghost f = framework_check();
    let mut i: usize = 0;
    while i < items.len()
        invariant
            i <= items@.len(),
            items@ == s,
            s == c.framework.enabled@,
            f == framework_check(),
            first_some(s.take(i as int), f) is None,
        decreases items@.len() - i,
    {
        proof {
            lemma_first_some_step(s, f, i as int);
        }
        let found = framework_error(i, &items[i]);
        if found.is_some() {
            proof {
                lemma_first_some_prefix(s, f, i + 1);
            }
            return found;
        }
        i = i + 1;
    }
    proof {
        lemma_take_all(s);
    }
    None
}

fn check_forbidden(c: &Config) -> (r: Option<ConfigError>)
    ensures
        reports_opt(r, first_some(c.architecture.forbidden_dependencies@, forbidden_check("architecture.forbidden_dependencies"@))),
{
    let items = &c.architecture.forbidden_dependencies;
    let ghost s = c.architecture.forbidden_dependencies@;
    let ghost f = forbidden_check("architecture.forbidden_dependencies"@);
    let mut i: usize = 0;
    while i < items.len()
        invariant
            i <= items@.len(),
            items@ == s,
            s == c.architecture.forbidden_dependencies@,
            f == forbidden_check("architecture.forbidden_dependencies"@),
            first_some(s.take(i as int), f) is None,
        decreases items@.len() - i,
    {
        proof {
            lemma_first_some_step(s, f, i as int);
        }
        let found = forbidden_error("architecture.forbidden_dependencies", i, &items[i]);
        if found.is_some() {
            proof {
                lemma_first_some_prefix(s, f, i + 1);
            }
            return found;
        }
        i = i + 1;
    }
    proof {
        lemma_take_all(s);
    }
    None
}

fn check_forbidden_packages(c: &Config) -> (r: Option<ConfigError>)
    ensures
        reports_opt(r, first_some(c.architecture.forbidden_package_dependencies@, forbidden_check("architecture.forbidden_package_dependencies"@))),
{
    let items = &c.architecture.forbidden_package_dependencies;
    let ghost s = c.architecture.forbidden_package_dependencies@;
    let ghost f = forbidden_check("architecture.forbidden_package_dependencies"@);
    let mut i: usize = 0;
    while i < items.len()
        invariant
            i <= items@.len(),
            items@ == s,
            s == c.architecture.forbidden_package_dependencies@,
            f == forbidden_check("architecture.forbidden_package_dependencies"@),
            first_some(s.take(i as int), f) is None,
        decreases items@.len() - i,
    {
        proof {
            lemma_first_some_step(s, f, i as int);
        }
        let found = forbidden_error("architecture.forbidden_package_dependencies", i, &items[i]);
        if found.is_some() {
            proof {
                lemma_first_some_prefix(s, f, i + 1);
            }
            return found;
        }
        i = i + 1;
    }
    proof {
        lemma_take_all(s);
    }
    None
}

fn check_overrides(c: &Config) -> (r: Option<ConfigError>)
    ensures
        reports_opt(r, first_some(c.overrides@, override_check())),
{
    let items = &c.overrides;
    let ghost s = c.overrides@;
    let ghost f = override_check();
    let mut i: usize = 0;
    while i < items.len()
        invariant
            i <= items@.len(),
            items@ == s,
            s == c.overrides@,
            f == override_check(),
            first_some(s.take(i as int), f) is None,
        decreases items@.len() - i,
    {
        proof {
            lemma_first_some_step(s, f, i as int);
        }
        let found = override_error(i, &items[i]);
        if found.is_some() {
            proof {
                lemma_first_some_prefix(s, f, i + 1);
            }
            return found;
        }
        i = i + 1;
    }
    proof {
        lemma_take_all(s);
    }
    None
}

fn check_rule_options(c: &Config) -> (r: Option<ConfigError>)
    ensures
        reports_opt(r, first_some(c.rules.pairs(), rule_options_check())),
{
    let entries = c.rules.entries();
    let ghost s = c.rules.pairs();
    let ghost f = rule_options_check();
    let mut i: usize = 0;
    while i < entries.len()
        invariant
            i <= entries@.len(),
            entries@ == s,
            s == c.rules.pairs(),
            f == rule_options_check(),
            first_some(s.take(i as int), f) is None,
        decreases entries@.len() - i,
    {
        proof {
            lemma_first_some_step(s, f, i as int);
            assert((entries@[i as int].0, entries@[i as int].1) == s[i as int]);
        }
        let found = rule_options_error(&entries[i].0, &entries[i].1);
        proof {
            assert(reports_opt(found, f(i as int, s[i as int])));
        }
        if found.is_some() {
            proof {
                lemma_first_some_prefix(s, f, i + 1);
            }
            return found;
        }
        i = i + 1;
    }
    proof {
        lemma_take_all(s);
    }
    None
}

/// The feature roots in effect: the configured list, or the single `root` when it is empty.
pub open spec fn effective_roots_of(f: crate::config::FeatureConfig) -> Seq<Seq<char>> {
    if f.roots@.len() == 0 {
        seq![f.root@]
    } else {
        texts_of(f.roots@)
    }
}

/// The checks on the version, the rules and the paths.
pub open spec fn basics_problem(c: Config) -> Option<Problem> {
    or_else(
        version_problem(c),
        or_else(
            rules_problem(c),
            or_else(
                roots_problem(c),
                or_else(
                    relatives_problem(texts_of(c.project.roots@), "project.roots"@),
                    or_else(
                        relatives_problem(effective_roots_of(c.architecture.features), "architecture.features.roots"@),
                        relative_problem(c.cache.directory@, "cache.directory"@),
                    ),
                ),
            ),
        ),
    )
}

/// The checks on the layers, the coverage and the file globs.
pub open spec fn layout_problem(c: Config) -> Option<Problem> {
    or_else(
        layers_problem(c),
        or_else(
            coverage_problem(c),
            or_else(
                pattern_problem(
                    texts_of(c.architecture.coverage.allow_unassigned@),
                    "architecture.coverage.allow_unassigned"@,
                ),
                or_else(
                    pattern_problem(texts_of(c.project.includes@), "project.include"@),
                    pattern_problem(texts_of(c.project.exclude@), "project.exclude"@),
                ),
            ),
        ),
    )
}

/// The checks on suppressions, resolution conditions and framework adapters.
pub open spec fn policy_problem(c: Config) -> Option<Problem> {
    or_else(
        first_some(c.suppressions.paths@, path_check(c.suppressions.require_reason)),
        or_else(
            first_some(c.suppressions.fingerprints@, fingerprint_check(c.suppressions.require_reason)),
            or_else(
                first_some(c.resolution.custom_conditions@, condition_check()),
                first_some(c.framework.enabled@, framework_check()),
            ),
        ),
    )
}

/// The checks on entrypoint and package globs, dependency policies, overrides and rule options.
pub open spec fn rules_detail_problem(c: Config) -> Option<Problem> {
    or_else(
        pattern_problem(
            texts_of(c.architecture.features.public_entrypoints@),
            "architecture.features.public_entrypoints"@,
        ),
        or_else(
            pattern_problem(
                texts_of(c.runtime.browser_incompatible_packages@),
                "runtime.browser_incompatible_packages"@,
            ),
            or_else(
                pattern_problem(texts_of(c.runtime.edge_incompatible_packages@), "runtime.edge_incompatible_packages"@),
                or_else(
                    first_some(
                        c.architecture.forbidden_dependencies@,
                        forbidden_check("architecture.forbidden_dependencies"@),
                    ),
                    or_else(
                        first_some(
                            c.architecture.forbidden_package_dependencies@,
                            forbidden_check("architecture.forbidden_package_dependencies"@),
                        ),
                        or_else(
                            first_some(c.overrides@, override_check()),
                            first_some(c.rules.pairs(), rule_options_check()),
                        ),
                    ),
                ),
            ),
        ),
    )
}

/// The first problem of the configuration, checking in a fixed order.
pub open spec fn first_problem(c: Config) -> Option<Problem> {
    or_else(
        basics_problem(c),
        or_else(layout_problem(c), or_else(policy_problem(c), rules_detail_problem(c))),
    )
}

fn check_basics(c: &Config) -> (r: Option<ConfigError>)
    ensures
        reports_opt(r, basics_problem(*c)),
{
    let found = check_version(c);
    if found.is_some() {
        return found;
    }
    let found = check_rules(c);
    if found.is_some() {
        return found;
    }
    let found = check_roots(c);
    if found.is_some() {
        return found;
    }
    let mut roots: Vec<&str> = Vec::new();
    let mut i: usize = 0;
    while i < c.project.roots.len()
        invariant
            i <= c.project.roots@.len(),
            roots@.map_values(|s: &str| s@) == texts_of(c.project.roots@.take(i as int)),
        decreases c.project.roots@.len() - i,
    {
        let ghost before = roots@;
        roots.push(c.project.roots[i].as_str());
        proof {
            assert(roots@.map_values(|s: &str| s@) =~= before.map_values(|s: &str| s@).push(c.project.roots@[i as int]@));
            assert(texts_of(c.project.roots@.take(i + 1)) =~= texts_of(c.project.roots@.take(i as int)).push(
                c.project.roots@[i as int]@,
            ));
        }
        i = i + 1;
    }
    assert(c.project.roots@.take(i as int) =~= c.project.roots@);
    let found = check_relatives(&roots, "project.roots");
    if found.is_some() {
        return found;
    }
    let features = c.architecture.features.effective_roots();
    let found = check_relatives(&features, "architecture.features.roots");
    if found.is_some() {
        return found;
    }
    check_relative(c.cache.directory.as_str(), "cache.directory")
}

fn check_layout(c: &Config) -> (r: Option<ConfigError>)
    ensures
        reports_opt(r, layout_problem(*c)),
{
    let found = check_layers(c);
    if found.is_some() {
        return found;
    }
    let found = check_coverage(c);
    if found.is_some() {
        return found;
    }
    let found = check_patterns(&c.architecture.coverage.allow_unassigned, "architecture.coverage.allow_unassigned");
    if found.is_some() {
        return found;
    }
    let found = check_patterns(&c.project.includes, "project.include");
    if found.is_some() {
        return found;
    }
    check_patterns(&c.project.exclude, "project.exclude")
}

fn check_policy(c: &Config) -> (r: Option<ConfigError>)
    ensures
        reports_opt(r, policy_problem(*c)),
{
    let found = check_path_suppressions(c);
    if found.is_some() {
        return found;
    }
    let found = check_fingerprints(c);
    if found.is_some() {
        return found;
    }
    let found = check_conditions(c);
    if found.is_some() {
        return found;
    }
    check_frameworks(c)
}

fn check_rules_detail(c: &Config) -> (r: Option<ConfigError>)
    ensures
        reports_opt(r, rules_detail_problem(*c)),
{
    let found = check_patterns(&c.architecture.features.public_entrypoints, "architecture.features.public_entrypoints");
    if found.is_some() {
        return found;
    }
    let found = check_patterns(&c.runtime.browser_incompatible_packages, "runtime.browser_incompatible_packages");
    if found.is_some() {
        return found;
    }
    let found = check_patterns(&c.runtime.edge_incompatible_packages, "runtime.edge_incompatible_packages");
    if found.is_some() {
        return found;
    }
    let found = check_forbidden(c);
    if found.is_some() {
        return found;
    }
    let found = check_forbidden_packages(c);
    if found.is_some() {
        return found;
    }
    let found = check_overrides(c);
    if found.is_some() {
        return found;
    }
    check_rule_options(c)
}

/// The first problem of the configuration, in the fixed order of `first_problem`.
pub fn first_error(c: &Config) -> (r: Option<ConfigError>)
    ensures
        reports_opt(r, first_problem(*c)),
{
    let found = check_basics(c);
    if found.is_some() {
        return found;
    }
    let found = check_layout(c);
    if found.is_some() {
        return found;
    }
    let found = check_policy(c);
    if found.is_some() {
        return found;
    }
    check_rules_detail(c)
}


/// The problems checked independently of one another, in order: the version, each unknown rule,
/// missing roots, the coverage bound, each blank condition and each unsupported adapter.
pub open spec fn independent_problems(c: Config) -> Seq<Problem> {
    listed(version_problem(c)) + all_some(c.rules.pairs(), unknown_check()) + listed(roots_problem(c)) + listed(
        coverage_problem(c),
    ) + all_some(c.resolution.custom_conditions@, condition_check()) + all_some(c.framework.enabled@, framework_check())
}

/// Two problems concern the same path with the same message.
pub open spec fn same_place(p: Problem, q: Problem) -> bool {
    p.1 == q.1 && p.2 == q.2
}

/// Every problem of the configuration: the independent ones, and the first problem of the
/// ordered checks unless one of them already says the same at the same path.
pub open spec fn problem_list(c: Config) -> Seq<Problem> {
    let independent = independent_problems(c);
    match first_problem(c) {
        Some(p) => if exists|k: int| 0 <= k < independent.len() && same_place(#[trigger] independent[k], p) {
            independent
        } else {
            independent.push(p)
        },
        None => independent,
    }
}

/// The problem an error reports (an error without a path reports the empty path).
pub open spec fn problem_of(e: ConfigError) -> Problem {
    (
        e.kind,
        match e.path {
            Some(p) => p@,
            None => Seq::empty(),
        },
        e.message@,
    )
}

pub open spec fn problems_of(s: Seq<ConfigError>) -> Seq<Problem> {
    s.map_values(|e: ConfigError| problem_of(e))
}

/// `r` holds errors that report the problems of `list`, in some order.
pub open spec fn reorders_problems(r: Seq<ConfigError>, list: Seq<Problem>) -> bool {
    exists|u: Seq<ConfigError>| problems_of(u) == list && #[trigger] r.to_multiset() == u.to_multiset()
}

/// The order in which problems are listed: by path, then by message.
pub open spec fn place_lt(a: Problem, b: Problem) -> bool {
    text_lt(a.1, b.1) || (a.1 == b.1 && text_lt(a.2, b.2))
}

impl Ranked for ConfigError {
    open spec fn precedes(&self, other: &Self) -> bool {
        place_lt(problem_of(*self), problem_of(*other))
    }

    proof fn lemma_irreflexive(a: &Self) {
        lemma_text_lt_irreflexive(problem_of(*a).1);
        lemma_text_lt_irreflexive(problem_of(*a).2);
    }

    proof fn lemma_transitive(a: &Self, b: &Self, c: &Self) {
        let (x, y, z) = (problem_of(*a), problem_of(*b), problem_of(*c));
        if text_lt(x.1, y.1) && text_lt(y.1, z.1) {
            lemma_text_lt_transitive(x.1, y.1, z.1);
        }
        if text_lt(x.2, y.2) && text_lt(y.2, z.2) {
            lemma_text_lt_transitive(x.2, y.2, z.2);
        }
    }

    proof fn lemma_negatively_transitive(a: &Self, b: &Self, c: &Self) {
        let (x, y, z) = (problem_of(*a), problem_of(*b), problem_of(*c));
        lemma_text_lt_negatively_transitive(x.1, y.1, z.1);
        if !text_lt(x.2, y.2) && !text_lt(y.2, z.2) {
            lemma_text_lt_negatively_transitive(x.2, y.2, z.2);
        }
        lemma_text_lt_total(x.1, y.1);
        lemma_text_lt_total(x.2, y.2);
        lemma_text_lt_total(y.1, z.1);
        lemma_text_lt_total(y.2, z.2);
    }

    fn comes_before(&self, other: &Self) -> (r: bool) {
        let empty = String::new();
        let a = match &self.path {
            Some(p) => p.as_str(),
            None => empty.as_str(),
        };
        let b = match &other.path {
            Some(p) => p.as_str(),
            None => empty.as_str(),
        };
        assert(a@ == problem_of(*self).1 && b@ == problem_of(*other).1);
        if text_less(a, b) {
            return true;
        }
        if !text_equal(a, b) {
            return false;
        }
        text_less(self.message.as_str(), other.message.as_str())
    }
}

/// One line of an aggregated report.
pub open spec fn report_line(p: Problem) -> Seq<char> {
    "- "@ + p.1 + ": "@ + p.2
}

/// The report lines, joined by line breaks.
pub open spec fn report_lines(l: Seq<Problem>) -> Seq<char>
    decreases l.len(),
{
    if l.len() == 0 {
        Seq::empty()
    } else if l.len() == 1 {
        report_line(l[0])
    } else {
        report_lines(l.drop_last()) + "\n"@ + report_line(l.last())
    }
}

/// The message that reports several problems at once.
pub open spec fn aggregate_message(l: Seq<Problem>) -> Seq<char> {
    "configuration has "@ + decimal_text(l.len()) + " errors:\n"@ + report_lines(l)
}

/// Problems listed by path, then by message.
pub open spec fn ordered(l: Seq<Problem>) -> bool {
    forall|i: int, j: int| 0 <= i < j < l.len() ==> !place_lt(l[j], l[i])
}

fn push_reported(errors: &mut Vec<ConfigError>, e: ConfigError, Ghost(p): Ghost<Problem>)
    requires
        reports(e, p),
    ensures
        problems_of(final(errors)@) == problems_of(old(errors)@).push(p),
        final(errors)@ == old(errors)@.push(e),
{
    let ghost before = errors@;
    errors.push(e);
    assert(problems_of(errors@) =~= problems_of(before).push(p));
}

fn has_same_place(errors: &Vec<ConfigError>, e: &ConfigError) -> (r: bool)
    requires
        forall|k: int| 0 <= k < errors@.len() ==> (#[trigger] errors@[k]).path is Some,
        e.path is Some,
    ensures
        r == exists|k: int| 0 <= k < errors@.len() && same_place(#[trigger] problems_of(errors@)[k], problem_of(*e)),
{
    let path = match &e.path {
        Some(p) => p.as_str(),
        None => "",
    };
    let mut k: usize = 0;
    while k < errors.len()
        invariant
            k <= errors@.len(),
            forall|m: int| 0 <= m < errors@.len() ==> (#[trigger] errors@[m]).path is Some,
            e.path matches Some(q) && q@ == path@,
            forall|m: int| 0 <= m < k ==> !same_place(#[trigger] problems_of(errors@)[m], problem_of(*e)),
        decreases errors@.len() - k,
    {
        let other = match &errors[k].path {
            Some(p) => p.as_str(),
            None => "",
        };
        assert(problems_of(errors@)[k as int] == problem_of(errors@[k as int]));
        if text_equal(other, path) && text_equal(errors[k].message.as_str(), e.message.as_str()) {
            return true;
        }
        k = k + 1;
    }
    false
}

impl Config {
    /// Every problem of the configuration (see `problem_list`), ordered by path and then by
    /// message.
    pub fn validation_errors(&self) -> (r: Vec<ConfigError>)
        ensures
            reorders_problems(r@, problem_list(*self)),
            is_sorted(r@),
            forall|k: int| 0 <= k < r@.len() ==> (#[trigger] r@[k]).path is Some,
    {
        let c = self;
        let mut errors: Vec<ConfigError> = Vec::new();
        let ghost mut expected: Seq<Problem> = listed(version_problem(*c));
        match check_version(c) {
            Some(e) => push_reported(&mut errors, e, Ghost(version_problem(*c)->0)),
            None => {},
        }
        assert(problems_of(errors@) =~= expected);
        // each unknown rule
        let entries = c.rules.entries();
        let ghost s = c.rules.pairs();
        let ghost f = unknown_check();
        let ghost base = expected;
        let mut i: usize = 0;
        while i < entries.len()
            invariant
                i <= entries@.len(),
                entries@ == s,
                s == c.rules.pairs(),
                f == unknown_check(),
                problems_of(errors@) == base + all_some(s.take(i as int), f),
                forall|k: int| 0 <= k < errors@.len() ==> (#[trigger] errors@[k]).path is Some,
            decreases entries@.len() - i,
        {
            proof {
                lemma_first_some_step(s, f, i as int);
                assert((entries@[i as int].0, entries@[i as int].1) == s[i as int]);
            }
            let found = check_unknown_rule(&entries[i].0);
            proof {
                assert(reports_opt(found, f(i as int, s[i as int])));
            }
            match found {
                Some(e) => {
                    let ghost p = f(i as int, s[i as int])->0;
                    push_reported(&mut errors, e, Ghost(p));
                    assert(base + all_some(s.take(i + 1), f) =~= (base + all_some(s.take(i as int), f)).push(p));
                },
                None => {
                    assert(base + all_some(s.take(i + 1), f) =~= base + all_some(s.take(i as int), f));
                },
            }
            i = i + 1;
        }
        proof {
            lemma_take_all(s);
            expected = expected + all_some(s, f);
        }
        match check_roots(c) {
            Some(e) => push_reported(&mut errors, e, Ghost(roots_problem(*c)->0)),
            None => {},
        }
        proof {
            assert(problems_of(errors@) =~= expected + listed(roots_problem(*c)));
            expected = expected + listed(roots_problem(*c));
        }
        match check_coverage(c) {
            Some(e) => push_reported(&mut errors, e, Ghost(coverage_problem(*c)->0)),
            None => {},
        }
        proof {
            assert(problems_of(errors@) =~= expected + listed(coverage_problem(*c)));
            expected = expected + listed(coverage_problem(*c));
        }
        // each blank condition
        let items = &c.resolution.custom_conditions;
        let ghost s2 = c.resolution.custom_conditions@;
        let ghost f2 = condition_check();
        let ghost base2 = expected;
        let mut i: usize = 0;
        while i < items.len()
            invariant
                i <= items@.len(),
                items@ == s2,
                f2 == condition_check(),
                problems_of(errors@) == base2 + all_some(s2.take(i as int), f2),
                forall|k: int| 0 <= k < errors@.len() ==> (#[trigger] errors@[k]).path is Some,
            decreases items@.len() - i,
        {
            proof {
                lemma_first_some_step(s2, f2, i as int);
            }
            match condition_error(i, &items[i]) {
                Some(e) => {
                    let ghost p = f2(i as int, s2[i as int])->0;
                    push_reported(&mut errors, e, Ghost(p));
                    assert(base2 + all_some(s2.take(i + 1), f2) =~= (base2 + all_some(s2.take(i as int), f2)).push(p));
                },
                None => {
                    assert(base2 + all_some(s2.take(i + 1), f2) =~= base2 + all_some(s2.take(i as int), f2));
                },
            }
            i = i + 1;
        }
        proof {
            lemma_take_all(s2);
            expected = expected + all_some(s2, f2);
        }
        // each unsupported framework adapter
        let items = &c.framework.enabled;
        let ghost s3 = c.framework.enabled@;
        let ghost f3 = framework_check();
        let ghost base3 = expected;
        let mut i: usize = 0;
        while i < items.len()
            invariant
                i <= items@.len(),
                items@ == s3,
                f3 == framework_check(),
                problems_of(errors@) == base3 + all_some(s3.take(i as int), f3),
                forall|k: int| 0 <= k < errors@.len() ==> (#[trigger] errors@[k]).path is Some,
            decreases items@.len() - i,
        {
            proof {
                lemma_first_some_step(s3, f3, i as int);
            }
            match framework_error(i, &items[i]) {
                Some(e) => {
                    let ghost p = f3(i as int, s3[i as int])->0;
                    push_reported(&mut errors, e, Ghost(p));
                    assert(base3 + all_some(s3.take(i + 1), f3) =~= (base3 + all_some(s3.take(i as int), f3)).push(p));
                },
                None => {
                    assert(base3 + all_some(s3.take(i + 1), f3) =~= base3 + all_some(s3.take(i as int), f3));
                },
            }
            i = i + 1;
        }
        proof {
            lemma_take_all(s3);
            expected = expected + all_some(s3, f3);
            assert(expected =~= independent_problems(*c));
        }
        match first_error(c) {
            Some(e) => {
                let ghost p = first_problem(*c)->0;
                assert(problem_of(e) == p);
                if !has_same_place(&errors, &e) {
                    push_reported(&mut errors, e, Ghost(p));
                }
            },
            None => {},
        }
        assert(problems_of(errors@) =~= problem_list(*c));
        let ghost unsorted = errors@;
        let sorted = sort_ranked(errors);
        proof {
            assert forall|k: int| 0 <= k < sorted@.len() implies (#[trigger] sorted@[k]).path is Some by {
                assert(sorted@.contains(sorted@[k]));
                lemma_reorder_contains(sorted@, unsorted, sorted@[k]);
            }
            assert(reorders_problems(sorted@, problem_list(*c)));
        }
        sorted
    }
}

proof fn lemma_reordered_len(r: Seq<ConfigError>, list: Seq<Problem>)
    requires
        reorders_problems(r, list),
    ensures
        r.len() == list.len(),
        r.len() == 1 ==> problem_of(r[0]) == list[0],
{
    let u = choose|u: Seq<ConfigError>| problems_of(u) == list && #[trigger] r.to_multiset() == u.to_multiset();
    r.to_multiset_ensures();
    u.to_multiset_ensures();
    assert(u.len() == list.len());
    if r.len() == 1 {
        assert(r.contains(r[0]));
        lemma_reorder_contains(r, u, r[0]);
        assert(u[0] == r[0]);
        assert(problems_of(u)[0] == problem_of(u[0]));
    }
}

impl Config {
    /// Succeeds when the configuration has no problem; a single problem is returned as it is,
    /// and several are reported together in one error that lists them by path and message.
    pub fn validate(&self) -> (r: Result<(), ConfigError>)
        ensures
            r is Ok <==> problem_list(*self).len() == 0,
            problem_list(*self).len() == 1 ==> (r matches Err(e) && reports(e, problem_list(*self)[0])),
            problem_list(*self).len() > 1 ==> (r matches Err(e) && e.kind == ConfigErrorKind::ConflictingConfig
                && e.path is None && exists|l: Seq<ConfigError>|
                reorders_problems(l, problem_list(*self)) && is_sorted(l) && #[trigger] aggregate_message(
                    problems_of(l),
                ) == e.message@),
    {
        let mut errors = self.validation_errors();
        proof {
            lemma_reordered_len(errors@, problem_list(*self));
        }
        let n = errors.len();
        if n == 0 {
            return Ok(());
        }
        if n == 1 {
            let e = errors.remove(0);
            return Err(e);
        }
        let ghost l = problems_of(errors@);
        let count = decimal(n as u64);
        let mut message = join3("configuration has ", count.as_str(), " errors:\n");
        let ghost head = message@;
        let mut k: usize = 0;
        while k < errors.len()
            invariant
                k <= errors@.len(),
                l == problems_of(errors@),
                forall|m: int| 0 <= m < errors@.len() ==> (#[trigger] errors@[m]).path is Some,
                message@ == head + report_lines(l.take(k as int)),
            decreases errors@.len() - k,
        {
            let ghost before = message@;
            if k > 0 {
                crate::text::append(&mut message, "\n");
            }
            let path = match &errors[k].path {
                Some(p) => p.as_str(),
                None => "configuration",
            };
            crate::text::append(&mut message, "- ");
            crate::text::append(&mut message, path);
            crate::text::append(&mut message, ": ");
            crate::text::append(&mut message, errors[k].message.as_str());
            proof {
                let t = l.take(k + 1);
                assert(t.drop_last() =~= l.take(k as int));
                assert(t.last() == problem_of(errors@[k as int]));
                assert(report_line(t.last()) == "- "@ + path@ + ": "@ + errors@[k as int].message@);
                if k == 0 {
                    assert(report_lines(l.take(0)) =~= Seq::<char>::empty());
                    assert(message@ =~= head + report_lines(t));
                } else {
                    assert(message@ =~= head + report_lines(t));
                }
            }
            k = k + 1;
        }
        proof {
            lemma_take_all(l);
            assert(message@ == aggregate_message(problems_of(errors@)));
        }
        Err(ConfigError { kind: ConfigErrorKind::ConflictingConfig, message, path: None })
    }
}
} // verus!
