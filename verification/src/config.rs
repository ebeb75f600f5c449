//! The project configuration: its values and defaults, presets, expiring suppressions, path
//! overrides of rule severities, and validation.
use crate::domain::{ConfigError, ConfigErrorKind, LayerPolicy, Severity};
use crate::glob::{glob_hit, glob_hits};
use crate::text_set::copy_texts;
use crate::sort::is_sorted;
use crate::validation::{aggregate_message, problem_list, problems_of, reorders_problems, reports};
use crate::map::{has_key, OrderedMap};
use crate::rule_registry::{configurable_ids, configurable_of, rule_table};
use crate::decimal::{i64_value, parse_i64};
use crate::text::{owned, split_char, split_seq, text_equal};
use crate::text_set::texts_of;
use vstd::prelude::*;

verus! {

/// The configuration file looked up at a project root.
pub const CONFIG_FILE: &'static str = "wae.yaml";

/// The configuration format version this engine reads.
pub const CURRENT_CONFIG_VERSION: u32 = 1;

/// How module specifiers are resolved.
#[derive(Clone, Copy, Debug, PartialEq, Eq, Structural)]
pub enum ResolutionMode {
    Node10,
    Node16,
    NodeNext,
    Bundler,
}

impl Default for ResolutionMode {
    fn default() -> (r: Self)
        ensures
            r == ResolutionMode::NodeNext,
    {
        ResolutionMode::NodeNext
    }
}

/// The whole configuration of a project.
#[derive(Clone, Debug, PartialEq, Eq)]
pub struct Config {
    pub version: u32,
    pub project: ProjectConfig,
    pub architecture: ArchitectureConfig,
    pub rules: OrderedMap<String, RuleConfig>,
    pub baseline: BaselineConfig,
    pub output: OutputConfig,
    pub cache: CacheConfig,
    pub resolution: ResolutionConfig,
    pub suppressions: SuppressionConfig,
    pub framework: FrameworkConfig,
    pub runtime: RuntimeConfig,
    pub overrides: Vec<ConfigOverride>,
    /// Whether the values came from a configuration file rather than the built-in defaults.
    pub configured: bool,
}

/// A starting point for a new configuration's architecture layers.
#[derive(Clone, Copy, Debug, PartialEq, Eq, Structural)]
pub enum ConfigPreset {
    Blank,
    Fsd,
    Next,
    Nx,
}

impl Default for ConfigPreset {
    fn default() -> (r: Self)
        ensures
            r == ConfigPreset::Blank,
    {
        ConfigPreset::Blank
    }
}

/// Which files make up the project.
#[derive(Clone, Debug, PartialEq, Eq)]
pub struct ProjectConfig {
    pub includes: Vec<String>,
    pub exclude: Vec<String>,
    pub roots: Vec<String>,
    pub follow_symlinks: bool,
    pub max_file_size_kb: u64,
}

/// A path-scoped policy overlay. Entries apply in declaration order and the last matching
/// override wins for a rule; overrides may change a rule's enablement and severity only.
#[derive(Clone, Debug, PartialEq, Eq)]
pub struct ConfigOverride {
    pub files: Vec<String>,
    pub excluded_files: Vec<String>,
    pub rules: OrderedMap<String, RuleConfig>,
}

#[derive(Clone, Debug, PartialEq, Eq)]
pub struct ArchitectureConfig {
    pub layers: OrderedMap<String, LayerConfig>,
    pub coverage: ArchitectureCoverageConfig,
    pub features: FeatureConfig,
    pub forbidden_dependencies: Vec<ForbiddenDependency>,
    pub forbidden_package_dependencies: Vec<ForbiddenDependency>,
    pub presets: ArchitecturePresets,
}

#[derive(Clone, Debug, PartialEq, Eq)]
pub struct ArchitectureCoverageConfig {
    /// Optional minimum percentage of non-exempt source modules assigned to exactly one layer.
    pub minimum: Option<u8>,
    pub allow_unassigned: Vec<String>,
}

#[derive(Clone, Debug, PartialEq, Eq)]
pub struct RuntimeConfig {
    /// Package-name globs that must never be bundled into a browser dependency closure.
    pub browser_incompatible_packages: Vec<String>,
    /// Package-name globs unavailable in an Edge isolate.
    pub edge_incompatible_packages: Vec<String>,
}

#[derive(Clone, Copy, Debug, PartialEq, Eq, Structural)]
pub struct ArchitecturePresets {
    pub monorepo_boundaries: bool,
}

#[derive(Clone, Debug, PartialEq, Eq)]
pub struct LayerConfig {
    pub patterns: Vec<String>,
    pub can_import: Vec<String>,
}

#[derive(Clone, Debug, PartialEq, Eq)]
pub struct FeatureConfig {
    pub root: String,
    pub roots: Vec<String>,
    pub public_entrypoints: Vec<String>,
    pub private_segments: Vec<String>,
}

#[derive(Clone, Debug, PartialEq, Eq)]
pub struct ResolutionConfig {
    pub mode: ResolutionMode,
    pub custom_conditions: Vec<String>,
}

#[derive(Clone, Debug, PartialEq, Eq)]
pub struct SuppressionConfig {
    pub require_reason: bool,
    pub report_unused: bool,
    pub paths: Vec<PathSuppression>,
    pub fingerprints: Vec<FingerprintSuppression>,
}

#[derive(Clone, Debug, PartialEq, Eq)]
pub struct PathSuppression {
    pub pattern: String,
    pub rules: Vec<String>,
    pub reason: String,
    pub owner: Option<String>,
    pub ticket: Option<String>,
    pub expires_at: Option<String>,
}

#[derive(Clone, Debug, PartialEq, Eq)]
pub struct FingerprintSuppression {
    pub fingerprint: String,
    pub reason: String,
    pub owner: Option<String>,
    pub ticket: Option<String>,
    pub expires_at: Option<String>,
}

#[derive(Clone, Debug, PartialEq, Eq)]
pub struct FrameworkConfig {
    pub auto_detect: bool,
    pub enabled: Vec<String>,
}

#[derive(Clone, Debug, PartialEq, Eq)]
pub struct ForbiddenDependency {
    pub from: String,
    pub to: String,
}

/// A rule's configuration: a bare severity, or detailed options.
#[derive(Clone, Debug, PartialEq, Eq)]
pub enum RuleConfig {
    Severity(Severity),
    Detailed(RuleOptions),
}

#[derive(Clone, Debug, PartialEq, Eq)]
pub struct RuleOptions {
    pub enabled: bool,
    pub severity: Severity,
    pub max_depth: Option<usize>,
    pub max_fan_out: Option<usize>,
    pub max_fan_in: Option<usize>,
    pub entrypoints: Vec<String>,
}

#[derive(Clone, Debug, PartialEq, Eq)]
pub struct BaselineConfig {
    pub file: String,
}

#[derive(Clone, Copy, Debug, PartialEq, Eq, Structural)]
pub struct OutputConfig {
    pub format: OutputFormat,
    pub fail_on: FailOn,
    pub max_warnings: Option<usize>,
}

/// The lowest severity that fails a check.
#[derive(Clone, Copy, Debug, PartialEq, Eq, Structural)]
pub enum FailOn {
    Error,
    Warning,
}

#[derive(Clone, Copy, Debug, PartialEq, Eq, Structural)]
pub enum OutputFormat {
    Human,
    Json,
    Jsonl,
    Sarif,
}

#[derive(Clone, Debug, PartialEq, Eq)]
pub struct CacheConfig {
    pub enabled: bool,
    pub directory: String,
}

/// The glob patterns that select source files by default.
pub open spec fn default_sources() -> Seq<Seq<char>> {
    seq!["**/*.ts"@, "**/*.tsx"@, "**/*.mts"@, "**/*.cts"@, "**/*.js"@, "**/*.jsx"@, "**/*.mjs"@, "**/*.cjs"@]
}

/// The glob patterns excluded by default: tests, declarations, dependencies, tool and build
/// directories.
pub open spec fn default_exclude() -> Seq<Seq<char>> {
    seq![
        "**/*.test.*"@,
        "**/*.spec.*"@,
        "**/*.d.ts"@,
        "**/*.d.mts"@,
        "**/*.d.cts"@,
        "**/node_modules/**"@,
        "**/.git/**"@,
        "**/.idea/**"@,
        "**/.wae/**"@,
        "**/.next/**"@,
        "**/dist/**"@,
        "**/build/**"@,
        "**/coverage/**"@,
        "**/target/**"@
    ]
}

/// The public entrypoint file names of a feature by default.
pub open spec fn default_entrypoints() -> Seq<Seq<char>> {
    seq![
        "index.ts"@,
        "index.tsx"@,
        "index.mts"@,
        "index.cts"@,
        "index.js"@,
        "index.jsx"@,
        "index.mjs"@,
        "index.cjs"@
    ]
}

pub open spec fn is_default_project(p: ProjectConfig) -> bool {
    &&& texts_of(p.includes@) == default_sources()
    &&& texts_of(p.exclude@) == default_exclude()
    &&& texts_of(p.roots@) == seq!["."@]
    &&& !p.follow_symlinks
    &&& p.max_file_size_kb == 2048
}

pub open spec fn is_default_features(f: FeatureConfig) -> bool {
    &&& f.root@ == "src/features"@
    &&& f.roots@.len() == 0
    &&& texts_of(f.public_entrypoints@) == default_entrypoints()
    &&& texts_of(f.private_segments@) == seq!["internal"@, "private"@]
}

/// The architecture defaults, apart from the layers.
pub open spec fn is_default_architecture_except_layers(a: ArchitectureConfig) -> bool {
    &&& a.coverage.minimum is None
    &&& a.coverage.allow_unassigned@.len() == 0
    &&& is_default_features(a.features)
    &&& a.forbidden_dependencies@.len() == 0
    &&& a.forbidden_package_dependencies@.len() == 0
    &&& !a.presets.monorepo_boundaries
}

/// Every configurable rule is configured as an error, and nothing else is configured.
pub open spec fn is_default_rules(rules: OrderedMap<String, RuleConfig>) -> bool {
    forall|q: Seq<char>|
        #[trigger] rules.lookup(q) == if configurable_of(rule_table()).contains(q) {
            Some(RuleConfig::Severity(Severity::Error))
        } else {
            None
        }
}

/// Every value is the built-in default, apart from the architecture layers.
pub open spec fn is_default_except_layers(c: Config) -> bool {
    &&& c.version == CURRENT_CONFIG_VERSION
    &&& is_default_project(c.project)
    &&& is_default_architecture_except_layers(c.architecture)
    &&& is_default_rules(c.rules)
    &&& c.baseline.file@ == ".wae/baseline.json"@
    &&& c.output == OutputConfig { format: OutputFormat::Human, fail_on: FailOn::Error, max_warnings: None }
    &&& !c.cache.enabled
    &&& c.cache.directory@ == ".wae/cache"@
    &&& c.resolution.mode == ResolutionMode::NodeNext
    &&& c.resolution.custom_conditions@.len() == 0
    &&& c.suppressions.require_reason
    &&& c.suppressions.report_unused
    &&& c.suppressions.paths@.len() == 0
    &&& c.suppressions.fingerprints@.len() == 0
    &&& c.framework.auto_detect
    &&& c.framework.enabled@.len() == 0
    &&& c.runtime.browser_incompatible_packages@.len() == 0
    &&& c.runtime.edge_incompatible_packages@.len() == 0
    &&& c.overrides@.len() == 0
    &&& !c.configured
}

impl Default for ProjectConfig {
    fn default() -> (r: Self)
        ensures
            is_default_project(r),
    {
        let mut includes: Vec<String> = Vec::new();
        includes.push(owned("**/*.ts"));
        includes.push(owned("**/*.tsx"));
        includes.push(owned("**/*.mts"));
        includes.push(owned("**/*.cts"));
        includes.push(owned("**/*.js"));
        includes.push(owned("**/*.jsx"));
        includes.push(owned("**/*.mjs"));
        includes.push(owned("**/*.cjs"));
        let mut exclude: Vec<String> = Vec::new();
        exclude.push(owned("**/*.test.*"));
        exclude.push(owned("**/*.spec.*"));
        exclude.push(owned("**/*.d.ts"));
        exclude.push(owned("**/*.d.mts"));
        exclude.push(owned("**/*.d.cts"));
        exclude.push(owned("**/node_modules/**"));
        exclude.push(owned("**/.git/**"));
        exclude.push(owned("**/.idea/**"));
        exclude.push(owned("**/.wae/**"));
        exclude.push(owned("**/.next/**"));
        exclude.push(owned("**/dist/**"));
        exclude.push(owned("**/build/**"));
        exclude.push(owned("**/coverage/**"));
        exclude.push(owned("**/target/**"));
        let mut roots: Vec<String> = Vec::new();
        roots.push(owned("."));
        assert(texts_of(includes@) =~= default_sources());
        assert(texts_of(exclude@) =~= default_exclude());
        assert(texts_of(roots@) =~= seq!["."@]);
        ProjectConfig { includes, exclude, roots, follow_symlinks: false, max_file_size_kb: 2048 }
    }
}

impl Default for ConfigOverride {
    fn default() -> (r: Self)
        ensures
            r.files@.len() == 0,
            r.excluded_files@.len() == 0,
            r.rules.pairs().len() == 0,
    {
        ConfigOverride { files: Vec::new(), excluded_files: Vec::new(), rules: OrderedMap::new() }
    }
}

impl Default for ArchitectureCoverageConfig {
    fn default() -> (r: Self)
        ensures
            r.minimum is None,
            r.allow_unassigned@.len() == 0,
    {
        ArchitectureCoverageConfig { minimum: None, allow_unassigned: Vec::new() }
    }
}

impl Default for RuntimeConfig {
    fn default() -> (r: Self)
        ensures
            r.browser_incompatible_packages@.len() == 0,
            r.edge_incompatible_packages@.len() == 0,
    {
        RuntimeConfig { browser_incompatible_packages: Vec::new(), edge_incompatible_packages: Vec::new() }
    }
}

impl Default for ArchitecturePresets {
    fn default() -> (r: Self)
        ensures
            !r.monorepo_boundaries,
    {
        ArchitecturePresets { monorepo_boundaries: false }
    }
}

impl Default for LayerConfig {
    fn default() -> (r: Self)
        ensures
            r.patterns@.len() == 0,
            r.can_import@.len() == 0,
    {
        LayerConfig { patterns: Vec::new(), can_import: Vec::new() }
    }
}

impl Default for FeatureConfig {
    fn default() -> (r: Self)
        ensures
            is_default_features(r),
    {
        let mut public_entrypoints: Vec<String> = Vec::new();
        public_entrypoints.push(owned("index.ts"));
        public_entrypoints.push(owned("index.tsx"));
        public_entrypoints.push(owned("index.mts"));
        public_entrypoints.push(owned("index.cts"));
        public_entrypoints.push(owned("index.js"));
        public_entrypoints.push(owned("index.jsx"));
        public_entrypoints.push(owned("index.mjs"));
        public_entrypoints.push(owned("index.cjs"));
        let mut private_segments: Vec<String> = Vec::new();
        private_segments.push(owned("internal"));
        private_segments.push(owned("private"));
        assert(texts_of(public_entrypoints@) =~= default_entrypoints());
        assert(texts_of(private_segments@) =~= seq!["internal"@, "private"@]);
        FeatureConfig { root: owned("src/features"), roots: Vec::new(), public_entrypoints, private_segments }
    }
}

impl Default for ArchitectureConfig {
    fn default() -> (r: Self)
        ensures
            is_default_architecture_except_layers(r),
            r.layers.pairs().len() == 0,
    {
        ArchitectureConfig {
            layers: OrderedMap::new(),
            coverage: ArchitectureCoverageConfig::default(),
            features: FeatureConfig::default(),
            forbidden_dependencies: Vec::new(),
            forbidden_package_dependencies: Vec::new(),
            presets: ArchitecturePresets::default(),
        }
    }
}

impl Default for ResolutionConfig {
    fn default() -> (r: Self)
        ensures
            r.mode == ResolutionMode::NodeNext,
            r.custom_conditions@.len() == 0,
    {
        ResolutionConfig { mode: ResolutionMode::default(), custom_conditions: Vec::new() }
    }
}

impl Default for SuppressionConfig {
    fn default() -> (r: Self)
        ensures
            r.require_reason,
            r.report_unused,
            r.paths@.len() == 0,
            r.fingerprints@.len() == 0,
    {
        SuppressionConfig { require_reason: true, report_unused: true, paths: Vec::new(), fingerprints: Vec::new() }
    }
}

impl Default for PathSuppression {
    fn default() -> (r: Self)
        ensures
            r.pattern@.len() == 0,
            r.rules@.len() == 0,
            r.reason@.len() == 0,
            r.owner is None,
            r.ticket is None,
            r.expires_at is None,
    {
        PathSuppression {
            pattern: String::new(),
            rules: Vec::new(),
            reason: String::new(),
            owner: None,
            ticket: None,
            expires_at: None,
        }
    }
}

impl Default for FingerprintSuppression {
    fn default() -> (r: Self)
        ensures
            r.fingerprint@.len() == 0,
            r.reason@.len() == 0,
            r.owner is None,
            r.ticket is None,
            r.expires_at is None,
    {
        FingerprintSuppression {
            fingerprint: String::new(),
            reason: String::new(),
            owner: None,
            ticket: None,
            expires_at: None,
        }
    }
}

impl Default for FrameworkConfig {
    fn default() -> (r: Self)
        ensures
            r.auto_detect,
            r.enabled@.len() == 0,
    {
        FrameworkConfig { auto_detect: true, enabled: Vec::new() }
    }
}

impl Default for ForbiddenDependency {
    fn default() -> (r: Self)
        ensures
            r.from@.len() == 0,
            r.to@.len() == 0,
    {
        ForbiddenDependency { from: String::new(), to: String::new() }
    }
}

impl Default for RuleOptions {
    fn default() -> (r: Self)
        ensures
            r.enabled,
            r.severity == Severity::Error,
            r.max_depth is None,
            r.max_fan_out is None,
            r.max_fan_in is None,
            r.entrypoints@.len() == 0,
    {
        RuleOptions {
            enabled: true,
            severity: Severity::Error,
            max_depth: None,
            max_fan_out: None,
            max_fan_in: None,
            entrypoints: Vec::new(),
        }
    }
}

impl Default for BaselineConfig {
    fn default() -> (r: Self)
        ensures
            r.file@ == ".wae/baseline.json"@,
    {
        BaselineConfig { file: owned(".wae/baseline.json") }
    }
}

impl Default for OutputConfig {
    fn default() -> (r: Self)
        ensures
            r == (OutputConfig { format: OutputFormat::Human, fail_on: FailOn::Error, max_warnings: None }),
    {
        OutputConfig { format: OutputFormat::Human, fail_on: FailOn::Error, max_warnings: None }
    }
}

impl Default for FailOn {
    fn default() -> (r: Self)
        ensures
            r == FailOn::Error,
    {
        FailOn::Error
    }
}

impl Default for OutputFormat {
    fn default() -> (r: Self)
        ensures
            r == OutputFormat::Human,
    {
        OutputFormat::Human
    }
}

impl Default for CacheConfig {
    fn default() -> (r: Self)
        ensures
            !r.enabled,
            r.directory@ == ".wae/cache"@,
    {
        CacheConfig { enabled: false, directory: owned(".wae/cache") }
    }
}

/// Every configurable rule, configured as an error.
fn default_rules() -> (r: OrderedMap<String, RuleConfig>)
    ensures
        is_default_rules(r),
{
    let ids = configurable_ids();
    let ghost views = configurable_of(rule_table());
    let mut rules: OrderedMap<String, RuleConfig> = OrderedMap::new();
    let mut i: usize = 0;
    while i < ids.len()
        invariant
            i <= ids@.len(),
            ids@.map_values(|s: &'static str| s@) == views,
            forall|q: Seq<char>|
                #[trigger] rules.lookup(q) == if views.take(i as int).contains(q) {
                    Some(RuleConfig::Severity(Severity::Error))
                } else {
                    None
                },
        decreases ids@.len() - i,
    {
        let ghost before = rules;
        assert(views[i as int] == ids@[i as int]@);
        rules.insert(owned(ids[i]), RuleConfig::Severity(Severity::Error));
        assert forall|q: Seq<char>|
            #[trigger] rules.lookup(q) == if views.take(i + 1).contains(q) {
                Some(RuleConfig::Severity(Severity::Error))
            } else {
                None
            } by {
            let next = views.take(i + 1);
            let prev = views.take(i as int);
            if q == views[i as int] {
                assert(next[i as int] == q);
            } else {
                assert(before.lookup(q) == rules.lookup(q));
                if prev.contains(q) {
                    let j = choose|j: int| 0 <= j < prev.len() && prev[j] == q;
                    assert(next[j] == q);
                }
                if next.contains(q) {
                    let j = choose|j: int| 0 <= j < next.len() && next[j] == q;
                    assert(prev[j] == q);
                }
            }
        }
        i = i + 1;
    }
    assert(views.take(i as int) =~= views);
    rules
}

impl Default for Config {
    fn default() -> (r: Self)
        ensures
            is_default_except_layers(r),
            r.architecture.layers.pairs().len() == 0,
    {
        Config {
            version: CURRENT_CONFIG_VERSION,
            project: ProjectConfig::default(),
            architecture: ArchitectureConfig::default(),
            rules: default_rules(),
            baseline: BaselineConfig::default(),
            output: OutputConfig::default(),
            cache: CacheConfig::default(),
            resolution: ResolutionConfig::default(),
            suppressions: SuppressionConfig::default(),
            framework: FrameworkConfig::default(),
            runtime: RuntimeConfig::default(),
            overrides: Vec::new(),
            configured: false,
        }
    }
}

/// The patterns and permitted imports of a layer.
pub open spec fn layer_view(l: LayerConfig) -> (Seq<Seq<char>>, Seq<Seq<char>>) {
    (texts_of(l.patterns@), texts_of(l.can_import@))
}

/// The layer `name` of the Feature-Sliced Design layout under `src/`; the Next.js preset lets
/// the `app` layer also cover a root `app/` directory.
pub open spec fn fsd_layer(name: Seq<char>, next: bool) -> Option<(Seq<Seq<char>>, Seq<Seq<char>>)> {
    if name == "app"@ {
        Some(
            (
                if next {
                    seq!["app/**"@, "src/app/**"@]
                } else {
                    seq!["src/app/**"@]
                },
                seq!["features"@, "entities"@, "shared"@],
            ),
        )
    } else if name == "features"@ {
        Some((seq!["src/features/**"@], seq!["entities"@, "shared"@]))
    } else if name == "entities"@ {
        Some((seq!["src/entities/**"@], seq!["shared"@]))
    } else if name == "shared"@ {
        Some((seq!["src/shared/**"@], Seq::empty()))
    } else {
        None
    }
}

/// The layer `name` of a preset, as patterns and permitted imports.
pub open spec fn preset_layer(preset: ConfigPreset, name: Seq<char>) -> Option<(Seq<Seq<char>>, Seq<Seq<char>>)> {
    match preset {
        ConfigPreset::Blank => None,
        ConfigPreset::Fsd => fsd_layer(name, false),
        ConfigPreset::Next => fsd_layer(name, true),
        ConfigPreset::Nx => if name == "apps"@ {
            Some((seq!["apps/*/src/**"@], seq!["libs"@]))
        } else if name == "libs"@ {
            Some((seq!["libs/*/src/**"@], Seq::empty()))
        } else {
            None
        },
    }
}

/// The layer names of the presets are pairwise distinct.
proof fn lemma_layer_names_distinct()
    ensures
        "app"@ != "features"@,
        "app"@ != "entities"@,
        "app"@ != "shared"@,
        "features"@ != "entities"@,
        "features"@ != "shared"@,
        "entities"@ != "shared"@,
        "apps"@ != "libs"@,
{
    reveal_strlit("app");
    reveal_strlit("features");
    reveal_strlit("entities");
    reveal_strlit("shared");
    reveal_strlit("apps");
    reveal_strlit("libs");
    assert("app"@.len() == 3 && "features"@.len() == 8 && "entities"@.len() == 8 && "shared"@.len() == 6);
    assert("features"@[0] == 'f' && "entities"@[0] == 'e');
    assert("apps"@[0] == 'a' && "libs"@[0] == 'l');
}

pub(crate) fn texts2(a: &str, b: &str) -> (r: Vec<String>)
    ensures
        texts_of(r@) == seq![a@, b@],
{
    let mut v: Vec<String> = Vec::new();
    v.push(owned(a));
    v.push(owned(b));
    assert(texts_of(v@) =~= seq![a@, b@]);
    v
}

pub(crate) fn texts1(a: &str) -> (r: Vec<String>)
    ensures
        texts_of(r@) == seq![a@],
{
    let mut v: Vec<String> = Vec::new();
    v.push(owned(a));
    assert(texts_of(v@) =~= seq![a@]);
    v
}

fn fsd_layers(next: bool) -> (r: OrderedMap<String, LayerConfig>)
    ensures
        forall|q: Seq<char>|
            match #[trigger] r.lookup(q) {
                Some(l) => fsd_layer(q, next) == Some(layer_view(l)),
                None => fsd_layer(q, next) is None,
            },
{
    proof {
        lemma_layer_names_distinct();
    }
    let app_patterns = if next {
        texts2("app/**", "src/app/**")
    } else {
        texts1("src/app/**")
    };
    let mut app_imports: Vec<String> = texts2("features", "entities");
    let ghost before = app_imports@;
    app_imports.push(owned("shared"));
    assert(texts_of(app_imports@) =~= texts_of(before).push("shared"@));
    assert(texts_of(app_imports@) =~= seq!["features"@, "entities"@, "shared"@]);
    let mut layers: OrderedMap<String, LayerConfig> = OrderedMap::new();
    layers.insert(owned("app"), LayerConfig { patterns: app_patterns, can_import: app_imports });
    layers.insert(
        owned("features"),
        LayerConfig { patterns: texts1("src/features/**"), can_import: texts2("entities", "shared") },
    );
    layers.insert(
        owned("entities"),
        LayerConfig { patterns: texts1("src/entities/**"), can_import: texts1("shared") },
    );
    layers.insert(owned("shared"), LayerConfig { patterns: texts1("src/shared/**"), can_import: Vec::new() });
    proof {
        assert(texts_of(Seq::<String>::empty()) =~= Seq::<Seq<char>>::empty());
    }
    layers
}

impl Config {
    /// The default configuration with the architecture layers of `preset`.
    pub fn for_preset(preset: ConfigPreset) -> (r: Self)
        ensures
            is_default_except_layers(r),
            forall|q: Seq<char>|
                match #[trigger] r.architecture.layers.lookup(q) {
                    Some(l) => preset_layer(preset, q) == Some(layer_view(l)),
                    None => preset_layer(preset, q) is None,
                },
    {
        let mut config = Config::default();
        let layers = match preset {
            ConfigPreset::Blank => OrderedMap::new(),
            ConfigPreset::Fsd => fsd_layers(false),
            ConfigPreset::Next => fsd_layers(true),
            ConfigPreset::Nx => {
                proof {
                    lemma_layer_names_distinct();
                }
                let mut layers: OrderedMap<String, LayerConfig> = OrderedMap::new();
                layers.insert(
                    owned("apps"),
                    LayerConfig { patterns: texts1("apps/*/src/**"), can_import: texts1("libs") },
                );
                layers.insert(owned("libs"), LayerConfig { patterns: texts1("libs/*/src/**"), can_import: Vec::new() });
                proof {
                    assert(texts_of(Seq::<String>::empty()) =~= Seq::<Seq<char>>::empty());
                }
                layers
            },
        };
        proof {
            if preset == ConfigPreset::Blank {
                assert forall|q: Seq<char>| #[trigger] layers.lookup(q) is None by {
                    assert(!has_key(layers.pairs(), q));
                }
            }
        }
        config.architecture.layers = layers;
        config
    }
}

impl FeatureConfig {
    /// The feature roots: the configured list, or the single `root` when the list is empty.
    pub fn effective_roots(&self) -> (r: Vec<&str>)
        ensures
            r@.map_values(|s: &str| s@) == if self.roots@.len() == 0 {
                seq![self.root@]
            } else {
                texts_of(self.roots@)
            },
    {
        let mut out: Vec<&str> = Vec::new();
        if self.roots.len() == 0 {
            out.push(self.root.as_str());
            assert(out@.map_values(|s: &str| s@) =~= seq![self.root@]);
            return out;
        }
        let mut i: usize = 0;
        while i < self.roots.len()
            invariant
                i <= self.roots@.len(),
                out@.map_values(|s: &str| s@) == texts_of(self.roots@.take(i as int)),
            decreases self.roots@.len() - i,
        {
            let ghost before = out@;
            out.push(self.roots[i].as_str());
            proof {
                assert(out@.map_values(|s: &str| s@) =~= before.map_values(|s: &str| s@).push(self.roots@[i as int]@));
                assert(texts_of(self.roots@.take(i + 1)) =~= texts_of(self.roots@.take(i as int)).push(
                    self.roots@[i as int]@,
                ));
            }
            i = i + 1;
        }
        assert(self.roots@.take(i as int) =~= self.roots@);
        out
    }
}

/// The severity a rule configuration enables the rule at, or `None` when it disables it.
pub open spec fn rule_severity(c: RuleConfig) -> Option<Severity> {
    match c {
        RuleConfig::Severity(s) => Some(s),
        RuleConfig::Detailed(o) => if o.enabled {
            Some(o.severity)
        } else {
            None
        },
    }
}

impl RuleConfig {
    pub fn severity(&self) -> (r: Option<Severity>)
        ensures
            r == rule_severity(*self),
    {
        match self {
            RuleConfig::Severity(value) => Some(*value),
            RuleConfig::Detailed(options) => if options.enabled {
                Some(options.severity)
            } else {
                None
            },
        }
    }

    /// The detailed options, when the rule is configured with them.
    pub fn options(&self) -> (r: Option<&RuleOptions>)
        ensures
            match *self {
                RuleConfig::Detailed(o) => r == Some(&o),
                RuleConfig::Severity(_) => r is None,
            },
    {
        match self {
            RuleConfig::Detailed(options) => Some(options),
            RuleConfig::Severity(_) => None,
        }
    }
}

impl FailOn {
    /// The threshold named `error` or `warning`.
    pub fn parse(value: &str) -> (r: Option<Self>)
        ensures
            r == if value@ == "error"@ {
                Some(FailOn::Error)
            } else if value@ == "warning"@ {
                Some(FailOn::Warning)
            } else {
                None
            },
    {
        if text_equal(value, "error") {
            Some(FailOn::Error)
        } else if text_equal(value, "warning") {
            Some(FailOn::Warning)
        } else {
            None
        }
    }
}

/// The name of an output format.
pub open spec fn format_name(f: OutputFormat) -> Seq<char> {
    match f {
        OutputFormat::Human => "human"@,
        OutputFormat::Json => "json"@,
        OutputFormat::Jsonl => "jsonl"@,
        OutputFormat::Sarif => "sarif"@,
    }
}

impl OutputFormat {
    /// The format with the given name.
    pub fn parse(value: &str) -> (r: Option<Self>)
        ensures
            r == if value@ == "human"@ {
                Some(OutputFormat::Human)
            } else if value@ == "json"@ {
                Some(OutputFormat::Json)
            } else if value@ == "jsonl"@ {
                Some(OutputFormat::Jsonl)
            } else if value@ == "sarif"@ {
                Some(OutputFormat::Sarif)
            } else {
                None
            },
    {
        if text_equal(value, "human") {
            Some(OutputFormat::Human)
        } else if text_equal(value, "json") {
            Some(OutputFormat::Json)
        } else if text_equal(value, "jsonl") {
            Some(OutputFormat::Jsonl)
        } else if text_equal(value, "sarif") {
            Some(OutputFormat::Sarif)
        } else {
            None
        }
    }

    /// The format's name, as it is written in the configuration.
    pub fn as_str(&self) -> (r: &'static str)
        ensures
            r@ == format_name(*self),
    {
        match self {
            OutputFormat::Human => "human",
            OutputFormat::Json => "json",
            OutputFormat::Jsonl => "jsonl",
            OutputFormat::Sarif => "sarif",
        }
    }
}

/// The values of the parts that read as `i64`, in order.
pub open spec fn parsed_values(parts: Seq<Seq<char>>) -> Seq<int>
    decreases parts.len(),
{
    if parts.len() == 0 {
        Seq::empty()
    } else {
        let earlier = parsed_values(parts.drop_last());
        match i64_value(parts.last()) {
            Some(v) => earlier.push(v),
            None => earlier,
        }
    }
}

/// Integer division rounding toward zero (Rust's `/`), for a positive divisor.
pub open spec fn quotient_toward_zero(a: int, b: int) -> int {
    if a >= 0 {
        a / b
    } else {
        -((-a) / b)
    }
}

/// The number of days from 1970-01-01 to the proleptic Gregorian date `year-month-day` (the
/// days-from-civil algorithm), negative before the epoch.
pub open spec fn civil_day(year: int, month: int, day: int) -> int {
    let y = year - if month <= 2 {
        1int
    } else {
        0int
    };
    let era = y / 400;
    let year_of_era = y - era * 400;
    let month_prime = month + if month > 2 {
        -3int
    } else {
        9int
    };
    let day_of_year = quotient_toward_zero(153 * month_prime + 2, 5) + day - 1;
    let day_of_era = year_of_era * 365 + year_of_era / 4 - year_of_era / 100 + day_of_year;
    era * 146097 + day_of_era - 719468
}

/// `x` clamped to the range of `u64`.
pub open spec fn clamp_u64(x: int) -> int {
    if x <= 0 {
        0
    } else if x > u64::MAX {
        u64::MAX as int
    } else {
        x
    }
}

/// The day on which a `YYYY-MM-DD` expiration date falls, counted from the epoch: the first three
/// `-`-separated parts that read as integers give year, month and day; without three such parts
/// the day is 0, and days before the epoch count as 0.
pub open spec fn expiration_of(date: Seq<char>) -> int {
    let v = parsed_values(split_seq(date, '-'));
    if v.len() >= 3 {
        clamp_u64(civil_day(v[0], v[1], v[2]))
    } else {
        0
    }
}

fn floor_div_400(y: i128) -> (r: i128)
    requires
        -0x1_0000_0000_0000_0000 <= y <= 0x1_0000_0000_0000_0000,
    ensures
        r == y / 400,
{
    if y >= 0 {
        ((y as u128) / 400) as i128
    } else {
        let n = (-y) as u128;
        let q = ((n + 399) / 400) as i128;
        assert(-q == y / 400) by (nonlinear_arith)
            requires
                n == -y,
                q == (n + 399) / 400,
                y < 0,
        ;
        -q
    }
}

fn toward_zero_div_5(a: i128) -> (r: i128)
    requires
        -0x1_0000_0000_0000_0000_0000 <= a <= 0x1_0000_0000_0000_0000_0000,
    ensures
        r == quotient_toward_zero(a as int, 5),
{
    if a >= 0 {
        ((a as u128) / 5) as i128
    } else {
        -((((-a) as u128) / 5) as i128)
    }
}

/// The day, counted from the epoch, on which the expiration date `date` falls (see
/// `expiration_of`). Where plain `i64` arithmetic would overflow, the result saturates.
pub fn expiration_day(date: &str) -> (r: u64)
    ensures
        r == expiration_of(date@),
{
    let parts = split_char(date, '-');
    let ghost views = split_seq(date@, '-');
    let mut values: Vec<i64> = Vec::new();
    let mut i: usize = 0;
    while i < parts.len()
        invariant
            i <= parts@.len(),
            parts@.map_values(|p: String| p@) == views,
            values@.map_values(|v: i64| v as int) == parsed_values(views.take(i as int)),
        decreases parts@.len() - i,
    {
        let ghost before = values@;
        proof {
            assert(views.take(i + 1).drop_last() =~= views.take(i as int));
            assert(views.take(i + 1).last() == parts@[i as int]@);
        }
        match parse_i64(parts[i].as_str()) {
            Some(v) => {
                values.push(v);
                assert(values@.map_values(|v: i64| v as int) =~= before.map_values(|v: i64| v as int).push(
                    v as int,
                ));
            },
            None => {},
        }
        i = i + 1;
    }
    assert(views.take(i as int) =~= views);
    if values.len() < 3 {
        return 0;
    }
    let year = values[0] as i128;
    let month = values[1] as i128;
    let day = values[2] as i128;
    proof {
        assert(values@.map_values(|v: i64| v as int)[0] == year);
        assert(values@.map_values(|v: i64| v as int)[1] == month);
        assert(values@.map_values(|v: i64| v as int)[2] == day);
    }
    let y = year - if month <= 2 {
        1i128
    } else {
        0i128
    };
    let era = floor_div_400(y);
    assert(-0x1_0000_0000_0000_0000 <= era <= 0x1_0000_0000_0000_0000) by (nonlinear_arith)
        requires
            era == y / 400,
            -0x1_0000_0000_0000_0000 <= y <= 0x1_0000_0000_0000_0000,
    ;
    let year_of_era = y - era * 400;
    assert(0 <= year_of_era < 400) by (nonlinear_arith)
        requires
            era == y / 400,
            year_of_era == y - era * 400,
    ;
    let month_prime = month + if month > 2 {
        -3i128
    } else {
        9i128
    };
    let day_of_year = toward_zero_div_5(153 * month_prime + 2) + day - 1;
    let yoe = year_of_era as u128;
    let day_of_era = year_of_era * 365 + ((yoe / 4) as i128) - ((yoe / 100) as i128) + day_of_year;
    let total = era * 146097 + day_of_era - 719468;
    if total <= 0 {
        0
    } else if total > 0xffff_ffff_ffff_ffff {
        0xffff_ffff_ffff_ffff
    } else {
        total as u64
    }
}

/// Whether an entry with this expiration stays after `today`: it has none, or it expires later.
pub open spec fn unexpired(expires_at: Option<String>, today: u64) -> bool {
    match expires_at {
        None => true,
        Some(date) => expiration_of(date@) > today,
    }
}

fn still_valid(expires_at: &Option<String>, today: u64) -> (r: bool)
    ensures
        r == unexpired(*expires_at, today),
{
    match expires_at {
        None => true,
        Some(date) => expiration_day(date.as_str()) > today,
    }
}

impl SuppressionConfig {
    /// Removes the path and fingerprint suppressions that expire on or before `today` and returns
    /// how many were removed.
    pub fn prune_expired(&mut self, today: u64) -> (r: usize)
        requires
            old(self).paths@.len() + old(self).fingerprints@.len() <= usize::MAX,
        ensures
            final(self).paths@ == old(self).paths@.filter(|e: PathSuppression| unexpired(e.expires_at, today)),
            final(self).fingerprints@ == old(self).fingerprints@.filter(
                |e: FingerprintSuppression| unexpired(e.expires_at, today),
            ),
            final(self).require_reason == old(self).require_reason,
            final(self).report_unused == old(self).report_unused,
            r == old(self).paths@.len() + old(self).fingerprints@.len() - final(self).paths@.len()
                - final(self).fingerprints@.len(),
    {
        let ghost keep_path = |e: PathSuppression| unexpired(e.expires_at, today);
        let ghost keep_print = |e: FingerprintSuppression| unexpired(e.expires_at, today);
        let mut paths: Vec<PathSuppression> = Vec::new();
        std::mem::swap(&mut paths, &mut self.paths);
        let mut prints: Vec<FingerprintSuppression> = Vec::new();
        std::mem::swap(&mut prints, &mut self.fingerprints);
        let ghost all_paths = paths@;
        let ghost all_prints = prints@;
        let before = paths.len() + prints.len();
        let mut kept_paths: Vec<PathSuppression> = Vec::new();
        for entry in it: paths
            invariant
                it.seq() == all_paths,
                keep_path == (|e: PathSuppression| unexpired(e.expires_at, today)),
                kept_paths@ == all_paths.take(it.index() as int).filter(keep_path),
        {
            let ghost k = it.index();
            let ghost prior = kept_paths@;
            proof {
                assert(entry == all_paths[k as int]);
                assert(all_paths.take(k + 1).drop_last() =~= all_paths.take(k as int));
                assert(all_paths.take(k + 1).last() == entry);
                reveal(Seq::filter);
                let t = all_paths.take(k + 1);
                assert(t.len() == k + 1);
                assert(t.filter(keep_path) == if keep_path(t.last()) {
                    t.drop_last().filter(keep_path).push(t.last())
                } else {
                    t.drop_last().filter(keep_path)
                });
                assert(keep_path(entry) == unexpired(entry.expires_at, today));
            }
            if still_valid(&entry.expires_at, today) {
                kept_paths.push(entry);
            }
            assert(kept_paths@ == all_paths.take(k + 1).filter(keep_path));
        }
        let mut kept_prints: Vec<FingerprintSuppression> = Vec::new();
        for entry in it: prints
            invariant
                it.seq() == all_prints,
                keep_print == (|e: FingerprintSuppression| unexpired(e.expires_at, today)),
                kept_prints@ == all_prints.take(it.index() as int).filter(keep_print),
        {
            let ghost k = it.index();
            proof {
                assert(entry == all_prints[k as int]);
                assert(all_prints.take(k + 1).drop_last() =~= all_prints.take(k as int));
                assert(all_prints.take(k + 1).last() == entry);
                reveal(Seq::filter);
                let t = all_prints.take(k + 1);
                assert(t.len() == k + 1);
                assert(t.filter(keep_print) == if keep_print(t.last()) {
                    t.drop_last().filter(keep_print).push(t.last())
                } else {
                    t.drop_last().filter(keep_print)
                });
                assert(keep_print(entry) == unexpired(entry.expires_at, today));
            }
            if still_valid(&entry.expires_at, today) {
                kept_prints.push(entry);
            }
            assert(kept_prints@ == all_prints.take(k + 1).filter(keep_print));
        }
        proof {
            assert(all_paths.take(all_paths.len() as int) =~= all_paths);
            assert(all_prints.take(all_prints.len() as int) =~= all_prints);
            all_paths.lemma_filter_len(keep_path);
            all_prints.lemma_filter_len(keep_print);
        }
        let after = kept_paths.len() + kept_prints.len();
        self.paths = kept_paths;
        self.fingerprints = kept_prints;
        before - after
    }
}

/// Reads the system clock (`SystemTime::now`) and gives the whole seconds since the Unix epoch,
/// or `None` when the clock is set before it. The result depends on the time: nothing is stated
/// of it.
#[verifier::external_body]
fn seconds_since_epoch() -> Option<u64> {
    std::time::SystemTime::now().duration_since(std::time::UNIX_EPOCH).ok().map(|elapsed| elapsed.as_secs())
}

/// The whole days in `seconds` since the epoch, or 0 when the clock is before the epoch.
pub fn epoch_day_of(seconds: Option<u64>) -> (r: u64)
    ensures
        r == match seconds {
            Some(s) => s / 86400,
            None => 0,
        },
{
    match seconds {
        Some(s) => s / 86400,
        None => 0,
    }
}

/// Today's day counted from the Unix epoch, by the system clock.
pub fn current_epoch_day() -> (r: u64) {
    epoch_day_of(seconds_since_epoch())
}

/// Some pattern matches the path.
pub open spec fn any_glob(patterns: Seq<Seq<char>>, path: Seq<char>) -> bool {
    exists|i: int| 0 <= i < patterns.len() && glob_hits(#[trigger] patterns[i], path)
}

/// The override covers the path: one of its file globs matches and none of its exclusions does.
pub open spec fn override_applies(o: ConfigOverride, path: Seq<char>) -> bool {
    any_glob(texts_of(o.files@), path) && !any_glob(texts_of(o.excluded_files@), path)
}

/// The severity the project-wide rule configuration gives the rule.
pub open spec fn base_severity(c: Config, rule: Seq<char>) -> Option<Severity> {
    match c.rules.lookup(rule) {
        Some(rc) => rule_severity(rc),
        None => None,
    }
}

/// The severity after applying the overrides in order to `base`: each override that covers the
/// path and configures the rule replaces it.
pub open spec fn severity_after(overrides: Seq<ConfigOverride>, base: Option<Severity>, rule: Seq<char>, path: Seq<char>) -> Option<
    Severity,
>
    decreases overrides.len(),
{
    if overrides.len() == 0 {
        base
    } else {
        let earlier = severity_after(overrides.drop_last(), base, rule, path);
        let o = overrides.last();
        if override_applies(o, path) && o.rules.lookup(rule) is Some {
            rule_severity(o.rules.lookup(rule)->0)
        } else {
            earlier
        }
    }
}

/// The entry configures the rule and enables it.
pub open spec fn enables(entry: Option<RuleConfig>) -> bool {
    match entry {
        Some(rc) => rule_severity(rc) is Some,
        None => false,
    }
}

fn any_matches(patterns: &Vec<String>, path: &str) -> (r: bool)
    ensures
        r == any_glob(texts_of(patterns@), path@),
{
    let mut i: usize = 0;
    while i < patterns.len()
        invariant
            i <= patterns@.len(),
            forall|k: int| 0 <= k < i ==> !glob_hits(#[trigger] texts_of(patterns@)[k], path@),
        decreases patterns@.len() - i,
    {
        assert(texts_of(patterns@)[i as int] == patterns@[i as int]@);
        if glob_hit(patterns[i].as_str(), path) {
            return true;
        }
        i = i + 1;
    }
    false
}

/// The rule's severity from an optional configuration entry.
fn entry_severity(entry: Option<&RuleConfig>) -> (r: Option<Severity>)
    ensures
        r == match entry {
            Some(rc) => rule_severity(*rc),
            None => None,
        },
{
    match entry {
        Some(rc) => rc.severity(),
        None => None,
    }
}


/// `new` is `old` with every configurable rule that `old` leaves out added as an error; all else
/// is unchanged.
pub open spec fn with_default_rules(old: Config, new: Config) -> bool {
    &&& forall|q: Seq<char>|
        #[trigger] new.rules.lookup(q) == match old.rules.lookup(q) {
            Some(rc) => Some(rc),
            None => if configurable_of(rule_table()).contains(q) {
                Some(RuleConfig::Severity(Severity::Error))
            } else {
                None
            },
        }
    &&& new.version == old.version
    &&& new.project == old.project
    &&& new.architecture == old.architecture
    &&& new.overrides == old.overrides
    &&& new.suppressions == old.suppressions
    &&& new.resolution == old.resolution
    &&& new.framework == old.framework
    &&& new.runtime == old.runtime
    &&& new.output == old.output
    &&& new.cache == old.cache
    &&& new.baseline == old.baseline
    &&& new.configured == old.configured
}

/// The error that `validate` gives for a configuration with problems: the one problem as it
/// is, or one error that lists several by path and message.
pub open spec fn validation_failure(c: Config, e: ConfigError) -> bool {
    &&& problem_list(c).len() > 0
    &&& problem_list(c).len() == 1 ==> reports(e, problem_list(c)[0])
    &&& problem_list(c).len() > 1 ==> e.kind == ConfigErrorKind::ConflictingConfig && e.path is None && exists|
        l: Seq<ConfigError>,
    |
        reorders_problems(l, problem_list(c)) && is_sorted(l) && #[trigger] aggregate_message(problems_of(l))
            == e.message@
}

impl Config {
    /// The layer policies, in layer-name order.
    pub fn layer_policies(&self) -> (r: Vec<LayerPolicy>)
        ensures
            r@.len() == self.architecture.layers.pairs().len(),
            forall|i: int|
                0 <= i < r@.len() ==> {
                    let (name, layer) = self.architecture.layers.pairs()[i];
                    &&& (#[trigger] r@[i]).name@ == name@
                    &&& texts_of(r@[i].patterns@) == texts_of(layer.patterns@)
                    &&& texts_of(r@[i].can_import@) == texts_of(layer.can_import@)
                },
    {
        let entries = self.architecture.layers.entries();
        let mut out: Vec<LayerPolicy> = Vec::new();
        let mut i: usize = 0;
        while i < entries.len()
            invariant
                i <= entries@.len(),
                entries@ == self.architecture.layers.pairs(),
                out@.len() == i,
                forall|k: int|
                    0 <= k < i ==> {
                        let (name, layer) = entries@[k];
                        &&& (#[trigger] out@[k]).name@ == name@
                        &&& texts_of(out@[k].patterns@) == texts_of(layer.patterns@)
                        &&& texts_of(out@[k].can_import@) == texts_of(layer.can_import@)
                    },
            decreases entries@.len() - i,
        {
            let name = entries[i].0.clone();
            let patterns = copy_texts(&entries[i].1.patterns);
            let can_import = copy_texts(&entries[i].1.can_import);
            out.push(LayerPolicy { name, patterns, can_import });
            i = i + 1;
        }
        out
    }

    /// The severity of `rule_id` for the module at `path`: the project-wide setting, replaced by
    /// each override that covers the path and configures the rule, the last one winning; `None`
    /// when the rule ends up disabled or unconfigured.
    pub fn rule_severity_for_path(&self, rule_id: &str, path: &str) -> (r: Option<Severity>)
        ensures
            r == severity_after(self.overrides@, base_severity(*self, rule_id@), rule_id@, path@),
    {
        let mut severity = entry_severity(self.rules.get(rule_id));
        let ghost base = base_severity(*self, rule_id@);
        let mut i: usize = 0;
        while i < self.overrides.len()
            invariant
                i <= self.overrides@.len(),
                base == base_severity(*self, rule_id@),
                severity == severity_after(self.overrides@.take(i as int), base, rule_id@, path@),
            decreases self.overrides@.len() - i,
        {
            let policy = &self.overrides[i];
            proof {
                assert(self.overrides@.take(i + 1).drop_last() =~= self.overrides@.take(i as int));
                assert(self.overrides@.take(i + 1).last() == *policy);
            }
            let included = any_matches(&policy.files, path);
            let excluded = any_matches(&policy.excluded_files, path);
            if included && !excluded {
                match policy.rules.get(rule_id) {
                    Some(rule) => {
                        severity = rule.severity();
                    },
                    None => {},
                }
            }
            i = i + 1;
        }
        assert(self.overrides@.take(i as int) =~= self.overrides@);
        severity
    }

    /// Whether the rule is enabled project-wide or by any override.
    pub fn rule_enabled_anywhere(&self, rule_id: &str) -> (r: bool)
        ensures
            r == (base_severity(*self, rule_id@) is Some || exists|i: int|
                0 <= i < self.overrides@.len() && enables((#[trigger] self.overrides@[i]).rules.lookup(rule_id@))),
    {
        if entry_severity(self.rules.get(rule_id)).is_some() {
            return true;
        }
        let mut i: usize = 0;
        while i < self.overrides.len()
            invariant
                i <= self.overrides@.len(),
                forall|k: int| 0 <= k < i ==> !enables((#[trigger] self.overrides@[k]).rules.lookup(rule_id@)),
            decreases self.overrides@.len() - i,
        {
            if entry_severity(self.overrides[i].rules.get(rule_id)).is_some() {
                return true;
            }
            i = i + 1;
        }
        false
    }

    /// Adds every configurable rule that the configuration leaves out, as an error; configured
    /// entries stay as they are.
    pub fn merge_default_rules(&mut self)
        ensures
            forall|q: Seq<char>|
                #[trigger] final(self).rules.lookup(q) == match old(self).rules.lookup(q) {
                    Some(rc) => Some(rc),
                    None => if configurable_of(rule_table()).contains(q) {
                        Some(RuleConfig::Severity(Severity::Error))
                    } else {
                        None
                    },
                },
            final(self).version == old(self).version,
            final(self).project == old(self).project,
            final(self).architecture == old(self).architecture,
            final(self).overrides == old(self).overrides,
            final(self).suppressions == old(self).suppressions,
            final(self).resolution == old(self).resolution,
            final(self).framework == old(self).framework,
            final(self).runtime == old(self).runtime,
            final(self).output == old(self).output,
            final(self).cache == old(self).cache,
            final(self).baseline == old(self).baseline,
            final(self).configured == old(self).configured,
    {
        let ids = configurable_ids();
        let ghost views = configurable_of(rule_table());
        let ghost original = self.rules;
        let mut i: usize = 0;
        while i < ids.len()
            invariant
                i <= ids@.len(),
                ids@.map_values(|s: &'static str| s@) == views,
                views == configurable_of(rule_table()),
                self.version == old(self).version,
                self.project == old(self).project,
                self.architecture == old(self).architecture,
                self.overrides == old(self).overrides,
                self.suppressions == old(self).suppressions,
                self.resolution == old(self).resolution,
                self.framework == old(self).framework,
                self.runtime == old(self).runtime,
                self.output == old(self).output,
                self.cache == old(self).cache,
                self.baseline == old(self).baseline,
                self.configured == old(self).configured,
                original == old(self).rules,
                forall|q: Seq<char>|
                    #[trigger] self.rules.lookup(q) == match original.lookup(q) {
                        Some(rc) => Some(rc),
                        None => if views.take(i as int).contains(q) {
                            Some(RuleConfig::Severity(Severity::Error))
                        } else {
                            None
                        },
                    },
            decreases ids@.len() - i,
        {
            let ghost before = self.rules;
            assert(views[i as int] == ids@[i as int]@);
            if !self.rules.contains_key(ids[i]) {
                self.rules.insert(owned(ids[i]), RuleConfig::Severity(Severity::Error));
            }
            assert forall|q: Seq<char>|
                #[trigger] self.rules.lookup(q) == match original.lookup(q) {
                    Some(rc) => Some(rc),
                    None => if views.take(i + 1).contains(q) {
                        Some(RuleConfig::Severity(Severity::Error))
                    } else {
                        None
                    },
                } by {
                let next = views.take(i + 1);
                let prev = views.take(i as int);
                if q == views[i as int] {
                    assert(next[i as int] == q);
                } else {
                    if prev.contains(q) {
                        let j = choose|j: int| 0 <= j < prev.len() && prev[j] == q;
                        assert(next[j] == q);
                    }
                    if next.contains(q) {
                        let j = choose|j: int| 0 <= j < next.len() && next[j] == q;
                        assert(prev[j] == q);
                    }
                }
            }
            i = i + 1;
        }
        assert(views.take(i as int) =~= views);
    }

    /// A parsed configuration completed with the default rule entries and validated: the
    /// completed configuration when it has no problem, else the error that `validate` gives.
    pub fn from_parsed(self) -> (r: Result<Config, ConfigError>)
        ensures
            exists|m: Config|
                #[trigger] with_default_rules(self, m) && match r {
                    Ok(c) => c == m && problem_list(m).len() == 0,
                    Err(e) => validation_failure(m, e),
                },
    {
        let ghost original = self;
        let mut config = self;
        config.merge_default_rules();
        proof {
            assert(with_default_rules(original, config));
        }
        match config.validate() {
            Ok(()) => Ok(config),
            Err(error) => Err(error),
        }
    }
}


/// An override whose exclusions match the path, or whose file globs all miss it, has no say on
/// that path: the severity the overrides give is the same with it and without it.
pub proof fn lemma_excluded_override_ignored(
    overrides: Seq<ConfigOverride>,
    k: int,
    base: Option<Severity>,
    rule: Seq<char>,
    path: Seq<char>,
)
    requires
        0 <= k < overrides.len(),
        any_glob(texts_of(overrides[k].excluded_files@), path) || !any_glob(texts_of(overrides[k].files@), path),
    ensures
        severity_after(overrides, base, rule, path) == severity_after(overrides.remove(k), base, rule, path),
    decreases overrides.len(),
{
    let q = overrides.remove(k);
    if k == overrides.len() - 1 {
        assert(q =~= overrides.drop_last());
    } else {
        lemma_excluded_override_ignored(overrides.drop_last(), k, base, rule, path);
        assert(q.drop_last() =~= overrides.drop_last().remove(k));
        assert(q.last() == overrides.last());
    }
}

/// When every override excludes the path, the rule keeps its project-wide severity there.
pub proof fn lemma_excluded_everywhere_keeps_base(overrides: Seq<ConfigOverride>, base: Option<Severity>, rule: Seq<char>, path: Seq<char>)
    requires
        forall|i: int| 0 <= i < overrides.len() ==> any_glob(texts_of((#[trigger] overrides[i]).excluded_files@), path),
    ensures
        severity_after(overrides, base, rule, path) == base,
    decreases overrides.len(),
{
    if overrides.len() > 0 {
        let n = overrides.len() - 1;
        lemma_excluded_override_ignored(overrides, n, base, rule, path);
        assert(overrides.remove(n) =~= overrides.drop_last());
        assert forall|i: int| 0 <= i < overrides.drop_last().len() implies any_glob(
            texts_of((#[trigger] overrides.drop_last()[i]).excluded_files@),
            path,
        ) by {
            assert(overrides.drop_last()[i] == overrides[i]);
        }
        lemma_excluded_everywhere_keeps_base(overrides.drop_last(), base, rule, path);
    }
}


/// An override that covers the path (a file glob matches, no exclusion does) and configures the
/// rule decides its severity there when it comes last, whatever the overrides before it say.
pub proof fn lemma_last_covering_override_wins(
    overrides: Seq<ConfigOverride>,
    o: ConfigOverride,
    base: Option<Severity>,
    rule: Seq<char>,
    path: Seq<char>,
)
    requires
        any_glob(texts_of(o.files@), path),
        !any_glob(texts_of(o.excluded_files@), path),
        o.rules.lookup(rule) is Some,
    ensures
        severity_after(overrides.push(o), base, rule, path) == rule_severity(o.rules.lookup(rule)->0),
{
    assert(overrides.push(o).drop_last() =~= overrides);
}

} // verus!
