//! The engine's request and result values, the failure policy shared by exit codes and reports,
//! and cancellation.
use crate::architecture::ArchitectureOwnershipIndex;
use crate::diagnostic::Diagnostic;
use crate::domain::{ConfigError, DependencyKind, Project, Severity};
use crate::map::OrderedMap;
use crate::module_graph::ModuleGraph;
use crate::telemetry::AnalysisTimings;
use crate::text_set::TextSet;
use vstd::prelude::*;

verus! {

/// The version of the machine-readable output formats.
pub const OUTPUT_SCHEMA_VERSION: u32 = 1;

/// A flag shared by the clones of a token; setting it asks the work that holds it to stop.
#[derive(Clone, Debug)]
pub struct CancellationToken(std::sync::Arc<std::sync::atomic::AtomicBool>);

impl CancellationToken {
    /// Sets the shared flag, with release ordering.
    pub fn cancel(&self) {
        self.0.store(true, std::sync::atomic::Ordering::Release);
    }

    /// Reads the shared flag, with acquire ordering. Another clone may set it at any time.
    pub fn is_cancelled(&self) -> bool {
        self.0.load(std::sync::atomic::Ordering::Acquire)
    }
}

impl Default for CancellationToken {
    /// A token whose flag is not set.
    fn default() -> (r: Self) {
        CancellationToken(std::sync::Arc::new(std::sync::atomic::AtomicBool::new(false)))
    }
}

/// What to analyze: a project root, an optional configuration file, whether to use the cache,
/// in-memory source overlays by module, an optional known file list, and a cancellation token.
#[derive(Clone, Debug)]
pub struct AnalyzeRequest {
    pub root: String,
    pub config_path: Option<String>,
    pub cache_enabled: Option<bool>,
    pub overlays: OrderedMap<String, String>,
    pub known_files: Option<Vec<String>>,
    pub cancellation: CancellationToken,
}

impl AnalyzeRequest {
    /// A request for the project at `root` with every option at its default.
    pub fn new(root: String) -> (r: Self)
        ensures
            r.root@ == root@,
            r.config_path is None,
            r.cache_enabled is None,
            r.overlays.pairs().len() == 0,
            r.known_files is None,
    {
        AnalyzeRequest {
            root,
            config_path: None,
            cache_enabled: None,
            overlays: OrderedMap::new(),
            known_files: None,
            cancellation: CancellationToken::default(),
        }
    }

    pub fn with_config(self, path: String) -> (r: Self)
        ensures
            r.config_path matches Some(p) && p@ == path@,
            r.root == self.root,
            r.cache_enabled == self.cache_enabled,
            r.overlays == self.overlays,
            r.known_files == self.known_files,
    {
        AnalyzeRequest { config_path: Some(path), ..self }
    }

    pub fn without_cache(self) -> (r: Self)
        ensures
            r.cache_enabled == Some(false),
            r.root == self.root,
            r.config_path == self.config_path,
            r.overlays == self.overlays,
            r.known_files == self.known_files,
    {
        AnalyzeRequest { cache_enabled: Some(false), ..self }
    }

    /// Replaces the source of `module` with `source` for this analysis.
    pub fn with_overlay(self, module: String, source: String) -> (r: Self)
        ensures
            r.overlays.lookup(module@) == Some(source),
            forall|q: Seq<char>| q != module@ ==> #[trigger] r.overlays.lookup(q) == self.overlays.lookup(q),
            r.root == self.root,
            r.config_path == self.config_path,
            r.cache_enabled == self.cache_enabled,
            r.known_files == self.known_files,
    {
        let mut request = self;
        request.overlays.insert(module, source);
        request
    }

    pub fn with_known_files(self, files: Vec<String>) -> (r: Self)
        ensures
            r.known_files == Some(files),
            r.root == self.root,
            r.config_path == self.config_path,
            r.cache_enabled == self.cache_enabled,
            r.overlays == self.overlays,
    {
        AnalyzeRequest { known_files: Some(files), ..self }
    }

    pub fn with_cancellation(self, cancellation: CancellationToken) -> (r: Self)
        ensures
            r.cancellation == cancellation,
            r.root == self.root,
            r.config_path == self.config_path,
            r.cache_enabled == self.cache_enabled,
            r.overlays == self.overlays,
            r.known_files == self.known_files,
    {
        AnalyzeRequest { cancellation, ..self }
    }
}

/// What an analysis found.
#[derive(Debug)]
pub struct Analysis {
    pub schema_version: u32,
    pub project: Project,
    pub graph: ModuleGraph,
    pub ownership: ArchitectureOwnershipIndex,
    pub diagnostics: Vec<Diagnostic>,
    pub incremental: IncrementalStats,
    pub timings: AnalysisTimings,
}

/// A request to explain how one specifier resolves.
#[derive(Clone, Debug)]
pub struct TraceResolutionRequest {
    pub root: String,
    pub importer: String,
    pub specifier: String,
    pub dependency_kind: DependencyKind,
    pub config_path: Option<String>,
}

/// How a specifier resolved, step by step.
#[derive(Clone, Debug)]
pub struct ResolutionTrace {
    pub importer: String,
    pub specifier: String,
    pub dependency_kind: String,
    pub mode: String,
    pub importer_format: String,
    pub resolution_kind: String,
    pub active_conditions: Vec<String>,
    pub candidate_paths: Vec<String>,
    pub attempts: Vec<ResolutionTraceAttempt>,
    pub outcome: String,
}

/// One resolution handler's attempt on a specifier.
#[derive(Clone, Debug)]
pub struct ResolutionTraceAttempt {
    pub specifier: String,
    pub handler: String,
    pub outcome: Option<String>,
}

/// How much of an analysis the cache saved.
#[derive(Clone, Copy, Debug, PartialEq, Eq)]
pub struct IncrementalStats {
    pub cache_enabled: bool,
    pub restored_modules: usize,
    pub analyzed_modules: usize,
    pub rule_snapshot_reused: bool,
}

impl Default for IncrementalStats {
    fn default() -> (r: Self)
        ensures
            r == (IncrementalStats {
                cache_enabled: false,
                restored_modules: 0,
                analyzed_modules: 0,
                rule_snapshot_reused: false,
            }),
    {
        IncrementalStats { cache_enabled: false, restored_modules: 0, analyzed_modules: 0, rule_snapshot_reused: false }
    }
}

/// A module that more than one layer claims.
#[derive(Clone, Debug, PartialEq, Eq)]
pub struct LayerOverlap {
    pub module: String,
    pub layers: Vec<String>,
}

/// The architecture coverage a configuration achieves on a project.
#[derive(Clone, Debug, PartialEq, Eq)]
pub struct ConfigValidation {
    pub source_modules: usize,
    pub assigned_modules: usize,
    pub exempted_modules: usize,
    pub coverage_percent: u8,
    pub minimum_coverage: Option<u8>,
    pub blank_architecture: bool,
    pub unassigned_modules: Vec<String>,
    pub layer_overlaps: Vec<LayerOverlap>,
}

/// Why an analysis stopped.
#[derive(Debug)]
pub enum AnalysisError {
    Config(ConfigError),
    Project(String),
    Internal(String),
    Cancelled,
}

/// A diagnostic fails a check when it is not suppressed and is an error or a warning.
pub open spec fn failure(d: Diagnostic) -> bool {
    !d.suppressed && (d.severity == Severity::Error || d.severity == Severity::Warning)
}

/// The number of failing diagnostics.
pub open spec fn failure_count(s: Seq<Diagnostic>) -> nat
    decreases s.len(),
{
    if s.len() == 0 {
        0
    } else {
        failure_count(s.drop_last()) + if failure(s.last()) {
            1nat
        } else {
            0nat
        }
    }
}

/// The single failure policy shared by exit codes and machine-readable reporting.
pub struct FailurePolicy;

impl FailurePolicy {
    pub fn is_failure(diagnostic: &Diagnostic) -> (r: bool)
        ensures
            r == failure(*diagnostic),
    {
        !diagnostic.suppressed && (diagnostic.severity == Severity::Error || diagnostic.severity == Severity::Warning)
    }

    pub fn count(diagnostics: &[Diagnostic]) -> (r: usize)
        ensures
            r == failure_count(diagnostics@),
    {
        let mut count: usize = 0;
        let mut i: usize = 0;
        while i < diagnostics.len()
            invariant
                i <= diagnostics@.len(),
                count == failure_count(diagnostics@.take(i as int)),
                count <= i,
            decreases diagnostics@.len() - i,
        {
            assert(diagnostics@.take(i + 1).drop_last() =~= diagnostics@.take(i as int));
            if FailurePolicy::is_failure(&diagnostics[i]) {
                count = count + 1;
            }
            i = i + 1;
        }
        assert(diagnostics@.take(i as int) =~= diagnostics@);
        count
    }
}

/// The modules that changed and those that were deleted since a base revision.
#[derive(Debug)]
pub struct ChangeSet {
    pub changed: TextSet,
    pub deleted: TextSet,
}

impl Default for ChangeSet {
    fn default() -> (r: Self)
        ensures
            r.changed.members().len() == 0,
            r.deleted.members().len() == 0,
    {
        ChangeSet { changed: TextSet::new(), deleted: TextSet::new() }
    }
}

/// A version-control system outside the engine that reports what changed since `base`.
pub trait VcsPort {
    fn changes(&self, base: Option<&str>) -> Result<ChangeSet, String>;
}

} // verus!
