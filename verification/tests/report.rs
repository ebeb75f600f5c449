use wae::architecture::ArchitectureOwnershipIndex;
use wae::diagnostic::Diagnostic;
use wae::domain::{
    FrameworkMetadata, Module, ModuleId, ModuleKind, ModulePath, PackageName, Project, Runtime, Severity,
    SourceLocation,
};
use wae::engine::{Analysis, IncrementalStats};
use wae::module_graph::ModuleGraph;
use wae::report::{counts, human};
use wae::telemetry::AnalysisTimings;

fn module(id: &str, kind: ModuleKind) -> Module {
    Module {
        id: ModuleId(id.into()),
        path: ModulePath(format!("/app/{id}")),
        package: PackageName("app".into()),
        kind,
        runtime: Runtime::Universal,
        layer: None,
        framework_metadata: FrameworkMetadata::default(),
    }
}

fn timings() -> AnalysisTimings {
    AnalysisTimings {
        discovery_ms: 0,
        classification_ms: 0,
        parsing_ms: 0,
        resolution_ms: 0,
        graph_build_ms: 0,
        rule_evaluation_ms: 0,
        cache_ms: 0,
        reporting_ms: 0,
        orchestration_ms: 0,
        total_ms: 0,
    }
}

fn analysis(diagnostics: Vec<Diagnostic>) -> Analysis {
    let mut project = Project::default();
    project.modules = vec![
        module("src/a.ts", ModuleKind::Source),
        module("src/b.ts", ModuleKind::Source),
        module("dist/c.js", ModuleKind::Excluded),
        module("react", ModuleKind::External),
    ];
    Analysis {
        schema_version: 1,
        project,
        graph: ModuleGraph::new(),
        ownership: ArchitectureOwnershipIndex::default(),
        diagnostics,
        incremental: IncrementalStats::default(),
        timings: timings(),
    }
}

#[test]
fn counts_split_modules_by_kind() {
    let c = counts(&analysis(vec![]));
    assert_eq!((c.source_modules, c.excluded_modules, c.external_packages, c.dependencies), (2, 1, 1, 0));
}

#[test]
fn a_clean_analysis_reports_passed() {
    assert_eq!(
        human(&analysis(vec![])),
        "Analyzing 2 source modules, 1 excluded modules, 1 external packages and 0 dependencies...\n\nArchitecture\n\n✖ 0 errors\n⚠ 0 warnings\n\n✓ Passed"
    );
}

#[test]
fn diagnostics_show_location_path_suggestion_and_suppression() {
    let mut cycle = Diagnostic::new("ARCH-001", "cycle");
    cycle.fingerprint = "f1".into();
    cycle.primary_location = Some(SourceLocation { file: "src/a.ts".into(), line: 3, column: 7 });
    cycle.dependency_path = vec![ModuleId("src/a.ts".into()), ModuleId("src/b.ts".into())];
    cycle.suggestion = Some("break it".into());
    let mut quiet = Diagnostic::new("ARCH-004", "hidden");
    quiet.fingerprint = "f2".into();
    quiet.severity = Severity::Warning;
    quiet.suppressed = true;
    quiet.suppression_reason = Some("legacy".into());
    let report = human(&analysis(vec![cycle, quiet]));
    assert_eq!(
        report,
        "Analyzing 2 source modules, 1 excluded modules, 1 external packages and 0 dependencies...\n\nArchitecture\n\n✖ 1 errors\n⚠ 0 warnings\n\nARCH-001 [f1]\ncycle\nsrc/a.ts:3:7\nsrc/a.ts\n→ src/b.ts\nSuggestion: break it\n\nARCH-004 (suppressed) [f2]\nhidden\nSuppression reason: legacy"
    );
}

#[test]
fn stable_hash_is_fnv1a() {
    assert_eq!(wae::hashing::stable_hash(b""), 0xcbf29ce484222325);
    assert_eq!(wae::hashing::stable_hash(b"a"), 0xaf63dc4c8601ec8c);
    assert_eq!(wae::hashing::stable_hash(b"foobar"), 0x85944171f73967e8);
}
