use wae::architecture::ArchitectureOwnershipIndex;
use wae::diagnostic::Diagnostic;
use wae::domain::{Dependency, DependencyKind, ModuleId, Project, SourceLocation};
use wae::engine::{Analysis, ChangeSet, IncrementalStats};
use wae::impact::ImpactAnalyzer;
use wae::module_graph::ModuleGraphBuilder;
use wae::paths::{normalized_path_is_within, relative_resolved_path};
use wae::telemetry::AnalysisTimings;
use wae::text_set::TextSet;

fn edge(from: &str, to: &str) -> Dependency {
    Dependency {
        from: ModuleId(from.into()),
        to: ModuleId(to.into()),
        kind: DependencyKind::Static,
        location: SourceLocation::unknown(),
    }
}

fn set(items: &[&str]) -> TextSet {
    let mut s = TextSet::new();
    for item in items {
        s.insert(item.to_string());
    }
    s
}

fn analysis(diagnostics: Vec<Diagnostic>) -> Analysis {
    let graph = ModuleGraphBuilder::new()
        .add_edge(edge("src/a.ts", "src/b.ts"))
        .add_edge(edge("src/b.ts", "src/c.ts"))
        .add_edge(edge("src/x.ts", "src/y.ts"))
        .build();
    Analysis {
        schema_version: 1,
        project: Project::default(),
        graph,
        ownership: ArchitectureOwnershipIndex::default(),
        diagnostics,
        incremental: IncrementalStats::default(),
        timings: AnalysisTimings {
            discovery_ms: 0,
            classification_ms: 0,
            parsing_ms: 0,
            resolution_ms: 0,
            graph_build_ms: 0,
            rule_evaluation_ms: 0,
            cache_ms: 0,
            reporting_ms: 0,
            orchestration_ms: 0,
            total_ms: 0,
        },
    }
}

#[test]
fn changes_reach_every_transitive_importer() {
    let changes = ChangeSet { changed: set(&["src/c.ts"]), deleted: set(&[]) };
    let affected = ImpactAnalyzer::affected(&analysis(vec![]), &changes);
    assert_eq!(affected.iter().to_vec(), ["src/a.ts", "src/b.ts", "src/c.ts"]);
}

#[test]
fn deleted_candidates_of_unresolved_imports_affect_their_importer() {
    let mut unresolved = Diagnostic::new("RESOLVE-001", "cannot resolve");
    unresolved.primary_location = Some(SourceLocation { file: "src/y.ts".into(), line: 1, column: 1 });
    unresolved.metadata.insert("candidatePaths".into(), "[\"src/gone.ts\"]".into());
    let changes = ChangeSet { changed: set(&[]), deleted: set(&["src/gone.ts"]) };
    let affected = ImpactAnalyzer::affected(&analysis(vec![unresolved.clone()]), &changes);
    assert_eq!(affected.iter().to_vec(), ["src/x.ts", "src/y.ts"]);
    let unrelated = ChangeSet { changed: set(&[]), deleted: set(&["src/other.ts"]) };
    assert_eq!(ImpactAnalyzer::affected(&analysis(vec![unresolved]), &unrelated).len(), 0);
}

#[test]
fn resolved_windows_verbatim_paths_become_project_relative_ids() {
    let root = r"\\?\D:\a\wae\wae";
    let resolved = "//?/D:/a/wae/wae/src/a.ts";
    assert_eq!(relative_resolved_path(root, "//?/D:/a/wae/wae"), "");
    assert_eq!(relative_resolved_path(root, resolved), "src/a.ts");
    assert!(normalized_path_is_within(resolved, r"\\?\D:\a\wae\wae"));
    assert!(!normalized_path_is_within("//?/D:/a/wae/waex/a.ts", root));
    assert_eq!(relative_resolved_path("/repo/", "/elsewhere/b.ts"), "/elsewhere/b.ts");
}
