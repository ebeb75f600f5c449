use wae::check_command::{attach_human_regression, changed_check, check_outcome, missing_baseline_message};
use wae::manifest::manifest_from_json;
use wae::provenance::extends_cycle;
use wae::baseline::BaselineMatcher;
use wae::regression::{regression, RegressionSummary};
use wae::text_set::TextSet;
use wae::architecture::ArchitectureOwnershipIndex;
use wae::diagnostic::Diagnostic;
use wae::domain::{Dependency, DependencyKind, ModuleId, Project, Severity, SourceLocation};
use wae::engine::{Analysis, IncrementalStats};
use wae::module_graph::ModuleGraph;
use wae::telemetry::AnalysisTimings;
use wae::tools::{confine_root, dependency_policy, requested_root_of, tool_call, PolicyAnswer, ToolCall};
use wae::server_policy::ServerPolicy;

fn edge(from: &str, to: &str) -> Dependency {
    Dependency {
        from: ModuleId(from.into()),
        to: ModuleId(to.into()),
        kind: DependencyKind::Static,
        location: SourceLocation::unknown(),
    }
}

fn on_path(rule: &str, path: &[&str], severity: Severity, suppressed: bool) -> Diagnostic {
    let mut d = Diagnostic::new(rule, "governed");
    d.dependency_path = path.iter().map(|m| ModuleId(m.to_string())).collect();
    d.severity = severity;
    d.suppressed = suppressed;
    d
}

fn analysis(dependencies: Vec<Dependency>, diagnostics: Vec<Diagnostic>) -> Analysis {
    let mut project = Project::default();
    project.dependencies = dependencies;
    Analysis {
        schema_version: 1,
        project,
        graph: ModuleGraph::new(),
        ownership: ArchitectureOwnershipIndex::default(),
        diagnostics,
        incremental: IncrementalStats::default(),
        timings: AnalysisTimings {
            discovery_ms: 0,
            classification_ms: 0,
            parsing_ms: 0,
            resolution_ms: 0,
            graph_build_ms: 0,
            rule_evaluation_ms: 0,
            cache_ms: 0,
            reporting_ms: 0,
            orchestration_ms: 0,
            total_ms: 0,
        },
    }
}

#[test]
fn dependency_policy_reports_the_governing_diagnostics_of_an_edge() {
    let a = analysis(
        vec![edge("src/ui.ts", "src/db.ts"), edge("src/ui.ts", "src/util.ts")],
        vec![
            on_path("ARCH-001", &["src/ui.ts", "src/db.ts"], Severity::Info, false),
            on_path("ARCH-002", &["src/ui.ts", "src/util.ts"], Severity::Error, false),
            on_path("ARCH-003", &["src/ui.ts", "src/mid.ts", "src/db.ts"], Severity::Warning, false),
        ],
    );
    assert_eq!(
        dependency_policy(&a, "src/ui.ts", "src/db.ts"),
        PolicyAnswer { edge_exists: true, governing: vec![0, 2], allowed: Some(false) }
    );
}

#[test]
fn dependency_policy_allows_an_edge_whose_failures_are_suppressed() {
    let a = analysis(
        vec![edge("src/ui.ts", "src/db.ts")],
        vec![on_path("ARCH-001", &["src/ui.ts", "src/db.ts"], Severity::Error, true)],
    );
    assert_eq!(
        dependency_policy(&a, "src/ui.ts", "src/db.ts"),
        PolicyAnswer { edge_exists: true, governing: vec![0], allowed: Some(true) }
    );
}

#[test]
fn dependency_policy_has_no_verdict_for_a_missing_edge() {
    let a = analysis(vec![], vec![on_path("ARCH-001", &["src/ui.ts", "src/db.ts"], Severity::Error, false)]);
    assert_eq!(
        dependency_policy(&a, "src/ui.ts", "src/db.ts"),
        PolicyAnswer { edge_exists: false, governing: vec![0], allowed: None }
    );
}

#[test]
fn changed_check_reports_new_findings_and_summarizes_the_baseline() {
    let mut accepted_failure = on_path("ARCH-001", &["src/a.ts", "src/b.ts"], Severity::Error, false);
    accepted_failure.fingerprint = "f0".into();
    let mut new_failure = on_path("ARCH-001", &["src/a.ts", "src/c.ts"], Severity::Error, false);
    new_failure.fingerprint = "f1".into();
    let mut elsewhere = on_path("ARCH-001", &["src/x.ts"], Severity::Error, false);
    elsewhere.fingerprint = "f2".into();
    let mut note = Diagnostic::new("ARCH-002", "note");
    note.fingerprint = "f3".into();
    note.severity = Severity::Info;
    note.primary_location = Some(SourceLocation { file: "src/a.ts".into(), line: 1, column: 1 });

    let mut affected = TextSet::new();
    affected.insert("src/a.ts".into());
    let signatures = BaselineMatcher::from_stored(1, vec!["f0".into(), "f9".into()], vec![], 0).unwrap();
    let (kept, summary) = regression(vec![accepted_failure, new_failure, elsewhere, note], &affected, &signatures);
    let fingerprints: Vec<String> = kept.iter().map(|d| d.fingerprint.clone()).collect();
    assert_eq!(fingerprints, vec!["f1".to_string(), "f3".to_string()]);
    assert_eq!(summary, RegressionSummary { affected_modules: 1, existing: 1, introduced: 1, fixed: 1 });
}

#[test]
fn extends_cycle_names_the_files_from_the_first_repeat() {
    let loading = vec!["cfg/a.yaml".to_string(), "cfg/b.yaml".to_string(), "cfg/c.yaml".to_string()];
    assert_eq!(
        extends_cycle(&loading, "cfg/b.yaml"),
        Some("configuration extends cycle: cfg/b.yaml -> cfg/c.yaml -> cfg/b.yaml".to_string())
    );
    assert_eq!(extends_cycle(&loading, "cfg/d.yaml"), None);
    assert_eq!(extends_cycle(&[], "cfg/a.yaml"), None);
}

#[test]
fn manifest_tables_come_from_the_package_json() {
    let manifest = manifest_from_json(
        "package.json",
        r#"{"name":"web","dependencies":{"next":"15","react":"19"},"devDependencies":{"typescript":"5"},"peerDependencies":"none"}"#,
    )
    .unwrap();
    assert_eq!(manifest.dependencies, Some(vec!["next".to_string(), "react".to_string()]));
    assert_eq!(manifest.dev_dependencies, Some(vec!["typescript".to_string()]));
    assert_eq!(manifest.peer_dependencies, None);

    let bare = manifest_from_json("package.json", "[1, 2]").unwrap();
    assert_eq!(bare.dependencies, None);
    assert_eq!(bare.dev_dependencies, None);

    let broken = manifest_from_json("pkg/package.json", "{").unwrap_err();
    assert!(broken.starts_with("invalid JSON in `pkg/package.json`: "));
}

#[test]
fn changed_check_without_a_baseline_is_a_project_error() {
    let mut affected = TextSet::new();
    affected.insert("src/a.ts".into());
    let answer = changed_check(vec![], Err(missing_baseline_message(".wae/baseline.json")), Ok(affected));
    let output = answer.unwrap_err();
    assert_eq!(output.exit_code, 2);
    assert!(output.stderr.contains("baseline is missing"));
    assert!(output.stdout.is_empty());
}

#[test]
fn check_exit_code_follows_the_failing_diagnostics() {
    let failing = on_path("ARCH-001", &["src/a.ts", "src/b.ts"], Severity::Error, false);
    let note = on_path("ARCH-002", &["src/a.ts", "src/b.ts"], Severity::Info, false);
    let out = check_outcome(&[failing.clone()], Ok("report".into()));
    assert_eq!((out.exit_code, out.stdout.as_str()), (1, "report"));
    let out = check_outcome(&[note], Ok("report".into()));
    assert_eq!(out.exit_code, 0);
    let out = check_outcome(&[failing], Err("cannot render".into()));
    assert_eq!((out.exit_code, out.stderr.as_str()), (3, "cannot render"));
    let summary = RegressionSummary { affected_modules: 4, existing: 2, introduced: 1, fixed: 3 };
    assert_eq!(
        attach_human_regression(&summary, "body"),
        "Regression: 4 affected, 2 existing, 1 introduced, 3 fixed\n\nbody"
    );
}

#[test]
fn tool_requests_name_their_root_and_stay_inside_the_allowed_roots() {
    assert_eq!(requested_root_of("/work/app", None), "/work/app");
    assert_eq!(requested_root_of("/work/app", Some("web")), "/work/app/web");
    assert_eq!(requested_root_of("/work/app/", Some("web")), "/work/app/web");
    assert_eq!(requested_root_of("/work/app", Some("/other")), "/other");

    let policy = ServerPolicy::confined("/work/app");
    let roots = vec!["/work/app".to_string()];
    assert_eq!(confine_root(&policy, "/work/app/web", &roots), Ok("/work/app/web".to_string()));
    assert_eq!(confine_root(&policy, "/work/app", &roots), Ok("/work/app".to_string()));
    assert_eq!(
        confine_root(&policy, "/work/application", &roots),
        Err("requested root `/work/application` is outside the MCP server allowed roots".to_string())
    );
    let open = ServerPolicy::confined("/work/app").allow_any_root();
    assert_eq!(confine_root(&open, "/elsewhere", &roots), Ok("/elsewhere".to_string()));
}

#[test]
fn tool_calls_need_their_arguments() {
    assert_eq!(tool_call("architecture_check", None, None, None), Ok(ToolCall::Check));
    assert_eq!(tool_call("architecture_explain", None, None, None), Err("ruleId is required".to_string()));
    assert_eq!(
        tool_call("architecture_explain", Some("ARCH-001"), None, None),
        Ok(ToolCall::Explain { rule_id: "ARCH-001".into() })
    );
    assert_eq!(tool_call("dependency_path", None, None, Some("b")), Err("from is required".to_string()));
    assert_eq!(tool_call("dependency_policy", None, Some("a"), None), Err("to is required".to_string()));
    assert_eq!(
        tool_call("dependency_policy", None, Some("a"), Some("b")),
        Ok(ToolCall::Policy { from: "a".into(), to: "b".into() })
    );
    assert_eq!(tool_call("rm", None, None, None), Err("unknown tool `rm`".to_string()));
}
