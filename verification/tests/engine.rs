use std::collections::HashSet;
use std::time::Duration;

use wae::diagnostic_arbitrator::DiagnosticArbitrator;
use wae::domain::{Dependency, DependencyKind, Diagnostic, ModuleId, Severity, SourceLocation};
use wae::incremental::edge_affected_region;
use wae::config::{FingerprintSuppression, PathSuppression, SuppressionConfig};
use wae::suppression::{apply, apply_config, collect};
use wae::telemetry::PipelineTelemetry;

fn competing(rule: &str, severity: Severity) -> Diagnostic {
    let mut diagnostic = Diagnostic::new(rule, rule);
    diagnostic.severity = severity;
    diagnostic.dependency_path = vec![ModuleId("feature-a.ts".into()), ModuleId("feature-b/private.ts".into())];
    diagnostic.refresh_fingerprint();
    diagnostic
}

#[test]
fn preserves_the_highest_severity_and_records_every_related_rule() {
    let result = DiagnosticArbitrator::arbitrate(vec![
        competing("ARCH-005", Severity::Warning),
        competing("ARCH-004", Severity::Error),
    ]);
    assert_eq!(result.len(), 1);
    assert_eq!(result[0].rule_id.0, "ARCH-004");
    assert_eq!(result[0].severity, Severity::Error);
    assert_eq!(result[0].metadata.get("related_rules").unwrap(), "ARCH-004,ARCH-005");
}

#[test]
fn specificity_breaks_equal_severity_ties_independently_of_input_order() {
    for diagnostics in [
        vec![competing("ARCH-004", Severity::Error), competing("ARCH-005", Severity::Error)],
        vec![competing("ARCH-005", Severity::Error), competing("ARCH-004", Severity::Error)],
    ] {
        let result = DiagnosticArbitrator::arbitrate(diagnostics);
        assert_eq!(result[0].rule_id.0, "ARCH-005");
    }
}

#[test]
fn presentation_metadata_does_not_change_the_selected_fingerprint() {
    let original = competing("ARCH-005", Severity::Error);
    let expected = original.fingerprint.clone();
    let result = DiagnosticArbitrator::arbitrate(vec![competing("ARCH-004", Severity::Error), original]);
    assert_eq!(result[0].rule_id.0, "ARCH-005");
    assert_eq!(result[0].fingerprint, expected);
    assert_eq!(result[0].metadata.get("related_rules").unwrap(), "ARCH-004,ARCH-005");
}

#[test]
fn arbitration_passes_uncontested_diagnostics_through_in_order() {
    let mut lone = Diagnostic::new("ARCH-001", "cycle");
    lone.dependency_path = vec![ModuleId("a.ts".into()), ModuleId("b.ts".into())];
    let unpathed = Diagnostic::new("ARCH-004", "no path");
    let result = DiagnosticArbitrator::arbitrate(vec![
        competing("ARCH-004", Severity::Warning),
        lone,
        unpathed,
        competing("ARCH-004", Severity::Warning),
    ]);
    assert_eq!(result.len(), 3);
    assert_eq!(result[0].rule_id.0, "ARCH-001");
    assert_eq!(result[1].rule_id.0, "ARCH-004");
    assert!(result[1].dependency_path.is_empty());
    assert_eq!(result[2].rule_id.0, "ARCH-004");
    assert!(result[2].metadata.get("related_rules").is_none());
}

#[test]
fn edge_region_adds_only_incident_endpoints() {
    let module = |value: &str| ModuleId(value.into());
    let dependency = |from: &str, to: &str| Dependency {
        from: module(from),
        to: module(to),
        kind: DependencyKind::Static,
        location: SourceLocation { file: from.into(), line: 1, column: 1 },
    };
    let dependencies =
        [dependency("a.ts", "b.ts"), dependency("b.ts", "c.ts"), dependency("unrelated.ts", "other.ts")];

    let affected = edge_affected_region(vec![module("a.ts")], &dependencies);

    assert_eq!(affected.into_iter().collect::<HashSet<_>>(), HashSet::from([module("a.ts"), module("b.ts")]));
}

fn located(rule: &str, line: usize) -> Diagnostic {
    let mut diagnostic = Diagnostic::new(rule, "test");
    diagnostic.primary_location = Some(SourceLocation { file: "src/app.ts".into(), line, column: 1 });
    diagnostic
}

#[test]
fn ignores_directive_text_inside_source_strings() {
    let mut directives = Vec::new();
    let mut diagnostics = Vec::new();
    collect(
        "src/app.ts",
        r#"const example = "// wae-ignore ARCH-001 -- documentation";"#,
        true,
        &mut directives,
        &mut diagnostics,
    );
    assert!(directives.is_empty());
    assert!(diagnostics.is_empty());
}

#[test]
fn one_directive_suppresses_every_matching_diagnostic_in_its_scope() {
    let mut directives = Vec::new();
    let mut collection_diagnostics = Vec::new();
    collect(
        "src/app.ts",
        "// wae-ignore ARCH-003 -- approved boundary\nimports();",
        true,
        &mut directives,
        &mut collection_diagnostics,
    );
    let mut diagnostics = vec![located("ARCH-003", 2), located("ARCH-003", 2)];
    apply(&mut diagnostics, &mut directives, true);
    assert!(diagnostics.iter().all(|diagnostic| diagnostic.suppressed));
    assert_eq!(directives[0].matched_count, 2);
    assert!(!diagnostics.iter().any(|diagnostic| diagnostic.rule_id.0 == "SUPPRESS-001"));
}

#[test]
fn file_directive_suppresses_diagnostics_anywhere_in_the_file() {
    let mut directives = Vec::new();
    let mut collection_diagnostics = Vec::new();
    collect(
        "src/app.ts",
        "// wae-ignore-file ARCH-003 -- legacy module\nimports();",
        true,
        &mut directives,
        &mut collection_diagnostics,
    );
    let mut diagnostics = vec![located("ARCH-003", 99)];
    apply(&mut diagnostics, &mut directives, true);
    assert!(diagnostics[0].suppressed);
    assert_eq!(diagnostics[0].suppression_reason.as_deref(), Some("legacy module"));
}

#[test]
fn source_suppressions_require_reasons_and_report_unused_directives() {
    let mut directives = Vec::new();
    let mut diagnostics = Vec::new();
    collect(
        "src/app.ts",
        "// wae-ignore ARCH-003 -- migration ticket ARC-12\nimport './feature';\n// wae-ignore ARCH-004 -- temporary",
        true,
        &mut directives,
        &mut diagnostics,
    );
    let mut violation = Diagnostic::new("ARCH-003", "layer");
    violation.primary_location = Some(SourceLocation { file: "src/app.ts".into(), line: 2, column: 1 });
    diagnostics.push(violation);
    apply(&mut diagnostics, &mut directives, true);
    assert!(diagnostics.iter().any(|diagnostic| {
        diagnostic.rule_id.0 == "ARCH-003"
            && diagnostic.suppressed
            && diagnostic.suppression_reason.as_deref() == Some("migration ticket ARC-12")
    }));
    assert!(diagnostics
        .iter()
        .any(|diagnostic| { diagnostic.rule_id.0 == "SUPPRESS-001" && diagnostic.message.contains("Unused") }));
}

#[test]
fn source_suppression_without_required_reason_is_invalid() {
    let mut directives = Vec::new();
    let mut diagnostics = Vec::new();
    collect("src/app.ts", "// wae-ignore ARCH-003", true, &mut directives, &mut diagnostics);
    assert!(directives.is_empty());
    assert_eq!(diagnostics[0].rule_id.0, "SUPPRESS-001");
    assert!(diagnostics[0].message.contains("requires a reason"));
}

#[test]
fn unknown_suppression_rules_are_reported_with_their_line() {
    let mut directives = Vec::new();
    let mut diagnostics = Vec::new();
    collect("src/app.ts", "x();\r\n  //wae-ignore NOPE-9 -- why", false, &mut directives, &mut diagnostics);
    assert!(directives.is_empty());
    assert_eq!(diagnostics.len(), 1);
    assert_eq!(diagnostics[0].message, "Suppression references unknown rule `NOPE-9`");
    assert_eq!(diagnostics[0].primary_location.as_ref().unwrap().line, 2);
}

#[test]
fn named_phases_and_orchestration_reconcile_with_total() {
    let metrics = PipelineTelemetry {
        discovery: Duration::from_millis(2),
        parsing: Duration::from_millis(3),
        resolution: Duration::from_millis(5),
        ..PipelineTelemetry::default()
    }
    .finish(Duration::from_millis(13));
    assert_eq!(metrics.orchestration_ms, 3);
    assert_eq!(
        metrics.discovery_ms
            + metrics.classification_ms
            + metrics.parsing_ms
            + metrics.resolution_ms
            + metrics.graph_build_ms
            + metrics.rule_evaluation_ms
            + metrics.cache_ms
            + metrics.reporting_ms
            + metrics.orchestration_ms,
        metrics.total_ms
    );
}

#[test]
fn config_suppresses_by_path_and_stable_identity() {
    let by_path = PathSuppression {
        pattern: "src/legacy/**".into(),
        rules: vec!["ARCH-003".into()],
        reason: "migration ARC-42".into(),
        ..PathSuppression::default()
    };
    let mut path_diagnostic = located("ARCH-003", 3);
    path_diagnostic.primary_location.as_mut().unwrap().file = "src/legacy/app.ts".into();
    let mut identity_diagnostic = located("ARCH-001", 1);
    identity_diagnostic.refresh_fingerprint();
    let config = SuppressionConfig {
        paths: vec![by_path],
        fingerprints: vec![FingerprintSuppression {
            fingerprint: identity_diagnostic.fingerprint.clone(),
            reason: "accepted cycle ARC-99".into(),
            ..FingerprintSuppression::default()
        }],
        ..SuppressionConfig::default()
    };
    let mut diagnostics = vec![path_diagnostic, identity_diagnostic];
    apply_config(&mut diagnostics, &config);
    assert!(diagnostics.iter().all(|diagnostic| diagnostic.suppressed));
    assert_eq!(diagnostics[0].suppression_reason.as_deref(), Some("migration ARC-42"));
    assert_eq!(diagnostics[1].suppression_reason.as_deref(), Some("accepted cycle ARC-99"));
}

#[test]
fn config_suppressions_leave_other_rules_and_paths_alone() {
    let config = SuppressionConfig {
        paths: vec![PathSuppression {
            pattern: "src/legacy/**".into(),
            rules: vec!["ARCH-003".into()],
            reason: "migration".into(),
            ..PathSuppression::default()
        }],
        ..SuppressionConfig::default()
    };
    let mut other_rule = located("ARCH-004", 3);
    other_rule.primary_location.as_mut().unwrap().file = "src/legacy/app.ts".into();
    let mut diagnostics = vec![other_rule, located("ARCH-003", 1)];
    apply_config(&mut diagnostics, &config);
    assert!(diagnostics.iter().all(|diagnostic| !diagnostic.suppressed));
}
