use wae::baseline::{list_entries, prune_entries, warning_budget_exceeded, BaselineEntry, BaselineMatcher};
use wae::cli::{explain, CliOutput, EXIT_CANCELLED, EXIT_PASSED, EXIT_PROJECT};
use wae::config::{FailOn, OutputConfig, OutputFormat};
use wae::diagnostic::Diagnostic;
use wae::domain::{ModuleId, Severity};
use wae::engine::{AnalyzeRequest, CancellationToken, FailurePolicy};

fn entry(fingerprint: &str, expires_at: Option<u64>) -> BaselineEntry {
    BaselineEntry {
        fingerprint: fingerprint.into(),
        rule_id: "ARCH-001".into(),
        source: None,
        target: None,
        reason: None,
        expires_at,
    }
}

#[test]
fn version_one_baselines_list_bare_fingerprints() {
    let matcher = BaselineMatcher::from_stored(1, vec!["legacy".into(), "legacy".into()], vec![], 10).unwrap();
    assert!(matcher.contains("legacy"));
    assert_eq!(matcher.len(), 1);
    assert_eq!(matcher.expired_count(), 0);
}

#[test]
fn expired_entries_are_counted_and_left_out() {
    let matcher =
        BaselineMatcher::from_stored(3, vec![], vec![entry("expired", Some(1)), entry("live", None)], 100).unwrap();
    assert_eq!(matcher.expired_count(), 1);
    assert_eq!(matcher.len(), 1);
    assert!(matcher.contains("live"));
    assert!(!matcher.contains("expired"));
    let error = BaselineMatcher::from_stored(7, vec![], vec![], 0).unwrap_err();
    assert_eq!(error, "unsupported baseline schema version `7`");
}

#[test]
fn matcher_accepts_current_and_legacy_fingerprints() {
    let mut diagnostic = Diagnostic::new("ARCH-005", "private import");
    diagnostic.dependency_path = vec![ModuleId("src/app.ts".into()), ModuleId("src/features/a/private.ts".into())];
    diagnostic.metadata.insert("owner".into(), "a".into());
    let legacy = diagnostic.legacy_fingerprint_aliases().into_iter().next().unwrap();
    diagnostic.metadata.insert("related_rules".into(), "ARCH-004,ARCH-005".into());
    diagnostic.refresh_fingerprint();
    let matcher = BaselineMatcher::from_stored(1, vec![legacy], vec![], 0).unwrap();
    assert!(matcher.matches(&diagnostic));
    assert_eq!(matcher.matched_count(&[diagnostic.clone()]), 1);
    assert_eq!(matcher.matched_count(&[]), 0);
    let other = Diagnostic::new("ARCH-001", "other");
    assert!(!matcher.matches(&other));
}

#[test]
fn prune_keeps_live_entries_that_still_match() {
    let mut diagnostic = Diagnostic::new("ARCH-001", "cycle");
    diagnostic.refresh_fingerprint();
    let kept = entry(&diagnostic.fingerprint, None);
    let entries = vec![entry("expired", Some(1)), entry("resolved", None), kept.clone()];
    assert_eq!(prune_entries(entries.clone(), &[diagnostic], 100), vec![kept]);
    assert!(prune_entries(entries, &[], 100).is_empty());
}

#[test]
fn warning_budgets_only_bind_when_failing_on_errors() {
    let mut warning = Diagnostic::new("ARCH-001", "warning");
    warning.severity = Severity::Warning;
    let strict = OutputConfig { format: OutputFormat::Human, fail_on: FailOn::Error, max_warnings: Some(0) };
    assert!(warning_budget_exceeded(&strict, &[warning.clone()]));
    let lenient = OutputConfig { fail_on: FailOn::Warning, ..strict };
    assert!(!warning_budget_exceeded(&lenient, &[warning]));
}

#[test]
fn failure_policy_counts_unsuppressed_errors_and_warnings() {
    let error = Diagnostic::new("ARCH-001", "error");
    let mut warning = Diagnostic::new("ARCH-002", "warning");
    warning.severity = Severity::Warning;
    let mut info = Diagnostic::new("ARCH-003", "info");
    info.severity = Severity::Info;
    let mut suppressed = Diagnostic::new("ARCH-004", "suppressed");
    suppressed.suppressed = true;
    assert!(FailurePolicy::is_failure(&error));
    assert!(!FailurePolicy::is_failure(&info));
    assert_eq!(FailurePolicy::count(&[error, warning, info, suppressed]), 2);
}

#[test]
fn explain_describes_known_rules_and_rejects_unknown_ones() {
    let known = explain("ARCH-001");
    assert_eq!(known.exit_code, EXIT_PASSED);
    assert_eq!(known.stdout, "ARCH-001\nCircular dependency: Detects strongly connected module components.");
    let unknown = explain("ARCH-999");
    assert_eq!(unknown.exit_code, EXIT_PROJECT);
    assert_eq!(unknown.stderr, "Unknown rule id: ARCH-999");
    assert_eq!(CliOutput::cancelled().exit_code, EXIT_CANCELLED);
}

#[test]
fn requests_and_tokens_carry_their_options() {
    let token = CancellationToken::default();
    let request = AnalyzeRequest::new("/repo".into())
        .with_config("wae.yaml".into())
        .without_cache()
        .with_overlay("src/a.ts".into(), "export {}".into())
        .with_cancellation(token.clone());
    assert_eq!(request.cache_enabled, Some(false));
    assert_eq!(request.overlays.get("src/a.ts").map(String::as_str), Some("export {}"));
    assert!(!request.cancellation.is_cancelled());
    token.cancel();
    assert!(request.cancellation.is_cancelled());
}

#[test]
fn baseline_list_filters_by_rule_and_needs_schema_two() {
    let mut other = entry("b", None);
    other.rule_id = "ARCH-003".into();
    let entries = vec![entry("a", None), other, entry("c", Some(5))];
    let all = list_entries(3, entries.clone(), None).unwrap();
    assert_eq!(all.len(), 3);
    let arch1 = list_entries(2, entries.clone(), Some("ARCH-001")).unwrap();
    assert_eq!(arch1.iter().map(|e| e.fingerprint.as_str()).collect::<Vec<_>>(), vec!["a", "c"]);
    assert_eq!(
        list_entries(1, entries, None).unwrap_err(),
        "baseline list requires schema v2 or newer; recreate the baseline"
    );
}
