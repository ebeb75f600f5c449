use wae::config::expiration_day;
use wae::document::EditableConfigDocument;

fn dates(values: &[Option<&str>]) -> Vec<Option<String>> {
    values.iter().map(|v| v.map(String::from)).collect()
}

#[test]
fn prune_preserves_extends_comments_order_and_live_entries() {
    let source = "# team policy\nextends: ./base.yaml\nversion: 1\nsuppressions:\n  require_reason: true\n  # migration paths\n  paths:\n    - pattern: src/legacy/**\n      rules: [ARCH-003]\n      reason: migration\n      expires_at: 2020-01-01\n    # live owner note\n    - pattern: src/live/**\n      rules: [ARCH-004]\n      reason: active\n      expires_at: 2099-01-01\n  fingerprints: # graph exceptions\n    - fingerprint: deadbeef\n      reason: old\n      expires_at: 2020-01-01\n    # retained registry note\noutput:\n  format: human\n";
    let mut document = EditableConfigDocument::new("/tmp/wae.yaml".into(), source.into());
    let result = document
        .prune_expired_suppressions(
            &dates(&[Some("2020-01-01"), Some("2099-01-01")]),
            &dates(&[Some("2020-01-01")]),
            expiration_day("2026-01-01"),
        )
        .unwrap();
    assert_eq!(result.removed_paths, 1);
    assert_eq!(result.removed_fingerprints, 1);
    assert!(document.source().contains("extends: ./base.yaml"));
    assert!(document.source().contains("# team policy"));
    assert!(document.source().contains("# migration paths"));
    assert!(document.source().contains("# live owner note"));
    assert!(document.source().contains("pattern: src/live/**"));
    assert!(!document.source().contains("src/legacy/**"));
    assert!(document.source().contains("fingerprints: [] # graph exceptions"));
    assert!(document.source().contains("# retained registry note"));
    assert!(document.source().contains("output:\n  format: human"));
}

#[test]
fn prune_is_a_byte_for_byte_noop_without_expired_local_entries() {
    let source = "extends: ./base.yaml\nversion: 1\n# retained\n";
    let mut document = EditableConfigDocument::new("/tmp/wae.yaml".into(), source.into());
    assert_eq!(document.prune_expired_suppressions(&[], &[], u64::MAX).unwrap().removed(), 0);
    assert_eq!(document.source(), source);
}

#[test]
fn prune_rejects_unsafe_flow_sequences_without_mutating_source() {
    let source = "version: 1\nsuppressions:\n  fingerprints: [{ fingerprint: old, reason: migration, expires_at: 2020-01-01 }]\n";
    let mut document = EditableConfigDocument::new("/tmp/wae.yaml".into(), source.into());
    let error = document
        .prune_expired_suppressions(&[], &dates(&[Some("2020-01-01")]), expiration_day("2026-01-01"))
        .unwrap_err();
    assert!(error.message.contains("block-list YAML syntax"));
    assert_eq!(document.source(), source);
}

#[test]
fn prune_preserves_crlf_line_endings() {
    let source = "version: 1\r\nsuppressions:\r\n  fingerprints: # owned\r\n    - fingerprint: old\r\n      reason: migration\r\n      expires_at: 2020-01-01\r\noutput:\r\n  format: human\r\n";
    let mut document = EditableConfigDocument::new("C:/project/wae.yaml".into(), source.into());
    document
        .prune_expired_suppressions(&[], &dates(&[Some("2020-01-01")]), expiration_day("2026-01-01"))
        .unwrap();
    assert!(document.source().contains("fingerprints: [] # owned\r\n"));
    assert!(!document.source().replace("\r\n", "").contains('\n'));
}

#[test]
fn prune_removes_exactly_the_expired_item_and_keeps_the_rest_in_order() {
    let source = "suppressions:\n  paths:\n    - pattern: a/**\n      expires_at: 2020-01-01\n    - pattern: b/**\n    - pattern: c/**\n      expires_at: 2021-06-01\nrules: {}\n";
    let mut document = EditableConfigDocument::new("wae.yaml".into(), source.into());
    let result = document
        .prune_expired_suppressions(
            &dates(&[Some("2020-01-01"), None, Some("2021-06-01")]),
            &[],
            expiration_day("2021-01-01"),
        )
        .unwrap();
    assert_eq!(result.removed(), 1);
    assert_eq!(
        document.source(),
        "suppressions:\n  paths:\n    - pattern: b/**\n    - pattern: c/**\n      expires_at: 2021-06-01\nrules: {}\n"
    );
}

#[test]
fn prune_refuses_missing_duplicate_or_unmappable_lists() {
    let missing = "version: 1\n";
    let mut document = EditableConfigDocument::new("p/wae.yaml".into(), missing.into());
    let error = document.prune_expired_suppressions(&dates(&[Some("2000-01-01")]), &[], 20_000).unwrap_err();
    assert_eq!(error.message, "cannot locate the local `suppressions` mapping");
    assert_eq!(error.path.as_deref(), Some("p/wae.yaml"));

    let twice = "suppressions:\n  paths: []\nsuppressions:\n  paths: []\n";
    let mut document = EditableConfigDocument::new("p/wae.yaml".into(), twice.into());
    let error = document.prune_expired_suppressions(&dates(&[Some("2000-01-01")]), &[], 20_000).unwrap_err();
    assert_eq!(error.message, "duplicate `suppressions` key");
    assert_eq!(error.path.as_deref(), Some("wae.yaml"));

    let short = "suppressions:\n  paths:\n    - pattern: a/**\n";
    let mut document = EditableConfigDocument::new("p/wae.yaml".into(), short.into());
    let error = document
        .prune_expired_suppressions(&dates(&[None, Some("2000-01-01")]), &[], 20_000)
        .unwrap_err();
    assert_eq!(error.message, "could not map parsed `suppressions.paths` entries back to source lines");
    assert_eq!(document.source(), short);

    let absent = "suppressions:\n  paths: []\n";
    let mut document = EditableConfigDocument::new("p/wae.yaml".into(), absent.into());
    let error = document.prune_expired_suppressions(&[], &dates(&[Some("2000-01-01")]), 20_000).unwrap_err();
    assert_eq!(error.message, "cannot locate local `suppressions.fingerprints`");
}
