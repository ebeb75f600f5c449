use std::collections::BTreeSet;

use wae::config::{
    current_epoch_day, expiration_day, Config, ConfigOverride, ConfigPreset, FailOn, FingerprintSuppression,
    OutputFormat, PathSuppression, ProjectConfig, RuleConfig, RuleOptions, SuppressionConfig,
};
use wae::domain::{ConfigErrorKind, Severity};
use wae::map::OrderedMap;
use wae::provenance::{portable_path, SuppressionPruneResult};

#[test]
fn rejects_unknown_rules_at_their_config_path() {
    let mut config = Config::default();
    config.rules.insert("ARCH-999".into(), RuleConfig::Severity(Severity::Error));
    let error = config.validate().unwrap_err();
    assert_eq!(error.path.as_deref(), Some("rules.ARCH-999"));
}

#[test]
fn reports_independent_configuration_errors_together() {
    let mut config = Config {
        version: 99,
        project: ProjectConfig { roots: Vec::new(), ..ProjectConfig::default() },
        ..Config::default()
    };
    config.rules.insert("ARCH-999".into(), RuleConfig::Severity(Severity::Error));
    config.resolution.custom_conditions = vec![String::new()];
    let errors = config.validation_errors();
    let paths = errors.iter().filter_map(|error| error.path.as_deref()).collect::<BTreeSet<_>>();
    assert!(paths.contains("version"));
    assert!(paths.contains("project.roots"));
    assert!(paths.contains("rules.ARCH-999"));
    assert!(paths.contains("resolution.custom_conditions.0"));
    let aggregate = config.validate().unwrap_err();
    assert!(aggregate.message.contains("configuration has 4 errors"));
}

#[test]
fn defaults_cover_modern_node_module_extensions_and_exclude_declarations() {
    let config = Config::default();
    for extension in ["mts", "cts", "mjs", "cjs"] {
        assert!(config.project.includes.contains(&format!("**/*.{extension}")));
        assert!(config.architecture.features.public_entrypoints.contains(&format!("index.{extension}")));
    }
    for declaration in ["**/*.d.ts", "**/*.d.mts", "**/*.d.cts"] {
        assert!(config.project.exclude.iter().any(|pattern| pattern == declaration));
    }
}

#[test]
fn blank_is_safe_and_fsd_patterns_are_anchored() {
    assert!(Config::for_preset(ConfigPreset::Blank).architecture.layers.is_empty());
    let fsd = Config::for_preset(ConfigPreset::Fsd);
    assert_eq!(fsd.architecture.layers.get("app").unwrap().patterns, ["src/app/**"]);
    assert_eq!(fsd.architecture.layers.get("shared").unwrap().patterns, ["src/shared/**"]);
    assert!(fsd
        .architecture
        .layers
        .entries()
        .iter()
        .flat_map(|(_, layer)| &layer.patterns)
        .all(|pattern| !pattern.starts_with("**/")));
}

#[test]
fn provenance_paths_use_portable_separators() {
    assert_eq!(portable_path(r"C:\repo\config\base.yaml"), "C:/repo/config/base.yaml");
}

#[test]
fn default_configuration_validates_and_lists_every_configurable_rule() {
    let config = Config::default();
    assert!(config.validate().is_ok());
    assert!(config.validation_errors().is_empty());
    assert_eq!(config.rules.len(), 21);
    assert_eq!(config.rules.get("ARCH-001").unwrap().severity(), Some(Severity::Error));
    assert!(!config.configured);
}

#[test]
fn presets_define_their_layers() {
    let next = Config::for_preset(ConfigPreset::Next);
    assert_eq!(next.architecture.layers.get("app").unwrap().patterns, ["app/**", "src/app/**"]);
    assert_eq!(next.architecture.layers.get("app").unwrap().can_import, ["features", "entities", "shared"]);
    let nx = Config::for_preset(ConfigPreset::Nx);
    assert_eq!(nx.architecture.layers.len(), 2);
    assert_eq!(nx.architecture.layers.get("apps").unwrap().can_import, ["libs"]);
    let policies = Config::for_preset(ConfigPreset::Fsd).layer_policies();
    let names = policies.iter().map(|policy| policy.name.as_str()).collect::<Vec<_>>();
    assert_eq!(names, ["app", "entities", "features", "shared"]);
}

#[test]
fn rejects_rule_options_that_the_selected_rule_cannot_consume() {
    let mut config = Config::default();
    config.rules.insert(
        "ARCH-003".into(),
        RuleConfig::Detailed(RuleOptions { max_depth: Some(4), ..RuleOptions::default() }),
    );
    let error = config.validate().unwrap_err();
    assert_eq!(error.path.as_deref(), Some("rules.ARCH-003.max_depth"));
    assert!(error.message.contains("does not support"));
    let mut depth = Config::default();
    depth.rules.insert(
        "ARCH-006".into(),
        RuleConfig::Detailed(RuleOptions { max_depth: Some(0), ..RuleOptions::default() }),
    );
    let error = depth.validate().unwrap_err();
    assert_eq!(error.path.as_deref(), Some("rules.ARCH-006.max_depth"));
    assert_eq!(error.message, "`max_depth` must be greater than zero");
}

#[test]
fn validates_path_and_identity_suppressions_with_reasons() {
    let mut valid = Config::default();
    valid.suppressions.paths.push(PathSuppression {
        pattern: "src/legacy/**".into(),
        rules: vec!["ARCH-003".into()],
        reason: "migration ARC-42".into(),
        owner: Some("frontend-platform".into()),
        ticket: Some("ARC-42".into()),
        expires_at: Some("2027-01-01".into()),
    });
    valid.suppressions.fingerprints.push(FingerprintSuppression {
        fingerprint: "abc123".into(),
        reason: "accepted ARC-99".into(),
        ..FingerprintSuppression::default()
    });
    valid.validate().unwrap();
    let mut invalid = Config::default();
    invalid.suppressions.paths.push(PathSuppression {
        pattern: "src/**".into(),
        rules: vec!["ARCH-003".into()],
        ..PathSuppression::default()
    });
    assert_eq!(invalid.validate().unwrap_err().path.as_deref(), Some("suppressions.paths.0.reason"));
    let mut invalid_date = Config::default();
    invalid_date.suppressions.fingerprints.push(FingerprintSuppression {
        fingerprint: "abc".into(),
        reason: "migration".into(),
        expires_at: Some("2026-02-30".into()),
        ..FingerprintSuppression::default()
    });
    assert_eq!(
        invalid_date.validate().unwrap_err().path.as_deref(),
        Some("suppressions.fingerprints.0.expires_at")
    );
}

#[test]
fn architecture_coverage_is_strict_and_bounded() {
    let mut config = Config::default();
    config.architecture.coverage.minimum = Some(101);
    let error = config.validate().unwrap_err();
    assert_eq!(error.path.as_deref(), Some("architecture.coverage.minimum"));
    assert_eq!(error.kind, ConfigErrorKind::InvalidDependency);
}

#[test]
fn invalid_globs_and_escaping_paths_are_rejected() {
    let mut config = Config::default();
    config.project.exclude.push("src/[".into());
    let error = config.validate().unwrap_err();
    assert_eq!(error.kind, ConfigErrorKind::InvalidPattern);
    assert_eq!(error.path.as_deref(), Some("project.exclude"));
    assert!(error.message.starts_with("invalid glob `src/[`: "));
    let mut escaping = Config::default();
    escaping.project.roots = vec!["../outside".into()];
    let error = escaping.validate().unwrap_err();
    assert_eq!(error.path.as_deref(), Some("project.roots"));
    assert_eq!(error.message, "`../outside` must be a non-empty relative path inside the project");
    let mut absolute = Config::default();
    absolute.cache.directory = "/tmp/cache".into();
    assert_eq!(absolute.validate().unwrap_err().path.as_deref(), Some("cache.directory"));
}

#[test]
fn unknown_layers_and_frameworks_are_reported() {
    let mut config = Config::for_preset(ConfigPreset::Fsd);
    config.framework.enabled = vec!["nextjs".into(), "remix".into()];
    let error = config.validate().unwrap_err();
    assert_eq!(error.path.as_deref(), Some("framework.enabled.1"));
    assert_eq!(error.message, "unsupported framework adapter `remix`");
    let mut overrides = Config::default();
    overrides.overrides.push(ConfigOverride::default());
    let error = overrides.validate().unwrap_err();
    assert_eq!(error.path.as_deref(), Some("overrides.0.files"));
}

#[test]
fn path_overrides_use_the_last_match() {
    let mut config = Config::default();
    let mut first_rules = OrderedMap::new();
    first_rules.insert("ARCH-003".to_string(), RuleConfig::Severity(Severity::Warning));
    config.overrides.push(ConfigOverride {
        files: vec!["src/legacy/**".into()],
        excluded_files: vec![],
        rules: first_rules,
    });
    let mut second_rules = OrderedMap::new();
    second_rules.insert(
        "ARCH-003".to_string(),
        RuleConfig::Detailed(RuleOptions { enabled: false, ..RuleOptions::default() }),
    );
    config.overrides.push(ConfigOverride {
        files: vec!["src/legacy/generated/**".into()],
        excluded_files: vec![],
        rules: second_rules,
    });
    config.validate().unwrap();
    assert_eq!(config.rule_severity_for_path("ARCH-003", "src/legacy/a.ts"), Some(Severity::Warning));
    assert_eq!(config.rule_severity_for_path("ARCH-003", "src/legacy/generated/a.ts"), None);
    assert_eq!(config.rule_severity_for_path("ARCH-003", "src/app/a.ts"), Some(Severity::Error));
    assert!(config.rule_enabled_anywhere("ARCH-003"));
}

#[test]
fn expiration_dates_count_days_from_the_epoch() {
    assert_eq!(expiration_day("1970-01-01"), 0);
    assert_eq!(expiration_day("1970-01-02"), 1);
    assert_eq!(expiration_day("2000-03-01"), 11017);
    assert_eq!(expiration_day("2026-01-01"), 20454);
    assert_eq!(expiration_day("1969-12-31"), 0);
    assert_eq!(expiration_day("not-a-date"), 0);
    assert!(current_epoch_day() > 20454);
}

#[test]
fn prune_expired_removes_only_past_entries() {
    let mut suppressions = SuppressionConfig::default();
    suppressions.paths.push(PathSuppression {
        pattern: "old/**".into(),
        expires_at: Some("2020-01-01".into()),
        ..PathSuppression::default()
    });
    suppressions.paths.push(PathSuppression { pattern: "kept/**".into(), ..PathSuppression::default() });
    suppressions.fingerprints.push(FingerprintSuppression {
        fingerprint: "f".into(),
        expires_at: Some("2099-01-01".into()),
        ..FingerprintSuppression::default()
    });
    let removed = suppressions.prune_expired(expiration_day("2026-01-01"));
    assert_eq!(removed, 1);
    assert_eq!(suppressions.paths.len(), 1);
    assert_eq!(suppressions.paths[0].pattern, "kept/**");
    assert_eq!(suppressions.fingerprints.len(), 1);
    assert_eq!(SuppressionPruneResult { removed_paths: 2, removed_fingerprints: 3 }.removed(), 5);
}

#[test]
fn output_settings_parse_their_names() {
    assert_eq!(FailOn::parse("warning"), Some(FailOn::Warning));
    assert_eq!(FailOn::parse("fatal"), None);
    assert_eq!(OutputFormat::parse("sarif"), Some(OutputFormat::Sarif));
    assert_eq!(OutputFormat::parse("xml"), None);
    assert_eq!(OutputFormat::Jsonl.as_str(), "jsonl");
}

#[test]
fn parsed_configurations_gain_the_default_rules() {
    let mut parsed = Config::default();
    parsed.rules = OrderedMap::new();
    parsed.rules.insert("ARCH-001".to_string(), RuleConfig::Severity(Severity::Warning));
    let config = parsed.from_parsed().unwrap();
    assert_eq!(config.rules.len(), 21);
    assert_eq!(config.rules.get("ARCH-001").unwrap().severity(), Some(Severity::Warning));
    assert_eq!(config.rules.get("ARCH-005").unwrap().severity(), Some(Severity::Error));
}

#[test]
fn glob_patterns_whose_matcher_cannot_compile_match_nothing() {
    let nested = format!("{}a{}", "{a,".repeat(300), "}".repeat(300));
    assert!(!wae::glob::glob_hit(&nested, "a"));
    assert!(!wae::glob::plain_glob_hit(&nested, "a"));
    assert!(wae::glob::glob_hit("src/**/*.ts", "src/a/b.ts"));
    assert!(!wae::glob::glob_hit("src/*.ts", "src/a/b.ts"));
    assert!(wae::glob::plain_glob_hit("src/*.ts", "src/a/b.ts"));
}
