use wae::cli::{answer_without_project, usage_error, EXIT_PASSED, EXIT_PROJECT, USAGE};
use wae::command::{parse, Command};
use wae::config::{ConfigPreset, FailOn, OutputFormat};
use wae::domain::DependencyKind;

fn args(words: &[&str]) -> Vec<String> {
    words.iter().map(|w| w.to_string()).collect()
}

#[test]
fn version_flags_report_the_package_version() {
    for flag in ["-V", "--version"] {
        let command = parse(&args(&[flag])).unwrap();
        assert_eq!(command, Command::Version);
        let output = answer_without_project(&command).unwrap();
        assert_eq!(output.exit_code, EXIT_PASSED);
        assert_eq!(output.stdout, format!("wae {}", "0.0.26"));
    }
}

#[test]
fn init_defaults_to_blank_and_accepts_explicit_presets() {
    assert_eq!(parse(&args(&["init"])).unwrap(), Command::Init { preset: ConfigPreset::Blank });
    assert_eq!(
        parse(&args(&["init", "--preset", "fsd"])).unwrap(),
        Command::Init { preset: ConfigPreset::Fsd }
    );
}

#[test]
fn config_validation_parses_overlap_reporting() {
    assert_eq!(
        parse(&args(&["config", "validate", "--show-overlaps"])).unwrap(),
        Command::ConfigValidate { show_overlaps: true, show_coverage: false, show_unassigned: false }
    );
}

#[test]
fn no_arguments_and_help_flags_ask_for_help() {
    assert_eq!(parse(&[]).unwrap(), Command::Help);
    for flag in ["help", "--help", "-h"] {
        assert_eq!(parse(&args(&[flag])).unwrap(), Command::Help);
    }
    let help = answer_without_project(&Command::Help).unwrap();
    assert_eq!(help.stdout, USAGE);
    assert!(USAGE.contains("baseline create|list|prune   Create, inspect, or remove stale baseline entries"));
}

#[test]
fn unknown_init_preset_and_extra_init_arguments_are_rejected() {
    assert_eq!(parse(&args(&["init", "--preset", "rails"])).unwrap_err(), "unknown init preset `rails`");
    assert_eq!(
        parse(&args(&["init", "--preset"])).unwrap_err(),
        "init accepts only `--preset blank|fsd|next|nx`"
    );
}

#[test]
fn check_options_take_the_last_value_and_set_flags() {
    let command = parse(&args(&[
        "check", "--changed", "--format", "json", "--format", "sarif", "--base", "main", "--config",
        "ci.yaml", "-v", "--no-cache", "--fail-on", "warning", "--max-warnings", "+7",
    ]))
    .unwrap();
    assert_eq!(
        command,
        Command::Check {
            changed: true,
            format: Some(OutputFormat::Sarif),
            base: Some("main".into()),
            config: Some("ci.yaml".into()),
            no_cache: true,
            verbose: true,
            fail_on: Some(FailOn::Warning),
            max_warnings: Some(7),
        }
    );
    assert_eq!(
        parse(&args(&["check"])).unwrap(),
        Command::Check {
            changed: false,
            format: None,
            base: None,
            config: None,
            no_cache: false,
            verbose: false,
            fail_on: None,
            max_warnings: None,
        }
    );
}

#[test]
fn check_option_errors_name_the_first_bad_option() {
    assert_eq!(parse(&args(&["check", "--format"])).unwrap_err(), "--format requires a value");
    assert_eq!(parse(&args(&["check", "--format", "xml"])).unwrap_err(), "unsupported format `xml`");
    assert_eq!(
        parse(&args(&["check", "--fail-on", "info"])).unwrap_err(),
        "unsupported failure threshold `info`; expected error or warning"
    );
    assert_eq!(
        parse(&args(&["check", "--max-warnings", "-1"])).unwrap_err(),
        "invalid --max-warnings value `-1`; expected a non-negative integer"
    );
    assert_eq!(
        parse(&args(&["check", "--quiet", "--format", "xml"])).unwrap_err(),
        "unknown check option `--quiet`"
    );
}

#[test]
fn resolve_reads_operands_kind_and_config() {
    assert_eq!(
        parse(&args(&["resolve", "src/a.ts", "@/b", "--kind", "type", "--config", "x.yaml"])).unwrap(),
        Command::Resolve {
            importer: "src/a.ts".into(),
            specifier: "@/b".into(),
            kind: DependencyKind::TypeOnly,
            config: Some("x.yaml".into()),
        }
    );
    assert_eq!(
        parse(&args(&["resolve", "src/a.ts", "./b"])).unwrap(),
        Command::Resolve {
            importer: "src/a.ts".into(),
            specifier: "./b".into(),
            kind: DependencyKind::Static,
            config: None,
        }
    );
    assert_eq!(parse(&args(&["resolve", "src/a.ts"])).unwrap_err(), "resolve requires <IMPORTER> <SPECIFIER>");
    assert_eq!(
        parse(&args(&["resolve", "a", "b", "--kind", "weak"])).unwrap_err(),
        "unsupported dependency kind `weak`"
    );
    assert_eq!(parse(&args(&["resolve", "a", "b", "--kind"])).unwrap_err(), "--kind requires a value");
}

#[test]
fn discover_force_requires_write() {
    assert_eq!(
        parse(&args(&["discover", "--json", "--write", "--force"])).unwrap(),
        Command::Discover { json: true, write: true, force: true }
    );
    assert_eq!(parse(&args(&["discover", "--force"])).unwrap_err(), "discover --force requires --write");
    assert_eq!(parse(&args(&["discover", "--all"])).unwrap_err(), "unknown discover option `--all`");
}

#[test]
fn baseline_explore_and_single_word_commands() {
    assert_eq!(parse(&args(&["baseline", "create"])).unwrap(), Command::BaselineCreate);
    assert_eq!(parse(&args(&["baseline", "prune"])).unwrap(), Command::BaselinePrune);
    assert_eq!(
        parse(&args(&["baseline", "list", "--rule", "ARCH-001"])).unwrap(),
        Command::BaselineList { rule: Some("ARCH-001".into()) }
    );
    assert_eq!(
        parse(&args(&["baseline", "list", "ARCH-001"])).unwrap_err(),
        "baseline list accepts only `--rule RULE_ID`"
    );
    assert_eq!(
        parse(&args(&["explore"])).unwrap(),
        Command::Explore { output: ".wae/explorer.html".into() }
    );
    assert_eq!(parse(&args(&["scan"])).unwrap(), Command::Scan);
    assert_eq!(parse(&args(&["graph"])).unwrap(), Command::Graph);
    assert_eq!(parse(&args(&["doctor"])).unwrap(), Command::Doctor);
    assert_eq!(parse(&args(&["explain", "ARCH-001"])).unwrap(), Command::Explain("ARCH-001".into()));
}

#[test]
fn unknown_commands_echo_their_arguments() {
    assert_eq!(parse(&args(&["scan", "now"])).unwrap_err(), "Invalid command or arguments: scan now");
    let output = usage_error("Invalid command or arguments: fly");
    assert_eq!(output.exit_code, EXIT_PROJECT);
    assert_eq!(output.stderr, format!("Invalid command or arguments: fly\n\n{USAGE}"));
}

use wae::cli::{analysis_error_report, config_validation_report};
use wae::domain::{ConfigError, ConfigErrorKind};
use wae::engine::{AnalysisError, ConfigValidation, LayerOverlap};

fn validation(overlaps: Vec<LayerOverlap>, unassigned: Vec<&str>, minimum: Option<u8>) -> ConfigValidation {
    ConfigValidation {
        source_modules: 4,
        assigned_modules: 2,
        exempted_modules: 1,
        coverage_percent: 67,
        minimum_coverage: minimum,
        blank_architecture: false,
        unassigned_modules: unassigned.into_iter().map(String::from).collect(),
        layer_overlaps: overlaps,
    }
}

fn overlap(module: &str, layers: &[&str]) -> LayerOverlap {
    LayerOverlap { module: module.into(), layers: layers.iter().map(|l| l.to_string()).collect() }
}

#[test]
fn overlapping_layers_report_the_first_overlap_and_anchored_fixes() {
    let v = validation(
        vec![
            overlap("src/shared/x.ts", &["shared", "components"]),
            overlap("src/components/shared/y.ts", &["components", "shared", "app"]),
        ],
        vec![],
        None,
    );
    let output = config_validation_report(&v, false, false, false);
    assert_eq!(output.exit_code, EXIT_PROJECT);
    assert_eq!(
        output.stderr,
        "✖ 2 module(s) match multiple architecture layers:\n  src/shared/x.ts: shared, components\n  Run: wae config validate --show-overlaps\n\nSuggested fixes:\n- Anchor `components` to `src/components/**`\n- Anchor `shared` to `src/shared/**`\n- Add an explicit exclude to the broader layer"
    );
    let all = config_validation_report(&v, true, false, false);
    assert!(all.stderr.contains("  src/components/shared/y.ts: components, shared, app\n"));
    assert!(all.stderr.contains("- Anchor `app` to `src/app/**`\n- Anchor `components`"));
    assert!(!all.stderr.contains("Run: wae config validate --show-overlaps"));
}

#[test]
fn coverage_below_the_minimum_is_a_project_error() {
    let v = validation(vec![], vec!["src/a.ts"], Some(80));
    let output = config_validation_report(&v, false, false, true);
    assert_eq!(output.exit_code, EXIT_PROJECT);
    assert_eq!(
        output.stderr,
        "✖ configuration valid: 4 source modules, no layer overlaps\nCoverage: 67% (2 assigned, 1 unassigned, 1 exempt)\nRequired minimum: 80%\nUnassigned modules:\n  src/a.ts\nAssign modules to layers or explicitly exempt support paths in `architecture.coverage.allow_unassigned`."
    );
    let fine = config_validation_report(&validation(vec![], vec![], Some(50)), false, false, true);
    assert_eq!(fine.exit_code, EXIT_PASSED);
    assert_eq!(fine.stdout, "✓ configuration valid: 4 source modules, no layer overlaps\nUnassigned modules: none");
}

#[test]
fn analysis_errors_read_with_their_location_and_fixes() {
    let layered = AnalysisError::Config(ConfigError {
        kind: ConfigErrorKind::ConflictingConfig,
        message: "overlap".into(),
        path: Some("architecture.layers".into()),
    });
    assert!(analysis_error_report(&layered).starts_with("Configuration error at architecture.layers: overlap\n\n  Suggested fixes:"));
    let plain = AnalysisError::Config(ConfigError {
        kind: ConfigErrorKind::InvalidYaml,
        message: "bad".into(),
        path: None,
    });
    assert_eq!(analysis_error_report(&plain), "Configuration error: bad");
    assert_eq!(analysis_error_report(&AnalysisError::Project("no root".into())), "Project error: no root");
    assert_eq!(analysis_error_report(&AnalysisError::Cancelled), "Analysis cancelled");
}
