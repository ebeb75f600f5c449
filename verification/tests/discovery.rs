use wae::discovery::{discover, summary, FeatureListing, ProjectFacts, ProjectKind};
use wae::framework::PackageManifest;

fn names(values: &[&str]) -> Vec<String> {
    values.iter().map(|v| v.to_string()).collect()
}

fn manifest(dependencies: Option<&[&str]>, dev: Option<&[&str]>) -> PackageManifest {
    PackageManifest {
        dependencies: dependencies.map(names),
        dev_dependencies: dev.map(names),
        peer_dependencies: None,
    }
}

#[test]
fn discovers_next_features_from_authoritative_evidence() {
    let facts = ProjectFacts {
        package_manifest: Some(manifest(Some(&["next"]), None)),
        files: names(&["jsconfig.json"]),
        directories: names(&["src/features"]),
        feature_listings: vec![FeatureListing { root: "src/features".into(), children: names(&["cart"]) }],
    };
    let report = discover(facts);
    assert_eq!(report.project_kind, ProjectKind::NextJs);
    assert_eq!(report.confidence, 100);
    assert_eq!(report.feature_clusters, ["src/features/cart"]);
    assert_eq!(report.suggested_config.framework.enabled, ["nextjs"]);
    assert_eq!(report.config_files, ["jsconfig.json"]);
    assert_eq!(report.evidence[0].path, "package.json#dependencies.next");
    assert_eq!(report.evidence[1].path, "src/features");
    assert_eq!(report.suggested_config.architecture.features.roots, ["src/features"]);
}

#[test]
fn turborepo_layout_wins_over_nested_framework_evidence() {
    let facts = ProjectFacts {
        package_manifest: Some(manifest(None, Some(&["next"]))),
        files: names(&["turbo.json"]),
        directories: vec![],
        feature_listings: vec![],
    };
    let report = discover(facts);
    assert_eq!(report.project_kind, ProjectKind::Turborepo);
    assert!(report.suggested_config.architecture.layers.contains_key("packages"));
    assert_eq!(report.suggested_config.framework.enabled, ["nextjs"]);
    assert!(report.suggested_config.architecture.presets.monorepo_boundaries);
}

#[test]
fn feature_sliced_segments_and_sorted_clusters() {
    let facts = ProjectFacts {
        package_manifest: None,
        files: names(&["tsconfig.json", "next.config.mjs.bak"]),
        directories: names(&["src/app", "shared", "features", "entities"]),
        feature_listings: vec![FeatureListing { root: "features".into(), children: names(&["search", "auth"]) }],
    };
    let report = discover(facts);
    assert_eq!(report.project_kind, ProjectKind::FeatureSliced);
    assert_eq!(report.confidence, 80);
    assert_eq!(report.config_files, ["tsconfig.json"]);
    let paths = report.evidence.iter().map(|e| e.path.as_str()).collect::<Vec<_>>();
    assert_eq!(paths, ["src/app", "features", "entities", "shared"]);
    assert_eq!(report.feature_clusters, ["features/auth", "features/search"]);
    assert!(report.suggested_config.framework.enabled.is_empty());
}

#[test]
fn next_config_file_alone_scores_ninety_and_is_the_evidence() {
    let facts = ProjectFacts {
        package_manifest: None,
        files: names(&["next.config.ts", "next.config.js"]),
        directories: vec![],
        feature_listings: vec![],
    };
    let report = discover(facts);
    assert_eq!(report.project_kind, ProjectKind::NextJs);
    assert_eq!(report.confidence, 90);
    assert_eq!(report.evidence.len(), 1);
    assert_eq!(report.evidence[0].path, "next.config.js");
    assert_eq!(report.evidence[0].weight, 90);
}

#[test]
fn an_empty_root_is_generic_with_a_blank_proposal() {
    let report = discover(ProjectFacts {
        package_manifest: None,
        files: vec![],
        directories: names(&["app"]),
        feature_listings: vec![],
    });
    assert_eq!(report.project_kind, ProjectKind::Generic);
    assert_eq!(report.confidence, 0);
    assert_eq!(report.evidence.len(), 1);
    assert!(report.suggested_config.architecture.layers.is_empty());
}

#[test]
fn summary_lists_kind_confidence_evidence_and_clusters() {
    let report = discover(ProjectFacts {
        package_manifest: Some(manifest(Some(&["next"]), None)),
        files: vec![],
        directories: names(&["src/features"]),
        feature_listings: vec![FeatureListing { root: "src/features".into(), children: names(&["b", "a"]) }],
    });
    assert_eq!(
        summary(&report, None),
        [
            "Suggested architecture: NextJs",
            "Confidence: 100%",
            "Evidence:",
            "- nextjs-framework at package.json#dependencies.next (weight 100)",
            "- architecture-segment at src/features (weight 20)",
            "Feature clusters: src/features/a, src/features/b",
            "No files changed. Review this proposal, then run `wae discover --write`.",
        ]
    );
    let written = summary(&discover(ProjectFacts {
        package_manifest: None,
        files: vec![],
        directories: vec![],
        feature_listings: vec![],
    }), Some("/p/wae.yaml"));
    assert_eq!(written[2], "Evidence: none; the safe blank architecture is proposed.");
    assert_eq!(written[3], "Approved configuration written to /p/wae.yaml");
}
