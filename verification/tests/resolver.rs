use wae::config::ResolutionMode;
use wae::domain::{DependencyKind, ModulePath};
use wae::resolver::{
    active_conditions, resolution_kind_for, BuiltinCatalog, LegacyEntrypoints, ModuleFormat, PackageRelativePath,
    ResolutionKind, ResolutionRequest,
};

#[test]
fn distinguishes_bare_and_prefix_only_builtins() {
    let catalog = BuiltinCatalog;
    assert_eq!(catalog.resolve("fs/promises").as_deref(), Some("node:fs/promises"));
    assert_eq!(catalog.resolve("node:fs/promises").as_deref(), Some("node:fs/promises"));
    assert_eq!(catalog.resolve("node:test").as_deref(), Some("node:test"));
    assert_eq!(catalog.resolve("node:test/reporters").as_deref(), Some("node:test/reporters"));
    assert_eq!(catalog.resolve("node:sqlite").as_deref(), Some("node:sqlite"));
    assert_eq!(catalog.resolve("node:sea").as_deref(), Some("node:sea"));
    assert_eq!(catalog.resolve("test"), None);
    assert_eq!(catalog.resolve("sqlite"), None);
    assert_eq!(catalog.resolve("node:test/unknown"), None);
}

#[test]
fn rejects_absolute_and_escaping_legacy_paths() {
    assert!(PackageRelativePath::parse("../outside.js").is_none());
    assert!(PackageRelativePath::parse("/outside.js").is_none());
}

#[test]
fn legacy_paths_do_not_require_export_target_prefixes() {
    let entrypoints =
        LegacyEntrypoints::from_fields(Some("esm/index.js"), Some("dist/index.js"), Some("dist/index.d.ts"), None);
    assert_eq!(entrypoints.select(&DependencyKind::Static).unwrap().as_str(), "esm/index.js");
    assert_eq!(entrypoints.select(&DependencyKind::TypeOnly).unwrap().as_str(), "dist/index.d.ts");
}

#[test]
fn legacy_paths_are_normalised_and_may_climb_back_inside() {
    assert_eq!(PackageRelativePath::parse("./././lib/../dist\\main.js").unwrap().as_str(), "lib/../dist/main.js");
    assert!(PackageRelativePath::parse("   ").is_none());
    assert!(PackageRelativePath::parse("lib/../../x.js").is_none());
}

#[test]
fn bundler_uses_syntax_in_packages_without_a_module_type() {
    for kind in [DependencyKind::Static, DependencyKind::ReExport, DependencyKind::TypeOnly, DependencyKind::Dynamic] {
        assert_eq!(resolution_kind_for(ResolutionMode::Bundler, &kind, ModuleFormat::CommonJs), ResolutionKind::Import);
    }
    assert_eq!(
        resolution_kind_for(ResolutionMode::Bundler, &DependencyKind::Require, ModuleFormat::Esm),
        ResolutionKind::Require
    );
    assert_eq!(
        resolution_kind_for(ResolutionMode::Node16, &DependencyKind::Static, ModuleFormat::CommonJs),
        ResolutionKind::Require
    );
}

#[test]
fn bundler_does_not_activate_node_or_browser_conditions() {
    let importer = ModulePath("src/app.ts".into());
    let custom = vec!["worker".to_string(), "default".to_string()];
    let request = ResolutionRequest {
        importer: &importer,
        specifier: "pkg",
        dependency_kind: DependencyKind::TypeOnly,
        mode: ResolutionMode::Bundler,
        resolution_kind: ResolutionKind::Import,
        custom_conditions: &custom,
    };
    let conditions = active_conditions(&request);
    assert_eq!(conditions.iter().iter().map(|c| c.as_str()).collect::<Vec<_>>(), vec!["default", "import", "types", "worker"]);
    assert!(!conditions.contains("node"));
    assert!(!conditions.contains("browser"));
    let node = ResolutionRequest { mode: ResolutionMode::NodeNext, resolution_kind: ResolutionKind::Require, ..request };
    let conditions = active_conditions(&node);
    assert!(conditions.contains("node"));
    assert!(conditions.contains("require"));
}
