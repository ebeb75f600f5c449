use wae::banner_lines;
use wae::domain::{
    ArchitectureModel, Dependency, DependencyKind, Diagnostic, FrameworkMetadata, LayerId, LayerPolicy,
    Module, ModuleId, ModuleKind, ModulePath, Package, PackageName, ProjectBuilder, Runtime, Severity,
    SourceLocation,
};
use wae::rule_registry::{configurable_ids, descriptor, RuleScope};

#[test]
fn banner_format_is_stable() {
    assert_eq!(banner_lines(), ["Web Architecture Engine", "v0.0.26"]);
}

#[test]
fn can_build_project_graph_without_parser() {
    let package = Package { name: PackageName(String::from("web")), root_path: String::from("/app") };

    let module_a = Module {
        id: ModuleId(String::from("A")),
        path: ModulePath(String::from("/app/src/a.ts")),
        package: package.name.clone(),
        kind: ModuleKind::Source,
        runtime: Runtime::Universal,
        layer: Some(LayerId("features".into())),
        framework_metadata: FrameworkMetadata::default(),
    };

    let module_b = Module {
        id: ModuleId(String::from("B")),
        path: ModulePath(String::from("/app/src/b.ts")),
        package: package.name.clone(),
        kind: ModuleKind::Source,
        runtime: Runtime::Universal,
        layer: Some(LayerId("features".into())),
        framework_metadata: FrameworkMetadata::default(),
    };

    let module_c = Module {
        id: ModuleId(String::from("C")),
        path: ModulePath(String::from("/app/src/c.ts")),
        package: package.name.clone(),
        kind: ModuleKind::Source,
        runtime: Runtime::Universal,
        layer: Some(LayerId("features".into())),
        framework_metadata: FrameworkMetadata::default(),
    };

    let dependency_ab = Dependency {
        from: module_a.id.clone(),
        to: module_b.id.clone(),
        kind: DependencyKind::Static,
        location: SourceLocation::unknown(),
    };

    let dependency_bc = Dependency {
        from: module_b.id.clone(),
        to: module_c.id.clone(),
        kind: DependencyKind::Static,
        location: SourceLocation::unknown(),
    };

    let project = ProjectBuilder::new()
        .add_package(package)
        .add_module(module_a)
        .add_module(module_b)
        .add_module(module_c)
        .add_dependency(dependency_ab)
        .add_dependency(dependency_bc)
        .build();

    assert_eq!(project.modules.len(), 3);
    assert_eq!(project.dependencies.len(), 2);
    assert_eq!(project.dependencies[0].from.0, "A");
    assert_eq!(project.dependencies[0].to.0, "B");
    assert_eq!(project.dependencies[1].from.0, "B");
    assert_eq!(project.dependencies[1].to.0, "C");
}

#[test]
fn architecture_model_tracks_import_permissions() {
    let model = ArchitectureModel::new(vec![
        LayerPolicy::new("app").with_patterns(vec![String::from("src/app/**")]).with_can_import(vec![
            String::from("features"),
            String::from("entities"),
            String::from("shared"),
        ]),
        LayerPolicy::new("features")
            .with_patterns(vec![String::from("src/features/**")])
            .with_can_import(vec![String::from("entities"), String::from("shared")]),
        LayerPolicy::new("entities")
            .with_patterns(vec![String::from("src/entities/**")])
            .with_can_import(vec![String::from("shared")]),
        LayerPolicy::new("shared").with_patterns(vec![String::from("src/shared/**")]).with_can_import(vec![]),
    ]);

    assert!(model.can_import("app", "features"));
    assert!(model.can_import("entities", "shared"));
    assert!(model.can_import("shared", "shared"));
    assert!(!model.can_import("shared", "entities"));
}

#[test]
fn diagnostic_fingerprint_does_not_change_when_lines_move() {
    let mut first = Diagnostic::new("ARCH-003", "Layer violation");
    first.primary_location = Some(SourceLocation { file: "src/app.ts".into(), line: 10, column: 3 });
    first.dependency_path = vec![ModuleId("src/app.ts".into()), ModuleId("src/shared.ts".into())];
    first.refresh_fingerprint();
    let mut moved = first.clone();
    moved.primary_location.as_mut().unwrap().line = 200;
    moved.refresh_fingerprint();
    assert_eq!(first.fingerprint, moved.fingerprint);
}

#[test]
fn diagnostic_identity_ignores_presentation_fields_and_keeps_legacy_aliases() {
    let mut diagnostic = Diagnostic::new("ARCH-005", "Private feature import");
    diagnostic.severity = Severity::Warning;
    diagnostic.primary_location = Some(SourceLocation { file: "src/app.ts".into(), line: 3, column: 7 });
    diagnostic.dependency_path =
        vec![ModuleId("src/app.ts".into()), ModuleId("src/features/a/private.ts".into())];
    diagnostic.metadata.insert("owner".into(), "a".into());
    let legacy_before_arbitration = diagnostic.legacy_fingerprint_aliases();
    diagnostic.refresh_fingerprint();
    let stable = diagnostic.fingerprint.clone();

    diagnostic.message = "Reworded message".into();
    diagnostic.severity = Severity::Error;
    diagnostic.suggestion = Some("Use the public entrypoint".into());
    diagnostic.metadata.insert("related_rules".into(), "ARCH-004,ARCH-005".into());
    diagnostic.refresh_fingerprint();

    assert_eq!(diagnostic.fingerprint, stable);
    assert!(diagnostic
        .legacy_fingerprint_aliases()
        .iter()
        .any(|alias| legacy_before_arbitration.contains(alias)));
}

#[test]
fn unresolved_specifiers_have_distinct_stable_identities() {
    let diagnostic = |specifier: &str| {
        let mut diagnostic = Diagnostic::new("RESOLVE-001", "unresolved");
        diagnostic.primary_location = Some(SourceLocation { file: "src/app.ts".into(), line: 1, column: 1 });
        diagnostic.dependency_path = vec![ModuleId("src/app.ts".into())];
        diagnostic.identity_target = Some(ModuleId(format!("unresolved:{specifier}")));
        diagnostic.refresh_fingerprint();
        diagnostic
    };
    assert_ne!(diagnostic("alpha").fingerprint, diagnostic("beta").fingerprint);
}

#[test]
fn every_configurable_rule_declares_an_incremental_scope() {
    let scopes = configurable_ids().into_iter().map(|id| descriptor(id).unwrap().scope()).collect::<Vec<_>>();
    assert_eq!(scopes.len(), 21);
    assert!(scopes.contains(&RuleScope::Edge));
    assert!(scopes.contains(&RuleScope::Closure));
    assert!(scopes.contains(&RuleScope::Global));
}
