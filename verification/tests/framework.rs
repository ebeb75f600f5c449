use wae::domain::{ModuleSemantics, Runtime};
use wae::framework::{
    manifest_has_dependency, FrameworkAdapter, FrameworkRegistry, ModuleEvidence, NextJsAdapter, PackageManifest,
    ProjectEvidence,
};

fn attribute<'a>(classification: &'a wae::framework::FrameworkClassification, key: &str) -> &'a str {
    classification.metadata.attributes.get(key).unwrap().as_str()
}

fn manifest_with(dependencies: &[&str]) -> PackageManifest {
    PackageManifest {
        dependencies: Some(dependencies.iter().map(|name| name.to_string()).collect()),
        dev_dependencies: None,
        peer_dependencies: None,
    }
}

#[test]
fn next_detection_requires_authoritative_project_evidence() {
    let adapter = NextJsAdapter;
    assert_eq!(adapter.detection_score(&ProjectEvidence::default()), 0);
    assert_eq!(
        adapter.detection_score(&ProjectEvidence {
            package_manifest: Some(manifest_with(&["next"])),
            config_files: vec![]
        }),
        100
    );
    assert_eq!(
        adapter.detection_score(&ProjectEvidence {
            package_manifest: None,
            config_files: vec!["next.config.ts".into()]
        }),
        90
    );
}

#[test]
fn next_detection_is_stable_across_supported_manifest_versions() {
    let adapter = NextJsAdapter;
    for _version in ["13.5.11", "14.2.35", "15.2.6", "16.0.0"] {
        let evidence =
            ProjectEvidence { package_manifest: Some(manifest_with(&["next"])), config_files: Vec::new() };
        assert_eq!(adapter.detection_score(&evidence), 100);
    }
}

#[test]
fn classifies_app_router_client_server_route_action_and_middleware_modules() {
    let adapter = NextJsAdapter;
    let client_semantics = ModuleSemantics { directives: vec!["use client".into()], ..ModuleSemantics::default() };
    let client = adapter.classify(ModuleEvidence { path: "src/app/cart/client.tsx", semantics: &client_semantics });
    assert_eq!(client.runtime, Runtime::Browser);
    assert_eq!(attribute(&client, "component"), "client");
    let empty = ModuleSemantics::default();
    let page = adapter.classify(ModuleEvidence { path: "src/app/cart/page.tsx", semantics: &empty });
    assert_eq!(page.runtime, Runtime::Server);
    assert_eq!(attribute(&page, "role"), "page");
    let edge = ModuleSemantics { exported_runtime: Some("edge".into()), ..ModuleSemantics::default() };
    let route = adapter.classify(ModuleEvidence { path: "src/app/api/route.ts", semantics: &edge });
    assert_eq!(route.runtime, Runtime::Edge);
    assert_eq!(attribute(&route, "role"), "route-handler");
    let server_action = ModuleSemantics { directives: vec!["use server".into()], ..ModuleSemantics::default() };
    let action = adapter.classify(ModuleEvidence { path: "src/actions.ts", semantics: &server_action });
    assert_eq!(attribute(&action, "role"), "server-action-module");
    let middleware = adapter.classify(ModuleEvidence { path: "src/middleware.ts", semantics: &empty });
    assert_eq!(middleware.runtime, Runtime::Edge);
}

#[test]
fn classifies_pages_router_conventions_without_treating_late_strings_as_directives() {
    let adapter = NextJsAdapter;
    let api = adapter.classify(ModuleEvidence { path: "src/pages/api/user.ts", semantics: &ModuleSemantics::default() });
    assert_eq!(attribute(&api, "role"), "api-route");
    assert_eq!(attribute(&api, "useClient"), "false");
    assert_eq!(api.runtime, Runtime::Server);
    let document =
        adapter.classify(ModuleEvidence { path: "pages/_document.tsx", semantics: &ModuleSemantics::default() });
    assert_eq!(attribute(&document, "role"), "custom-document");
}

#[test]
fn router_roots_are_anchored_and_marker_packages_define_runtime() {
    let adapter = NextJsAdapter;
    let nested =
        adapter.classify(ModuleEvidence { path: "src/components/app/page.tsx", semantics: &ModuleSemantics::default() });
    assert_eq!(attribute(&nested, "router"), "none");
    assert_eq!(attribute(&nested, "role"), "module");

    let server = adapter.classify(ModuleEvidence {
        path: "src/lib/secrets.ts",
        semantics: &ModuleSemantics { marker_imports: vec!["server-only".into()], ..ModuleSemantics::default() },
    });
    assert_eq!(server.runtime, Runtime::Server);
    assert_eq!(attribute(&server, "runtimeSource"), "marker-package");

    let monorepo_page =
        adapter.classify(ModuleEvidence { path: "apps/store/src/app/page.tsx", semantics: &ModuleSemantics::default() });
    assert_eq!(attribute(&monorepo_page, "router"), "app");
}

#[test]
fn classification_records_every_attribute_and_windows_separators() {
    let adapter = NextJsAdapter;
    let both = ModuleSemantics {
        marker_imports: vec!["server-only".into(), "client-only".into()],
        ..ModuleSemantics::default()
    };
    let conflicted = adapter.classify(ModuleEvidence { path: "src\\app\\layout.tsx", semantics: &both });
    assert_eq!(conflicted.runtime, Runtime::Unknown);
    assert_eq!(attribute(&conflicted, "router"), "app");
    assert_eq!(attribute(&conflicted, "role"), "layout");
    assert_eq!(attribute(&conflicted, "component"), "server");
    assert_eq!(attribute(&conflicted, "runtime"), "unknown");
    assert_eq!(attribute(&conflicted, "runtimeSource"), "conflicting-marker");
    assert_eq!(attribute(&conflicted, "serverOnly"), "true");
    assert_eq!(attribute(&conflicted, "clientOnly"), "true");
    assert_eq!(conflicted.metadata.attributes.len(), 9);
    assert_eq!(conflicted.metadata.adapter_id.as_deref(), Some("nextjs"));
    let plain = adapter.classify(ModuleEvidence { path: "lib/util.ts", semantics: &ModuleSemantics::default() });
    assert_eq!(plain.runtime, Runtime::Universal);
    assert_eq!(attribute(&plain, "runtimeSource"), "default");
}

#[test]
fn manifest_dependency_tables_are_all_consulted() {
    let peer = PackageManifest { dependencies: None, dev_dependencies: None, peer_dependencies: Some(vec!["next".into()]) };
    assert!(manifest_has_dependency(&peer, "next"));
    assert!(!manifest_has_dependency(&PackageManifest::default(), "next"));
}

#[test]
fn registry_selection_follows_enabled_adapters_and_detection() {
    let registry = FrameworkRegistry::default();
    let next = ProjectEvidence { package_manifest: Some(manifest_with(&["next"])), config_files: vec![] };
    assert!(registry.select(&next, &[], true).is_some());
    assert!(registry.select(&ProjectEvidence::default(), &[], true).is_none());
    assert!(registry.select(&next, &[], false).is_none());
    assert!(registry.select(&ProjectEvidence::default(), &["nextjs".to_string()], false).is_some());
    assert!(registry.select(&next, &["remix".to_string()], true).is_none());
}
