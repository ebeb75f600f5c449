use wae::domain::{
    Dependency, DependencyKind, FrameworkMetadata, LayerId, Module, ModuleId, ModuleKind, ModulePath, Package,
    PackageName, ProjectBuilder, Runtime, SourceLocation,
};
use wae::module_graph::ModuleGraph;
use wae::package_graph::PackageGraph;
use wae::runtime_graph::RuntimeGraph;

fn module(package: &Package, id: &str) -> Module {
    Module {
        id: ModuleId(String::from(id)),
        path: ModulePath(format!("/app/src/{id}.ts")),
        package: package.name.clone(),
        kind: ModuleKind::Source,
        runtime: Runtime::Universal,
        layer: Some(LayerId("features".into())),
        framework_metadata: FrameworkMetadata::default(),
    }
}

fn dependency(from: &str, to: &str) -> Dependency {
    Dependency {
        from: ModuleId(String::from(from)),
        to: ModuleId(String::from(to)),
        kind: DependencyKind::Static,
        location: SourceLocation::unknown(),
    }
}

#[test]
fn graph_supports_basic_queries() {
    let package = Package { name: PackageName(String::from("web")), root_path: String::from("/app") };

    let graph = ModuleGraph::from_project(
        &ProjectBuilder::new()
            .add_package(package.clone())
            .add_module(module(&package, "A"))
            .add_module(module(&package, "B"))
            .add_module(module(&package, "C"))
            .add_dependency(dependency("A", "B"))
            .add_dependency(dependency("A", "C"))
            .add_dependency(dependency("B", "C"))
            .build(),
    );

    assert_eq!(graph.node_count(), 3);
    assert_eq!(graph.edge_count(), 3);

    let outgoing_a = graph.outgoing(&ModuleId(String::from("A")));
    assert_eq!(outgoing_a.len(), 2);
    assert_eq!(outgoing_a[0].0, "B");
    assert_eq!(outgoing_a[1].0, "C");

    let incoming_c = graph.incoming(&ModuleId(String::from("C")));
    assert_eq!(incoming_c.len(), 2);
    assert_eq!(incoming_c[0].0, "A");
    assert_eq!(incoming_c[1].0, "B");

    let reachable = graph.reachable_from(&ModuleId(String::from("A")));
    assert_eq!(reachable.len(), 2);
    assert_eq!(reachable[0].0, "B");
    assert_eq!(reachable[1].0, "C");

    assert!(graph.has_path(&ModuleId(String::from("A")), &ModuleId(String::from("C"))));
    assert!(!graph.has_path(&ModuleId(String::from("C")), &ModuleId(String::from("A"))));
}

#[test]
fn shortest_path_is_deterministic_and_includes_endpoints() {
    let package = Package { name: PackageName("web".into()), root_path: "/app".into() };
    let graph = ModuleGraph::from_project(
        &ProjectBuilder::new()
            .add_package(package.clone())
            .add_module(module(&package, "A"))
            .add_module(module(&package, "B"))
            .add_module(module(&package, "C"))
            .add_dependency(dependency("A", "B"))
            .add_dependency(dependency("B", "C"))
            .build(),
    );
    assert_eq!(
        graph.shortest_path(&ModuleId("A".into()), &ModuleId("C".into())).unwrap(),
        vec![ModuleId("A".into()), ModuleId("B".into()), ModuleId("C".into())]
    );
    assert!(graph.shortest_path(&ModuleId("C".into()), &ModuleId("A".into())).is_none());
}

#[test]
fn runtime_graph_propagates_requirements_with_explainable_paths() {
    let package = Package { name: PackageName("web".into()), root_path: "/app".into() };
    let mut browser = module(&package, "browser");
    browser.runtime = Runtime::Browser;
    let middle = module(&package, "middle");
    let mut server = module(&package, "server");
    server.runtime = Runtime::Server;
    let project = ProjectBuilder::new()
        .add_package(package)
        .add_module(browser)
        .add_module(middle)
        .add_module(server)
        .add_dependency(dependency("browser", "middle"))
        .add_dependency(dependency("middle", "server"))
        .build();
    let graph = RuntimeGraph::from_project(&project);
    assert_eq!(
        graph.shortest_path_to_runtime(&ModuleId("browser".into()), &[Runtime::Server]).unwrap(),
        vec![ModuleId("browser".into()), ModuleId("middle".into()), ModuleId("server".into())]
    );
}

#[test]
fn server_actions_are_rpc_boundaries_for_runtime_propagation() {
    let package = Package { name: PackageName("web".into()), root_path: "/app".into() };
    let mut browser = module(&package, "browser");
    browser.runtime = Runtime::Browser;
    let mut action = module(&package, "action");
    action.runtime = Runtime::Server;
    action.framework_metadata.attributes.insert("role".into(), "server-action-module".into());
    let mut node = module(&package, "node");
    node.runtime = Runtime::Node;
    let project = ProjectBuilder::new()
        .add_package(package)
        .add_module(browser)
        .add_module(action)
        .add_module(node)
        .add_dependency(dependency("browser", "action"))
        .add_dependency(dependency("action", "node"))
        .build();
    let graph = RuntimeGraph::from_project(&project);
    assert!(graph
        .shortest_path_to_runtime(&ModuleId("browser".into()), &[Runtime::Server, Runtime::Node])
        .is_none());
    assert!(graph.shortest_path_to_runtime(&ModuleId("action".into()), &[Runtime::Server]).is_some());
}

#[test]
fn graph_deduplicates_edges_and_sorts_public_output() {
    let package = Package { name: PackageName(String::from("web")), root_path: String::from("/app") };
    let project = ProjectBuilder::new()
        .add_package(package.clone())
        .add_module(module(&package, "A"))
        .add_module(module(&package, "B"))
        .add_module(module(&package, "C"))
        .add_dependency(dependency("B", "C"))
        .add_dependency(dependency("A", "B"))
        .add_dependency(dependency("A", "B"))
        .build();
    let graph = ModuleGraph::from_project(&project);
    assert_eq!(graph.edge_count(), 2);
    assert_eq!(graph.nodes().iter().map(|node| node.0.as_str()).collect::<Vec<_>>(), vec!["A", "B", "C"]);
    assert_eq!(graph.edges()[0].from.0, "A");
}

#[test]
fn project_graph_never_invents_nodes_for_missing_module_records() {
    let package = Package { name: PackageName(String::from("web")), root_path: String::from("/app") };
    let project = ProjectBuilder::new()
        .add_package(package.clone())
        .add_module(module(&package, "A"))
        .add_dependency(dependency("A", "excluded"))
        .build();
    let graph = ModuleGraph::from_project(&project);
    assert_eq!(graph.nodes(), &[ModuleId("A".into())]);
    assert!(graph.edges().is_empty());
}

#[test]
fn graph_detects_scc_and_cycle_path() {
    let package = Package { name: PackageName(String::from("web")), root_path: String::from("/app") };

    let graph = ModuleGraph::from_project(
        &ProjectBuilder::new()
            .add_package(package.clone())
            .add_module(module(&package, "user"))
            .add_module(module(&package, "payment"))
            .add_module(module(&package, "checkout"))
            .add_dependency(dependency("user", "payment"))
            .add_dependency(dependency("payment", "checkout"))
            .add_dependency(dependency("checkout", "user"))
            .build(),
    );

    let scc = graph.strongly_connected_components();
    let large_components = scc.iter().filter(|component| component.len() > 1).count();
    assert_eq!(large_components, 1);

    let cycles = graph.cycles();
    assert_eq!(cycles.len(), 1);
    assert_eq!(
        cycles[0].iter().map(|node| node.0.as_str()).collect::<Vec<_>>(),
        vec!["checkout", "user", "payment", "checkout"]
    );
}

#[test]
fn graph_handles_thousands_of_modules() {
    let package = Package { name: PackageName(String::from("web")), root_path: String::from("/app") };

    let mut builder = ProjectBuilder::new().add_package(package.clone());

    let total_modules = 3_000;
    for index in 0..total_modules {
        builder = builder.add_module(module(&package, &format!("m{index}")));
    }

    for index in 0..(total_modules - 1) {
        builder = builder.add_dependency(dependency(&format!("m{index}"), &format!("m{}", index + 1)));
    }

    let graph = ModuleGraph::from_project(&builder.build());

    assert_eq!(graph.node_count(), total_modules as usize);
    assert_eq!(graph.edge_count(), (total_modules - 1) as usize);

    let reachable = graph.reachable_from(&ModuleId(String::from("m0")));
    assert_eq!(reachable.len(), (total_modules - 1) as usize);
}

#[test]
fn generated_dags_preserve_reachability_and_have_only_singleton_sccs() {
    let package = Package { name: PackageName("property".into()), root_path: "/tmp".into() };
    let mut seed = 0x5eed_u64;
    for _case in 0..40 {
        let mut builder = ProjectBuilder::new().add_package(package.clone());
        for node in 0..32 {
            builder = builder.add_module(module(&package, &format!("n{node}")));
        }
        let mut expected = vec![vec![false; 32]; 32];
        for (from, row) in expected.iter_mut().enumerate() {
            for (to, reachable) in row.iter_mut().enumerate().skip(from + 1) {
                seed = seed.wrapping_mul(6364136223846793005).wrapping_add(1);
                if seed >> 61 == 0 {
                    builder = builder.add_dependency(dependency(&format!("n{from}"), &format!("n{to}")));
                    *reachable = true;
                }
            }
        }
        for pivot in 0..32 {
            for from in 0..32 {
                for to in 0..32 {
                    expected[from][to] |= expected[from][pivot] && expected[pivot][to];
                }
            }
        }
        let graph = ModuleGraph::from_project(&builder.build());
        assert!(graph.strongly_connected_components().iter().all(|scc| scc.len() == 1));
        for (from, row) in expected.iter().enumerate() {
            for (to, reachable) in row.iter().enumerate() {
                assert_eq!(
                    graph.has_path(&ModuleId(format!("n{from}")), &ModuleId(format!("n{to}"))),
                    *reachable || from == to
                );
            }
        }
    }
}

#[test]
fn package_graph_builds_cross_package_edges() {
    let web = Package { name: PackageName(String::from("apps/web")), root_path: String::from("/repo/apps/web") };
    let ui = Package { name: PackageName(String::from("packages/ui")), root_path: String::from("/repo/packages/ui") };
    let auth =
        Package { name: PackageName(String::from("packages/auth")), root_path: String::from("/repo/packages/auth") };

    let web_module = Module {
        id: ModuleId(String::from("web-home")),
        path: ModulePath(String::from("/repo/apps/web/src/home.ts")),
        package: web.name.clone(),
        kind: ModuleKind::Source,
        runtime: Runtime::Universal,
        layer: Some(LayerId("app".into())),
        framework_metadata: FrameworkMetadata::default(),
    };
    let ui_module = Module {
        id: ModuleId(String::from("ui-button")),
        path: ModulePath(String::from("/repo/packages/ui/src/button.ts")),
        package: ui.name.clone(),
        kind: ModuleKind::Source,
        runtime: Runtime::Universal,
        layer: Some(LayerId("shared".into())),
        framework_metadata: FrameworkMetadata::default(),
    };
    let auth_module = Module {
        id: ModuleId(String::from("auth-session")),
        path: ModulePath(String::from("/repo/packages/auth/src/session.ts")),
        package: auth.name.clone(),
        kind: ModuleKind::Source,
        runtime: Runtime::Universal,
        layer: Some(LayerId("shared".into())),
        framework_metadata: FrameworkMetadata::default(),
    };

    let project = ProjectBuilder::new()
        .add_package(web.clone())
        .add_package(ui.clone())
        .add_package(auth.clone())
        .add_module(web_module)
        .add_module(ui_module)
        .add_module(auth_module)
        .add_dependency(Dependency {
            from: ModuleId(String::from("web-home")),
            to: ModuleId(String::from("ui-button")),
            kind: DependencyKind::Static,
            location: SourceLocation::unknown(),
        })
        .add_dependency(Dependency {
            from: ModuleId(String::from("ui-button")),
            to: ModuleId(String::from("auth-session")),
            kind: DependencyKind::Static,
            location: SourceLocation::unknown(),
        })
        .build();

    let package_graph = PackageGraph::from_project(&project);

    assert_eq!(package_graph.nodes().len(), 3);
    assert_eq!(package_graph.edges().len(), 2);
    assert!(package_graph.has_edge(&PackageName(String::from("apps/web")), &PackageName(String::from("packages/ui"))));
    assert!(package_graph
        .has_edge(&PackageName(String::from("packages/ui")), &PackageName(String::from("packages/auth"))));
    assert!(!package_graph
        .has_edge(&PackageName(String::from("packages/auth")), &PackageName(String::from("apps/web"))));
}

#[test]
fn package_graph_detects_cross_package_cycles() {
    let a = Package { name: PackageName("a".into()), root_path: "/a".into() };
    let b = Package { name: PackageName("b".into()), root_path: "/b".into() };
    let project = ProjectBuilder::new()
        .add_package(a.clone())
        .add_package(b.clone())
        .add_module(module(&a, "a/index"))
        .add_module(module(&b, "b/index"))
        .add_dependency(dependency("a/index", "b/index"))
        .add_dependency(dependency("b/index", "a/index"))
        .build();
    let cycles = PackageGraph::from_project(&project).cycles();
    assert_eq!(cycles.len(), 1);
    assert_eq!(cycles[0].first(), cycles[0].last());
}

#[test]
fn repeated_dependencies_keep_the_first_location() {
    let package = Package { name: PackageName(String::from("web")), root_path: String::from("/app") };
    let mut first = dependency("A", "B");
    first.location = SourceLocation { file: "src/A.ts".into(), line: 3, column: 1 };
    let mut second = dependency("A", "B");
    second.location = SourceLocation { file: "src/A.ts".into(), line: 9, column: 5 };
    let graph = ModuleGraph::from_project(
        &ProjectBuilder::new()
            .add_package(package.clone())
            .add_module(module(&package, "A"))
            .add_module(module(&package, "B"))
            .add_dependency(first)
            .add_dependency(second)
            .build(),
    );
    assert_eq!(graph.edge_count(), 1);
    assert_eq!(graph.edges()[0].location.line, 3);
    assert_eq!(graph.edges()[0].location.column, 1);
}

#[test]
fn runtime_requirements_take_the_breadth_first_path_among_equal_ones() {
    let package = Package { name: PackageName("web".into()), root_path: "/app".into() };
    let start = module(&package, "a-start");
    let left = module(&package, "b-left");
    let right = module(&package, "c-right");
    let mut far = module(&package, "z-server");
    far.runtime = Runtime::Server;
    let mut near = module(&package, "d-server");
    near.runtime = Runtime::Server;
    let project = ProjectBuilder::new()
        .add_package(package)
        .add_module(start)
        .add_module(left)
        .add_module(right)
        .add_module(far)
        .add_module(near)
        .add_dependency(dependency("a-start", "c-right"))
        .add_dependency(dependency("a-start", "b-left"))
        .add_dependency(dependency("c-right", "d-server"))
        .add_dependency(dependency("b-left", "z-server"))
        .build();
    let graph = RuntimeGraph::from_project(&project);
    let expected = vec![ModuleId("a-start".into()), ModuleId("b-left".into()), ModuleId("z-server".into())];
    let start_id = ModuleId("a-start".into());
    assert_eq!(graph.shortest_path_to_runtime(&start_id, &[Runtime::Server]).unwrap(), expected);
    let requirements = graph.requirements(&start_id);
    let server = requirements.iter().find(|r| r.runtime == Runtime::Server).unwrap();
    assert_eq!(server.path, expected);
}

#[test]
fn shortest_path_takes_the_first_import_among_equal_ways() {
    let package = Package { name: PackageName("web".into()), root_path: "/app".into() };
    let project = ProjectBuilder::new()
        .add_package(package.clone())
        .add_module(module(&package, "a"))
        .add_module(module(&package, "b"))
        .add_module(module(&package, "c"))
        .add_module(module(&package, "d"))
        .add_dependency(dependency("a", "c"))
        .add_dependency(dependency("c", "d"))
        .add_dependency(dependency("a", "b"))
        .add_dependency(dependency("b", "d"))
        .build();
    let graph = ModuleGraph::from_project(&project);
    assert_eq!(
        graph.shortest_path(&ModuleId("a".into()), &ModuleId("d".into())).unwrap(),
        vec![ModuleId("a".into()), ModuleId("b".into()), ModuleId("d".into())]
    );
}
