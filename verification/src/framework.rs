//! Framework adapters: detection of a framework from project evidence and classification of
//! modules by its conventions (Next.js app and pages routers, server actions, middleware).
use crate::domain::{FrameworkMetadata, ModuleSemantics, Runtime};
use crate::map::OrderedMap;
use crate::text::{before_char, text_less, has_prefix, owned, portable, prefix_before, split_char, split_seq, starts_with,
    text_equal, to_portable};
use crate::text_set::{texts_contain, texts_of};
use vstd::prelude::*;

verus! {

/// The dependency tables of a package manifest: the names listed under `dependencies`,
/// `devDependencies` and `peerDependencies`, each `None` where the manifest has no such object.
#[derive(Clone, Debug, Default)]
pub struct PackageManifest {
    pub dependencies: Option<Vec<String>>,
    pub dev_dependencies: Option<Vec<String>>,
    pub peer_dependencies: Option<Vec<String>>,
}

/// What a project shows of its frameworks: its package manifest, when it has one, and the
/// names of its configuration files.
#[derive(Clone, Debug, Default)]
pub struct ProjectEvidence {
    pub package_manifest: Option<PackageManifest>,
    pub config_files: Vec<String>,
}

/// One dependency table lists `name`.
pub open spec fn table_lists(table: Option<Vec<String>>, name: Seq<char>) -> bool {
    table matches Some(names) && texts_of(names@).contains(name)
}

/// The manifest declares `name` as a dependency of any kind.
pub open spec fn declares_dependency(manifest: PackageManifest, name: Seq<char>) -> bool {
    table_lists(manifest.dependencies, name) || table_lists(manifest.dev_dependencies, name)
        || table_lists(manifest.peer_dependencies, name)
}

fn table_has(table: &Option<Vec<String>>, name: &str) -> (r: bool)
    ensures
        r == table_lists(*table, name@),
{
    match table {
        Some(names) => texts_contain(names, name),
        None => false,
    }
}

/// Whether any dependency table of the manifest lists `dependency`.
pub fn manifest_has_dependency(manifest: &PackageManifest, dependency: &str) -> (r: bool)
    ensures
        r == declares_dependency(*manifest, dependency@),
{
    table_has(&manifest.dependencies, dependency) || table_has(&manifest.dev_dependencies, dependency)
        || table_has(&manifest.peer_dependencies, dependency)
}

/// What a module shows to a framework adapter: its path and its syntax-level semantics.
#[derive(Clone, Copy, Debug)]
pub struct ModuleEvidence<'a> {
    pub path: &'a str,
    pub semantics: &'a ModuleSemantics,
}

/// A module's framework metadata and runtime.
#[derive(Clone, Debug, PartialEq, Eq)]
pub struct FrameworkClassification {
    pub metadata: FrameworkMetadata,
    pub runtime: Runtime,
}

/// The first position from `k` on whose segment is `x`.
pub open spec fn first_segment(segs: Seq<Seq<char>>, x: Seq<char>, k: int) -> Option<int>
    decreases segs.len() - k,
{
    if k < 0 || k >= segs.len() {
        None
    } else if segs[k] == x {
        Some(k)
    } else {
        first_segment(segs, x, k + 1)
    }
}

/// A router directory counts only at the project root, under `src/`, or in an `apps/*` or
/// `packages/*` workspace (optionally under its `src/`).
pub open spec fn anchored(segs: Seq<Seq<char>>, k: int) -> bool {
    ||| k == 0
    ||| (k == 1 && segs[0] == "src"@)
    ||| (k == 2 && (segs[0] == "apps"@ || segs[0] == "packages"@))
    ||| (k == 3 && (segs[0] == "apps"@ || segs[0] == "packages"@) && segs[2] == "src"@)
}

/// The position of an anchored router directory: the first segment named `router`, when that
/// one is anchored.
pub open spec fn router_root(segs: Seq<Seq<char>>, router: Seq<char>) -> Option<int> {
    match first_segment(segs, router, 0) {
        Some(k) => if anchored(segs, k) {
            Some(k)
        } else {
            None
        },
        None => None,
    }
}

/// The role of a module under the Next.js conventions.
pub open spec fn next_role(segs: Seq<Seq<char>>, use_server: bool) -> Seq<char> {
    let file = segs.last();
    let stem = before_char(file, '.');
    if has_prefix(file, "middleware."@) || stem == "middleware"@ {
        "middleware"@
    } else if router_root(segs, "app"@) is Some {
        if stem == "page"@ {
            "page"@
        } else if stem == "layout"@ {
            "layout"@
        } else if stem == "route"@ {
            "route-handler"@
        } else if stem == "loading"@ {
            "loading"@
        } else if stem == "error"@ {
            "error-boundary"@
        } else if stem == "not-found"@ {
            "not-found"@
        } else if stem == "template"@ {
            "template"@
        } else if use_server {
            "server-action-module"@
        } else {
            "module"@
        }
    } else if router_root(segs, "pages"@) is Some {
        let i = router_root(segs, "pages"@)->0;
        if i + 1 < segs.len() && segs[i + 1] == "api"@ {
            "api-route"@
        } else if stem == "_app"@ {
            "custom-app"@
        } else if stem == "_document"@ {
            "custom-document"@
        } else if stem == "_error"@ {
            "custom-error"@
        } else {
            "page"@
        }
    } else if use_server {
        "server-action-module"@
    } else {
        "module"@
    }
}

/// The runtime a module exports explicitly (`export const runtime`).
pub open spec fn explicit_runtime_of(s: ModuleSemantics) -> Option<Runtime> {
    match s.exported_runtime {
        Some(v) => if v@ == "edge"@ {
            Some(Runtime::Edge)
        } else if v@ == "nodejs"@ {
            Some(Runtime::Node)
        } else {
            None
        },
        None => None,
    }
}

/// The runtime of a module and where it comes from: marker packages first, then an explicit
/// export, a `use client` directive, and the routing conventions.
pub open spec fn next_runtime(s: ModuleSemantics, role: Seq<char>, in_app: bool) -> (Runtime, Seq<char>) {
    let server_only = texts_of(s.marker_imports@).contains("server-only"@);
    let client_only = texts_of(s.marker_imports@).contains("client-only"@);
    if server_only && client_only {
        (Runtime::Unknown, "conflicting-marker"@)
    } else if server_only {
        (Runtime::Server, "marker-package"@)
    } else if client_only {
        (Runtime::Browser, "marker-package"@)
    } else if explicit_runtime_of(s) is Some {
        (explicit_runtime_of(s)->0, "explicit"@)
    } else if texts_of(s.directives@).contains("use client"@) {
        (Runtime::Browser, "directive"@)
    } else if role == "middleware"@ {
        (Runtime::Edge, "convention"@)
    } else if in_app || role == "api-route"@ || role == "custom-document"@ || role == "server-action-module"@ {
        (Runtime::Server, "convention"@)
    } else {
        (Runtime::Universal, "default"@)
    }
}

pub open spec fn runtime_text(r: Runtime) -> Seq<char> {
    match r {
        Runtime::Browser => "browser"@,
        Runtime::Server => "server"@,
        Runtime::Edge => "edge"@,
        Runtime::Node => "node"@,
        Runtime::Universal => "universal"@,
        Runtime::Unknown => "unknown"@,
    }
}

pub open spec fn bool_text(b: bool) -> Seq<char> {
    if b {
        "true"@
    } else {
        "false"@
    }
}

/// The attribute keys of a Next.js classification.
pub open spec fn next_attribute_keys() -> Seq<Seq<char>> {
    seq!["router"@, "role"@, "component"@, "runtime"@, "runtimeSource"@, "useClient"@, "useServer"@,
        "serverOnly"@, "clientOnly"@]
}

/// `c` is the Next.js classification of a module with the given path and semantics.
pub open spec fn next_classification(c: FrameworkClassification, path: Seq<char>, s: ModuleSemantics) -> bool {
    let segs = split_seq(portable(path), '/');
    let in_app = router_root(segs, "app"@) is Some;
    let in_pages = router_root(segs, "pages"@) is Some;
    let use_client = texts_of(s.directives@).contains("use client"@);
    let use_server = texts_of(s.directives@).contains("use server"@);
    let role = next_role(segs, use_server);
    let (runtime, source) = next_runtime(s, role, in_app);
    let attrs = c.metadata.attributes;
    &&& c.runtime == runtime
    &&& c.metadata.adapter_id matches Some(id) && id@ == "nextjs"@
    &&& attrs.lookup("router"@) matches Some(v) && v@ == (if in_app { "app"@ } else if in_pages { "pages"@ } else { "none"@ })
    &&& attrs.lookup("role"@) matches Some(v) && v@ == role
    &&& attrs.lookup("component"@) matches Some(v) && v@ == (if use_client { "client"@ } else if in_app { "server"@ } else { "none"@ })
    &&& attrs.lookup("runtime"@) matches Some(v) && v@ == runtime_text(runtime)
    &&& attrs.lookup("runtimeSource"@) matches Some(v) && v@ == source
    &&& attrs.lookup("useClient"@) matches Some(v) && v@ == bool_text(use_client)
    &&& attrs.lookup("useServer"@) matches Some(v) && v@ == bool_text(use_server)
    &&& attrs.lookup("serverOnly"@) matches Some(v) && v@ == bool_text(texts_of(s.marker_imports@).contains("server-only"@))
    &&& attrs.lookup("clientOnly"@) matches Some(v) && v@ == bool_text(texts_of(s.marker_imports@).contains("client-only"@))
    &&& forall|q: Seq<char>| !next_attribute_keys().contains(q) ==> #[trigger] attrs.lookup(q) is None
}

/// The Next.js detection score: 100 for a manifest dependency on `next`, else 90 for a Next.js
/// configuration file, else 0.
pub open spec fn next_score(manifest: Option<PackageManifest>, config_files: Seq<Seq<char>>) -> u8 {
    if manifest matches Some(m) && declares_dependency(m, "next"@) {
        100
    } else if config_files.contains("next.config.js"@) || config_files.contains("next.config.mjs"@)
        || config_files.contains("next.config.cjs"@) || config_files.contains("next.config.ts"@) {
        90
    } else {
        0
    }
}

/// A framework adapter: detection from project evidence and classification of modules.
pub trait FrameworkAdapter {
    fn id(&self) -> &'static str;

    fn detection_score(&self, project: &ProjectEvidence) -> u8;

    fn classify(&self, module: ModuleEvidence) -> FrameworkClassification;
}

/// The Next.js adapter.
pub struct NextJsAdapter;

/// The framework adapters the engine knows, in registration order.
pub struct FrameworkRegistry {
    adapters: Vec<NextJsAdapter>,
}

/// Whether the adapter `id` may take part in a selection restricted to `enabled` (an empty list
/// enables every adapter).
pub open spec fn enabled_adapter(enabled: Seq<Seq<char>>, id: Seq<char>) -> bool {
    enabled.len() == 0 || enabled.contains(id)
}

/// Whether the registry's adapters take part in a selection: selection is on, the Next.js
/// adapter is enabled, and, under auto-detection, it scores above zero.
pub open spec fn next_selected(project: ProjectEvidence, enabled: Seq<Seq<char>>, auto_detect: bool) -> bool {
    &&& auto_detect || enabled.len() > 0
    &&& enabled_adapter(enabled, "nextjs"@)
    &&& !auto_detect || next_score(project.package_manifest, texts_of(project.config_files@)) > 0
}

impl Default for FrameworkRegistry {
    fn default() -> (r: Self)
        ensures
            r.adapter_count() == 1,
    {
        FrameworkRegistry { adapters: vec![NextJsAdapter] }
    }
}

impl FrameworkRegistry {
    /// How many adapters are registered.
    pub closed spec fn adapter_count(&self) -> nat {
        self.adapters@.len()
    }

    /// The adapter with the highest detection score (ties go to the greater identifier, then to
    /// the later registration) among the enabled ones; under auto-detection an adapter must
    /// score above zero. With auto-detection off and nothing enabled, none is selected.
    pub fn select(&self, project: &ProjectEvidence, enabled: &[String], auto_detect: bool) -> (r: Option<
        &NextJsAdapter,
    >)
        ensures
            r is Some <==> next_selected(*project, texts_of(enabled@), auto_detect) && self.adapter_count() > 0,
    {
        if !auto_detect && enabled.len() == 0 {
            return None;
        }
        let mut best: Option<(usize, u8, &'static str)> = None;
        let mut i: usize = 0;
        let ghost selected = next_selected(*project, texts_of(enabled@), auto_detect);
        while i < self.adapters.len()
            invariant
                i <= self.adapters@.len(),
                selected == next_selected(*project, texts_of(enabled@), auto_detect),
                auto_detect || enabled@.len() > 0,
                best is Some <==> (selected && i > 0),
                best matches Some(b) ==> b.0 < self.adapters@.len() && b.2@ == "nextjs"@ && b.1 == next_score(
                    project.package_manifest,
                    texts_of(project.config_files@),
                ),
            decreases self.adapters@.len() - i,
        {
            let adapter = &self.adapters[i];
            let id = adapter.id();
            let score = adapter.detection_score(project);
            let allowed = enabled.len() == 0 || slice_contains(enabled, id);
            if allowed && (!auto_detect || score > 0) {
                best = match best {
                    None => Some((i, score, id)),
                    Some((j, best_score, best_id)) => if score > best_score || (score == best_score && !text_less(
                        id,
                        best_id,
                    )) {
                        Some((i, score, id))
                    } else {
                        Some((j, best_score, best_id))
                    },
                };
            }
            i = i + 1;
        }
        match best {
            Some((j, _, _)) => Some(&self.adapters[j]),
            None => None,
        }
    }
}

fn slice_contains(items: &[String], x: &str) -> (r: bool)
    ensures
        r == texts_of(items@).contains(x@),
{
    let mut k: usize = 0;
    while k < items.len()
        invariant
            k <= items@.len(),
            forall|m: int| 0 <= m < k ==> items@[m]@ != x@,
        decreases items@.len() - k,
    {
        if text_equal(items[k].as_str(), x) {
            proof {
                assert(texts_of(items@)[k as int] == x@);
            }
            return true;
        }
        k = k + 1;
    }
    proof {
        assert forall|m: int| 0 <= m < texts_of(items@).len() implies texts_of(items@)[m] != x@ by {
            assert(texts_of(items@)[m] == items@[m]@);
        }
    }
    false
}

fn position_of(segs: &Vec<String>, x: &str) -> (r: Option<usize>)
    ensures
        match r {
            Some(k) => first_segment(texts_of(segs@), x@, 0) == Some(k as int) && k < segs@.len(),
            None => first_segment(texts_of(segs@), x@, 0) is None,
        },
{
    let ghost t = texts_of(segs@);
    let mut k: usize = 0;
    while k < segs.len()
        invariant
            t == texts_of(segs@),
            k <= t.len(),
            first_segment(t, x@, 0) == first_segment(t, x@, k as int),
        decreases t.len() - k,
    {
        proof {
            assert(t[k as int] == segs@[k as int]@);
        }
        if text_equal(segs[k].as_str(), x) {
            return Some(k);
        }
        k = k + 1;
    }
    None
}

fn router_root_index(segs: &Vec<String>, router: &str) -> (r: Option<usize>)
    ensures
        match r {
            Some(k) => router_root(texts_of(segs@), router@) == Some(k as int),
            None => router_root(texts_of(segs@), router@) is None,
        },
{
    let ghost t = texts_of(segs@);
    match position_of(segs, router) {
        Some(k) => {
            proof {
                if k >= 1 {
                    assert(t[0] == segs@[0]@);
                }
                if k >= 3 {
                    assert(t[2] == segs@[2]@);
                }
            }
            let ok = if k == 0 {
                true
            } else if k == 1 {
                text_equal(segs[0].as_str(), "src")
            } else if k == 2 {
                text_equal(segs[0].as_str(), "apps") || text_equal(segs[0].as_str(), "packages")
            } else if k == 3 {
                (text_equal(segs[0].as_str(), "apps") || text_equal(segs[0].as_str(), "packages")) && text_equal(
                    segs[2].as_str(),
                    "src",
                )
            } else {
                false
            };
            if ok {
                Some(k)
            } else {
                None
            }
        },
        None => None,
    }
}

fn runtime_name(runtime: Runtime) -> (r: &'static str)
    ensures
        r@ == runtime_text(runtime),
{
    match runtime {
        Runtime::Browser => "browser",
        Runtime::Server => "server",
        Runtime::Edge => "edge",
        Runtime::Node => "node",
        Runtime::Universal => "universal",
        Runtime::Unknown => "unknown",
    }
}

fn bool_name(b: bool) -> (r: &'static str)
    ensures
        r@ == bool_text(b),
{
    if b {
        "true"
    } else {
        "false"
    }
}

fn role_name(segs: &Vec<String>, use_server: bool) -> (r: &'static str)
    requires
        segs@.len() > 0,
    ensures
        r@ == next_role(texts_of(segs@), use_server),
{
    let ghost t = texts_of(segs@);
    let file = segs[segs.len() - 1].as_str();
    let stem = prefix_before(file, '.');
    let stem = stem.as_str();
    proof {
        assert(t.last() == file@);
    }
    let app_index = router_root_index(segs, "app");
    let pages_index = router_root_index(segs, "pages");
    if starts_with(file, "middleware.") || text_equal(stem, "middleware") {
        "middleware"
    } else if app_index.is_some() {
        if text_equal(stem, "page") {
            "page"
        } else if text_equal(stem, "layout") {
            "layout"
        } else if text_equal(stem, "route") {
            "route-handler"
        } else if text_equal(stem, "loading") {
            "loading"
        } else if text_equal(stem, "error") {
            "error-boundary"
        } else if text_equal(stem, "not-found") {
            "not-found"
        } else if text_equal(stem, "template") {
            "template"
        } else if use_server {
            "server-action-module"
        } else {
            "module"
        }
    } else if let Some(index) = pages_index {
        let api = index + 1 < segs.len() && text_equal(segs[index + 1].as_str(), "api");
        proof {
            if index + 1 < segs.len() {
                assert(t[index + 1] == segs@[index + 1]@);
            }
        }
        if api {
            "api-route"
        } else if text_equal(stem, "_app") {
            "custom-app"
        } else if text_equal(stem, "_document") {
            "custom-document"
        } else if text_equal(stem, "_error") {
            "custom-error"
        } else {
            "page"
        }
    } else if use_server {
        "server-action-module"
    } else {
        "module"
    }
}

/// The attribute keys are pairwise distinct.
proof fn lemma_attribute_keys_distinct()
    ensures
        "router"@ != "role"@,
        "router"@ != "component"@,
        "router"@ != "runtime"@,
        "router"@ != "runtimeSource"@,
        "router"@ != "useClient"@,
        "router"@ != "useServer"@,
        "router"@ != "serverOnly"@,
        "router"@ != "clientOnly"@,
        "role"@ != "component"@,
        "role"@ != "runtime"@,
        "role"@ != "runtimeSource"@,
        "role"@ != "useClient"@,
        "role"@ != "useServer"@,
        "role"@ != "serverOnly"@,
        "role"@ != "clientOnly"@,
        "component"@ != "runtime"@,
        "component"@ != "runtimeSource"@,
        "component"@ != "useClient"@,
        "component"@ != "useServer"@,
        "component"@ != "serverOnly"@,
        "component"@ != "clientOnly"@,
        "runtime"@ != "runtimeSource"@,
        "runtime"@ != "useClient"@,
        "runtime"@ != "useServer"@,
        "runtime"@ != "serverOnly"@,
        "runtime"@ != "clientOnly"@,
        "runtimeSource"@ != "useClient"@,
        "runtimeSource"@ != "useServer"@,
        "runtimeSource"@ != "serverOnly"@,
        "runtimeSource"@ != "clientOnly"@,
        "useClient"@ != "useServer"@,
        "useClient"@ != "serverOnly"@,
        "useClient"@ != "clientOnly"@,
        "useServer"@ != "serverOnly"@,
        "useServer"@ != "clientOnly"@,
        "serverOnly"@ != "clientOnly"@,
{
    reveal_strlit("router");
    reveal_strlit("role");
    reveal_strlit("component");
    reveal_strlit("runtime");
    reveal_strlit("runtimeSource");
    reveal_strlit("useClient");
    reveal_strlit("useServer");
    reveal_strlit("serverOnly");
    reveal_strlit("clientOnly");
    assert("router"@.len() == 6 && "role"@.len() == 4 && "component"@.len() == 9 && "runtime"@.len() == 7);
    assert("runtimeSource"@.len() == 13 && "useClient"@.len() == 9 && "useServer"@.len() == 9);
    assert("serverOnly"@.len() == 10 && "clientOnly"@.len() == 10);
    assert("component"@[0] == 'c' && "useClient"@[0] == 'u' && "useServer"@[3] == 'S' && "useClient"@[3] == 'C');
    assert("serverOnly"@[0] == 's' && "clientOnly"@[0] == 'c');
    assert("component"@[0] != "useServer"@[0]);
}

impl FrameworkAdapter for NextJsAdapter {
    fn id(&self) -> (r: &'static str)
        ensures
            r@ == "nextjs"@,
    {
        "nextjs"
    }

    fn detection_score(&self, project: &ProjectEvidence) -> (r: u8)
        ensures
            r == next_score(project.package_manifest, texts_of(project.config_files@)),
    {
        let manifest_score: u8 = match &project.package_manifest {
            Some(manifest) => if manifest_has_dependency(manifest, "next") {
                100
            } else {
                0
            },
            None => 0,
        };
        let config_score: u8 = if texts_contain(&project.config_files, "next.config.js") || texts_contain(
            &project.config_files,
            "next.config.mjs",
        ) || texts_contain(&project.config_files, "next.config.cjs") || texts_contain(
            &project.config_files,
            "next.config.ts",
        ) {
            90
        } else {
            0
        };
        if manifest_score >= config_score {
            manifest_score
        } else {
            config_score
        }
    }

    fn classify(&self, module: ModuleEvidence) -> (r: FrameworkClassification)
        ensures
            next_classification(r, module.path@, *module.semantics),
    {
        let path = to_portable(module.path);
        let segs = split_char(path.as_str(), '/');
        let ghost t = texts_of(segs@);
        proof {
            assert(segs@.map_values(|p: String| p@) == t);
            assert(t.len() > 0) by {
                reveal_with_fuel(crate::text::split_from, 2);
            }
        }
        let semantics = module.semantics;
        let app_index = router_root_index(&segs, "app");
        let pages_index = router_root_index(&segs, "pages");
        let use_client = texts_contain(&semantics.directives, "use client");
        let use_server = texts_contain(&semantics.directives, "use server");
        let server_only = texts_contain(&semantics.marker_imports, "server-only");
        let client_only = texts_contain(&semantics.marker_imports, "client-only");
        let explicit = match &semantics.exported_runtime {
            Some(v) => if text_equal(v.as_str(), "edge") {
                Some(Runtime::Edge)
            } else if text_equal(v.as_str(), "nodejs") {
                Some(Runtime::Node)
            } else {
                None
            },
            None => None,
        };
        let router = if app_index.is_some() {
            "app"
        } else if pages_index.is_some() {
            "pages"
        } else {
            "none"
        };
        let role = role_name(&segs, use_server);
        let (runtime, runtime_source) = if server_only && client_only {
            (Runtime::Unknown, "conflicting-marker")
        } else if server_only {
            (Runtime::Server, "marker-package")
        } else if client_only {
            (Runtime::Browser, "marker-package")
        } else if let Some(runtime) = explicit {
            (runtime, "explicit")
        } else if use_client {
            (Runtime::Browser, "directive")
        } else if text_equal(role, "middleware") {
            (Runtime::Edge, "convention")
        } else if app_index.is_some() || text_equal(role, "api-route") || text_equal(role, "custom-document")
            || text_equal(role, "server-action-module") {
            (Runtime::Server, "convention")
        } else {
            (Runtime::Universal, "default")
        };
        let component = if use_client {
            "client"
        } else if app_index.is_some() {
            "server"
        } else {
            "none"
        };
        proof {
            lemma_attribute_keys_distinct();
        }
        let mut attributes: OrderedMap<String, String> = OrderedMap::new();
        attributes.insert(owned("router"), owned(router));
        attributes.insert(owned("role"), owned(role));
        attributes.insert(owned("component"), owned(component));
        attributes.insert(owned("runtime"), owned(runtime_name(runtime)));
        attributes.insert(owned("runtimeSource"), owned(runtime_source));
        attributes.insert(owned("useClient"), owned(bool_name(use_client)));
        attributes.insert(owned("useServer"), owned(bool_name(use_server)));
        attributes.insert(owned("serverOnly"), owned(bool_name(server_only)));
        attributes.insert(owned("clientOnly"), owned(bool_name(client_only)));
        proof {
            assert forall|q: Seq<char>| !next_attribute_keys().contains(q) implies #[trigger] attributes.lookup(q) is None by {
                let keys = next_attribute_keys();
                assert(keys[0] == "router"@ && keys[1] == "role"@ && keys[2] == "component"@ && keys[3] == "runtime"@
                    && keys[4] == "runtimeSource"@ && keys[5] == "useClient"@ && keys[6] == "useServer"@
                    && keys[7] == "serverOnly"@ && keys[8] == "clientOnly"@);
            }
        }
        let r = FrameworkClassification {
            metadata: FrameworkMetadata { adapter_id: Some(owned(self.id())), attributes },
            runtime,
        };
        proof {
            let sm = *module.semantics;
            assert(t == split_seq(portable(module.path@), '/'));
            assert(role@ == next_role(t, use_server));
            assert((runtime, runtime_source@) == next_runtime(sm, role@, app_index is Some));
        }
        r
    }
}


/// A module that exports `runtime = 'nodejs'` or `runtime = 'edge'` and imports neither marker
/// package runs on Node or on the Edge, reported as such (`runtime` attribute `node` or `edge`)
/// with the runtime source `explicit`, whatever its directives and routing conventions say.
pub proof fn lemma_exported_runtime(c: FrameworkClassification, path: Seq<char>, s: ModuleSemantics)
    requires
        next_classification(c, path, s),
        !texts_of(s.marker_imports@).contains("server-only"@),
        !texts_of(s.marker_imports@).contains("client-only"@),
    ensures
        (s.exported_runtime matches Some(v) && v@ == "nodejs"@) ==> {
            &&& c.runtime == Runtime::Node
            &&& c.metadata.attributes.lookup("runtime"@) matches Some(x) && x@ == "node"@
            &&& c.metadata.attributes.lookup("runtimeSource"@) matches Some(x) && x@ == "explicit"@
        },
        (s.exported_runtime matches Some(v) && v@ == "edge"@) ==> {
            &&& c.runtime == Runtime::Edge
            &&& c.metadata.attributes.lookup("runtime"@) matches Some(x) && x@ == "edge"@
            &&& c.metadata.attributes.lookup("runtimeSource"@) matches Some(x) && x@ == "explicit"@
        },
{
    reveal_strlit("nodejs");
    reveal_strlit("edge");
    assert("nodejs"@.len() != "edge"@.len());
    assert("nodejs"@ != "edge"@);
    if s.exported_runtime matches Some(v) && v@ == "nodejs"@ {
        assert(explicit_runtime_of(s) == Some(Runtime::Node));
    }
}


/// Marker packages decide the runtime before anything else: `server-only` alone means the
/// server, `client-only` alone the browser, both an unknown runtime (a conflict); without them
/// and without an exported runtime, a `use client` directive means the browser.
pub proof fn lemma_marker_runtime(c: FrameworkClassification, path: Seq<char>, s: ModuleSemantics)
    requires
        next_classification(c, path, s),
    ensures
        (texts_of(s.marker_imports@).contains("server-only"@) && !texts_of(s.marker_imports@).contains("client-only"@))
            ==> c.runtime == Runtime::Server,
        (texts_of(s.marker_imports@).contains("client-only"@) && !texts_of(s.marker_imports@).contains("server-only"@))
            ==> c.runtime == Runtime::Browser,
        (texts_of(s.marker_imports@).contains("client-only"@) && texts_of(s.marker_imports@).contains("server-only"@))
            ==> c.runtime == Runtime::Unknown,
        (!texts_of(s.marker_imports@).contains("client-only"@) && !texts_of(s.marker_imports@).contains("server-only"@)
            && s.exported_runtime is None && texts_of(s.directives@).contains("use client"@)) ==> c.runtime
            == Runtime::Browser,
{
}

} // verus!
