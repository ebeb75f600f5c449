//! Discovering a project's architecture from what its root shows: workspace tools, a Next.js
//! dependency or configuration, Feature-Sliced Design segments and feature directories, and the
//! configuration proposed from them.
use crate::config::{
    is_default_except_layers, preset_layer, texts1, texts2, ArchitectureConfig, Config, ConfigPreset, FeatureConfig,
    LayerConfig,
};
use crate::framework::{declares_dependency, manifest_has_dependency, next_score, FrameworkAdapter, NextJsAdapter, PackageManifest, ProjectEvidence};
use crate::map::OrderedMap;
use crate::text::{concat, has_prefix, owned, starts_with};
use crate::text_set::{ascending, texts_contain, texts_of, TextSet};
use vstd::prelude::*;

verus! {

/// The kind of project that discovery recognizes.
#[derive(Clone, Copy, Debug, PartialEq, Eq, Structural)]
pub enum ProjectKind {
    Generic,
    FeatureSliced,
    NextJs,
    Nx,
    Turborepo,
}

/// One observation behind the discovery: what was seen, where, and how much it counts.
#[derive(Clone, Debug, PartialEq, Eq)]
pub struct Evidence {
    pub signal: String,
    pub path: String,
    pub weight: u8,
}

/// What discovery proposes for a project.
#[derive(Clone, Debug)]
pub struct DiscoveryReport {
    pub project_kind: ProjectKind,
    pub confidence: u8,
    pub evidence: Vec<Evidence>,
    pub config_files: Vec<String>,
    pub feature_clusters: Vec<String>,
    pub suggested_config: Config,
}

/// The subdirectory names of one feature root.
#[derive(Clone, Debug)]
pub struct FeatureListing {
    pub root: String,
    pub children: Vec<String>,
}

/// What the project root shows: its package manifest, which of the known configuration files and
/// candidate directories exist, and the subdirectories of the feature roots that could be read.
#[derive(Clone, Debug)]
pub struct ProjectFacts {
    pub package_manifest: Option<PackageManifest>,
    pub files: Vec<String>,
    pub directories: Vec<String>,
    pub feature_listings: Vec<FeatureListing>,
}

/// The configuration files that discovery looks for, in the order it reports them.
pub open spec fn known_config_names() -> Seq<Seq<char>> {
    seq![
        "tsconfig.json"@,
        "jsconfig.json"@,
        "nx.json"@,
        "turbo.json"@,
        "pnpm-workspace.yaml"@,
        "next.config.js"@,
        "next.config.mjs"@,
        "next.config.cjs"@,
        "next.config.ts"@
    ]
}

/// The configuration files that discovery looks for.
pub fn known_configs() -> (r: Vec<&'static str>)
    ensures
        r@.map_values(|s: &str| s@) == known_config_names(),
{
    let r = vec![
        "tsconfig.json",
        "jsconfig.json",
        "nx.json",
        "turbo.json",
        "pnpm-workspace.yaml",
        "next.config.js",
        "next.config.mjs",
        "next.config.cjs",
        "next.config.ts",
    ];
    assert(r@.map_values(|s: &str| s@) =~= known_config_names());
    r
}

/// The directories whose existence discovery asks about: the Feature-Sliced Design segments,
/// under `src/` or at the root, which include the feature roots.
pub open spec fn candidate_directory_names() -> Seq<Seq<char>> {
    seq![
        "src/app"@,
        "app"@,
        "src/features"@,
        "features"@,
        "src/entities"@,
        "entities"@,
        "src/shared"@,
        "shared"@
    ]
}

/// The directories whose existence discovery asks about.
pub fn candidate_directories() -> (r: Vec<&'static str>)
    ensures
        r@.map_values(|s: &str| s@) == candidate_directory_names(),
{
    let r = vec!["src/app", "app", "src/features", "features", "src/entities", "entities", "src/shared", "shared"];
    assert(r@.map_values(|s: &str| s@) =~= candidate_directory_names());
    r
}

/// The present known configuration files, in the known order.
pub open spec fn present_configs(files: Seq<Seq<char>>) -> Seq<Seq<char>> {
    known_config_names().filter(|n: Seq<char>| files.contains(n))
}

/// A one-element sequence for `Some`, an empty one for `None`.
pub open spec fn opt_seq<T>(o: Option<T>) -> Seq<T> {
    match o {
        Some(x) => seq![x],
        None => Seq::empty(),
    }
}

/// Where a segment lives: under `src/` when that directory exists, else at the root.
pub open spec fn segment_dir(dirs: Seq<Seq<char>>, src_path: Seq<char>, root_path: Seq<char>) -> Option<Seq<char>> {
    if dirs.contains(src_path) {
        Some(src_path)
    } else if dirs.contains(root_path) {
        Some(root_path)
    } else {
        None
    }
}

/// The Feature-Sliced Design segments found, in the order app, features, entities, shared.
pub open spec fn fsd_segments(dirs: Seq<Seq<char>>) -> Seq<Seq<char>> {
    opt_seq(segment_dir(dirs, "src/app"@, "app"@)) + opt_seq(segment_dir(dirs, "src/features"@, "features"@))
        + opt_seq(segment_dir(dirs, "src/entities"@, "entities"@)) + opt_seq(
        segment_dir(dirs, "src/shared"@, "shared"@),
    )
}

/// The feature roots that exist, `src/features` before `features`.
pub open spec fn feature_roots(dirs: Seq<Seq<char>>) -> Seq<Seq<char>> {
    opt_seq(
        if dirs.contains("src/features"@) {
            Some("src/features"@)
        } else {
            None
        },
    ) + opt_seq(
        if dirs.contains("features"@) {
            Some("features"@)
        } else {
            None
        },
    )
}

/// The kind that the evidence points to, the workspace tools first.
pub open spec fn kind_of(files: Seq<Seq<char>>, score: u8, segments: nat) -> ProjectKind {
    if files.contains("nx.json"@) {
        ProjectKind::Nx
    } else if files.contains("turbo.json"@) {
        ProjectKind::Turborepo
    } else if score > 0 {
        ProjectKind::NextJs
    } else if segments >= 2 {
        ProjectKind::FeatureSliced
    } else {
        ProjectKind::Generic
    }
}

/// How sure discovery is of the kind.
pub open spec fn confidence_of(kind: ProjectKind, score: u8, segments: nat) -> int {
    match kind {
        ProjectKind::Nx | ProjectKind::Turborepo => 100,
        ProjectKind::NextJs => score as int,
        ProjectKind::FeatureSliced => if segments * 20 < 80 {
            (segments * 20) as int
        } else {
            80
        },
        ProjectKind::Generic => 0,
    }
}

/// The first text with the prefix.
pub open spec fn first_with_prefix(s: Seq<Seq<char>>, p: Seq<char>) -> Option<Seq<char>>
    decreases s.len(),
{
    if s.len() == 0 {
        None
    } else if has_prefix(s[0], p) {
        Some(s[0])
    } else {
        first_with_prefix(s.drop_first(), p)
    }
}

/// Where the Next.js evidence was seen: the manifest's dependency, else the first Next.js
/// configuration file, else the manifest.
pub open spec fn next_evidence_path(manifest: Option<PackageManifest>, configs: Seq<Seq<char>>) -> Seq<char> {
    if manifest matches Some(m) && declares_dependency(m, "next"@) {
        "package.json#dependencies.next"@
    } else {
        match first_with_prefix(configs, "next.config."@) {
            Some(p) => p,
            None => "package.json"@,
        }
    }
}

/// Evidence as plain values.
pub open spec fn evidence_view(e: Evidence) -> (Seq<char>, Seq<char>, u8) {
    (e.signal@, e.path@, e.weight)
}

/// The evidence in the order discovery reports it: workspace tools, Next.js, then segments.
pub open spec fn evidence_of(facts: ProjectFacts) -> Seq<(Seq<char>, Seq<char>, u8)> {
    let files = texts_of(facts.files@);
    let configs = present_configs(files);
    let score = next_score(facts.package_manifest, configs);
    (if files.contains("nx.json"@) {
        seq![("nx-workspace"@, "nx.json"@, 100u8)]
    } else {
        Seq::empty()
    }) + (if files.contains("turbo.json"@) {
        seq![("turborepo-workspace"@, "turbo.json"@, 100u8)]
    } else {
        Seq::empty()
    }) + (if score > 0 {
        seq![("nextjs-framework"@, next_evidence_path(facts.package_manifest, configs), score)]
    } else {
        Seq::empty()
    }) + fsd_segments(texts_of(facts.directories@)).map_values(
        |p: Seq<char>| ("architecture-segment"@, p, 20u8),
    )
}

/// The layer `name` of the configuration proposed for a kind of project.
pub open spec fn suggested_layer(kind: ProjectKind, name: Seq<char>) -> Option<(Seq<Seq<char>>, Seq<Seq<char>>)> {
    match kind {
        ProjectKind::FeatureSliced => preset_layer(ConfigPreset::Fsd, name),
        ProjectKind::NextJs => preset_layer(ConfigPreset::Next, name),
        ProjectKind::Nx => preset_layer(ConfigPreset::Nx, name),
        ProjectKind::Turborepo => if name == "apps"@ {
            Some((seq!["apps/*/**"@], seq!["packages"@]))
        } else if name == "packages"@ {
            Some((seq!["packages/*/**"@], Seq::empty()))
        } else {
            None
        },
        ProjectKind::Generic => None,
    }
}

/// A configuration is the default one, apart from its layers, its monorepo preset, its enabled
/// frameworks and its feature roots.
pub open spec fn default_but_proposal(c: Config) -> bool {
    exists|base: Config|
        #[trigger] is_default_except_layers(base) && c == Config {
            architecture: ArchitectureConfig {
                layers: c.architecture.layers,
                presets: c.architecture.presets,
                features: FeatureConfig { roots: c.architecture.features.roots, ..base.architecture.features },
                ..base.architecture
            },
            framework: c.framework,
            ..base
        }
}

proof fn lemma_turbo_names_distinct()
    ensures
        "apps"@ != "packages"@,
{
    reveal_strlit("apps");
    reveal_strlit("packages");
    assert("apps"@.len() != "packages"@.len());
}

/// The configuration proposed for a kind of project: the matching preset, or for Turborepo
/// an `apps` layer over `packages` with monorepo boundaries.
fn suggested_config(kind: ProjectKind) -> (r: Config)
    ensures
        is_default_except_layers(Config {
            architecture: ArchitectureConfig {
                presets: crate::config::ArchitecturePresets { monorepo_boundaries: false },
                ..r.architecture
            },
            ..r
        }),
        r.architecture.presets.monorepo_boundaries == (kind == ProjectKind::Turborepo),
        forall|q: Seq<char>|
            match #[trigger] r.architecture.layers.lookup(q) {
                Some(l) => suggested_layer(kind, q) == Some(crate::config::layer_view(l)),
                None => suggested_layer(kind, q) is None,
            },
{
    match kind {
        ProjectKind::FeatureSliced => Config::for_preset(ConfigPreset::Fsd),
        ProjectKind::NextJs => Config::for_preset(ConfigPreset::Next),
        ProjectKind::Nx => Config::for_preset(ConfigPreset::Nx),
        ProjectKind::Turborepo => {
            let mut config = Config::default();
            proof {
                lemma_turbo_names_distinct();
            }
            let mut layers: OrderedMap<String, LayerConfig> = OrderedMap::new();
            layers.insert(
                owned("apps"),
                LayerConfig { patterns: texts1("apps/*/**"), can_import: texts1("packages") },
            );
            layers.insert(owned("packages"), LayerConfig { patterns: texts1("packages/*/**"), can_import: Vec::new() });
            proof {
                assert(texts_of(Seq::<String>::empty()) =~= Seq::<Seq<char>>::empty());
            }
            config.architecture.layers = layers;
            config.architecture.presets.monorepo_boundaries = true;
            config
        },
        ProjectKind::Generic => Config::for_preset(ConfigPreset::Blank),
    }
}

/// The position of the first listing of a feature root.
pub open spec fn listing_of(listings: Seq<FeatureListing>, root: Seq<char>) -> Option<int>
    decreases listings.len(),
{
    if listings.len() == 0 {
        None
    } else if listings.last().root@ == root && listing_of(listings.drop_last(), root) is None {
        Some(listings.len() - 1)
    } else {
        listing_of(listings.drop_last(), root)
    }
}

/// `x` is the path of a subdirectory of the feature root, by its first listing.
pub open spec fn cluster_of(listings: Seq<FeatureListing>, root: Seq<char>, x: Seq<char>) -> bool {
    match listing_of(listings, root) {
        Some(k) => exists|j: int|
            0 <= j < listings[k].children@.len() && x == root + "/"@ + #[trigger] listings[k].children@[j]@,
        None => false,
    }
}

/// The concatenation of the parts, in order.
pub open spec fn concat_all(parts: Seq<Seq<Seq<char>>>) -> Seq<Seq<char>>
    decreases parts.len(),
{
    if parts.len() == 0 {
        Seq::empty()
    } else {
        concat_all(parts.drop_last()) + parts.last()
    }
}

fn present_config_files(files: &Vec<String>) -> (r: Vec<String>)
    ensures
        texts_of(r@) == present_configs(texts_of(files@)),
{
    let known = known_configs();
    let ghost names = known_config_names();
    let ghost keep = |n: Seq<char>| texts_of(files@).contains(n);
    let mut out: Vec<String> = Vec::new();
    let mut i: usize = 0;
    while i < known.len()
        invariant
            i <= known@.len(),
            known@.map_values(|s: &str| s@) == names,
            names == known_config_names(),
            keep == (|n: Seq<char>| texts_of(files@).contains(n)),
            texts_of(out@) == names.take(i as int).filter(keep),
        decreases known@.len() - i,
    {
        proof {
            reveal(Seq::filter);
            assert(names.take(i + 1).drop_last() =~= names.take(i as int));
            assert(names[i as int] == known@[i as int]@);
        }
        if texts_contain(files, known[i]) {
            let ghost before = out@;
            out.push(owned(known[i]));
            assert(texts_of(out@) =~= texts_of(before).push(known@[i as int]@));
        }
        i = i + 1;
    }
    assert(names.take(i as int) =~= names);
    out
}

fn first_next_config(configs: &Vec<String>) -> (r: Option<String>)
    ensures
        match (r, first_with_prefix(texts_of(configs@), "next.config."@)) {
            (Some(p), Some(q)) => p@ == q,
            (None, None) => true,
            _ => false,
        },
{
    let ghost all = texts_of(configs@);
    let mut i: usize = 0;
    assert(all.skip(0) =~= all);
    while i < configs.len()
        invariant
            i <= configs@.len(),
            all == texts_of(configs@),
            first_with_prefix(all, "next.config."@) == first_with_prefix(all.skip(i as int), "next.config."@),
        decreases configs@.len() - i,
    {
        proof {
            assert(all.skip(i as int).drop_first() =~= all.skip(i + 1));
            assert(all.skip(i as int)[0] == configs@[i as int]@);
        }
        if starts_with(configs[i].as_str(), "next.config.") {
            return Some(configs[i].clone());
        }
        i = i + 1;
    }
    None
}

fn exists_in(dirs: &Vec<String>, d: &str) -> (r: bool)
    ensures
        r == texts_of(dirs@).contains(d@),
{
    texts_contain(dirs, d)
}

fn segment_path(dirs: &Vec<String>, src_path: &str, root_path: &str) -> (r: Option<String>)
    ensures
        match (r, segment_dir(texts_of(dirs@), src_path@, root_path@)) {
            (Some(p), Some(q)) => p@ == q,
            (None, None) => true,
            _ => false,
        },
{
    if exists_in(dirs, src_path) {
        Some(owned(src_path))
    } else if exists_in(dirs, root_path) {
        Some(owned(root_path))
    } else {
        None
    }
}

fn push_found(out: &mut Vec<String>, found: Option<String>)
    ensures
        texts_of(final(out)@) == texts_of(old(out)@) + opt_seq(
            match found {
                Some(p) => Some(p@),
                None => None,
            },
        ),
{
    match found {
        Some(p) => {
            let ghost before = out@;
            out.push(p);
            assert(texts_of(out@) =~= texts_of(before) + seq![p@]);
        },
        None => {
            assert(texts_of(out@) =~= texts_of(out@) + Seq::<Seq<char>>::empty());
        },
    }
}

fn segments_found(dirs: &Vec<String>) -> (r: Vec<String>)
    ensures
        texts_of(r@) == fsd_segments(texts_of(dirs@)),
{
    let mut out: Vec<String> = Vec::new();
    push_found(&mut out, segment_path(dirs, "src/app", "app"));
    push_found(&mut out, segment_path(dirs, "src/features", "features"));
    push_found(&mut out, segment_path(dirs, "src/entities", "entities"));
    push_found(&mut out, segment_path(dirs, "src/shared", "shared"));
    assert(texts_of(out@) =~= fsd_segments(texts_of(dirs@)));
    out
}

fn roots_found(dirs: &Vec<String>) -> (r: Vec<String>)
    ensures
        texts_of(r@) == feature_roots(texts_of(dirs@)),
{
    let mut out: Vec<String> = Vec::new();
    let a = if exists_in(dirs, "src/features") {
        Some(owned("src/features"))
    } else {
        None
    };
    push_found(&mut out, a);
    let b = if exists_in(dirs, "features") {
        Some(owned("features"))
    } else {
        None
    };
    push_found(&mut out, b);
    assert(texts_of(out@) =~= feature_roots(texts_of(dirs@)));
    out
}

fn find_listing(listings: &Vec<FeatureListing>, root: &str) -> (r: Option<usize>)
    ensures
        r matches Some(k) ==> k < listings@.len(),
        match (r, listing_of(listings@, root@)) {
            (Some(k), Some(q)) => k == q,
            (None, None) => true,
            _ => false,
        },
{
    let mut i: usize = 0;
    while i < listings.len()
        invariant
            i <= listings@.len(),
            listing_of(listings@.take(i as int), root@) is None,
        decreases listings@.len() - i,
    {
        proof {
            assert(listings@.take(i + 1).drop_last() =~= listings@.take(i as int));
        }
        if crate::text::text_equal(listings[i].root.as_str(), root) {
            proof {
                lemma_listing_prefix(listings@, i as int + 1, root@, i as int);
            }
            return Some(i);
        }
        i = i + 1;
    }
    assert(listings@.take(i as int) =~= listings@);
    None
}

proof fn lemma_listing_prefix(listings: Seq<FeatureListing>, n: int, root: Seq<char>, k: int)
    requires
        0 < n <= listings.len(),
        listing_of(listings.take(n), root) == Some(k),
    ensures
        listing_of(listings, root) == Some(k),
    decreases listings.len() - n,
{
    if n < listings.len() {
        assert(listings.take(n + 1).drop_last() =~= listings.take(n));
        assert(listing_of(listings.take(n + 1), root) == listing_of(listings.take(n), root));
        lemma_listing_prefix(listings, n + 1, root, k);
    } else {
        assert(listings.take(n) =~= listings);
    }
}

/// The subdirectories of one feature root, as paths under it, in ascending order.
fn clusters_under(listings: &Vec<FeatureListing>, root: &str) -> (r: Vec<String>)
    ensures
        ascending(texts_of(r@)),
        forall|x: Seq<char>| #[trigger] texts_of(r@).contains(x) <==> cluster_of(listings@, root@, x),
{
    let mut set = TextSet::new();
    match find_listing(listings, root) {
        Some(k) => {
            let children = &listings[k].children;
            let prefix = concat(root, "/");
            let mut j: usize = 0;
            while j < children.len()
                invariant
                    k < listings@.len(),
                    *children == listings@[k as int].children,
                    listing_of(listings@, root@) == Some(k as int),
                    prefix@ == root@ + "/"@,
                    j <= children@.len(),
                    forall|x: Seq<char>| #[trigger] set.members().contains(x) <==> exists|t: int|
                        0 <= t < j && x == root@ + "/"@ + #[trigger] children@[t]@,
                decreases children@.len() - j,
            {
                set.insert(concat(prefix.as_str(), children[j].as_str()));
                proof {
                    assert forall|x: Seq<char>| #[trigger] set.members().contains(x) <==> exists|t: int|
                        0 <= t < j + 1 && x == root@ + "/"@ + #[trigger] children@[t]@ by {
                        if x == root@ + "/"@ + children@[j as int]@ {
                            assert(0 <= j < j + 1 && x == root@ + "/"@ + children@[j as int]@);
                        }
                        if exists|t: int| 0 <= t < j + 1 && x == root@ + "/"@ + #[trigger] children@[t]@ {
                            let t = choose|t: int| 0 <= t < j + 1 && x == root@ + "/"@ + #[trigger] children@[t]@;
                            if t < j {
                                assert(0 <= t < j && x == root@ + "/"@ + children@[t]@);
                            } else {
                                assert(x == root@ + "/"@ + children@[j as int]@);
                            }
                        }
                    }
                }
                j = j + 1;
            }
        },
        None => {},
    }
    let items = set.iter();
    let mut out: Vec<String> = Vec::new();
    let mut i: usize = 0;
    while i < items.len()
        invariant
            i <= items@.len(),
            texts_of(out@) == texts_of(items@).take(i as int),
        decreases items@.len() - i,
    {
        let ghost before = out@;
        let item = items[i].clone();
        out.push(item);
        assert(texts_of(out@) =~= texts_of(before).push(items@[i as int]@));
        assert(texts_of(out@) =~= texts_of(items@).take(i + 1));
        i = i + 1;
    }
    assert(texts_of(items@).take(i as int) =~= texts_of(items@));
    out
}

fn evidence(signal: &str, path: String, weight: u8) -> (r: Evidence)
    ensures
        evidence_view(r) == (signal@, path@, weight),
{
    Evidence { signal: owned(signal), path, weight }
}

fn push_evidence(out: &mut Vec<Evidence>, e: Evidence)
    ensures
        final(out)@.map_values(|x: Evidence| evidence_view(x)) == old(out)@.map_values(|x: Evidence| evidence_view(x)).push(
            evidence_view(e),
        ),
{
    let ghost before = out@;
    out.push(e);
    assert(out@.map_values(|x: Evidence| evidence_view(x)) =~= before.map_values(|x: Evidence| evidence_view(x)).push(
        evidence_view(e),
    ));
}

/// What discovery concludes from what the project root shows: the kind of project and how sure
/// it is, the evidence in order, the configuration files found, the feature directories, and
/// the configuration it proposes (the kind's preset, the Next.js framework when detected, and
/// the feature roots found).
pub fn discover(facts: ProjectFacts) -> (r: DiscoveryReport)
    ensures
        ({
            let files = texts_of(facts.files@);
            let dirs = texts_of(facts.directories@);
            let configs = present_configs(files);
            let score = next_score(facts.package_manifest, configs);
            let segments = fsd_segments(dirs);
            let roots = feature_roots(dirs);
            let kind = kind_of(files, score, segments.len());
            let c = r.suggested_config;
            &&& r.project_kind == kind
            &&& r.confidence == confidence_of(kind, score, segments.len())
            &&& texts_of(r.config_files@) == configs
            &&& r.evidence@.map_values(|e: Evidence| evidence_view(e)) == evidence_of(facts)
            &&& exists|parts: Seq<Seq<Seq<char>>>|
                {
                    &&& parts.len() == roots.len()
                    &&& texts_of(r.feature_clusters@) == concat_all(parts)
                    &&& forall|i: int|
                        0 <= i < parts.len() ==> ascending(#[trigger] parts[i]) && forall|x: Seq<char>|
                            parts[i].contains(x) <==> cluster_of(facts.feature_listings@, roots[i], x)
                }
            &&& default_but_proposal(c)
            &&& forall|q: Seq<char>|
                match #[trigger] c.architecture.layers.lookup(q) {
                    Some(l) => suggested_layer(kind, q) == Some(crate::config::layer_view(l)),
                    None => suggested_layer(kind, q) is None,
                }
            &&& c.architecture.presets.monorepo_boundaries == (kind == ProjectKind::Turborepo)
            &&& c.framework.auto_detect
            &&& texts_of(c.framework.enabled@) == if score > 0 {
                seq!["nextjs"@]
            } else {
                Seq::empty()
            }
            &&& texts_of(c.architecture.features.roots@) == roots
        }),
{
    let ghost files = texts_of(facts.files@);
    let ghost dirs = texts_of(facts.directories@);
    let config_files = present_config_files(&facts.files);
    let ghost facts0 = facts;
    let ProjectFacts { package_manifest, files: file_list, directories, feature_listings } = facts;
    let framework_evidence = ProjectEvidence {
        package_manifest,
        config_files: crate::text_set::copy_texts(&config_files),
    };
    let score = NextJsAdapter.detection_score(&framework_evidence);
    let ghost configs = present_configs(files);
    let has_nx = texts_contain(&file_list, "nx.json");
    let has_turbo = texts_contain(&file_list, "turbo.json");
    let mut found: Vec<Evidence> = Vec::new();
    if has_nx {
        push_evidence(&mut found, evidence("nx-workspace", owned("nx.json"), 100));
    }
    if has_turbo {
        push_evidence(&mut found, evidence("turborepo-workspace", owned("turbo.json"), 100));
    }
    if score > 0 {
        let declared = match &framework_evidence.package_manifest {
            Some(m) => manifest_has_dependency(m, "next"),
            None => false,
        };
        let path = if declared {
            owned("package.json#dependencies.next")
        } else {
            match first_next_config(&config_files) {
                Some(p) => p,
                None => owned("package.json"),
            }
        };
        push_evidence(&mut found, evidence("nextjs-framework", path, score));
    }
    let segments = segments_found(&directories);
    let ghost head = found@.map_values(|x: Evidence| evidence_view(x));
    let ghost segs = texts_of(segments@);
    let mut k: usize = 0;
    while k < segments.len()
        invariant
            k <= segments@.len(),
            segs == texts_of(segments@),
            found@.map_values(|x: Evidence| evidence_view(x)) == head + segs.take(k as int).map_values(
                |p: Seq<char>| ("architecture-segment"@, p, 20u8),
            ),
        decreases segments@.len() - k,
    {
        push_evidence(&mut found, evidence("architecture-segment", segments[k].clone(), 20));
        assert(segs.take(k + 1).map_values(|p: Seq<char>| ("architecture-segment"@, p, 20u8)) =~= segs.take(
            k as int,
        ).map_values(|p: Seq<char>| ("architecture-segment"@, p, 20u8)).push(("architecture-segment"@, segs[k as int], 20u8)));
        k = k + 1;
    }
    assert(segs.take(k as int) =~= segs);
    assert(found@.map_values(|x: Evidence| evidence_view(x)) =~= evidence_of(facts0));
    let n = segments.len();
    let project_kind = if has_nx {
        ProjectKind::Nx
    } else if has_turbo {
        ProjectKind::Turborepo
    } else if score > 0 {
        ProjectKind::NextJs
    } else if n >= 2 {
        ProjectKind::FeatureSliced
    } else {
        ProjectKind::Generic
    };
    let confidence: u8 = match project_kind {
        ProjectKind::Nx | ProjectKind::Turborepo => 100,
        ProjectKind::NextJs => score,
        ProjectKind::FeatureSliced => if n * 20 < 80 {
            (n * 20) as u8
        } else {
            80
        },
        ProjectKind::Generic => 0,
    };
    let roots = roots_found(&directories);
    let ghost rts = texts_of(roots@);
    let mut clusters: Vec<String> = Vec::new();
    let ghost mut parts: Seq<Seq<Seq<char>>> = Seq::empty();
    let mut i: usize = 0;
    while i < roots.len()
        invariant
            i <= roots@.len(),
            rts == texts_of(roots@),
            parts.len() == i,
            texts_of(clusters@) == concat_all(parts),
            forall|j: int|
                0 <= j < parts.len() ==> ascending(#[trigger] parts[j]) && forall|x: Seq<char>|
                    parts[j].contains(x) <==> cluster_of(feature_listings@, rts[j], x),
        decreases roots@.len() - i,
    {
        let part = clusters_under(&feature_listings, roots[i].as_str());
        let ghost before = clusters@;
        let mut t: usize = 0;
        while t < part.len()
            invariant
                t <= part@.len(),
                texts_of(clusters@) == texts_of(before) + texts_of(part@).take(t as int),
            decreases part@.len() - t,
        {
            let ghost b = clusters@;
            let item = part[t].clone();
            clusters.push(item);
            assert(texts_of(clusters@) =~= texts_of(b).push(item@));
            assert(texts_of(part@).take(t + 1) =~= texts_of(part@).take(t as int).push(part@[t as int]@));
            assert(texts_of(clusters@) =~= texts_of(before) + texts_of(part@).take(t + 1));
            t = t + 1;
        }
        proof {
            assert(texts_of(part@).take(t as int) =~= texts_of(part@));
            let old_parts = parts;
            parts = parts.push(texts_of(part@));
            assert(parts.drop_last() =~= old_parts);
            assert forall|j: int| 0 <= j < parts.len() implies ascending(#[trigger] parts[j]) && forall|x: Seq<char>|
                parts[j].contains(x) <==> cluster_of(feature_listings@, rts[j], x) by {
                if j < old_parts.len() {
                    assert(parts[j] == old_parts[j]);
                }
            }
        }
        i = i + 1;
    }
    let mut suggested = suggested_config(project_kind);
    let ghost base = Config {
        architecture: ArchitectureConfig {
            presets: crate::config::ArchitecturePresets { monorepo_boundaries: false },
            ..suggested.architecture
        },
        ..suggested
    };
    if score > 0 {
        suggested.framework.auto_detect = true;
        suggested.framework.enabled = texts1("nextjs");
    }
    if roots.len() > 0 {
        suggested.architecture.features.roots = roots;
    }
    proof {
        assert(is_default_except_layers(base));
        assert(suggested == Config {
            architecture: ArchitectureConfig {
                layers: suggested.architecture.layers,
                presets: suggested.architecture.presets,
                features: FeatureConfig { roots: suggested.architecture.features.roots, ..base.architecture.features },
                ..base.architecture
            },
            framework: suggested.framework,
            ..base
        });
        if rts.len() == 0 {
            assert(texts_of(suggested.architecture.features.roots@) =~= rts);
        }
        if score == 0 {
            assert(texts_of(suggested.framework.enabled@) =~= Seq::<Seq<char>>::empty());
        }
    }
    DiscoveryReport {
        project_kind,
        confidence,
        evidence: found,
        config_files,
        feature_clusters: clusters,
        suggested_config: suggested,
    }
}

/// The name of a project kind, as the summary shows it.
pub open spec fn kind_name(k: ProjectKind) -> Seq<char> {
    match k {
        ProjectKind::Generic => "Generic"@,
        ProjectKind::FeatureSliced => "FeatureSliced"@,
        ProjectKind::NextJs => "NextJs"@,
        ProjectKind::Nx => "Nx"@,
        ProjectKind::Turborepo => "Turborepo"@,
    }
}

/// The line that shows one piece of evidence.
pub open spec fn evidence_line(e: Evidence) -> Seq<char> {
    "- "@ + e.signal@ + " at "@ + e.path@ + " (weight "@ + crate::decimal::decimal_text(e.weight as nat) + ")"@
}

/// The summary of a discovery: the kind, the confidence, the evidence, the feature clusters,
/// and where the proposal was written or how to write it.
pub open spec fn summary_lines(r: DiscoveryReport, written_to: Option<Seq<char>>) -> Seq<Seq<char>> {
    seq![
        "Suggested architecture: "@ + kind_name(r.project_kind),
        "Confidence: "@ + crate::decimal::decimal_text(r.confidence as nat) + "%"@,
    ] + (if r.evidence@.len() == 0 {
        seq!["Evidence: none; the safe blank architecture is proposed."@]
    } else {
        seq!["Evidence:"@] + r.evidence@.map_values(|e: Evidence| evidence_line(e))
    }) + (if r.feature_clusters@.len() > 0 {
        seq!["Feature clusters: "@ + crate::text_set::joined(texts_of(r.feature_clusters@), ", "@)]
    } else {
        Seq::empty()
    }) + match written_to {
        Some(p) => seq!["Approved configuration written to "@ + p],
        None => seq!["No files changed. Review this proposal, then run `wae discover --write`."@],
    }
}

fn push_text(lines: &mut Vec<String>, line: String)
    ensures
        texts_of(final(lines)@) == texts_of(old(lines)@).push(line@),
{
    let ghost before = lines@;
    lines.push(line);
    assert(texts_of(lines@) =~= texts_of(before).push(line@));
}

/// The lines that summarize a discovery; `written_to` is where the proposal was written, if it
/// was.
pub fn summary(report: &DiscoveryReport, written_to: Option<&str>) -> (r: Vec<String>)
    ensures
        texts_of(r@) == summary_lines(
            *report,
            match written_to {
                Some(p) => Some(p@),
                None => None,
            },
        ),
{
    let mut lines: Vec<String> = Vec::new();
    let name = match report.project_kind {
        ProjectKind::Generic => "Generic",
        ProjectKind::FeatureSliced => "FeatureSliced",
        ProjectKind::NextJs => "NextJs",
        ProjectKind::Nx => "Nx",
        ProjectKind::Turborepo => "Turborepo",
    };
    push_text(&mut lines, concat("Suggested architecture: ", name));
    let mut confidence = concat("Confidence: ", crate::decimal::decimal(report.confidence as u64).as_str());
    crate::text::append(&mut confidence, "%");
    push_text(&mut lines, confidence);
    if report.evidence.len() == 0 {
        push_text(&mut lines, owned("Evidence: none; the safe blank architecture is proposed."));
    } else {
        push_text(&mut lines, owned("Evidence:"));
        let ghost head = texts_of(lines@);
        let mut i: usize = 0;
        while i < report.evidence.len()
            invariant
                i <= report.evidence@.len(),
                texts_of(lines@) == head + report.evidence@.take(i as int).map_values(|e: Evidence| evidence_line(e)),
            decreases report.evidence@.len() - i,
        {
            let e = &report.evidence[i];
            let mut line = concat("- ", e.signal.as_str());
            crate::text::append(&mut line, " at ");
            crate::text::append(&mut line, e.path.as_str());
            crate::text::append(&mut line, " (weight ");
            crate::text::append(&mut line, crate::decimal::decimal(e.weight as u64).as_str());
            crate::text::append(&mut line, ")");
            push_text(&mut lines, line);
            assert(report.evidence@.take(i + 1).map_values(|e: Evidence| evidence_line(e)) =~= report.evidence@.take(
                i as int,
            ).map_values(|e: Evidence| evidence_line(e)).push(evidence_line(report.evidence@[i as int])));
            i = i + 1;
        }
        assert(report.evidence@.take(i as int) =~= report.evidence@);
    }
    if report.feature_clusters.len() > 0 {
        let joined_clusters = crate::text_set::join_texts(report.feature_clusters.as_slice(), ", ");
        push_text(&mut lines, concat("Feature clusters: ", joined_clusters.as_str()));
    }
    match written_to {
        Some(p) => push_text(&mut lines, concat("Approved configuration written to ", p)),
        None => push_text(&mut lines, owned("No files changed. Review this proposal, then run `wae discover --write`.")),
    }
    proof {
        assert(texts_of(lines@) =~= summary_lines(
            *report,
            match written_to {
                Some(p) => Some(p@),
                None => None,
            },
        ));
    }
    lines
}

} // verus!
