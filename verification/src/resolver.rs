//! Module resolution outcomes and the parts of Node/TypeScript resolution that are decided
//! from plain values: builtin specifiers, `import`/`require` selection, package conditions and
//! legacy package entrypoints.
use crate::config::ResolutionMode;
use crate::domain::{DependencyKind, ModulePath};
use crate::text::{chars_of, concat, has_prefix, owned, replace_char, replaced, strip_prefix, text_equal, trim, trimmed};
use crate::text_set::{ascending, texts_of, TextSet};
use vstd::prelude::*;

verus! {

/// The outcome of resolving one specifier.
#[derive(Clone, Debug, PartialEq, Eq)]
pub enum Resolution {
    Module(ModulePath),
    Builtin(String),
    External(String),
    Redirect(String),
    Invalid(String),
    Unresolved,
}

/// Which package condition a dependency activates.
#[derive(Clone, Copy, Debug, PartialEq, Eq, Structural)]
pub enum ResolutionKind {
    Import,
    Require,
}

/// The module format of an importing file.
#[derive(Clone, Copy, Debug, PartialEq, Eq, Structural)]
pub enum ModuleFormat {
    Esm,
    CommonJs,
}

/// Syntax-level dependency form. Package format may influence Node16/NodeNext, but it never
/// changes what syntax the parser observed.
#[derive(Clone, Copy, Debug, PartialEq, Eq, Structural)]
pub enum DependencySyntax {
    Import,
    DynamicImport,
    Require,
}

pub open spec fn syntax_spec(kind: DependencyKind) -> DependencySyntax {
    match kind {
        DependencyKind::Dynamic => DependencySyntax::DynamicImport,
        DependencyKind::Require => DependencySyntax::Require,
        _ => DependencySyntax::Import,
    }
}

impl DependencySyntax {
    /// The syntax that produced a dependency of the given kind.
    pub fn of(kind: &DependencyKind) -> (r: Self)
        ensures
            r == syntax_spec(*kind),
    {
        match kind {
            DependencyKind::Dynamic => DependencySyntax::DynamicImport,
            DependencyKind::Require => DependencySyntax::Require,
            DependencyKind::Static | DependencyKind::TypeOnly | DependencyKind::ReExport => DependencySyntax::Import,
        }
    }
}

/// Syntax decides alone: `require` calls require, everything else imports.
pub open spec fn syntax_kind(syntax: DependencySyntax) -> ResolutionKind {
    match syntax {
        DependencySyntax::Require => ResolutionKind::Require,
        _ => ResolutionKind::Import,
    }
}

/// Node16/NodeNext: a static import from a CommonJS file is a `require`.
pub open spec fn modern_kind(syntax: DependencySyntax, importer: ModuleFormat) -> ResolutionKind {
    match syntax {
        DependencySyntax::DynamicImport => ResolutionKind::Import,
        DependencySyntax::Require => ResolutionKind::Require,
        DependencySyntax::Import => if importer == ModuleFormat::CommonJs {
            ResolutionKind::Require
        } else {
            ResolutionKind::Import
        },
    }
}

/// Strategy port for selecting the `import` or `require` condition independently of the
/// package condition-selection strategy.
pub trait ResolutionKindProvider {
    fn resolution_kind(&self, syntax: DependencySyntax, importer: ModuleFormat) -> ResolutionKind;
}

#[derive(Clone, Copy, Debug, Default)]
pub struct BundlerResolutionKindProvider;

impl ResolutionKindProvider for BundlerResolutionKindProvider {
    fn resolution_kind(&self, syntax: DependencySyntax, importer: ModuleFormat) -> (r: ResolutionKind)
        ensures
            r == syntax_kind(syntax),
    {
        match syntax {
            DependencySyntax::Require => ResolutionKind::Require,
            DependencySyntax::Import | DependencySyntax::DynamicImport => ResolutionKind::Import,
        }
    }
}

#[derive(Clone, Copy, Debug, Default)]
pub struct Node16ResolutionKindProvider;

impl ResolutionKindProvider for Node16ResolutionKindProvider {
    fn resolution_kind(&self, syntax: DependencySyntax, importer: ModuleFormat) -> (r: ResolutionKind)
        ensures
            r == modern_kind(syntax, importer),
    {
        node_modern_resolution_kind(syntax, importer)
    }
}

#[derive(Clone, Copy, Debug, Default)]
pub struct NodeNextResolutionKindProvider;

impl ResolutionKindProvider for NodeNextResolutionKindProvider {
    fn resolution_kind(&self, syntax: DependencySyntax, importer: ModuleFormat) -> (r: ResolutionKind)
        ensures
            r == modern_kind(syntax, importer),
    {
        node_modern_resolution_kind(syntax, importer)
    }
}

#[derive(Clone, Copy, Debug, Default)]
pub struct Node10ResolutionKindProvider;

impl ResolutionKindProvider for Node10ResolutionKindProvider {
    fn resolution_kind(&self, syntax: DependencySyntax, importer: ModuleFormat) -> (r: ResolutionKind)
        ensures
            r == syntax_kind(syntax),
    {
        match syntax {
            DependencySyntax::Require => ResolutionKind::Require,
            DependencySyntax::Import | DependencySyntax::DynamicImport => ResolutionKind::Import,
        }
    }
}

fn node_modern_resolution_kind(syntax: DependencySyntax, importer: ModuleFormat) -> (r: ResolutionKind)
    ensures
        r == modern_kind(syntax, importer),
{
    match syntax {
        DependencySyntax::DynamicImport => ResolutionKind::Import,
        DependencySyntax::Require => ResolutionKind::Require,
        DependencySyntax::Import => if importer == ModuleFormat::CommonJs {
            ResolutionKind::Require
        } else {
            ResolutionKind::Import
        },
    }
}

/// The resolution kind in a mode: Node16 and NodeNext let a CommonJS importer turn a static
/// import into a `require`; Node10 and bundlers go by syntax alone.
pub open spec fn kind_for(mode: ResolutionMode, kind: DependencyKind, importer: ModuleFormat) -> ResolutionKind {
    match mode {
        ResolutionMode::Node16 | ResolutionMode::NodeNext => modern_kind(syntax_spec(kind), importer),
        _ => syntax_kind(syntax_spec(kind)),
    }
}

pub fn resolution_kind_for(mode: ResolutionMode, dependency_kind: &DependencyKind, importer: ModuleFormat) -> (r: ResolutionKind)
    ensures
        r == kind_for(mode, *dependency_kind, importer),
{
    let syntax = DependencySyntax::of(dependency_kind);
    match mode {
        ResolutionMode::Node10 => Node10ResolutionKindProvider.resolution_kind(syntax, importer),
        ResolutionMode::Node16 => Node16ResolutionKindProvider.resolution_kind(syntax, importer),
        ResolutionMode::NodeNext => NodeNextResolutionKindProvider.resolution_kind(syntax, importer),
        ResolutionMode::Bundler => BundlerResolutionKindProvider.resolution_kind(syntax, importer),
    }
}

/// Node builtins that resolve with or without the `node:` prefix (the bare/prefix-only split of
/// `node:module.builtinModules`, Node 24.14.1).
pub open spec fn bare_builtin_texts() -> Seq<&'static str> {
    seq![
        "_http_agent", "_http_client", "_http_common", "_http_incoming", "_http_outgoing",
        "_http_server", "_stream_duplex", "_stream_passthrough", "_stream_readable",
        "_stream_transform", "_stream_wrap", "_stream_writable", "_tls_common", "_tls_wrap",
        "assert", "assert/strict", "async_hooks", "buffer", "child_process", "cluster", "console",
        "constants", "crypto", "dgram", "diagnostics_channel", "dns", "dns/promises", "domain",
        "events", "fs", "fs/promises", "http", "http2", "https", "inspector", "inspector/promises",
        "module", "net", "os", "path", "path/posix", "path/win32", "perf_hooks", "process",
        "punycode", "querystring", "readline", "readline/promises", "repl", "stream",
        "stream/consumers", "stream/promises", "stream/web", "string_decoder", "sys", "timers",
        "timers/promises", "tls", "trace_events", "tty", "url", "util", "util/types", "v8", "vm",
        "wasi", "worker_threads", "zlib"
    ]
}

/// Node builtins that resolve only with the `node:` prefix.
pub open spec fn prefix_only_builtin_texts() -> Seq<&'static str> {
    seq!["sea", "sqlite", "test", "test/reporters"]
}

pub open spec fn bare_builtins() -> Seq<Seq<char>> {
    bare_builtin_texts().map_values(|s: &'static str| s@)
}

pub open spec fn prefix_only_builtins() -> Seq<Seq<char>> {
    prefix_only_builtin_texts().map_values(|s: &'static str| s@)
}

/// `s` is one of `names`.
fn listed(names: &Vec<&'static str>, s: &str) -> (r: bool)
    ensures
        r == names@.map_values(|t: &'static str| t@).contains(s@),
{
    let ghost view = names@.map_values(|t: &'static str| t@);
    let mut i: usize = 0;
    while i < names.len()
        invariant
            i <= names@.len(),
            view == names@.map_values(|t: &'static str| t@),
            forall|k: int| 0 <= k < i ==> view[k] != s@,
        decreases names@.len() - i,
    {
        if text_equal(names[i], s) {
            proof {
                assert(view[i as int] == s@);
            }
            return true;
        }
        i = i + 1;
    }
    false
}

/// What a specifier names among Node's builtins: `node:` and the builtin, when `s` is a bare
/// builtin, or `node:` followed by a bare or prefix-only builtin.
pub open spec fn builtin_spec(s: Seq<char>) -> Option<Seq<char>> {
    if has_prefix(s, "node:"@) {
        let rest = s.skip("node:"@.len() as int);
        if bare_builtins().contains(rest) || prefix_only_builtins().contains(rest) {
            Some("node:"@ + rest)
        } else {
            None
        }
    } else if bare_builtins().contains(s) {
        Some("node:"@ + s)
    } else {
        None
    }
}

/// Node builtin catalog. It stores complete specifiers so unsupported subpaths cannot be
/// accepted accidentally.
#[derive(Clone, Copy, Debug, Default)]
pub struct BuiltinCatalog;

impl BuiltinCatalog {
    pub fn resolve(self, specifier: &str) -> (r: Option<String>)
        ensures
            match r {
                Some(name) => builtin_spec(specifier@) == Some(name@),
                None => builtin_spec(specifier@) is None,
            },
    {
        let bare: Vec<&'static str> = vec![
            "_http_agent", "_http_client", "_http_common", "_http_incoming", "_http_outgoing",
            "_http_server", "_stream_duplex", "_stream_passthrough", "_stream_readable",
            "_stream_transform", "_stream_wrap", "_stream_writable", "_tls_common", "_tls_wrap",
            "assert", "assert/strict", "async_hooks", "buffer", "child_process", "cluster",
            "console", "constants", "crypto", "dgram", "diagnostics_channel", "dns",
            "dns/promises", "domain", "events", "fs", "fs/promises", "http", "http2", "https",
            "inspector", "inspector/promises", "module", "net", "os", "path", "path/posix",
            "path/win32", "perf_hooks", "process", "punycode", "querystring", "readline",
            "readline/promises", "repl", "stream", "stream/consumers", "stream/promises",
            "stream/web", "string_decoder", "sys", "timers", "timers/promises", "tls",
            "trace_events", "tty", "url", "util", "util/types", "v8", "vm", "wasi",
            "worker_threads", "zlib"
        ];
        let prefix_only: Vec<&'static str> = vec!["sea", "sqlite", "test", "test/reporters"];
        proof {
            assert(bare@.map_values(|t: &'static str| t@) == bare_builtins());
            assert(prefix_only@.map_values(|t: &'static str| t@) == prefix_only_builtins());
        }
        match strip_prefix(specifier, "node:") {
            Some(rest) => {
                if listed(&bare, rest.as_str()) || listed(&prefix_only, rest.as_str()) {
                    Some(concat("node:", rest.as_str()))
                } else {
                    None
                }
            },
            None => {
                if listed(&bare, specifier) {
                    Some(concat("node:", specifier))
                } else {
                    None
                }
            },
        }
    }
}

/// The resolution step for Node builtins.
#[derive(Clone, Copy, Debug, Default)]
pub struct BuiltinResolver;

impl BuiltinResolver {
    pub fn name(&self) -> (r: &'static str)
        ensures
            r@ == "node-builtin"@,
    {
        "node-builtin"
    }

    /// A builtin resolution for a builtin specifier; nothing otherwise.
    pub fn try_resolve(&self, specifier: &str) -> (r: Option<Resolution>)
        ensures
            match r {
                Some(Resolution::Builtin(name)) => builtin_spec(specifier@) == Some(name@),
                Some(_) => false,
                None => builtin_spec(specifier@) is None,
            },
    {
        match BuiltinCatalog.resolve(specifier) {
            Some(name) => Some(Resolution::Builtin(name)),
            None => None,
        }
    }
}


/// The position of the first `/` at or after `i`, or the length when there is none.
pub open spec fn next_slash(s: Seq<char>, i: int) -> int
    decreases s.len() - i,
{
    if i >= s.len() {
        s.len() as int
    } else if s[i] == '/' {
        i
    } else {
        next_slash(s, i + 1)
    }
}

pub proof fn lemma_next_slash(s: Seq<char>, i: int)
    requires
        0 <= i <= s.len(),
    ensures
        i <= next_slash(s, i) <= s.len(),
        next_slash(s, i) < s.len() ==> s[next_slash(s, i)] == '/',
        forall|k: int| i <= k < next_slash(s, i) ==> s[k] != '/',
    decreases s.len() - i,
{
    if i < s.len() && s[i] != '/' {
        lemma_next_slash(s, i + 1);
    }
}

/// The depth after one path component: `.` and empty components stay, `..` climbs, any other
/// name descends.
pub open spec fn component_step(c: Seq<char>, depth: int) -> int {
    if c.len() == 0 || c == seq!['.'] {
        depth
    } else if c == seq!['.', '.'] {
        depth - 1
    } else {
        depth + 1
    }
}

/// Walking the components of `s` from position `i` at `depth`: the final depth, or -1 as soon as
/// a `..` climbs above the starting directory.
pub open spec fn walk_depth(s: Seq<char>, i: int, depth: int) -> int
    decreases s.len() - i,
{
    if i < 0 || i > s.len() {
        depth
    } else {
        let j = next_slash(s, i);
        let d = component_step(s.subrange(i, j), depth);
        if d < 0 {
            -1
        } else if j >= s.len() {
            d
        } else {
            proof {
                lemma_next_slash(s, i);
            }
            walk_depth(s, j + 1, d)
        }
    }
}

/// `s` with every leading `./` removed.
pub open spec fn without_dot_slashes(s: Seq<char>) -> Seq<char>
    decreases s.len(),
{
    if s.len() >= 2 && s[0] == '.' && s[1] == '/' {
        without_dot_slashes(s.skip(2))
    } else {
        s
    }
}

/// A package-relative legacy entrypoint as given: the text of `value` when it is a relative path
/// that never climbs above the package root, with leading `./` removed and backslashes made
/// forward slashes.
pub open spec fn relative_entry(value: Seq<char>) -> Option<Seq<char>> {
    if trimmed(value).len() == 0 || (value.len() > 0 && value[0] == '/') || walk_depth(value, 0, 0) < 0 {
        None
    } else {
        Some(replaced(without_dot_slashes(value), '\\', '/'))
    }
}

/// A package-relative legacy entrypoint (`main`, `module`, `types`, or `typings`). Unlike an
/// `exports` target, Node manifests do not require this value to start with `./`.
#[derive(Clone, Debug, PartialEq, Eq)]
pub struct PackageRelativePath(String);

impl View for PackageRelativePath {
    type V = Seq<char>;

    closed spec fn view(&self) -> Seq<char> {
        self.0@
    }
}

/// `s` with every leading `./` removed.
fn trim_dot_slashes(s: &str) -> (r: String)
    ensures
        r@ == without_dot_slashes(s@),
{
    let cs = chars_of(s);
    let mut i: usize = 0;
    proof {
        assert(cs@.skip(0) =~= cs@);
    }
    while i < cs.len() && i + 1 < cs.len() && cs[i] == '.' && cs[i + 1] == '/'
        invariant
            cs@ == s@,
            i <= cs@.len(),
            without_dot_slashes(s@) == without_dot_slashes(cs@.skip(i as int)),
        decreases cs@.len() - i,
    {
        proof {
            assert(cs@.skip(i as int).skip(2) =~= cs@.skip(i + 2));
        }
        i = i + 2;
    }
    let mut out = String::new();
    let mut k: usize = i;
    while k < cs.len()
        invariant
            cs@ == s@,
            i <= k <= cs@.len(),
            out@ == cs@.subrange(i as int, k as int),
        decreases cs@.len() - k,
    {
        crate::text::push_char(&mut out, cs[k]);
        proof {
            assert(cs@.subrange(i as int, k + 1) =~= cs@.subrange(i as int, k as int).push(cs@[k as int]));
        }
        k = k + 1;
    }
    proof {
        assert(cs@.subrange(i as int, k as int) =~= cs@.skip(i as int));
    }
    out
}

impl PackageRelativePath {
    pub fn parse(value: &str) -> (r: Option<Self>)
        ensures
            match r {
                Some(p) => relative_entry(value@) == Some(p@),
                None => relative_entry(value@) is None,
            },
    {
        let t = trim(value);
        if chars_of(t.as_str()).len() == 0 {
            return None;
        }
        let cs = chars_of(value);
        if cs.len() > 0 && cs[0] == '/' {
            return None;
        }
        let mut i: usize = 0;
        let mut depth: usize = 0;
        loop
            invariant_except_break
                cs@ == value@,
                i <= cs@.len(),
                walk_depth(cs@, 0, 0) == walk_depth(cs@, i as int, depth as int),
                depth <= i,
            ensures
                walk_depth(cs@, 0, 0) == depth as int,
            decreases cs@.len() - i,
        {
            let mut j: usize = i;
            while j < cs.len() && cs[j] != '/'
                invariant
                    i <= j <= cs@.len(),
                    forall|k: int| i <= k < j ==> cs@[k] != '/',
                decreases cs@.len() - j,
            {
                j = j + 1;
            }
            proof {
                lemma_next_slash(cs@, i as int);
                assert(next_slash(cs@, i as int) == j) by {
                    let m = next_slash(cs@, i as int);
                    if m < j {
                        assert(cs@[m] == '/');
                    }
                    if j < m {
                        assert(cs@[j as int] == '/');
                    }
                }
            }
            let len = j - i;
            let ghost comp = cs@.subrange(i as int, j as int);
            let ghost before = depth as int;
            let dot = len == 1 && cs[i] == '.';
            let dots = len == 2 && cs[i] == '.' && cs[i + 1] == '.';
            proof {
                assert(comp.len() == len as int);
                if dot {
                    assert(comp =~= seq!['.']);
                } else {
                    assert(comp != seq!['.']) by {
                        if comp == seq!['.'] {
                            assert(comp[0] == cs@[i as int]);
                        }
                    }
                }
                if dots {
                    assert(comp =~= seq!['.', '.']);
                } else {
                    assert(comp != seq!['.', '.']) by {
                        if comp == seq!['.', '.'] {
                            assert(comp[0] == cs@[i as int]);
                            assert(comp[1] == cs@[i + 1]);
                        }
                    }
                }
            }
            if len == 0 || dot {
            } else if dots {
                if depth == 0 {
                    proof {
                        assert(walk_depth(cs@, i as int, before) == -1);
                    }
                    return None;
                }
                depth = depth - 1;
            } else {
                depth = depth + 1;
            }
            proof {
                assert(component_step(comp, before) == depth as int);
            }
            if j >= cs.len() {
                proof {
                    assert(walk_depth(cs@, i as int, before) == depth as int);
                }
                break;
            }
            proof {
                assert(walk_depth(cs@, i as int, before) == walk_depth(cs@, j + 1, depth as int));
            }
            i = j + 1;
        }
        let trimmed_value = trim_dot_slashes(value);
        Some(PackageRelativePath(replace_char(trimmed_value.as_str(), '\\', '/')))
    }

    pub fn as_str(&self) -> (r: &str)
        ensures
            r@ == self@,
    {
        self.0.as_str()
    }
}

/// Legacy package entrypoints: the runtime entry (`module`, else `main`) and the type entry
/// (`types`, else `typings`).
#[derive(Clone, Debug, PartialEq, Eq)]
pub struct LegacyEntrypoints {
    runtime: Option<PackageRelativePath>,
    types: Option<PackageRelativePath>,
}

/// The text of an optional string.
pub open spec fn text_opt(a: Option<&str>) -> Option<Seq<char>> {
    match a {
        Some(v) => Some(v@),
        None => None,
    }
}

/// The first of two candidate fields that parses as a package-relative path.
pub open spec fn first_entry(a: Option<Seq<char>>, b: Option<Seq<char>>) -> Option<Seq<char>> {
    match a {
        Some(v) if relative_entry(v) is Some => relative_entry(v),
        _ => match b {
            Some(v) => relative_entry(v),
            None => None,
        },
    }
}

fn first_parsed(a: Option<&str>, b: Option<&str>) -> (r: Option<PackageRelativePath>)
    ensures
        match r {
            Some(p) => first_entry(text_opt(a), text_opt(b)) == Some(p@),
            None => first_entry(text_opt(a), text_opt(b)) is None,
        },
{
    let first = match a {
        Some(v) => PackageRelativePath::parse(v),
        None => None,
    };
    match first {
        Some(p) => Some(p),
        None => match b {
            Some(v) => PackageRelativePath::parse(v),
            None => None,
        },
    }
}

impl LegacyEntrypoints {
    /// The entrypoints named by a manifest's `module`, `main`, `types` and `typings` string
    /// fields (absent fields and fields that are not strings given as `None`).
    pub fn from_fields(module: Option<&str>, main: Option<&str>, types: Option<&str>, typings: Option<&str>) -> (r: Self)
        ensures
            r.runtime_entry() == first_entry(text_opt(module), text_opt(main)),
            r.types_entry() == first_entry(text_opt(types), text_opt(typings)),
    {
        LegacyEntrypoints { runtime: first_parsed(module, main), types: first_parsed(types, typings) }
    }

    pub closed spec fn runtime_entry(&self) -> Option<Seq<char>> {
        match self.runtime {
            Some(p) => Some(p@),
            None => None,
        }
    }

    pub closed spec fn types_entry(&self) -> Option<Seq<char>> {
        match self.types {
            Some(p) => Some(p@),
            None => None,
        }
    }

    /// The entrypoint a dependency of the given kind loads: type-only dependencies prefer the
    /// type entry and fall back to the runtime entry.
    pub fn select(&self, dependency_kind: &DependencyKind) -> (r: Option<&PackageRelativePath>)
        ensures
            match r {
                Some(p) => Some(p@) == (if *dependency_kind == DependencyKind::TypeOnly && self.types_entry() is Some {
                    self.types_entry()
                } else {
                    self.runtime_entry()
                }),
                None => (*dependency_kind == DependencyKind::TypeOnly ==> self.types_entry() is None)
                    && self.runtime_entry() is None,
            },
    {
        if *dependency_kind == DependencyKind::TypeOnly {
            match &self.types {
                Some(p) => Some(p),
                None => self.runtime.as_ref(),
            }
        } else {
            self.runtime.as_ref()
        }
    }
}

impl Default for LegacyEntrypoints {
    fn default() -> (r: Self)
        ensures
            r.runtime_entry() is None,
            r.types_entry() is None,
    {
        LegacyEntrypoints { runtime: None, types: None }
    }
}

/// The `type` field of a package manifest.
#[derive(Clone, Copy, Debug, PartialEq, Eq, Structural)]
pub enum PackageModuleType {
    Module,
    CommonJs,
    Unspecified,
}

impl Default for PackageModuleType {
    fn default() -> (r: Self)
        ensures
            r == PackageModuleType::Unspecified,
    {
        PackageModuleType::Unspecified
    }
}

impl PackageModuleType {
    /// The module type declared by a manifest's `type` string (`None` when absent or not a
    /// string).
    pub fn from_type_field(value: Option<&str>) -> (r: Self)
        ensures
            r == (match value {
                Some(v) => if v@ == "module"@ {
                    PackageModuleType::Module
                } else if v@ == "commonjs"@ {
                    PackageModuleType::CommonJs
                } else {
                    PackageModuleType::Unspecified
                },
                None => PackageModuleType::Unspecified,
            }),
    {
        match value {
            Some(v) => if text_equal(v, "module") {
                PackageModuleType::Module
            } else if text_equal(v, "commonjs") {
                PackageModuleType::CommonJs
            } else {
                PackageModuleType::Unspecified
            },
            None => PackageModuleType::Unspecified,
        }
    }
}


/// One resolution request: what imports what, how, and under which configuration.
pub struct ResolutionRequest<'a> {
    pub importer: &'a ModulePath,
    pub specifier: &'a str,
    pub dependency_kind: DependencyKind,
    pub mode: ResolutionMode,
    pub resolution_kind: ResolutionKind,
    pub custom_conditions: &'a [String],
}

/// The package conditions active for a request, kept in ascending order.
#[derive(Debug, PartialEq, Eq)]
pub struct ConditionSet {
    set: TextSet,
}

/// The name of the condition that a resolution kind activates.
pub open spec fn kind_condition(kind: ResolutionKind) -> Seq<char> {
    match kind {
        ResolutionKind::Import => "import"@,
        ResolutionKind::Require => "require"@,
    }
}

/// The conditions every mode activates: `default`, `import` or `require`, `types` for type-only
/// dependencies, and the custom conditions.
pub open spec fn common_condition(request: ResolutionRequest, x: Seq<char>) -> bool {
    ||| x == "default"@
    ||| x == kind_condition(request.resolution_kind)
    ||| (request.dependency_kind == DependencyKind::TypeOnly && x == "types"@)
    ||| texts_of(request.custom_conditions@).contains(x)
}

/// The conditions active in the request's mode: the common ones, and `node` in every Node mode.
/// The bundler mode does not activate `browser` implicitly.
pub open spec fn active_condition(request: ResolutionRequest, x: Seq<char>) -> bool {
    common_condition(request, x) || (request.mode != ResolutionMode::Bundler && x == "node"@)
}

impl ConditionSet {
    /// The conditions, in ascending order.
    pub closed spec fn members(&self) -> Seq<Seq<char>> {
        self.set.members()
    }

    pub fn new() -> (r: Self)
        ensures
            r.members().len() == 0,
    {
        ConditionSet { set: TextSet::new() }
    }

    pub fn contains(&self, condition: &str) -> (r: bool)
        ensures
            r == self.members().contains(condition@),
    {
        self.set.contains(condition)
    }

    /// The conditions, in ascending order.
    pub fn iter(&self) -> (r: &[String])
        ensures
            texts_of(r@) == self.members(),
            ascending(self.members()),
    {
        self.set.iter()
    }

    /// Adds a condition unless it is there.
    pub fn insert(&mut self, condition: String)
        ensures
            forall|x: Seq<char>| #[trigger] final(self).members().contains(x) <==> (old(self).members().contains(x) || x == condition@),
    {
        self.set.insert(condition);
    }

    /// The conditions every mode activates.
    fn common(request: &ResolutionRequest) -> (r: Self)
        ensures
            forall|x: Seq<char>| #[trigger] r.members().contains(x) <==> common_condition(*request, x),
    {
        let mut set = ConditionSet::new();
        set.insert(owned("default"));
        let kind = match request.resolution_kind {
            ResolutionKind::Import => "import",
            ResolutionKind::Require => "require",
        };
        set.insert(owned(kind));
        if request.dependency_kind == DependencyKind::TypeOnly {
            set.insert(owned("types"));
        }
        let ghost base = set.members();
        let mut i: usize = 0;
        while i < request.custom_conditions.len()
            invariant
                i <= request.custom_conditions@.len(),
                forall|x: Seq<char>| #[trigger] set.members().contains(x) <==> (base.contains(x)
                    || texts_of(request.custom_conditions@).take(i as int).contains(x)),
            decreases request.custom_conditions@.len() - i,
        {
            let ghost before = set.members();
            let ghost cs = texts_of(request.custom_conditions@);
            proof {
                assert forall|x: Seq<char>| #[trigger] before.contains(x) <==> (base.contains(x)
                    || cs.take(i as int).contains(x)) by {
                    assert(set.members().contains(x) <==> (base.contains(x) || texts_of(request.custom_conditions@).take(i as int).contains(x)));
                }
            }
            let c = request.custom_conditions[i].clone();
            proof {
                assert(c@ == cs[i as int]);
            }
            set.insert(c);
            proof {
                let t0 = cs.take(i as int);
                let t1 = cs.take(i + 1);
                assert(t1 =~= t0.push(cs[i as int]));
                assert forall|x: Seq<char>| #[trigger] set.members().contains(x) <==> (base.contains(x)
                    || t1.contains(x)) by {
                    assert(before.contains(x) <==> (base.contains(x) || t0.contains(x)));
                    assert(set.members().contains(x) <==> (before.contains(x) || x == cs[i as int]));
                    assert(t1[t0.len() as int] == cs[i as int]);
                    if t1.contains(x) {
                        let k = choose|k: int| 0 <= k < t1.len() && t1[k] == x;
                        if k < t0.len() {
                            assert(t0[k] == x);
                        }
                    }
                    if t0.contains(x) {
                        let k = choose|k: int| 0 <= k < t0.len() && t0[k] == x;
                        assert(t1[k] == x);
                    }
                }
            }
            i = i + 1;
        }
        proof {
            assert(texts_of(request.custom_conditions@).take(i as int) =~= texts_of(request.custom_conditions@));
        }
        set
    }
}

/// Strategy port for mode-specific package condition selection.
pub trait ConditionSetProvider {
    fn active_conditions(&self, request: &ResolutionRequest) -> ConditionSet;
}

#[derive(Clone, Copy, Debug, Default)]
pub struct Node16Conditions;

impl ConditionSetProvider for Node16Conditions {
    fn active_conditions(&self, request: &ResolutionRequest) -> (r: ConditionSet)
        ensures
            forall|x: Seq<char>| #[trigger] r.members().contains(x) <==> (common_condition(*request, x) || x == "node"@),
    {
        let mut set = ConditionSet::common(request);
        set.insert(owned("node"));
        set
    }
}

#[derive(Clone, Copy, Debug, Default)]
pub struct NodeNextConditions;

impl ConditionSetProvider for NodeNextConditions {
    fn active_conditions(&self, request: &ResolutionRequest) -> (r: ConditionSet)
        ensures
            forall|x: Seq<char>| #[trigger] r.members().contains(x) <==> (common_condition(*request, x) || x == "node"@),
    {
        let mut set = ConditionSet::common(request);
        set.insert(owned("node"));
        set
    }
}

#[derive(Clone, Copy, Debug, Default)]
pub struct BundlerConditions;

impl ConditionSetProvider for BundlerConditions {
    fn active_conditions(&self, request: &ResolutionRequest) -> (r: ConditionSet)
        ensures
            forall|x: Seq<char>| #[trigger] r.members().contains(x) <==> common_condition(*request, x),
    {
        ConditionSet::common(request)
    }
}

/// The conditions active for a request in its mode.
pub fn active_conditions(request: &ResolutionRequest) -> (r: ConditionSet)
    ensures
        forall|x: Seq<char>| #[trigger] r.members().contains(x) <==> active_condition(*request, x),
{
    match request.mode {
        ResolutionMode::Node10 | ResolutionMode::Node16 => Node16Conditions.active_conditions(request),
        ResolutionMode::NodeNext => NodeNextConditions.active_conditions(request),
        ResolutionMode::Bundler => BundlerConditions.active_conditions(request),
    }
}

} // verus!
