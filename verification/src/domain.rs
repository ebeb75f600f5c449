//! The intermediate representation shared by every stage: identities, modules, dependencies,
//! diagnostics and errors.
pub use crate::architecture::{ArchitectureModel, ArchitectureOwnershipIndex, LayerOwnership, LayerPolicy};
pub use crate::diagnostic::{Diagnostic, DiagnosticIdentity, StableLocation};
use crate::map::{OrderedMap, TextKey};
use crate::text::{owned, text_equal};
use vstd::prelude::*;

verus! {

#[derive(Clone, Debug, PartialEq, Eq, Hash)]
pub struct WorkspaceId(pub String);

#[derive(Clone, Debug, PartialEq, Eq, Hash)]
pub struct PackageName(pub String);

#[derive(Clone, Debug, PartialEq, Eq, PartialOrd, Ord, Hash)]
pub struct ModuleId(pub String);

#[derive(Clone, Debug, PartialEq, Eq, Hash)]
pub struct FeatureId {
    pub package: PackageName,
    pub name: String,
}

#[derive(Clone, Debug, PartialEq, Eq, Hash)]
pub struct ModulePath(pub String);

#[derive(Clone, Debug, PartialEq, Eq, Hash)]
pub struct RuleId(pub String);

/// Open layer identity; configured layer names remain first-class in the IR.
#[derive(Clone, Debug, PartialEq, Eq, Hash)]
pub struct LayerId(pub String);

impl View for WorkspaceId {
    type V = Seq<char>;

    open spec fn view(&self) -> Seq<char> {
        self.0@
    }
}

impl View for PackageName {
    type V = Seq<char>;

    open spec fn view(&self) -> Seq<char> {
        self.0@
    }
}

impl View for ModuleId {
    type V = Seq<char>;

    open spec fn view(&self) -> Seq<char> {
        self.0@
    }
}

impl View for ModulePath {
    type V = Seq<char>;

    open spec fn view(&self) -> Seq<char> {
        self.0@
    }
}

impl View for RuleId {
    type V = Seq<char>;

    open spec fn view(&self) -> Seq<char> {
        self.0@
    }
}

impl View for LayerId {
    type V = Seq<char>;

    open spec fn view(&self) -> Seq<char> {
        self.0@
    }
}

impl TextKey for ModuleId {
    open spec fn key_view(&self) -> Seq<char> {
        self.0@
    }

    fn key_text(&self) -> (r: &str) {
        self.0.as_str()
    }

    fn copy_key(&self) -> (r: Self) {
        self.duplicate()
    }
}

impl ModuleId {
    /// A copy with the same text.
    pub fn duplicate(&self) -> (r: Self)
        ensures
            r@ == self@,
    {
        ModuleId(self.0.clone())
    }
}

impl PackageName {
    /// A copy with the same text.
    pub fn duplicate(&self) -> (r: Self)
        ensures
            r@ == self@,
    {
        PackageName(self.0.clone())
    }
}

impl RuleId {
    /// A copy with the same text.
    pub fn duplicate(&self) -> (r: Self)
        ensures
            r@ == self@,
    {
        RuleId(self.0.clone())
    }
}

impl Default for RuleId {
    fn default() -> (r: Self)
        ensures
            r@ == "ARCH-000"@,
    {
        RuleId(owned("ARCH-000"))
    }
}

#[derive(Clone, Copy, Debug, PartialEq, Eq, Structural)]
pub enum Severity {
    Error,
    Warning,
    Info,
}

impl Default for Severity {
    fn default() -> (r: Self)
        ensures
            r == Severity::Error,
    {
        Severity::Error
    }
}

#[derive(Clone, Copy, Debug, PartialEq, Eq, Structural)]
pub enum ParseErrorKind {
    UnsupportedSyntax,
    MalformedSource,
    ProviderFailure,
}

#[derive(Clone, Debug, PartialEq, Eq)]
pub struct ParseError {
    pub kind: ParseErrorKind,
    pub message: String,
    pub location: Option<SourceLocation>,
}

#[derive(Clone, Copy, Debug, PartialEq, Eq, Structural)]
pub enum ResolutionErrorKind {
    UnresolvedImport,
    InvalidSpecifier,
    AliasConflict,
    PackageNotFound,
}

#[derive(Clone, Debug, PartialEq, Eq)]
pub struct ResolutionError {
    pub kind: ResolutionErrorKind,
    pub importer: Option<ModuleId>,
    pub specifier: Option<String>,
    pub message: String,
    pub location: Option<SourceLocation>,
}

#[derive(Clone, Copy, Debug, PartialEq, Eq, Structural)]
pub enum ConfigErrorKind {
    Io,
    InvalidYaml,
    UnsupportedVersion,
    UnknownRule,
    DuplicateLayer,
    InvalidPattern,
    ConflictingConfig,
    InvalidDependency,
}

#[derive(Clone, Debug, PartialEq, Eq)]
pub struct ConfigError {
    pub kind: ConfigErrorKind,
    pub message: String,
    pub path: Option<String>,
}

#[derive(Clone, Copy, Debug, PartialEq, Eq, Structural)]
pub enum InternalErrorKind {
    InvariantViolation,
    UnexpectedState,
}

#[derive(Clone, Debug, PartialEq, Eq)]
pub struct InternalError {
    pub kind: InternalErrorKind,
    pub message: String,
    pub component: Option<String>,
}

#[derive(Clone, Debug, PartialEq, Eq)]
pub enum EngineError {
    Parse(ParseError),
    Resolution(ResolutionError),
    Config(ConfigError),
    Internal(InternalError),
}

#[derive(Clone, Debug, PartialEq, Eq)]
pub struct SourceLocation {
    pub file: String,
    pub line: usize,
    pub column: usize,
}

impl SourceLocation {
    /// A location with an empty file name at line and column zero.
    pub fn unknown() -> (r: Self)
        ensures
            r.file@ == Seq::<char>::empty(),
            r.line == 0,
            r.column == 0,
    {
        SourceLocation { file: String::new(), line: 0, column: 0 }
    }

    /// A copy with the same file, line and column.
    pub fn duplicate(&self) -> (r: Self)
        ensures
            r.file@ == self.file@,
            r.line == self.line,
            r.column == self.column,
    {
        SourceLocation { file: self.file.clone(), line: self.line, column: self.column }
    }
}

impl Default for SourceLocation {
    fn default() -> (r: Self)
        ensures
            r.file@ == Seq::<char>::empty(),
            r.line == 0,
            r.column == 0,
    {
        SourceLocation::unknown()
    }
}

#[derive(Clone, Copy, Debug, PartialEq, Eq, PartialOrd, Ord, Hash, Structural)]
pub enum Runtime {
    Browser,
    Server,
    Edge,
    Node,
    Universal,
    Unknown,
}

/// Framework-neutral metadata emitted by optional framework adapters. Adapter identifiers and
/// attributes are open values so adding a framework does not change the IR.
#[derive(Clone, Debug, PartialEq, Eq)]
pub struct FrameworkMetadata {
    pub adapter_id: Option<String>,
    pub attributes: OrderedMap<String, String>,
}

impl Default for FrameworkMetadata {
    fn default() -> (r: Self)
        ensures
            r.adapter_id is None,
            r.attributes.pairs().len() == 0,
    {
        FrameworkMetadata { adapter_id: None, attributes: OrderedMap::new() }
    }
}

/// Framework-neutral facts extracted from syntax by a parser adapter.
#[derive(Clone, Debug, PartialEq, Eq)]
pub struct ModuleSemantics {
    pub directives: Vec<String>,
    pub exported_runtime: Option<String>,
    /// Marker packages imported for their side effects, such as `server-only` and
    /// `client-only`.
    pub marker_imports: Vec<String>,
}

impl Default for ModuleSemantics {
    fn default() -> (r: Self)
        ensures
            r.directives@.len() == 0,
            r.exported_runtime is None,
            r.marker_imports@.len() == 0,
    {
        ModuleSemantics { directives: Vec::new(), exported_runtime: None, marker_imports: Vec::new() }
    }
}

#[derive(Clone, Copy, Debug, PartialEq, Eq, Structural)]
pub enum ModuleKind {
    Source,
    Excluded,
    External,
}

#[derive(Clone, Copy, Debug, PartialEq, Eq, Hash, Structural)]
pub enum DependencyKind {
    Static,
    Dynamic,
    TypeOnly,
    ReExport,
    Require,
}

#[derive(Clone, Copy, Debug, PartialEq, Eq, Structural)]
pub enum ImportKind {
    Static,
    Dynamic,
    Require,
    TypeOnly,
    ReExport,
}

#[derive(Clone, Copy, Debug, PartialEq, Eq, Structural)]
pub enum ExportKind {
    Named,
    ReExport,
    Default,
    All,
}

#[derive(Clone, Debug, PartialEq, Eq)]
pub struct Workspace {
    pub id: WorkspaceId,
    pub root_path: String,
}

#[derive(Clone, Debug, PartialEq, Eq)]
pub struct Package {
    pub name: PackageName,
    pub root_path: String,
}

#[derive(Clone, Debug, PartialEq, Eq)]
pub struct Module {
    pub id: ModuleId,
    pub path: ModulePath,
    pub package: PackageName,
    pub kind: ModuleKind,
    pub runtime: Runtime,
    pub layer: Option<LayerId>,
    pub framework_metadata: FrameworkMetadata,
}

#[derive(Clone, Debug, PartialEq, Eq)]
pub struct Import {
    pub module_id: ModuleId,
    pub specifier: String,
    pub kind: ImportKind,
    pub location: SourceLocation,
}

#[derive(Clone, Debug, PartialEq, Eq)]
pub struct Export {
    pub module_id: ModuleId,
    pub specifier: Option<String>,
    pub kind: ExportKind,
    pub location: SourceLocation,
}

#[derive(Clone, Debug, PartialEq, Eq)]
pub struct DependencyCandidate {
    pub module_id: ModuleId,
    pub specifier: String,
    pub kind: DependencyKind,
    pub location: SourceLocation,
}

/// The dependency kind that an import of the given kind produces.
pub open spec fn candidate_kind(kind: ImportKind) -> DependencyKind {
    match kind {
        ImportKind::Static => DependencyKind::Static,
        ImportKind::Dynamic => DependencyKind::Dynamic,
        ImportKind::Require => DependencyKind::Require,
        ImportKind::TypeOnly => DependencyKind::TypeOnly,
        ImportKind::ReExport => DependencyKind::ReExport,
    }
}

impl DependencyCandidate {
    /// The dependency kind an import kind stands for.
    pub fn kind_of(kind: ImportKind) -> (r: DependencyKind)
        ensures
            r == candidate_kind(kind),
    {
        match kind {
            ImportKind::Static => DependencyKind::Static,
            ImportKind::Dynamic => DependencyKind::Dynamic,
            ImportKind::Require => DependencyKind::Require,
            ImportKind::TypeOnly => DependencyKind::TypeOnly,
            ImportKind::ReExport => DependencyKind::ReExport,
        }
    }

    /// The dependency candidate an import stands for: same module, specifier and location, and
    /// the dependency kind of the import kind.
    pub fn from_import(value: Import) -> (r: Self)
        ensures
            r.module_id == value.module_id,
            r.specifier == value.specifier,
            r.kind == candidate_kind(value.kind),
            r.location == value.location,
    {
        let kind = DependencyCandidate::kind_of(value.kind);
        DependencyCandidate {
            module_id: value.module_id,
            specifier: value.specifier,
            kind,
            location: value.location,
        }
    }
}

impl From<Import> for DependencyCandidate {
    fn from(value: Import) -> (r: Self) {
        DependencyCandidate::from_import(value)
    }
}

impl vstd::std_specs::convert::FromSpecImpl<Import> for DependencyCandidate {
    open spec fn obeys_from_spec() -> bool {
        true
    }

    open spec fn from_spec(value: Import) -> DependencyCandidate {
        DependencyCandidate {
            module_id: value.module_id,
            specifier: value.specifier,
            kind: candidate_kind(value.kind),
            location: value.location,
        }
    }
}

#[derive(Clone, Debug, PartialEq, Eq)]
pub struct Dependency {
    pub from: ModuleId,
    pub to: ModuleId,
    pub kind: DependencyKind,
    pub location: SourceLocation,
}

impl Dependency {
    /// A copy with the same endpoints, kind and location.
    pub fn duplicate(&self) -> (r: Self)
        ensures
            r.from@ == self.from@,
            r.to@ == self.to@,
            r.kind == self.kind,
            r.location.file@ == self.location.file@,
            r.location.line == self.location.line,
            r.location.column == self.location.column,
    {
        Dependency {
            from: self.from.duplicate(),
            to: self.to.duplicate(),
            kind: self.kind,
            location: self.location.duplicate(),
        }
    }
}

#[derive(Clone, Debug, PartialEq, Eq)]
pub enum DependencyTarget {
    Internal(ModuleId),
    WorkspacePackage { package: PackageName, module: ModuleId },
    Builtin(String),
    ExternalPackage(PackageName),
    Unresolved { specifier: String, reason: String },
}

#[derive(Clone, Debug, PartialEq, Eq)]
pub struct ResolvedDependency {
    pub from: ModuleId,
    pub specifier: String,
    pub kind: DependencyKind,
    pub target: DependencyTarget,
    pub location: SourceLocation,
}

#[derive(Clone, Debug, PartialEq, Eq)]
pub struct Project {
    pub workspace: Option<Workspace>,
    pub packages: Vec<Package>,
    pub modules: Vec<Module>,
    pub imports: Vec<Import>,
    pub exports: Vec<Export>,
    pub dependency_candidates: Vec<DependencyCandidate>,
    pub dependencies: Vec<Dependency>,
    pub resolved_dependencies: Vec<ResolvedDependency>,
    pub diagnostics: Vec<Diagnostic>,
}

impl Default for Project {
    fn default() -> (r: Self)
        ensures
            r.workspace is None,
            r.packages@.len() == 0,
            r.modules@.len() == 0,
            r.imports@.len() == 0,
            r.exports@.len() == 0,
            r.dependency_candidates@.len() == 0,
            r.dependencies@.len() == 0,
            r.resolved_dependencies@.len() == 0,
            r.diagnostics@.len() == 0,
    {
        Project {
            workspace: None,
            packages: Vec::new(),
            modules: Vec::new(),
            imports: Vec::new(),
            exports: Vec::new(),
            dependency_candidates: Vec::new(),
            dependencies: Vec::new(),
            resolved_dependencies: Vec::new(),
            diagnostics: Vec::new(),
        }
    }
}

/// Accumulates the records of a project in insertion order.
#[derive(Clone, Debug)]
pub struct ProjectBuilder {
    project: Project,
}

impl ProjectBuilder {
    /// The project built so far.
    pub closed spec fn state(self) -> Project {
        self.project
    }

    pub fn new() -> (r: Self)
        ensures
            r.state().workspace is None,
            r.state().packages@.len() == 0,
            r.state().modules@.len() == 0,
            r.state().imports@.len() == 0,
            r.state().exports@.len() == 0,
            r.state().dependency_candidates@.len() == 0,
            r.state().dependencies@.len() == 0,
            r.state().resolved_dependencies@.len() == 0,
            r.state().diagnostics@.len() == 0,
    {
        ProjectBuilder { project: Project::default() }
    }

    pub fn workspace(self, workspace: Workspace) -> (r: Self)
        ensures
            r.state() == (Project { workspace: Some(workspace), ..self.state() }),
    {
        let mut project = self.project;
        project.workspace = Some(workspace);
        ProjectBuilder { project }
    }

    pub fn add_package(self, package: Package) -> (r: Self)
        ensures
            r.state().packages@ == self.state().packages@.push(package),
            r.state() == (Project { packages: r.state().packages, ..self.state() }),
    {
        let mut project = self.project;
        project.packages.push(package);
        ProjectBuilder { project }
    }

    pub fn add_module(self, module: Module) -> (r: Self)
        ensures
            r.state().modules@ == self.state().modules@.push(module),
            r.state() == (Project { modules: r.state().modules, ..self.state() }),
    {
        let mut project = self.project;
        project.modules.push(module);
        ProjectBuilder { project }
    }

    /// Records the import and, before it, the dependency candidate it stands for.
    pub fn add_import(self, import: Import) -> (r: Self)
        ensures
            r.state().imports@ == self.state().imports@.push(import),
            r.state().dependency_candidates@.len() == self.state().dependency_candidates@.len() + 1,
            r.state().dependency_candidates@.drop_last() == self.state().dependency_candidates@,
            r.state().dependency_candidates@.last().module_id@ == import.module_id@,
            r.state().dependency_candidates@.last().specifier@ == import.specifier@,
            r.state().dependency_candidates@.last().kind == candidate_kind(import.kind),
            r.state().dependency_candidates@.last().location.file@ == import.location.file@,
            r.state().dependency_candidates@.last().location.line == import.location.line,
            r.state().dependency_candidates@.last().location.column == import.location.column,
            r.state() == (Project {
                imports: r.state().imports,
                dependency_candidates: r.state().dependency_candidates,
                ..self.state()
            }),
    {
        let mut project = self.project;
        let candidate = DependencyCandidate {
            module_id: import.module_id.duplicate(),
            specifier: import.specifier.clone(),
            kind: DependencyCandidate::kind_of(import.kind),
            location: import.location.duplicate(),
        };
        project.dependency_candidates.push(candidate);
        project.imports.push(import);
        proof {
            assert(project.dependency_candidates@.drop_last() =~= self.project.dependency_candidates@);
        }
        ProjectBuilder { project }
    }

    pub fn add_export(self, export: Export) -> (r: Self)
        ensures
            r.state().exports@ == self.state().exports@.push(export),
            r.state() == (Project { exports: r.state().exports, ..self.state() }),
    {
        let mut project = self.project;
        project.exports.push(export);
        ProjectBuilder { project }
    }

    pub fn add_dependency_candidate(self, dependency_candidate: DependencyCandidate) -> (r: Self)
        ensures
            r.state().dependency_candidates@ == self.state().dependency_candidates@.push(dependency_candidate),
            r.state() == (Project { dependency_candidates: r.state().dependency_candidates, ..self.state() }),
    {
        let mut project = self.project;
        project.dependency_candidates.push(dependency_candidate);
        ProjectBuilder { project }
    }

    pub fn add_dependency(self, dependency: Dependency) -> (r: Self)
        ensures
            r.state().dependencies@ == self.state().dependencies@.push(dependency),
            r.state() == (Project { dependencies: r.state().dependencies, ..self.state() }),
    {
        let mut project = self.project;
        project.dependencies.push(dependency);
        ProjectBuilder { project }
    }

    pub fn add_resolved_dependency(self, dependency: ResolvedDependency) -> (r: Self)
        ensures
            r.state().resolved_dependencies@ == self.state().resolved_dependencies@.push(dependency),
            r.state() == (Project { resolved_dependencies: r.state().resolved_dependencies, ..self.state() }),
    {
        let mut project = self.project;
        project.resolved_dependencies.push(dependency);
        ProjectBuilder { project }
    }

    pub fn add_diagnostic(self, diagnostic: Diagnostic) -> (r: Self)
        ensures
            r.state().diagnostics@ == self.state().diagnostics@.push(diagnostic),
            r.state() == (Project { diagnostics: r.state().diagnostics, ..self.state() }),
    {
        let mut project = self.project;
        project.diagnostics.push(diagnostic);
        ProjectBuilder { project }
    }

    /// The project holding every record added, in order.
    pub fn build(self) -> (r: Project)
        ensures
            r == self.state(),
    {
        self.project
    }
}

} // verus!
