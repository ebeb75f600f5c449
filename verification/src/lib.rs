//! Verified core of a JavaScript/TypeScript dependency-architecture analyzer: the project IR,
//! stable diagnostic identities, module/runtime/package graphs and the rules around them.
use vstd::prelude::*;

pub mod architecture;
pub mod baseline;
pub mod cli;
pub mod check_command;
pub mod command;
pub mod config;
pub mod decimal;
pub mod diagnostic;
pub mod discovery;
pub mod document;
pub mod diagnostic_arbitrator;
pub mod domain;
pub mod engine;
pub mod fingerprint;
pub mod glob;
pub mod hashing;
pub mod framework;
pub mod impact;
pub mod incremental;
pub mod manifest;
pub mod map;
pub mod module_graph;
pub mod package_graph;
pub mod parser;
pub mod paths;
pub mod provenance;
pub mod regression;
pub mod report;
pub mod resolver;
pub mod rule_registry;
pub mod runtime_graph;
pub mod server_policy;
pub mod session;
pub mod sort;
pub mod suppression;
pub mod syntax;
pub mod telemetry;
pub mod text;
pub mod text_set;
pub mod trace;
pub mod tools;
pub mod validation;

verus! {

/// The engine's display name.
pub const ENGINE_NAME: &'static str = "Web Architecture Engine";

/// The engine's version, as shown to users.
pub const ENGINE_VERSION: &'static str = "v0.0.26";

/// The two banner lines: the engine's name, then its version.
pub fn banner_lines() -> (r: [&'static str; 2])
    ensures
        r@[0]@ == ENGINE_NAME@,
        r@[1]@ == ENGINE_VERSION@,
{
    [ENGINE_NAME, ENGINE_VERSION]
}

} // verus!
