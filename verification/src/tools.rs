//! Answers of the editor-facing tools that read a finished analysis.
use crate::diagnostic::Diagnostic;
use crate::domain::Dependency;
use crate::engine::{failure, Analysis, FailurePolicy};
use crate::paths::{lies_within, normalized_path_is_within};
use crate::server_policy::ServerPolicy;
use crate::text::{chars_of, concat, has_prefix, owned, starts_with, text_equal};
use vstd::prelude::*;

verus! {

/// Some dependency of `deps` runs from module `from` to module `to`.
pub open spec fn has_edge(deps: Seq<Dependency>, from: Seq<char>, to: Seq<char>) -> bool {
    exists|i: int| 0 <= i < deps.len() && deps[i].from@ == from && #[trigger] deps[i].to@ == to
}

/// The diagnostic's dependency path starts at `from` and ends at `to`.
pub open spec fn governs(d: Diagnostic, from: Seq<char>, to: Seq<char>) -> bool {
    &&& d.dependency_path@.len() > 0
    &&& d.dependency_path@[0]@ == from
    &&& d.dependency_path@.last()@ == to
}

/// No diagnostic that governs the edge fails a check.
pub open spec fn none_failing(ds: Seq<Diagnostic>, from: Seq<char>, to: Seq<char>) -> bool {
    forall|i: int| 0 <= i < ds.len() && governs(#[trigger] ds[i], from, to) ==> !failure(ds[i])
}

/// What the dependency-policy tool reports about the edge from one module to another.
#[derive(Clone, Debug, PartialEq, Eq)]
pub struct PolicyAnswer {
    pub edge_exists: bool,
    /// The positions, in order, of the diagnostics that govern the edge.
    pub governing: Vec<usize>,
    /// Whether the edge is allowed: `None` when there is no such edge.
    pub allowed: Option<bool>,
}

/// Whether the project has a dependency from `from` to `to`, the diagnostics whose dependency
/// path runs from `from` to `to`, and, for an existing edge, whether none of them fails.
pub fn dependency_policy(analysis: &Analysis, from: &str, to: &str) -> (r: PolicyAnswer)
    ensures
        r.edge_exists == has_edge(analysis.project.dependencies@, from@, to@),
        forall|k: int|
            0 <= k < r.governing@.len() ==> #[trigger] r.governing@[k] < analysis.diagnostics@.len() && governs(
                analysis.diagnostics@[r.governing@[k] as int],
                from@,
                to@,
            ),
        forall|k: int, l: int| 0 <= k < l < r.governing@.len() ==> r.governing@[k] < r.governing@[l],
        forall|i: int|
            0 <= i < analysis.diagnostics@.len() && governs(#[trigger] analysis.diagnostics@[i], from@, to@)
                ==> r.governing@.contains(i as usize),
        r.allowed == (if r.edge_exists {
            Some(none_failing(analysis.diagnostics@, from@, to@))
        } else {
            None
        }),
{
    let deps = &analysis.project.dependencies;
    let mut edge_exists = false;
    let mut i: usize = 0;
    while i < deps.len()
        invariant
            i <= deps@.len(),
            edge_exists <==> exists|j: int| 0 <= j < i && deps@[j].from@ == from@ && #[trigger] deps@[j].to@ == to@,
        decreases deps@.len() - i,
    {
        if text_equal(deps[i].from.0.as_str(), from) && text_equal(deps[i].to.0.as_str(), to) {
            edge_exists = true;
        }
        proof {
            if deps@[i as int].from@ == from@ && deps@[i as int].to@ == to@ {
                assert(0 <= i < i + 1 && deps@[i as int].from@ == from@ && deps@[i as int].to@ == to@);
            }
            if exists|j: int| 0 <= j < i + 1 && deps@[j].from@ == from@ && #[trigger] deps@[j].to@ == to@ {
                let j = choose|j: int| 0 <= j < i + 1 && deps@[j].from@ == from@ && #[trigger] deps@[j].to@ == to@;
                if j == i {
                    assert(deps@[j].to@ == to@);
                }
            }
        }
        i = i + 1;
    }
    let ds = &analysis.diagnostics;
    let mut governing: Vec<usize> = Vec::new();
    let mut all_pass = true;
    let mut k: usize = 0;
    while k < ds.len()
        invariant
            k <= ds@.len(),
            forall|m: int| 0 <= m < governing@.len() ==> #[trigger] governing@[m] < k && governs(ds@[governing@[m] as int], from@, to@),
            forall|m: int, l: int| 0 <= m < l < governing@.len() ==> governing@[m] < governing@[l],
            forall|j: int| 0 <= j < k && governs(#[trigger] ds@[j], from@, to@) ==> governing@.contains(j as usize),
            all_pass <==> forall|j: int| 0 <= j < k && governs(#[trigger] ds@[j], from@, to@) ==> !failure(ds@[j]),
        decreases ds@.len() - k,
    {
        let path = &ds[k].dependency_path;
        let hit = path.len() > 0 && text_equal(path[0].0.as_str(), from) && text_equal(
            path[path.len() - 1].0.as_str(),
            to,
        );
        proof {
            if path@.len() > 0 {
                assert(path@.last() == path@[path@.len() - 1]);
            }
            assert(hit == governs(ds@[k as int], from@, to@));
        }
        let ghost g0 = governing@;
        if hit {
            governing.push(k);
            if FailurePolicy::is_failure(&ds[k]) {
                all_pass = false;
            }
        }
        proof {
            assert forall|j: int| 0 <= j < k + 1 && governs(#[trigger] ds@[j], from@, to@) implies governing@.contains(j as usize) by {
                if j < k {
                    let m = choose|m: int| 0 <= m < g0.len() && g0[m] == j as usize;
                    assert(governing@[m] == j as usize);
                } else {
                    assert(governing@[g0.len() as int] == k);
                }
            }
        }
        k = k + 1;
    }
    let allowed = if edge_exists {
        Some(all_pass)
    } else {
        None
    };
    PolicyAnswer { edge_exists, governing, allowed }
}

/// The root a tool request names, by Unix path rules: `root` itself when it is absolute,
/// otherwise `root` under `default_root`; `default_root` when the request names none.
pub open spec fn requested_root(default_root: Seq<char>, root: Option<Seq<char>>) -> Seq<char> {
    match root {
        None => default_root,
        Some(r) => if has_prefix(r, "/"@) || default_root.len() == 0 {
            r
        } else if default_root.last() == '/' {
            default_root + r
        } else {
            default_root + "/"@ + r
        },
    }
}

pub fn requested_root_of(default_root: &str, root: Option<&str>) -> (r: String)
    ensures
        r@ == requested_root(default_root@, match root {
            Some(x) => Some(x@),
            None => None,
        }),
{
    match root {
        None => owned(default_root),
        Some(r) => {
            let d = chars_of(default_root);
            if starts_with(r, "/") || d.len() == 0 {
                owned(r)
            } else if d[d.len() - 1] == '/' {
                concat(default_root, r)
            } else {
                let with_slash = concat(default_root, "/");
                concat(with_slash.as_str(), r)
            }
        },
    }
}

/// A requested root that the policy admits: any root when the policy allows it, otherwise a
/// root that is one of `canonical_roots` or lies below one of them.
pub open spec fn admitted(policy: ServerPolicy, requested: Seq<char>, canonical_roots: Seq<String>) -> bool {
    policy.any_root() || exists|i: int| 0 <= i < canonical_roots.len() && lies_within(requested, #[trigger] canonical_roots[i]@)
}

/// Confines a tool request to the policy: `requested` is the canonical form of the requested
/// root and `canonical_roots` those of the policy's roots that exist.
pub fn confine_root(policy: &ServerPolicy, requested: &str, canonical_roots: &[String]) -> (r: Result<String, String>)
    ensures
        r is Ok <==> admitted(*policy, requested@, canonical_roots@),
        r matches Ok(p) ==> p@ == requested@,
        r matches Err(m) ==> m@ == "requested root `"@ + requested@ + "` is outside the MCP server allowed roots"@,
{
    if policy.allows_any_root() {
        return Ok(owned(requested));
    }
    let mut i: usize = 0;
    while i < canonical_roots.len()
        invariant
            i <= canonical_roots@.len(),
            !policy.any_root(),
            forall|k: int| 0 <= k < i ==> !lies_within(requested@, #[trigger] canonical_roots@[k]@),
        decreases canonical_roots@.len() - i,
    {
        if normalized_path_is_within(requested, canonical_roots[i].as_str()) {
            return Ok(owned(requested));
        }
        i = i + 1;
    }
    let head = concat("requested root `", requested);
    Err(concat(head.as_str(), "` is outside the MCP server allowed roots"))
}

/// A tool request the server understands, with its arguments.
#[derive(Clone, Debug, PartialEq, Eq)]
pub enum ToolCall {
    Check,
    Explain { rule_id: String },
    DependencyPath { from: String, to: String },
    Model,
    Policy { from: String, to: String },
}

/// The tool named `name` with its arguments: `ruleId` for `architecture_explain`, `from` then
/// `to` for the two dependency tools; the missing argument or an unknown tool is an error.
pub fn tool_call(name: &str, rule_id: Option<&str>, from: Option<&str>, to: Option<&str>) -> (r: Result<ToolCall, String>)
    ensures
        if name@ == "architecture_check"@ {
            r == Ok::<ToolCall, String>(ToolCall::Check)
        } else if name@ == "architecture_model"@ {
            r == Ok::<ToolCall, String>(ToolCall::Model)
        } else if name@ == "architecture_explain"@ {
            match rule_id {
                Some(id) => r matches Ok(ToolCall::Explain { rule_id }) && rule_id@ == id@,
                None => r matches Err(m) && m@ == "ruleId is required"@,
            }
        } else if name@ == "dependency_path"@ || name@ == "dependency_policy"@ {
            match (from, to) {
                (None, _) => r matches Err(m) && m@ == "from is required"@,
                (Some(_), None) => r matches Err(m) && m@ == "to is required"@,
                (Some(f), Some(t)) => if name@ == "dependency_path"@ {
                    r matches Ok(ToolCall::DependencyPath { from, to }) && from@ == f@ && to@ == t@
                } else {
                    r matches Ok(ToolCall::Policy { from, to }) && from@ == f@ && to@ == t@
                },
            }
        } else {
            r matches Err(m) && m@ == "unknown tool `"@ + name@ + "`"@
        },
{
    if text_equal(name, "architecture_check") {
        Ok(ToolCall::Check)
    } else if text_equal(name, "architecture_model") {
        Ok(ToolCall::Model)
    } else if text_equal(name, "architecture_explain") {
        match rule_id {
            Some(id) => Ok(ToolCall::Explain { rule_id: owned(id) }),
            None => Err(owned("ruleId is required")),
        }
    } else if text_equal(name, "dependency_path") || text_equal(name, "dependency_policy") {
        let f = match from {
            Some(f) => f,
            None => {
                return Err(owned("from is required"));
            },
        };
        let t = match to {
            Some(t) => t,
            None => {
                return Err(owned("to is required"));
            },
        };
        if text_equal(name, "dependency_path") {
            Ok(ToolCall::DependencyPath { from: owned(f), to: owned(t) })
        } else {
            Ok(ToolCall::Policy { from: owned(f), to: owned(t) })
        }
    } else {
        let head = concat("unknown tool `", name);
        Err(concat(head.as_str(), "`"))
    }
}

} // verus!
