//! The registry of rules: identity, presentation and incremental scope of each rule.
use crate::text::text_equal;
use vstd::prelude::*;

verus! {

#[derive(Clone, Copy, Debug, PartialEq, Eq, Structural)]
pub enum RuleScope {
    Edge,
    Closure,
    Global,
}

#[derive(Clone, Copy, Debug, PartialEq, Eq)]
pub struct RuleDescriptor {
    pub id: &'static str,
    pub title: &'static str,
    pub description: &'static str,
    pub category: &'static str,
    pub configurable: bool,
}

/// The text of a descriptor: id, title, description, category and whether it is configurable.
pub open spec fn descriptor_view(d: RuleDescriptor) -> (Seq<char>, Seq<char>, Seq<char>, Seq<char>, bool) {
    (d.id@, d.title@, d.description@, d.category@, d.configurable)
}

/// Every rule, in registry order.
pub open spec fn rule_table() -> Seq<(Seq<char>, Seq<char>, Seq<char>, Seq<char>, bool)> {
    seq![
        ("ARCH-001"@, "Circular dependency"@, "Detects strongly connected module components."@, "dependency-graph"@, true),
        ("ARCH-002"@, "Forbidden dependency"@, "Enforces configured dependency policies and architecture presets."@, "architecture"@, true),
        ("ARCH-003"@, "Layer boundary"@, "Enforces configured layer import direction while allowing same-layer imports."@, "architecture"@, true),
        ("ARCH-004"@, "Feature boundary"@, "Requires cross-feature dependencies to use public entrypoints."@, "architecture"@, true),
        ("ARCH-005"@, "Private import"@, "Prevents access to private modules from outside their owner."@, "architecture"@, true),
        ("ARCH-006"@, "Dependency depth"@, "Limits transitive dependency depth from configured architecture entrypoints."@, "maintainability"@, true),
        ("ARCH-007"@, "Outgoing coupling"@, "Limits the number of modules directly imported by one module."@, "maintainability"@, true),
        ("ARCH-008"@, "Incoming coupling"@, "Limits the number of modules directly depending on one module."@, "maintainability"@, true),
        ("ARCH-009"@, "Orphan module"@, "Finds source modules unreachable from configured architecture entrypoints."@, "maintainability"@, true),
        ("ARCH-010"@, "Unassigned architecture module"@, "Requires every source module to belong to a configured architecture layer."@, "architecture"@, true),
        ("ARCH-011"@, "Architecture coverage threshold"@, "Enforces the configured aggregate minimum for architecture layer ownership."@, "architecture"@, true),
        ("PACKAGE-001"@, "Package cycle"@, "Detects circular dependencies between workspace packages."@, "package-graph"@, true),
        ("PACKAGE-002"@, "Forbidden package dependency"@, "Enforces configured package-to-package dependency policies."@, "package-graph"@, true),
        ("PACKAGE-003"@, "Undeclared workspace dependency"@, "Requires cross-workspace imports to be declared in the importer manifest."@, "package-graph"@, true),
        ("PACKAGE-004"@, "Cross-package relative import"@, "Prevents relative paths from bypassing workspace package entrypoints."@, "package-graph"@, true),
        ("RUNTIME-001"@, "Browser to server dependency"@, "Prevents browser modules from reaching server-only modules transitively."@, "runtime-graph"@, true),
        ("RUNTIME-002"@, "Browser to Node dependency"@, "Prevents browser modules from reaching Node-only modules transitively."@, "runtime-graph"@, true),
        ("RUNTIME-003"@, "Browser-incompatible package"@, "Prevents browser modules from reaching configured incompatible packages."@, "runtime-graph"@, true),
        ("RUNTIME-004"@, "Edge-incompatible dependency"@, "Prevents Edge modules from reaching Node-only modules or incompatible packages."@, "runtime-graph"@, true),
        ("RUNTIME-005"@, "Ambiguous universal runtime"@, "Detects universal modules that transitively require incompatible runtime capabilities."@, "runtime-graph"@, true),
        ("RUNTIME-006"@, "Incompatible runtime cycle"@, "Detects dependency cycles that join incompatible runtime domains."@, "runtime-graph"@, true),
        ("PARSE-001"@, "Parse failure"@, "Reports malformed or unreadable source files."@, "correctness"@, false),
        ("RESOLVE-001"@, "Unresolved import"@, "Reports relative or aliased imports that cannot be resolved."@, "correctness"@, false),
        ("RESOLVE-002"@, "Invalid module specifier"@, "Reports module specifiers that violate the analysis boundary."@, "correctness"@, false),
        ("SUPPRESS-001"@, "Unused suppression"@, "Reports suppression directives that did not match a diagnostic."@, "maintainability"@, false)
    ]
}

/// Rules evaluated per dependency edge.
pub open spec fn edge_scoped(id: Seq<char>) -> bool {
    id == "ARCH-002"@ || id == "ARCH-003"@ || id == "ARCH-004"@ || id == "ARCH-005"@ || id
        == "ARCH-007"@ || id == "ARCH-008"@ || id == "ARCH-010"@ || id == "PACKAGE-002"@ || id
        == "PACKAGE-003"@ || id == "PACKAGE-004"@
}

/// Rules evaluated over the transitive dependency closure.
pub open spec fn closure_scoped(id: Seq<char>) -> bool {
    id == "RUNTIME-001"@ || id == "RUNTIME-002"@ || id == "RUNTIME-003"@ || id == "RUNTIME-004"@
        || id == "RUNTIME-005"@
}

pub open spec fn scope_of(id: Seq<char>) -> RuleScope {
    if edge_scoped(id) {
        RuleScope::Edge
    } else if closure_scoped(id) {
        RuleScope::Closure
    } else {
        RuleScope::Global
    }
}

/// Whether the rule `id` consumes the structural option `option`: the depth rule takes a
/// maximum depth and entrypoints, the coupling rules their fan-out and fan-in limits, and the
/// orphan rule entrypoints.
pub open spec fn option_supported(id: Seq<char>, option: Seq<char>) -> bool {
    ||| id == "ARCH-006"@ && (option == "max_depth"@ || option == "entrypoints"@)
    ||| id == "ARCH-007"@ && option == "max_fan_out"@
    ||| id == "ARCH-008"@ && option == "max_fan_in"@
    ||| id == "ARCH-009"@ && option == "entrypoints"@
}

impl RuleDescriptor {
    /// Whether the rule consumes the structural option named `option`.
    pub fn supports_option(&self, option: &str) -> (r: bool)
        ensures
            r == option_supported(self.id@, option@),
    {
        let id = self.id;
        (text_equal(id, "ARCH-006") && (text_equal(option, "max_depth") || text_equal(option, "entrypoints")))
            || (text_equal(id, "ARCH-007") && text_equal(option, "max_fan_out"))
            || (text_equal(id, "ARCH-008") && text_equal(option, "max_fan_in"))
            || (text_equal(id, "ARCH-009") && text_equal(option, "entrypoints"))
    }

    /// The incremental scope of the rule.
    pub fn scope(&self) -> (r: RuleScope)
        ensures
            r == scope_of(self.id@),
    {
        let id = self.id;
        if text_equal(id, "ARCH-002") || text_equal(id, "ARCH-003") || text_equal(id, "ARCH-004")
            || text_equal(id, "ARCH-005") || text_equal(id, "ARCH-007") || text_equal(id, "ARCH-008")
            || text_equal(id, "ARCH-010") || text_equal(id, "PACKAGE-002") || text_equal(
            id,
            "PACKAGE-003",
        ) || text_equal(id, "PACKAGE-004") {
            RuleScope::Edge
        } else if text_equal(id, "RUNTIME-001") || text_equal(id, "RUNTIME-002") || text_equal(
            id,
            "RUNTIME-003",
        ) || text_equal(id, "RUNTIME-004") || text_equal(id, "RUNTIME-005") {
            RuleScope::Closure
        } else {
            RuleScope::Global
        }
    }
}

/// Every rule descriptor, in registry order.
pub fn rules() -> (r: Vec<RuleDescriptor>)
    ensures
        r@.map_values(|d: RuleDescriptor| descriptor_view(d)) == rule_table(),
{
    let mut v: Vec<RuleDescriptor> = Vec::new();
    v.push(RuleDescriptor {
        id: "ARCH-001",
        title: "Circular dependency",
        description: "Detects strongly connected module components.",
        category: "dependency-graph",
        configurable: true,
    });
    v.push(RuleDescriptor {
        id: "ARCH-002",
        title: "Forbidden dependency",
        description: "Enforces configured dependency policies and architecture presets.",
        category: "architecture",
        configurable: true,
    });
    v.push(RuleDescriptor {
        id: "ARCH-003",
        title: "Layer boundary",
        description: "Enforces configured layer import direction while allowing same-layer imports.",
        category: "architecture",
        configurable: true,
    });
    v.push(RuleDescriptor {
        id: "ARCH-004",
        title: "Feature boundary",
        description: "Requires cross-feature dependencies to use public entrypoints.",
        category: "architecture",
        configurable: true,
    });
    v.push(RuleDescriptor {
        id: "ARCH-005",
        title: "Private import",
        description: "Prevents access to private modules from outside their owner.",
        category: "architecture",
        configurable: true,
    });
    v.push(RuleDescriptor {
        id: "ARCH-006",
        title: "Dependency depth",
        description: "Limits transitive dependency depth from configured architecture entrypoints.",
        category: "maintainability",
        configurable: true,
    });
    v.push(RuleDescriptor {
        id: "ARCH-007",
        title: "Outgoing coupling",
        description: "Limits the number of modules directly imported by one module.",
        category: "maintainability",
        configurable: true,
    });
    v.push(RuleDescriptor {
        id: "ARCH-008",
        title: "Incoming coupling",
        description: "Limits the number of modules directly depending on one module.",
        category: "maintainability",
        configurable: true,
    });
    v.push(RuleDescriptor {
        id: "ARCH-009",
        title: "Orphan module",
        description: "Finds source modules unreachable from configured architecture entrypoints.",
        category: "maintainability",
        configurable: true,
    });
    v.push(RuleDescriptor {
        id: "ARCH-010",
        title: "Unassigned architecture module",
        description: "Requires every source module to belong to a configured architecture layer.",
        category: "architecture",
        configurable: true,
    });
    v.push(RuleDescriptor {
        id: "ARCH-011",
        title: "Architecture coverage threshold",
        description: "Enforces the configured aggregate minimum for architecture layer ownership.",
        category: "architecture",
        configurable: true,
    });
    v.push(RuleDescriptor {
        id: "PACKAGE-001",
        title: "Package cycle",
        description: "Detects circular dependencies between workspace packages.",
        category: "package-graph",
        configurable: true,
    });
    v.push(RuleDescriptor {
        id: "PACKAGE-002",
        title: "Forbidden package dependency",
        description: "Enforces configured package-to-package dependency policies.",
        category: "package-graph",
        configurable: true,
    });
    v.push(RuleDescriptor {
        id: "PACKAGE-003",
        title: "Undeclared workspace dependency",
        description: "Requires cross-workspace imports to be declared in the importer manifest.",
        category: "package-graph",
        configurable: true,
    });
    v.push(RuleDescriptor {
        id: "PACKAGE-004",
        title: "Cross-package relative import",
        description: "Prevents relative paths from bypassing workspace package entrypoints.",
        category: "package-graph",
        configurable: true,
    });
    v.push(RuleDescriptor {
        id: "RUNTIME-001",
        title: "Browser to server dependency",
        description: "Prevents browser modules from reaching server-only modules transitively.",
        category: "runtime-graph",
        configurable: true,
    });
    v.push(RuleDescriptor {
        id: "RUNTIME-002",
        title: "Browser to Node dependency",
        description: "Prevents browser modules from reaching Node-only modules transitively.",
        category: "runtime-graph",
        configurable: true,
    });
    v.push(RuleDescriptor {
        id: "RUNTIME-003",
        title: "Browser-incompatible package",
        description: "Prevents browser modules from reaching configured incompatible packages.",
        category: "runtime-graph",
        configurable: true,
    });
    v.push(RuleDescriptor {
        id: "RUNTIME-004",
        title: "Edge-incompatible dependency",
        description: "Prevents Edge modules from reaching Node-only modules or incompatible packages.",
        category: "runtime-graph",
        configurable: true,
    });
    v.push(RuleDescriptor {
        id: "RUNTIME-005",
        title: "Ambiguous universal runtime",
        description: "Detects universal modules that transitively require incompatible runtime capabilities.",
        category: "runtime-graph",
        configurable: true,
    });
    v.push(RuleDescriptor {
        id: "RUNTIME-006",
        title: "Incompatible runtime cycle",
        description: "Detects dependency cycles that join incompatible runtime domains.",
        category: "runtime-graph",
        configurable: true,
    });
    v.push(RuleDescriptor {
        id: "PARSE-001",
        title: "Parse failure",
        description: "Reports malformed or unreadable source files.",
        category: "correctness",
        configurable: false,
    });
    v.push(RuleDescriptor {
        id: "RESOLVE-001",
        title: "Unresolved import",
        description: "Reports relative or aliased imports that cannot be resolved.",
        category: "correctness",
        configurable: false,
    });
    v.push(RuleDescriptor {
        id: "RESOLVE-002",
        title: "Invalid module specifier",
        description: "Reports module specifiers that violate the analysis boundary.",
        category: "correctness",
        configurable: false,
    });
    v.push(RuleDescriptor {
        id: "SUPPRESS-001",
        title: "Unused suppression",
        description: "Reports suppression directives that did not match a diagnostic.",
        category: "maintainability",
        configurable: false,
    });
    assert(v@.map_values(|d: RuleDescriptor| descriptor_view(d)) =~= rule_table());
    v
}

/// The descriptor of the rule with id `id`, if it is registered.
pub fn descriptor(id: &str) -> (r: Option<RuleDescriptor>)
    ensures
        r is Some <==> exists|i: int| 0 <= i < rule_table().len() && rule_table()[i].0 == id@,
        r matches Some(d) ==> exists|i: int|
            0 <= i < rule_table().len() && rule_table()[i] == descriptor_view(d)
                && rule_table()[i].0 == id@ && forall|j: int| 0 <= j < i ==> rule_table()[j].0 != id@,
{
    let all = rules();
    let ghost table = rule_table();
    let mut i: usize = 0;
    while i < all.len()
        invariant
            i <= all@.len(),
            all@.len() == table.len(),
            table == rule_table(),
            forall|k: int| 0 <= k < all@.len() ==> descriptor_view(#[trigger] all@[k]) == table[k],
            forall|k: int| 0 <= k < i ==> table[k].0 != id@,
        decreases all@.len() - i,
    {
        assert(descriptor_view(all@[i as int]) == table[i as int]);
        if text_equal(all[i].id, id) {
            return Some(all[i]);
        }
        i = i + 1;
    }
    None
}

/// The ids of the configurable rules, in registry order.
pub open spec fn configurable_of(t: Seq<(Seq<char>, Seq<char>, Seq<char>, Seq<char>, bool)>) -> Seq<Seq<char>>
    decreases t.len(),
{
    if t.len() == 0 {
        Seq::empty()
    } else if t.last().4 {
        configurable_of(t.drop_last()).push(t.last().0)
    } else {
        configurable_of(t.drop_last())
    }
}

/// The ids of the rules that users can configure, in registry order.
pub fn configurable_ids() -> (r: Vec<&'static str>)
    ensures
        r@.map_values(|s: &'static str| s@) == configurable_of(rule_table()),
{
    let all = rules();
    let ghost table = rule_table();
    let mut out: Vec<&'static str> = Vec::new();
    let mut i: usize = 0;
    while i < all.len()
        invariant
            i <= all@.len(),
            all@.len() == table.len(),
            table == rule_table(),
            forall|k: int| 0 <= k < all@.len() ==> descriptor_view(#[trigger] all@[k]) == table[k],
            out@.map_values(|s: &'static str| s@) == configurable_of(table.take(i as int)),
        decreases all@.len() - i,
    {
        assert(descriptor_view(all@[i as int]) == table[i as int]);
        assert(table.take(i + 1).drop_last() =~= table.take(i as int));
        if all[i].configurable {
            let ghost prev = out@;
            out.push(all[i].id);
            assert(out@.map_values(|s: &'static str| s@) =~= prev.map_values(|s: &'static str| s@).push(all@[i as int].id@));
        }
        i = i + 1;
    }
    assert(table.take(i as int) =~= table);
    out
}

} // verus!
