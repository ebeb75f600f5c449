//! Diagnostics and their stable semantic identity. The fingerprint is derived from the rule and
//! the involved modules only; presentation fields (message, severity, suggestion, metadata, line
//! and column numbers) never take part in it.
use crate::domain::{ModuleId, RuleId, Severity, SourceLocation};
use crate::fingerprint::{fingerprint_of, stable_fingerprint};
use crate::map::OrderedMap;
use crate::text::{append, lemma_text_lt_total, owned, portable, text_equal, text_less, text_lt, to_portable};
use vstd::prelude::*;

verus! {

#[derive(Clone, Debug, PartialEq, Eq)]
pub struct Diagnostic {
    /// Stable semantic identity derived from the rule and involved modules.
    pub fingerprint: String,
    pub rule_id: RuleId,
    pub severity: Severity,
    pub message: String,
    pub primary_location: Option<SourceLocation>,
    pub secondary_locations: Vec<SourceLocation>,
    pub dependency_path: Vec<ModuleId>,
    pub suggestion: Option<String>,
    pub metadata: OrderedMap<String, String>,
    /// Optional semantic target used when no resolved dependency target exists (for example,
    /// the requested specifier of an unresolved import).
    pub identity_target: Option<ModuleId>,
    pub suppressed: bool,
    pub suppression_reason: Option<String>,
}

#[derive(Clone, Debug, PartialEq, Eq, Hash)]
pub struct StableLocation {
    pub file: String,
}

#[derive(Clone, Debug, PartialEq, Eq, Hash)]
pub struct DiagnosticIdentity {
    pub rule_id: RuleId,
    pub source: Option<ModuleId>,
    pub target: Option<ModuleId>,
    pub stable_location: Option<StableLocation>,
}

pub open spec fn module_text(m: Option<ModuleId>) -> Option<Seq<char>> {
    match m {
        Some(id) => Some(id@),
        None => None,
    }
}

/// The identity's source: the first module of the dependency path, else the primary file.
pub open spec fn identity_source(d: Diagnostic) -> Option<Seq<char>> {
    if d.dependency_path@.len() > 0 {
        Some(d.dependency_path@[0]@)
    } else {
        match d.primary_location {
            Some(location) => Some(location.file@),
            None => None,
        }
    }
}

/// The identity's target: the explicit identity target, else the second path module.
pub open spec fn identity_target(d: Diagnostic) -> Option<Seq<char>> {
    match d.identity_target {
        Some(target) => Some(target@),
        None => if d.dependency_path@.len() > 1 {
            Some(d.dependency_path@[1]@)
        } else {
            None
        },
    }
}

/// The primary file with portable separators.
pub open spec fn identity_file(d: Diagnostic) -> Option<Seq<char>> {
    match d.primary_location {
        Some(location) => Some(portable(location.file@)),
        None => None,
    }
}

/// The canonical text of an identity.
pub open spec fn canonical_text(
    rule: Seq<char>,
    source: Option<Seq<char>>,
    target: Option<Seq<char>>,
    file: Option<Seq<char>>,
) -> Seq<char> {
    let with_source = match source {
        Some(s) => rule + "|source="@ + portable(s),
        None => rule,
    };
    let with_target = match target {
        Some(t) => with_source + "|target="@ + portable(t),
        None => with_source,
    };
    match (source, file) {
        (None, Some(f)) => with_target + "|file="@ + f,
        _ => with_target,
    }
}

/// The fingerprint that `refresh_fingerprint` stores for a diagnostic.
pub open spec fn identity_fingerprint(d: Diagnostic) -> Seq<char> {
    fingerprint_of(
        canonical_text(d.rule_id@, identity_source(d), identity_target(d), identity_file(d)),
    )
}

/// The module part of a legacy identity: `|` and the portable path of each module.
pub open spec fn legacy_path_text(path: Seq<ModuleId>) -> Seq<char>
    decreases path.len(),
{
    if path.len() == 0 {
        Seq::empty()
    } else {
        legacy_path_text(path.drop_last()) + "|"@ + portable(path.last()@)
    }
}

/// The metadata part of a legacy identity, in key order, optionally without `related_rules`.
pub open spec fn legacy_metadata_text(
    pairs: Seq<(String, String)>,
    ignore_presentation: bool,
) -> Seq<char>
    decreases pairs.len(),
{
    if pairs.len() == 0 {
        Seq::empty()
    } else {
        let prefix = legacy_metadata_text(pairs.drop_last(), ignore_presentation);
        let (key, value) = pairs.last();
        if ignore_presentation && key@ == "related_rules"@ {
            prefix
        } else {
            prefix + "|"@ + key@ + "="@ + value@
        }
    }
}

/// The identity text that earlier fingerprints were computed from.
pub open spec fn legacy_text(d: Diagnostic, ignore_presentation: bool) -> Seq<char> {
    let head = if d.dependency_path@.len() == 0 {
        match d.primary_location {
            Some(location) => d.rule_id@ + "|"@ + portable(location.file@),
            None => d.rule_id@,
        }
    } else {
        d.rule_id@
    };
    head + legacy_path_text(d.dependency_path@) + legacy_metadata_text(
        d.metadata.pairs(),
        ignore_presentation,
    )
}

/// The sorted, deduplicated legacy fingerprints.
pub open spec fn legacy_aliases(d: Diagnostic) -> Seq<Seq<char>> {
    let a = fingerprint_of(legacy_text(d, false));
    let b = fingerprint_of(legacy_text(d, true));
    if a == b {
        seq![a]
    } else if text_lt(a, b) {
        seq![a, b]
    } else {
        seq![b, a]
    }
}

impl DiagnosticIdentity {
    /// The canonical text that the fingerprint hashes.
    pub fn canonical(&self) -> (r: String)
        ensures
            r@ == canonical_text(
                self.rule_id@,
                module_text(self.source),
                module_text(self.target),
                match self.stable_location {
                    Some(l) => Some(l.file@),
                    None => None,
                },
            ),
    {
        let mut value = self.rule_id.0.clone();
        match &self.source {
            Some(source) => {
                append(&mut value, "|source=");
                let p = to_portable(source.0.as_str());
                append(&mut value, p.as_str());
            },
            None => {},
        }
        match &self.target {
            Some(target) => {
                append(&mut value, "|target=");
                let p = to_portable(target.0.as_str());
                append(&mut value, p.as_str());
            },
            None => {},
        }
        if self.source.is_none() {
            match &self.stable_location {
                Some(location) => {
                    append(&mut value, "|file=");
                    append(&mut value, location.file.as_str());
                },
                None => {},
            }
        }
        value
    }
}

impl Diagnostic {
    /// A diagnostic for `rule_id` with `message`; every other field is empty, the severity is
    /// `Error` and the fingerprint is not yet computed.
    pub fn new(rule_id: &str, message: &str) -> (r: Self)
        ensures
            r.rule_id@ == rule_id@,
            r.message@ == message@,
            r.fingerprint@ == Seq::<char>::empty(),
            r.severity == Severity::Error,
            r.primary_location is None,
            r.secondary_locations@.len() == 0,
            r.dependency_path@.len() == 0,
            r.suggestion is None,
            r.metadata.pairs().len() == 0,
            r.identity_target is None,
            !r.suppressed,
            r.suppression_reason is None,
    {
        Diagnostic {
            fingerprint: String::new(),
            rule_id: RuleId(owned(rule_id)),
            severity: Severity::Error,
            message: owned(message),
            primary_location: None,
            secondary_locations: Vec::new(),
            dependency_path: Vec::new(),
            suggestion: None,
            metadata: OrderedMap::new(),
            identity_target: None,
            suppressed: false,
            suppression_reason: None,
        }
    }

    /// The semantic identity: rule, source module, target module and portable primary file.
    pub fn identity(&self) -> (r: DiagnosticIdentity)
        ensures
            r.rule_id@ == self.rule_id@,
            module_text(r.source) == identity_source(*self),
            module_text(r.target) == identity_target(*self),
            match r.stable_location {
                Some(l) => identity_file(*self) == Some(l.file@),
                None => identity_file(*self) is None,
            },
    {
        let source = if self.dependency_path.len() > 0 {
            Some(self.dependency_path[0].duplicate())
        } else {
            match &self.primary_location {
                Some(location) => Some(ModuleId(location.file.clone())),
                None => None,
            }
        };
        let target = match &self.identity_target {
            Some(target) => Some(target.duplicate()),
            None => if self.dependency_path.len() > 1 {
                Some(self.dependency_path[1].duplicate())
            } else {
                None
            },
        };
        let stable_location = match &self.primary_location {
            Some(location) => Some(StableLocation { file: to_portable(location.file.as_str()) }),
            None => None,
        };
        DiagnosticIdentity { rule_id: self.rule_id.duplicate(), source, target, stable_location }
    }

    /// Recomputes the fingerprint from the identity; nothing else changes.
    pub fn refresh_fingerprint(&mut self)
        ensures
            final(self).fingerprint@ == identity_fingerprint(*old(self)),
            *final(self) == (Diagnostic { fingerprint: final(self).fingerprint, ..*old(self) }),
    {
        let identity = self.identity();
        let text = identity.canonical();
        self.fingerprint = stable_fingerprint(text.as_str());
    }

    /// The legacy identity text, with or without the `related_rules` metadata entry.
    fn legacy_identity(&self, ignore_presentation: bool) -> (r: String)
        ensures
            r@ == legacy_text(*self, ignore_presentation),
    {
        let mut identity = self.rule_id.0.clone();
        if self.dependency_path.len() == 0 {
            match &self.primary_location {
                Some(location) => {
                    append(&mut identity, "|");
                    let p = to_portable(location.file.as_str());
                    append(&mut identity, p.as_str());
                },
                None => {},
            }
        }
        let ghost head = identity@;
        let mut i: usize = 0;
        while i < self.dependency_path.len()
            invariant
                i <= self.dependency_path@.len(),
                identity@ == head + legacy_path_text(self.dependency_path@.take(i as int)),
            decreases self.dependency_path@.len() - i,
        {
            append(&mut identity, "|");
            let p = to_portable(self.dependency_path[i].0.as_str());
            append(&mut identity, p.as_str());
            proof {
                assert(self.dependency_path@.take(i + 1).drop_last() =~= self.dependency_path@.take(
                    i as int,
                ));
            }
            i = i + 1;
        }
        assert(self.dependency_path@.take(i as int) =~= self.dependency_path@);
        let ghost middle = identity@;
        let pairs = self.metadata.entries();
        let mut j: usize = 0;
        while j < pairs.len()
            invariant
                j <= pairs@.len(),
                pairs@ == self.metadata.pairs(),
                identity@ == middle + legacy_metadata_text(pairs@.take(j as int), ignore_presentation),
            decreases pairs@.len() - j,
        {
            let skip = ignore_presentation && text_equal(pairs[j].0.as_str(), "related_rules");
            if !skip {
                append(&mut identity, "|");
                append(&mut identity, pairs[j].0.as_str());
                append(&mut identity, "=");
                append(&mut identity, pairs[j].1.as_str());
            }
            proof {
                assert(pairs@.take(j + 1).drop_last() =~= pairs@.take(j as int));
            }
            j = j + 1;
        }
        assert(pairs@.take(j as int) =~= pairs@);
        identity
    }

    /// Fingerprints of the legacy identities (with and without presentation metadata), sorted
    /// and without duplicates. Baseline matching uses them while migrating.
    pub fn legacy_fingerprint_aliases(&self) -> (r: Vec<String>)
        ensures
            r@.map_values(|s: String| s@) == legacy_aliases(*self),
    {
        let with_all = stable_fingerprint(self.legacy_identity(false).as_str());
        let without = stable_fingerprint(self.legacy_identity(true).as_str());
        let mut aliases: Vec<String> = Vec::new();
        if text_equal(with_all.as_str(), without.as_str()) {
            aliases.push(with_all);
        } else if text_less(with_all.as_str(), without.as_str()) {
            aliases.push(with_all);
            aliases.push(without);
        } else {
            aliases.push(without);
            aliases.push(with_all);
        }
        proof {
            assert(aliases@.map_values(|s: String| s@) =~= legacy_aliases(*self));
        }
        aliases
    }
}

impl Default for Diagnostic {
    fn default() -> (r: Self)
        ensures
            r.rule_id@ == "ARCH-000"@,
            r.message@ == Seq::<char>::empty(),
            r.fingerprint@ == Seq::<char>::empty(),
            r.severity == Severity::Error,
            r.primary_location is None,
            r.secondary_locations@.len() == 0,
            r.dependency_path@.len() == 0,
            r.suggestion is None,
            r.metadata.pairs().len() == 0,
            r.identity_target is None,
            !r.suppressed,
            r.suppression_reason is None,
    {
        Diagnostic {
            fingerprint: String::new(),
            rule_id: RuleId::default(),
            severity: Severity::Error,
            message: String::new(),
            primary_location: None,
            secondary_locations: Vec::new(),
            dependency_path: Vec::new(),
            suggestion: None,
            metadata: OrderedMap::new(),
            identity_target: None,
            suppressed: false,
            suppression_reason: None,
        }
    }
}

/// Presentation fields never reach the fingerprint: two diagnostics that agree on the rule, the
/// first two modules of the dependency path, the explicit identity target and the primary file
/// have the same fingerprint, whatever their message, severity, suggestion, metadata, line,
/// column or further path modules.
pub proof fn lemma_fingerprint_ignores_presentation(a: Diagnostic, b: Diagnostic)
    requires
        a.rule_id@ == b.rule_id@,
        a.dependency_path@.len() == b.dependency_path@.len() || (a.dependency_path@.len() >= 2
            && b.dependency_path@.len() >= 2),
        a.dependency_path@.len() > 0 ==> a.dependency_path@[0]@ == b.dependency_path@[0]@,
        a.dependency_path@.len() > 1 ==> a.dependency_path@[1]@ == b.dependency_path@[1]@,
        module_text(a.identity_target) == module_text(b.identity_target),
        a.primary_location is Some <==> b.primary_location is Some,
        a.primary_location is Some ==> a.primary_location->0.file@
            == b.primary_location->0.file@,
    ensures
        identity_fingerprint(a) == identity_fingerprint(b),
{
}


/// With no `related_rules` entry, the metadata text is the same whether or not that entry is
/// left out.
proof fn lemma_metadata_text_plain(pairs: Seq<(String, String)>)
    requires
        forall|i: int| 0 <= i < pairs.len() ==> (#[trigger] pairs[i]).0@ != "related_rules"@,
    ensures
        legacy_metadata_text(pairs, false) == legacy_metadata_text(pairs, true),
    decreases pairs.len(),
{
    if pairs.len() > 0 {
        let rest = pairs.drop_last();
        assert forall|i: int| 0 <= i < rest.len() implies (#[trigger] rest[i]).0@ != "related_rules"@ by {
            assert(rest[i] == pairs[i]);
        }
        lemma_metadata_text_plain(rest);
        assert(pairs.last() == pairs[pairs.len() - 1]);
    }
}

/// A `related_rules` entry, wherever it stands, leaves the metadata text without it unchanged.
proof fn lemma_metadata_text_insert(pairs: Seq<(String, String)>, k: int, e: (String, String))
    requires
        0 <= k <= pairs.len(),
        e.0@ == "related_rules"@,
    ensures
        legacy_metadata_text(pairs.insert(k, e), true) == legacy_metadata_text(pairs, true),
    decreases pairs.len(),
{
    let q = pairs.insert(k, e);
    if k == pairs.len() {
        assert(q.drop_last() =~= pairs);
        assert(q.last() == e);
    } else {
        let rest = pairs.drop_last();
        lemma_metadata_text_insert(rest, k, e);
        assert(q.drop_last() =~= rest.insert(k, e));
        assert(q.last() == pairs.last());
    }
}

/// A diagnostic has one or two legacy fingerprints, in ascending order, one of them always that
/// of the identity without `related_rules`; with no `related_rules` entry it has exactly one.
pub proof fn lemma_legacy_aliases(d: Diagnostic)
    ensures
        1 <= legacy_aliases(d).len() <= 2,
        legacy_aliases(d).len() == 2 ==> text_lt(legacy_aliases(d)[0], legacy_aliases(d)[1]),
        legacy_aliases(d).contains(fingerprint_of(legacy_text(d, true))),
        (forall|i: int| 0 <= i < d.metadata.pairs().len() ==> (#[trigger] d.metadata.pairs()[i]).0@ != "related_rules"@)
            ==> legacy_aliases(d).len() == 1,
{
    let a = fingerprint_of(legacy_text(d, false));
    let b = fingerprint_of(legacy_text(d, true));
    if a == b {
        assert(legacy_aliases(d)[0] == b);
    } else if text_lt(a, b) {
        assert(legacy_aliases(d)[1] == b);
    } else {
        assert(legacy_aliases(d)[0] == b);
        lemma_text_lt_total(a, b);
    }
    if forall|i: int| 0 <= i < d.metadata.pairs().len() ==> (#[trigger] d.metadata.pairs()[i]).0@ != "related_rules"@ {
        lemma_metadata_text_plain(d.metadata.pairs());
    }
}

/// Setting `related_rules` on a diagnostic that has no such entry keeps its one legacy
/// fingerprint among the legacy fingerprints of the result, so baselines written before still
/// match it.
pub proof fn lemma_related_rules_keep_alias(d: Diagnostic, d2: Diagnostic, k: int, e: (String, String))
    requires
        forall|i: int| 0 <= i < d.metadata.pairs().len() ==> (#[trigger] d.metadata.pairs()[i]).0@ != "related_rules"@,
        e.0@ == "related_rules"@,
        0 <= k <= d.metadata.pairs().len(),
        d2.metadata.pairs() == d.metadata.pairs().insert(k, e),
        d2.rule_id == d.rule_id,
        d2.dependency_path == d.dependency_path,
        d2.primary_location == d.primary_location,
    ensures
        legacy_aliases(d).len() == 1,
        legacy_aliases(d2).contains(legacy_aliases(d)[0]),
{
    lemma_legacy_aliases(d);
    lemma_legacy_aliases(d2);
    lemma_metadata_text_insert(d.metadata.pairs(), k, e);
    assert(legacy_text(d2, true) == legacy_text(d, true));
    lemma_metadata_text_plain(d.metadata.pairs());
    assert(legacy_aliases(d)[0] == fingerprint_of(legacy_text(d, true)));
}

} // verus!
