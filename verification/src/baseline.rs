//! The diagnostic baseline: which findings are accepted, when entries expire, and which entries
//! a prune keeps.
use crate::config::{FailOn, OutputConfig};
use crate::decimal::{decimal, decimal_text};
use crate::diagnostic::{legacy_aliases, Diagnostic};
use crate::domain::Severity;
use crate::engine::{failure, FailurePolicy};
use crate::text::{concat, owned, text_equal};
use crate::text_set::{texts_contain, texts_of, TextSet};
use vstd::prelude::*;

verus! {

/// The baseline format this engine writes.
pub const BASELINE_SCHEMA_VERSION: u32 = 3;

/// One accepted finding: its fingerprint, rule, the first two modules of its path, and an
/// optional reason and expiry (seconds since the Unix epoch).
#[derive(Clone, Debug, PartialEq, Eq)]
pub struct BaselineEntry {
    pub fingerprint: String,
    pub rule_id: String,
    pub source: Option<String>,
    pub target: Option<String>,
    pub reason: Option<String>,
    pub expires_at: Option<u64>,
}

/// What saving a baseline did: where it was written and how many findings it recorded, and how
/// many it left out as suppressed or informational.
#[derive(Clone, Debug, PartialEq, Eq)]
pub struct SaveResult {
    pub path: String,
    pub recorded: usize,
    pub suppressed: usize,
    pub informational: usize,
}

/// The accepted fingerprints of a loaded baseline, and how many of its entries had expired.
#[derive(Debug)]
pub struct BaselineMatcher {
    fingerprints: TextSet,
    expired: usize,
}

/// The entry is live at `now`: it has no expiry or expires later.
pub open spec fn live_at(e: BaselineEntry, now: u64) -> bool {
    match e.expires_at {
        Some(t) => t > now,
        None => true,
    }
}

/// The number of entries that expired at or before `now`.
pub open spec fn expired_among(entries: Seq<BaselineEntry>, now: u64) -> nat
    decreases entries.len(),
{
    if entries.len() == 0 {
        0
    } else {
        expired_among(entries.drop_last(), now) + if live_at(entries.last(), now) {
            0nat
        } else {
            1nat
        }
    }
}

/// The fingerprints the diagnostic answers to: its own and its legacy ones.
pub open spec fn answers_to(d: Diagnostic, f: Seq<char>) -> bool {
    d.fingerprint@ == f || legacy_aliases(d).contains(f)
}

/// Some diagnostic answers to the fingerprint.
pub open spec fn live_fingerprint(diagnostics: Seq<Diagnostic>, f: Seq<char>) -> bool {
    exists|k: int| 0 <= k < diagnostics.len() && answers_to(#[trigger] diagnostics[k], f)
}

/// The number of fingerprints of `s` that some diagnostic answers to.
pub open spec fn live_count(s: Seq<Seq<char>>, diagnostics: Seq<Diagnostic>) -> nat
    decreases s.len(),
{
    if s.len() == 0 {
        0
    } else {
        live_count(s.drop_last(), diagnostics) + if live_fingerprint(diagnostics, s.last()) {
            1nat
        } else {
            0nat
        }
    }
}

fn answers(d: &Diagnostic, aliases: &Vec<String>, f: &str) -> (r: bool)
    requires
        texts_of(aliases@) == legacy_aliases(*d),
    ensures
        r == answers_to(*d, f@),
{
    text_equal(d.fingerprint.as_str(), f) || texts_contain(aliases, f)
}

impl BaselineMatcher {
    /// The accepted fingerprints.
    pub closed spec fn accepted(&self) -> Seq<Seq<char>> {
        self.fingerprints.members()
    }

    /// How many entries had expired when the baseline was loaded.
    pub closed spec fn expired_entries(&self) -> usize {
        self.expired
    }

    /// The matcher of a stored baseline read at `now`: version 1 lists bare fingerprints;
    /// versions 2 and 3 list entries, of which those expired at `now` are counted and left out.
    pub fn from_stored(schema_version: u32, fingerprints: Vec<String>, entries: Vec<BaselineEntry>, now: u64) -> (r: Result<
        BaselineMatcher,
        String,
    >)
        ensures
            match r {
                Ok(m) => (schema_version == 1 || schema_version == 2 || schema_version == 3) && (forall|f: Seq<char>|
                    #[trigger] m.accepted().contains(f) <==> if schema_version == 1 {
                        texts_of(fingerprints@).contains(f)
                    } else {
                        exists|k: int|
                            0 <= k < entries@.len() && live_at(#[trigger] entries@[k], now) && entries@[k].fingerprint@ == f
                    }) && m.expired_entries() == if schema_version == 1 {
                    0
                } else {
                    expired_among(entries@, now)
                },
                Err(message) => !(schema_version == 1 || schema_version == 2 || schema_version == 3) && message@
                    == "unsupported baseline schema version `"@ + decimal_text(schema_version as nat) + "`"@,
            },
    {
        if schema_version == 1 {
            let mut set = TextSet::new();
            let mut i: usize = 0;
            while i < fingerprints.len()
                invariant
                    i <= fingerprints@.len(),
                    forall|f: Seq<char>| #[trigger] set.members().contains(f) <==> texts_of(fingerprints@.take(i as int)).contains(f),
                decreases fingerprints@.len() - i,
            {
                set.insert(fingerprints[i].clone());
                proof {
                    let before = texts_of(fingerprints@.take(i as int));
                    let after = texts_of(fingerprints@.take(i + 1));
                    assert(after =~= before.push(fingerprints@[i as int]@));
                    assert forall|f: Seq<char>| #[trigger] set.members().contains(f) <==> after.contains(f) by {
                        if before.contains(f) {
                            let j = choose|j: int| 0 <= j < before.len() && before[j] == f;
                            assert(after[j] == f);
                        }
                        if after.contains(f) && f != fingerprints@[i as int]@ {
                            let j = choose|j: int| 0 <= j < after.len() && after[j] == f;
                            assert(before[j] == f);
                        }
                        if f == fingerprints@[i as int]@ {
                            assert(after[i as int] == f);
                        }
                    }
                }
                i = i + 1;
            }
            assert(fingerprints@.take(i as int) =~= fingerprints@);
            return Ok(BaselineMatcher { fingerprints: set, expired: 0 });
        }
        if schema_version == 2 || schema_version == 3 {
            let mut set = TextSet::new();
            let mut expired: usize = 0;
            let mut i: usize = 0;
            while i < entries.len()
                invariant
                    i <= entries@.len(),
                    expired == expired_among(entries@.take(i as int), now),
                    expired <= i,
                    forall|f: Seq<char>|
                        #[trigger] set.members().contains(f) <==> exists|k: int|
                            0 <= k < i && live_at(#[trigger] entries@[k], now) && entries@[k].fingerprint@ == f,
                decreases entries@.len() - i,
            {
                proof {
                    assert(entries@.take(i + 1).drop_last() =~= entries@.take(i as int));
                }
                let entry = &entries[i];
                let live = match entry.expires_at {
                    Some(t) => t > now,
                    None => true,
                };
                let ghost before = set.members();
                if live {
                    set.insert(entry.fingerprint.clone());
                } else {
                    expired = expired + 1;
                }
                proof {
                    assert forall|f: Seq<char>|
                        #[trigger] set.members().contains(f) <==> exists|k: int|
                            0 <= k < i + 1 && live_at(#[trigger] entries@[k], now) && entries@[k].fingerprint@ == f by {
                        if live && f == entry.fingerprint@ {
                            assert(live_at(entries@[i as int], now) && entries@[i as int].fingerprint@ == f);
                        }
                        if exists|k: int| 0 <= k < i + 1 && live_at(#[trigger] entries@[k], now) && entries@[k].fingerprint@ == f {
                            let k = choose|k: int| 0 <= k < i + 1 && live_at(#[trigger] entries@[k], now) && entries@[k].fingerprint@ == f;
                            if k < i {
                                assert(before.contains(f));
                            }
                        }
                    }
                }
                i = i + 1;
            }
            assert(entries@.take(i as int) =~= entries@);
            return Ok(BaselineMatcher { fingerprints: set, expired });
        }
        let version = decimal(schema_version as u64);
        let head = concat("unsupported baseline schema version `", version.as_str());
        Err(concat(head.as_str(), "`"))
    }

    /// Whether the baseline accepts the diagnostic, by its fingerprint or a legacy one.
    pub fn matches(&self, diagnostic: &Diagnostic) -> (r: bool)
        ensures
            r == exists|k: int| 0 <= k < self.accepted().len() && answers_to(*diagnostic, #[trigger] self.accepted()[k]),
    {
        if self.fingerprints.contains(diagnostic.fingerprint.as_str()) {
            proof {
                let k = choose|k: int| 0 <= k < self.accepted().len() && self.accepted()[k] == diagnostic.fingerprint@;
                assert(answers_to(*diagnostic, self.accepted()[k]));
            }
            return true;
        }
        let aliases = diagnostic.legacy_fingerprint_aliases();
        let mut i: usize = 0;
        while i < aliases.len()
            invariant
                i <= aliases@.len(),
                texts_of(aliases@) == legacy_aliases(*diagnostic),
                !self.accepted().contains(diagnostic.fingerprint@),
                forall|m: int| 0 <= m < i ==> !self.accepted().contains(#[trigger] aliases@[m]@),
            decreases aliases@.len() - i,
        {
            if self.fingerprints.contains(aliases[i].as_str()) {
                proof {
                    let k = choose|k: int| 0 <= k < self.accepted().len() && self.accepted()[k] == aliases@[i as int]@;
                    assert(texts_of(aliases@)[i as int] == aliases@[i as int]@);
                    assert(answers_to(*diagnostic, self.accepted()[k]));
                }
                return true;
            }
            i = i + 1;
        }
        proof {
            assert forall|k: int| 0 <= k < self.accepted().len() implies !answers_to(*diagnostic, #[trigger] self.accepted()[k]) by {
                let f = self.accepted()[k];
                assert(self.accepted().contains(f));
                if legacy_aliases(*diagnostic).contains(f) {
                    let m = choose|m: int| 0 <= m < legacy_aliases(*diagnostic).len() && legacy_aliases(*diagnostic)[m] == f;
                    assert(texts_of(aliases@)[m] == aliases@[m]@);
                }
            }
        }
        false
    }

    /// The number of accepted fingerprints.
    pub fn len(&self) -> (r: usize)
        ensures
            r == self.accepted().len(),
    {
        self.fingerprints.len()
    }

    /// How many accepted fingerprints some diagnostic still answers to.
    pub fn matched_count(&self, diagnostics: &[Diagnostic]) -> (r: usize)
        ensures
            r == live_count(self.accepted(), diagnostics@),
    {
        let members = self.fingerprints.iter();
        let ghost s = self.accepted();
        let mut count: usize = 0;
        let mut i: usize = 0;
        while i < members.len()
            invariant
                i <= members@.len(),
                texts_of(members@) == s,
                count == live_count(s.take(i as int), diagnostics@),
                count <= i,
            decreases members@.len() - i,
        {
            proof {
                assert(s.take(i + 1).drop_last() =~= s.take(i as int));
                assert(s[i as int] == members@[i as int]@);
            }
            let f = members[i].as_str();
            let mut found = false;
            let mut k: usize = 0;
            while k < diagnostics.len()
                invariant
                    k <= diagnostics@.len(),
                    found == exists|m: int| 0 <= m < k && answers_to(#[trigger] diagnostics@[m], f@),
                decreases diagnostics@.len() - k,
            {
                let aliases = diagnostics[k].legacy_fingerprint_aliases();
                if answers(&diagnostics[k], &aliases, f) {
                    found = true;
                }
                k = k + 1;
            }
            if found {
                count = count + 1;
            }
            i = i + 1;
        }
        assert(s.take(i as int) =~= s);
        count
    }

    /// How many accepted fingerprints some failing diagnostic still answers to.
    pub fn matched_failing_count(&self, diagnostics: &[Diagnostic]) -> (r: usize)
        ensures
            r == live_failing_count(self.accepted(), diagnostics@),
    {
        let members = self.fingerprints.iter();
        let ghost s = self.accepted();
        let mut count: usize = 0;
        let mut i: usize = 0;
        while i < members.len()
            invariant
                i <= members@.len(),
                texts_of(members@) == s,
                count == live_failing_count(s.take(i as int), diagnostics@),
                count <= i,
            decreases members@.len() - i,
        {
            proof {
                assert(s.take(i + 1).drop_last() =~= s.take(i as int));
                assert(s[i as int] == members@[i as int]@);
            }
            let f = members[i].as_str();
            let mut found = false;
            let mut k: usize = 0;
            while k < diagnostics.len()
                invariant
                    k <= diagnostics@.len(),
                    found == exists|m: int| 0 <= m < k && failure(diagnostics@[m]) && answers_to(#[trigger] diagnostics@[m], f@),
                decreases diagnostics@.len() - k,
            {
                let aliases = diagnostics[k].legacy_fingerprint_aliases();
                if FailurePolicy::is_failure(&diagnostics[k]) && answers(&diagnostics[k], &aliases, f) {
                    found = true;
                }
                k = k + 1;
            }
            if found {
                count = count + 1;
            }
            i = i + 1;
        }
        assert(s.take(i as int) =~= s);
        count
    }

    /// How many entries had expired when the baseline was loaded.
    pub fn expired_count(&self) -> (r: usize)
        ensures
            r == self.expired_entries(),
    {
        self.expired
    }

    /// Whether `fingerprint` is accepted.
    pub fn contains(&self, fingerprint: &str) -> (r: bool)
        ensures
            r == self.accepted().contains(fingerprint@),
    {
        self.fingerprints.contains(fingerprint)
    }
}

impl Default for BaselineMatcher {
    fn default() -> (r: Self)
        ensures
            r.accepted().len() == 0,
            r.expired_entries() == 0,
    {
        BaselineMatcher { fingerprints: TextSet::new(), expired: 0 }
    }
}

/// The number of fingerprints of `s` that some failing diagnostic answers to.
pub open spec fn live_failing_count(s: Seq<Seq<char>>, diagnostics: Seq<Diagnostic>) -> nat
    decreases s.len(),
{
    if s.len() == 0 {
        0
    } else {
        live_failing_count(s.drop_last(), diagnostics) + if exists|k: int|
            0 <= k < diagnostics.len() && failure(diagnostics[k]) && answers_to(#[trigger] diagnostics[k], s.last()) {
            1nat
        } else {
            0nat
        }
    }
}

/// The entries that a prune keeps at `now`: live ones that some diagnostic still answers to.
pub open spec fn kept_entry(e: BaselineEntry, now: u64, diagnostics: Seq<Diagnostic>) -> bool {
    live_at(e, now) && live_fingerprint(diagnostics, e.fingerprint@)
}

/// The entries a prune keeps, in order.
pub fn prune_entries(entries: Vec<BaselineEntry>, diagnostics: &[Diagnostic], now: u64) -> (r: Vec<BaselineEntry>)
    ensures
        r@ == entries@.filter(|e: BaselineEntry| kept_entry(e, now, diagnostics@)),
{
    let ghost keep = |e: BaselineEntry| kept_entry(e, now, diagnostics@);
    let ghost all = entries@;
    let mut kept: Vec<BaselineEntry> = Vec::new();
    for entry in it: entries
        invariant
            it.seq() == all,
            keep == (|e: BaselineEntry| kept_entry(e, now, diagnostics@)),
            kept@ == all.take(it.index() as int).filter(keep),
    {
        let ghost k = it.index();
        proof {
            reveal(Seq::filter);
            assert(entry == all[k as int]);
            let t = all.take(k + 1);
            assert(t.drop_last() =~= all.take(k as int));
            assert(t.last() == entry);
            assert(t.len() == k + 1);
        }
        let live = match entry.expires_at {
            Some(t) => t > now,
            None => true,
        };
        let mut answered = false;
        let mut d: usize = 0;
        while d < diagnostics.len()
            invariant
                d <= diagnostics@.len(),
                answered == exists|m: int| 0 <= m < d && answers_to(#[trigger] diagnostics@[m], entry.fingerprint@),
            decreases diagnostics@.len() - d,
        {
            let aliases = diagnostics[d].legacy_fingerprint_aliases();
            if answers(&diagnostics[d], &aliases, entry.fingerprint.as_str()) {
                answered = true;
            }
            d = d + 1;
        }
        if live && answered {
            kept.push(entry);
        }
        proof {
            reveal(Seq::filter);
        }
    }
    proof {
        assert(all.take(all.len() as int) =~= all);
    }
    kept
}

/// An entry is listed under the rule filter: every entry without one, those of the rule with one.
pub open spec fn listed_under(e: BaselineEntry, rule: Option<Seq<char>>) -> bool {
    match rule {
        Some(r) => e.rule_id@ == r,
        None => true,
    }
}

/// The text of an optional rule id.
pub open spec fn rule_text(rule: Option<&str>) -> Option<Seq<char>> {
    match rule {
        Some(x) => Some(x@),
        None => None,
    }
}

/// The stored entries that `baseline list` shows, in order: those of the given rule, or all of
/// them; a baseline older than schema 2 has no entries to list and is an error.
pub fn list_entries(schema_version: u32, entries: Vec<BaselineEntry>, rule: Option<&str>) -> (r: Result<
    Vec<BaselineEntry>,
    String,
>)
    ensures
        (schema_version == 2 || schema_version == BASELINE_SCHEMA_VERSION) ==> r is Ok && r->Ok_0@
            == entries@.filter(|e: BaselineEntry| listed_under(e, rule_text(rule))),
        !(schema_version == 2 || schema_version == BASELINE_SCHEMA_VERSION) ==> r is Err && r->Err_0@
            == "baseline list requires schema v2 or newer; recreate the baseline"@,
{
    if !(schema_version == 2 || schema_version == BASELINE_SCHEMA_VERSION) {
        return Err(owned("baseline list requires schema v2 or newer; recreate the baseline"));
    }
    let ghost keep = |e: BaselineEntry| listed_under(e, rule_text(rule));
    let ghost all = entries@;
    let mut kept: Vec<BaselineEntry> = Vec::new();
    for entry in it: entries
        invariant
            it.seq() == all,
            keep == (|e: BaselineEntry| listed_under(e, rule_text(rule))),
            kept@ == all.take(it.index() as int).filter(keep),
    {
        let ghost k = it.index();
        proof {
            reveal(Seq::filter);
            assert(entry == all[k as int]);
            let t = all.take(k + 1);
            assert(t.drop_last() =~= all.take(k as int));
            assert(t.last() == entry);
        }
        let listed = match rule {
            Some(x) => text_equal(entry.rule_id.as_str(), x),
            None => true,
        };
        if listed {
            kept.push(entry);
        }
    }
    proof {
        assert(all.take(all.len() as int) =~= all);
    }
    Ok(kept)
}

/// The number of unsuppressed warnings.
pub open spec fn warning_count(diagnostics: Seq<Diagnostic>) -> nat
    decreases diagnostics.len(),
{
    if diagnostics.len() == 0 {
        0
    } else {
        warning_count(diagnostics.drop_last()) + if !diagnostics.last().suppressed && diagnostics.last().severity
            == Severity::Warning {
            1nat
        } else {
            0nat
        }
    }
}

/// The count exceeds the budget, when there is one.
pub open spec fn over_budget(budget: Option<usize>, count: nat) -> bool {
    match budget {
        Some(m) => count > m,
        None => false,
    }
}

/// Whether the warnings exceed an aggregate budget that only failing on errors can express, so
/// that a baseline of individual findings cannot represent it.
pub fn warning_budget_exceeded(output: &OutputConfig, diagnostics: &[Diagnostic]) -> (r: bool)
    ensures
        r == (output.fail_on == FailOn::Error && over_budget(output.max_warnings, warning_count(diagnostics@))),
{
    let mut count: usize = 0;
    let mut i: usize = 0;
    while i < diagnostics.len()
        invariant
            i <= diagnostics@.len(),
            count == warning_count(diagnostics@.take(i as int)),
            count <= i,
        decreases diagnostics@.len() - i,
    {
        assert(diagnostics@.take(i + 1).drop_last() =~= diagnostics@.take(i as int));
        if !diagnostics[i].suppressed && diagnostics[i].severity == Severity::Warning {
            count = count + 1;
        }
        i = i + 1;
    }
    assert(diagnostics@.take(i as int) =~= diagnostics@);
    match output.fail_on {
        FailOn::Error => match output.max_warnings {
            Some(m) => count > m,
            None => false,
        },
        FailOn::Warning => false,
    }
}

} // verus!
