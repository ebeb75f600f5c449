//! A check of changed modules against the baseline: which findings it reports, and the
//! regression summary beside them.
use crate::baseline::{answers_to, live_failing_count, BaselineMatcher};
use crate::diagnostic::Diagnostic;
use crate::engine::{failure, failure_count, FailurePolicy};
use crate::text_set::TextSet;
use vstd::prelude::*;

verus! {

/// The diagnostic's primary file or a module of its dependency path is among `affected`.
pub open spec fn affects(d: Diagnostic, affected: Seq<Seq<char>>) -> bool {
    ||| (d.primary_location matches Some(l) && affected.contains(l.file@))
    ||| exists|i: int| 0 <= i < d.dependency_path@.len() && affected.contains(#[trigger] d.dependency_path@[i]@)
}

/// The baseline accepts the diagnostic.
pub open spec fn accepted_by(m: BaselineMatcher, d: Diagnostic) -> bool {
    exists|k: int| 0 <= k < m.accepted().len() && answers_to(d, #[trigger] m.accepted()[k])
}

/// A changed-module check reports the diagnostics that touch an affected module and that the
/// baseline does not accept.
pub open spec fn reported(d: Diagnostic, affected: Seq<Seq<char>>, m: BaselineMatcher) -> bool {
    affects(d, affected) && !accepted_by(m, d)
}

/// The diagnostics of `ds` that a changed-module check reports, in order.
pub open spec fn reported_of(ds: Seq<Diagnostic>, affected: Seq<Seq<char>>, m: BaselineMatcher) -> Seq<Diagnostic>
    decreases ds.len(),
{
    if ds.len() == 0 {
        Seq::empty()
    } else if reported(ds.last(), affected, m) {
        reported_of(ds.drop_last(), affected, m).push(ds.last())
    } else {
        reported_of(ds.drop_last(), affected, m)
    }
}

/// The failing diagnostics that touch an affected module and that the baseline accepts.
pub open spec fn existing_of(ds: Seq<Diagnostic>, affected: Seq<Seq<char>>, m: BaselineMatcher) -> nat
    decreases ds.len(),
{
    if ds.len() == 0 {
        0
    } else {
        existing_of(ds.drop_last(), affected, m) + if failure(ds.last()) && affects(ds.last(), affected)
            && accepted_by(m, ds.last()) {
            1nat
        } else {
            0nat
        }
    }
}

/// What a changed-module check reports beside its findings.
#[derive(Clone, Copy, Debug, PartialEq, Eq)]
pub struct RegressionSummary {
    pub affected_modules: usize,
    pub existing: usize,
    pub introduced: usize,
    pub fixed: usize,
}

/// Whether the diagnostic's primary file or a module of its dependency path is affected.
pub fn diagnostic_affects(diagnostic: &Diagnostic, affected: &TextSet) -> (r: bool)
    ensures
        r == affects(*diagnostic, affected.members()),
{
    if let Some(location) = &diagnostic.primary_location {
        if affected.contains(location.file.as_str()) {
            return true;
        }
    }
    let path = &diagnostic.dependency_path;
    let mut i: usize = 0;
    while i < path.len()
        invariant
            i <= path@.len(),
            path@ == diagnostic.dependency_path@,
            forall|j: int| 0 <= j < i ==> !affected.members().contains(#[trigger] path@[j]@),
        decreases path@.len() - i,
    {
        if affected.contains(path[i].0.as_str()) {
            proof {
                assert(affected.members().contains(path@[i as int]@));
                assert(diagnostic.dependency_path@[i as int]@ == path@[i as int]@);
                assert(affected.members().contains(diagnostic.dependency_path@[i as int]@));
            }
            return true;
        }
        i = i + 1;
    }
    false
}

/// The findings of a changed-module check and its summary: the diagnostics that touch an
/// affected module and that the baseline does not accept, in order; how many modules are
/// affected; how many failing, affected diagnostics the baseline accepts; how many of the
/// reported ones fail; and how many accepted fingerprints no failing diagnostic answers to.
pub fn regression(diagnostics: Vec<Diagnostic>, affected: &TextSet, signatures: &BaselineMatcher) -> (r: (
    Vec<Diagnostic>,
    RegressionSummary,
))
    ensures
        r.0@ == reported_of(diagnostics@, affected.members(), *signatures),
        r.1 == (RegressionSummary {
            affected_modules: affected.members().len() as usize,
            existing: existing_of(diagnostics@, affected.members(), *signatures) as usize,
            introduced: failure_count(r.0@) as usize,
            fixed: if signatures.accepted().len() >= live_failing_count(signatures.accepted(), diagnostics@) {
                (signatures.accepted().len() - live_failing_count(signatures.accepted(), diagnostics@)) as usize
            } else {
                0
            },
        }),
{
    let ghost all = diagnostics@;
    let ghost a = affected.members();
    let fixed = signatures.len().saturating_sub(signatures.matched_failing_count(&diagnostics));
    let mut existing: usize = 0;
    let mut rest = diagnostics;
    let n = rest.len();
    let mut kept: Vec<Diagnostic> = Vec::new();
    let mut i: usize = 0;
    while rest.len() > 0
        invariant
            all.len() == n,
            i + rest@.len() == all.len(),
            rest@ == all.skip(i as int),
            kept@ == reported_of(all.take(i as int), a, *signatures),
            existing == existing_of(all.take(i as int), a, *signatures),
            existing <= i,
            a == affected.members(),
        decreases rest@.len(),
    {
        let d = rest.remove(0);
        proof {
            assert(d == all[i as int]);
            assert(all.take(i + 1).drop_last() =~= all.take(i as int));
            assert(all.take(i + 1).last() == d);
            assert(rest@ =~= all.skip(i + 1));
        }
        let touches = diagnostic_affects(&d, affected);
        let known = signatures.matches(&d);
        if touches && known && FailurePolicy::is_failure(&d) {
            existing = existing + 1;
        }
        if touches && !known {
            kept.push(d);
        }
        i = i + 1;
    }
    proof {
        assert(all.take(i as int) =~= all);
    }
    proof {
        lemma_failure_count_bound(kept@);
    }
    let introduced = FailurePolicy::count(&kept);
    (
        kept,
        RegressionSummary { affected_modules: affected.len(), existing, introduced, fixed },
    )
}

proof fn lemma_failure_count_bound(s: Seq<Diagnostic>)
    ensures
        failure_count(s) <= s.len(),
    decreases s.len(),
{
    if s.len() > 0 {
        lemma_failure_count_bound(s.drop_last());
    }
}

} // verus!
