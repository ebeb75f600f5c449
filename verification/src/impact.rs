//! Which modules an edit can affect: the changed files, the importers of unresolved imports whose
//! candidate files were deleted, and every module from which one of those can be reached.
use crate::diagnostic::Diagnostic;
use crate::engine::{Analysis, ChangeSet};
use crate::text::text_equal;
use crate::text_set::{texts_of, TextSet};
use vstd::prelude::*;

verus! {

/// The list of strings that JSON text holds, as `serde_json::from_str::<Vec<String>>` reads it.
pub uninterp spec fn json_string_list_value(raw: Seq<char>) -> Option<Seq<Seq<char>>>;

/// Reads `raw` as a JSON array of strings with `serde_json::from_str::<Vec<String>>`; `None`
/// when serde_json rejects it. The contract names the result.
#[verifier::external_body]
fn json_string_list(raw: &str) -> (r: Option<Vec<String>>)
    ensures
        match r {
            Some(v) => json_string_list_value(raw@) == Some(texts_of(v@)),
            None => json_string_list_value(raw@) is None,
        },
{
    serde_json::from_str::<Vec<String>>(raw).ok()
}

/// One of the candidate paths that the diagnostic records was deleted.
pub open spec fn candidate_deleted(d: Diagnostic, deleted: Seq<Seq<char>>) -> bool {
    let recorded = d.metadata.lookup("candidatePaths"@);
    &&& recorded is Some
    &&& json_string_list_value(recorded->0@) is Some
    &&& exists|i: int|
        0 <= i < json_string_list_value(recorded->0@)->0.len() && deleted.contains(
            #[trigger] json_string_list_value(recorded->0@)->0[i],
        )
}

/// A module an edit touches directly: a changed file, or the file of an unresolved import one of
/// whose candidates was deleted.
pub open spec fn impact_seed(a: Analysis, changes: ChangeSet, x: Seq<char>) -> bool {
    ||| changes.changed.members().contains(x)
    ||| exists|k: int|
        0 <= k < a.diagnostics@.len() && {
            let d = #[trigger] a.diagnostics@[k];
            &&& d.rule_id.0@ == "RESOLVE-001"@
            &&& candidate_deleted(d, changes.deleted.members())
            &&& d.primary_location matches Some(l) && l.file@ == x
        }
}

fn deleted_candidate(d: &Diagnostic, deleted: &TextSet) -> (r: bool)
    ensures
        r == candidate_deleted(*d, deleted.members()),
{
    match d.metadata.get("candidatePaths") {
        Some(v) => match json_string_list(v.as_str()) {
            Some(list) => {
                let mut i: usize = 0;
                while i < list.len()
                    invariant
                        i <= list@.len(),
                        json_string_list_value(v@) == Some(texts_of(list@)),
                        d.metadata.lookup("candidatePaths"@) == Some(*v),
                        forall|j: int| 0 <= j < i ==> !deleted.members().contains(#[trigger] texts_of(list@)[j]),
                    decreases list@.len() - i,
                {
                    if deleted.contains(list[i].as_str()) {
                        let ghost rec = d.metadata.lookup("candidatePaths"@);
                        assert(rec is Some);
                        assert(json_string_list_value(rec->0@) == Some(texts_of(list@)));
                        assert(json_string_list_value(rec->0@)->0[i as int] == texts_of(list@)[i as int]);
                        assert(deleted.members().contains(json_string_list_value(rec->0@)->0[i as int]));
                        assert(candidate_deleted(*d, deleted.members()));
                        return true;
                    }
                    i = i + 1;
                }
                false
            },
            None => false,
        },
        None => false,
    }
}

/// The impact of edits on an analysis.
pub struct ImpactAnalyzer;

impl ImpactAnalyzer {
    /// The modules that the changes can affect: those the edit touches directly, and every module
    /// from which one of them can be reached through imports.
    pub fn affected(analysis: &Analysis, changes: &ChangeSet) -> (r: TextSet)
        ensures
            forall|x: Seq<char>|
                #[trigger] r.members().contains(x) <==> (impact_seed(*analysis, *changes, x) || exists|s: Seq<char>|
                    impact_seed(*analysis, *changes, s) && analysis.graph.reaches(x, s)),
    {
        let changed = changes.changed.iter();
        let mut seeds: Vec<String> = Vec::new();
        let mut i: usize = 0;
        while i < changed.len()
            invariant
                i <= changed@.len(),
                texts_of(changed@) == changes.changed.members(),
                texts_of(seeds@) == texts_of(changed@).take(i as int),
            decreases changed@.len() - i,
        {
            let ghost before = seeds@;
            let item = changed[i].clone();
            seeds.push(item);
            assert(texts_of(seeds@) =~= texts_of(before).push(item@));
            assert(texts_of(changed@).take(i + 1) =~= texts_of(changed@).take(i as int).push(changed@[i as int]@));
            i = i + 1;
        }
        assert(texts_of(changed@).take(i as int) =~= texts_of(changed@));
        let ghost direct = texts_of(seeds@);
        let mut k: usize = 0;
        while k < analysis.diagnostics.len()
            invariant
                k <= analysis.diagnostics@.len(),
                direct == changes.changed.members(),
                forall|x: Seq<char>|
                    #[trigger] texts_of(seeds@).contains(x) <==> (direct.contains(x) || exists|j: int|
                        0 <= j < k && {
                            let d = #[trigger] analysis.diagnostics@[j];
                            &&& d.rule_id.0@ == "RESOLVE-001"@
                            &&& candidate_deleted(d, changes.deleted.members())
                            &&& d.primary_location matches Some(l) && l.file@ == x
                        }),
            decreases analysis.diagnostics@.len() - k,
        {
            let d = &analysis.diagnostics[k];
            let ghost before = texts_of(seeds@);
            if text_equal(d.rule_id.0.as_str(), "RESOLVE-001") && deleted_candidate(d, &changes.deleted) {
                match &d.primary_location {
                    Some(l) => {
                        let file = l.file.clone();
                        seeds.push(file);
                        proof {
                            assert(texts_of(seeds@) =~= before.push(file@));
                            crate::module_graph::lemma_push_contains(before, file@, file@);
                        }
                    },
                    None => {},
                }
            }
            proof {
                assert forall|x: Seq<char>|
                    #[trigger] texts_of(seeds@).contains(x) <==> (direct.contains(x) || exists|j: int|
                        0 <= j < k + 1 && {
                            let d = #[trigger] analysis.diagnostics@[j];
                            &&& d.rule_id.0@ == "RESOLVE-001"@
                            &&& candidate_deleted(d, changes.deleted.members())
                            &&& d.primary_location matches Some(l) && l.file@ == x
                        }) by {
                    if texts_of(seeds@) != before {
                        crate::module_graph::lemma_push_contains(before, texts_of(seeds@).last(), x);
                        assert(texts_of(seeds@) == before.push(texts_of(seeds@).last()));
                    }
                }
            }
            k = k + 1;
        }
        let r = analysis.graph.importers_closure(&seeds);
        proof {
            assert forall|x: Seq<char>| #[trigger] texts_of(seeds@).contains(x) == impact_seed(*analysis, *changes, x) by {}
        }
        r
    }
}

} // verus!
