//! The decisions of a long-lived editor session: what changed since its last snapshot, whether
//! a request may reuse that snapshot, and what the reuse reports.
use crate::engine::{ChangeSet, IncrementalStats};
use crate::map::{has_key, OrderedMap, TextKey};
use crate::text::text_equal;
use crate::text_set::TextSet;
use vstd::prelude::*;

verus! {

/// The overlay of module `m` is new or differs from the snapshot's overlay of `m`.
pub open spec fn overlay_changed(
    previous: Option<OrderedMap<String, String>>,
    overlays: OrderedMap<String, String>,
    m: Seq<char>,
) -> bool {
    match overlays.lookup(m) {
        Some(source) => match previous {
            Some(old) => match old.lookup(m) {
                Some(before) => before@ != source@,
                None => true,
            },
            None => true,
        },
        None => false,
    }
}

/// The snapshot held an overlay of module `m` that is gone now.
pub open spec fn overlay_deleted(
    previous: Option<OrderedMap<String, String>>,
    overlays: OrderedMap<String, String>,
    m: Seq<char>,
) -> bool {
    match previous {
        Some(old) => old.lookup(m) is Some && overlays.lookup(m) is None,
        None => false,
    }
}

/// The overlays that changed since the snapshot's overlays `previous` (all of them when there
/// is no snapshot), and the snapshot's overlays that are gone.
pub fn changes_since_snapshot(
    previous: Option<&OrderedMap<String, String>>,
    overlays: &OrderedMap<String, String>,
) -> (r: ChangeSet)
    ensures
        forall|m: Seq<char>|
            #[trigger] r.changed.members().contains(m) <==> overlay_changed(
                match previous {
                    Some(p) => Some(*p),
                    None => None,
                },
                *overlays,
                m,
            ),
        forall|m: Seq<char>|
            #[trigger] r.deleted.members().contains(m) <==> overlay_deleted(
                match previous {
                    Some(p) => Some(*p),
                    None => None,
                },
                *overlays,
                m,
            ),
{
    let ghost prev = match previous {
        Some(p) => Some(*p),
        None => None,
    };
    proof {
        use_type_invariant(overlays);
        overlays.lemma_entries();
    }
    let entries = overlays.entries();
    let mut changed = TextSet::new();
    let mut i: usize = 0;
    while i < entries.len()
        invariant
            entries@ == overlays.pairs(),
            overlays.well_formed(),
            prev == match previous {
                Some(p) => Some(*p),
                None => None,
            },
            i <= entries@.len(),
            forall|m: Seq<char>|
                #[trigger] changed.members().contains(m) <==> exists|j: int|
                    0 <= j < i && entries@[j].0@ == m && overlay_changed(prev, *overlays, m),
        decreases entries@.len() - i,
    {
        let key = &entries[i].0;
        let source = &entries[i].1;
        proof {
            overlays.lemma_entries();
            assert(overlays.lookup(entries@[i as int].0.key_view()) == Some(entries@[i as int].1));
        }
        let differs = match previous {
            Some(old) => match old.get(key.as_str()) {
                Some(before) => !text_equal(before.as_str(), source.as_str()),
                None => true,
            },
            None => true,
        };
        let ghost c0 = changed.members();
        if differs {
            changed.insert(key.clone());
        }
        proof {
            assert forall|m: Seq<char>|
                #[trigger] changed.members().contains(m) <==> exists|j: int|
                    0 <= j < i + 1 && entries@[j].0@ == m && overlay_changed(prev, *overlays, m) by {
                if exists|j: int| 0 <= j < i && entries@[j].0@ == m && overlay_changed(prev, *overlays, m) {
                    let j = choose|j: int| 0 <= j < i && entries@[j].0@ == m && overlay_changed(prev, *overlays, m);
                    assert(0 <= j < i + 1);
                }
                if m == key@ {
                    assert(entries@[i as int].0@ == m);
                }
            }
        }
        i = i + 1;
    }
    proof {
        overlays.lemma_entries();
        assert forall|m: Seq<char>|
            #[trigger] changed.members().contains(m) <==> overlay_changed(prev, *overlays, m) by {
            if overlay_changed(prev, *overlays, m) {
                assert(overlays.lookup(m) is Some);
                assert(has_key(overlays.pairs(), m));
                let j = choose|j: int| 0 <= j < overlays.pairs().len() && overlays.pairs()[j].0.key_view() == m;
                assert(entries@[j].0@ == m);
            }
        }
    }
    let mut deleted = TextSet::new();
    match previous {
        Some(old) => {
            proof {
                use_type_invariant(old);
                old.lemma_entries();
            }
            let before = old.entries();
            let mut k: usize = 0;
            while k < before.len()
                invariant
                    before@ == old.pairs(),
                    old.well_formed(),
                    prev == Some(*old),
                    k <= before@.len(),
                    forall|m: Seq<char>|
                        #[trigger] deleted.members().contains(m) <==> exists|j: int|
                            0 <= j < k && before@[j].0@ == m && overlay_deleted(prev, *overlays, m),
                decreases before@.len() - k,
            {
                let key = &before[k].0;
                proof {
                    old.lemma_entries();
                    assert(old.lookup(before@[k as int].0.key_view()) == Some(before@[k as int].1));
                }
                if !overlays.contains_key(key.as_str()) {
                    deleted.insert(key.clone());
                }
                proof {
                    assert forall|m: Seq<char>|
                        #[trigger] deleted.members().contains(m) <==> exists|j: int|
                            0 <= j < k + 1 && before@[j].0@ == m && overlay_deleted(prev, *overlays, m) by {
                        if exists|j: int| 0 <= j < k && before@[j].0@ == m && overlay_deleted(prev, *overlays, m) {
                            let j = choose|j: int| 0 <= j < k && before@[j].0@ == m && overlay_deleted(prev, *overlays, m);
                            assert(0 <= j < k + 1);
                        }
                        if m == key@ {
                            assert(before@[k as int].0@ == m);
                        }
                    }
                }
                k = k + 1;
            }
            proof {
                old.lemma_entries();
                assert forall|m: Seq<char>|
                    #[trigger] deleted.members().contains(m) <==> overlay_deleted(prev, *overlays, m) by {
                    if overlay_deleted(prev, *overlays, m) {
                        assert(old.lookup(m) is Some);
                        assert(has_key(old.pairs(), m));
                        let j = choose|j: int| 0 <= j < old.pairs().len() && old.pairs()[j].0.key_view() == m;
                        assert(before@[j].0@ == m);
                    }
                }
            }
        },
        None => {},
    }
    ChangeSet { changed, deleted }
}

/// What a session does with a request.
#[derive(Clone, Copy, Debug, PartialEq, Eq)]
pub enum SessionAction {
    /// A newer request superseded this one, or it was cancelled.
    Cancelled,
    /// Nothing changed since the snapshot, which answers the request.
    ReuseSnapshot,
    /// A fresh analysis runs; with `known_files` it restores what the snapshot knew.
    Analyze { known_files: bool },
}

/// The action for a request: refused unless it is `current`; the snapshot reused when the
/// request is not forced, nothing `changed` and there `has_snapshot`; otherwise a new analysis,
/// seeded with the snapshot's files when it is not forced and there is a snapshot.
pub fn session_decision(current: bool, changed: bool, force: bool, has_snapshot: bool) -> (r: SessionAction)
    ensures
        r == (if !current {
            SessionAction::Cancelled
        } else if !force && !changed && has_snapshot {
            SessionAction::ReuseSnapshot
        } else {
            SessionAction::Analyze { known_files: !force && has_snapshot }
        }),
{
    if !current {
        SessionAction::Cancelled
    } else if !force && !changed && has_snapshot {
        SessionAction::ReuseSnapshot
    } else {
        SessionAction::Analyze { known_files: !force && has_snapshot }
    }
}

/// What a reused snapshot reports: every source module restored, none analyzed, and the rule
/// results taken over.
pub fn reused_stats(previous: &IncrementalStats, source_modules: usize) -> (r: IncrementalStats)
    ensures
        r == (IncrementalStats {
            cache_enabled: previous.cache_enabled,
            restored_modules: source_modules,
            analyzed_modules: 0,
            rule_snapshot_reused: true,
        }),
{
    IncrementalStats {
        cache_enabled: previous.cache_enabled,
        restored_modules: source_modules,
        analyzed_modules: 0,
        rule_snapshot_reused: true,
    }
}

} // verus!
