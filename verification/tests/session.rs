use wae::architecture::{ArchitectureOwnershipIndex, LayerOwnership};
use wae::domain::{LayerId, ModuleId};
use wae::engine::IncrementalStats;
use wae::map::OrderedMap;
use wae::session::{changes_since_snapshot, reused_stats, session_decision, SessionAction};

fn overlays(pairs: &[(&str, &str)]) -> OrderedMap<String, String> {
    let mut map = OrderedMap::new();
    for (module, source) in pairs {
        map.insert(module.to_string(), source.to_string());
    }
    map
}

#[test]
fn ownership_counts_follow_inserts_and_replacements() {
    let mut idx = ArchitectureOwnershipIndex::default();
    assert_eq!(idx.coverage_percent(), 100);
    idx.insert(ModuleId("src/app/page.ts".into()), LayerOwnership::Assigned(LayerId("app".into())));
    idx.insert(ModuleId("src/orphan.ts".into()), LayerOwnership::Unassigned);
    idx.insert(ModuleId("scripts/generate.ts".into()), LayerOwnership::Exempt("scripts/**".into()));
    assert_eq!(idx.source_modules(), 3);
    assert_eq!(idx.assigned_modules(), 1);
    assert_eq!(idx.exempted_modules(), 1);
    assert_eq!(idx.coverage_percent(), 50);
    let unassigned: Vec<String> = idx.unassigned_modules().iter().map(|m| m.0.clone()).collect();
    assert_eq!(unassigned, vec!["src/orphan.ts".to_string()]);

    idx.insert(ModuleId("src/orphan.ts".into()), LayerOwnership::Assigned(LayerId("app".into())));
    assert_eq!(idx.source_modules(), 3);
    assert_eq!(idx.assigned_modules(), 2);
    assert!(idx.unassigned_modules().is_empty());
    assert_eq!(idx.coverage_percent(), 100);
    assert_eq!(
        idx.get(&ModuleId("src/orphan.ts".into())),
        Some(&LayerOwnership::Assigned(LayerId("app".into())))
    );
}

#[test]
fn first_session_request_sees_every_overlay_as_changed() {
    let current = overlays(&[("src/a.ts", "a"), ("src/b.ts", "b")]);
    let changes = changes_since_snapshot(None, &current);
    assert_eq!(changes.changed.iter().to_vec(), vec!["src/a.ts".to_string(), "src/b.ts".to_string()]);
    assert!(changes.deleted.iter().is_empty());
}

#[test]
fn session_changes_list_edited_new_and_deleted_overlays() {
    let before = overlays(&[("src/a.ts", "a"), ("src/b.ts", "b"), ("src/c.ts", "c")]);
    let after = overlays(&[("src/a.ts", "a"), ("src/b.ts", "b2"), ("src/d.ts", "d")]);
    let changes = changes_since_snapshot(Some(&before), &after);
    assert_eq!(changes.changed.iter().to_vec(), vec!["src/b.ts".to_string(), "src/d.ts".to_string()]);
    assert_eq!(changes.deleted.iter().to_vec(), vec!["src/c.ts".to_string()]);

    let unchanged = changes_since_snapshot(Some(&after), &after);
    assert!(unchanged.changed.iter().is_empty());
    assert!(unchanged.deleted.iter().is_empty());
}

#[test]
fn session_decision_reuses_only_unforced_unchanged_snapshots() {
    assert_eq!(session_decision(false, false, false, true), SessionAction::Cancelled);
    assert_eq!(session_decision(true, false, false, true), SessionAction::ReuseSnapshot);
    assert_eq!(session_decision(true, true, false, true), SessionAction::Analyze { known_files: true });
    assert_eq!(session_decision(true, false, true, true), SessionAction::Analyze { known_files: false });
    assert_eq!(session_decision(true, false, false, false), SessionAction::Analyze { known_files: false });
}

#[test]
fn reused_snapshot_restores_every_source_module() {
    let cold = IncrementalStats {
        cache_enabled: true,
        restored_modules: 1,
        analyzed_modules: 1,
        rule_snapshot_reused: false,
    };
    assert_eq!(
        reused_stats(&cold, 2),
        IncrementalStats { cache_enabled: true, restored_modules: 2, analyzed_modules: 0, rule_snapshot_reused: true }
    );
}
