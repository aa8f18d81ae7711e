use rex_build::client_manifest::client_reference_id;
use rex_build::esm_transform::{ClientBoundary, CollectedModules, ExtractedServerAction, ServerActionModule};
use rex_build::precomputed_ids::PrecomputedIds;
use rex_build::server_action_manifest::server_action_id;

#[test]
fn empty_ids_fall_back_to_direct_computation() {
    let ids = PrecomputedIds::new();
    assert_eq!(ids.client_ref_id("a.tsx", "default", "b"), client_reference_id("a.tsx", "default", "b"));
    assert_eq!(ids.server_action_id("a.ts", "go", "b"), server_action_id("a.ts", "go", "b"));
}

#[test]
fn precomputed_ids_win_over_direct_computation() {
    let collected = CollectedModules {
        extra_dep_imports: Vec::new(),
        client_boundaries: vec![
            ClientBoundary {
                rel_path: "c.tsx".to_string(),
                exports: vec!["default".to_string(), "X".to_string()],
                ref_ids: vec!["r1".to_string(), "r2".to_string()],
            },
        ],
        extracted_actions: vec![ExtractedServerAction {
            rel_path: "p.tsx".to_string(),
            action_name: "__rex_action_0".to_string(),
            action_id: "pre".to_string(),
        }],
        server_action_modules: vec![ServerActionModule {
            rel_path: "actions.ts".to_string(),
            exports: vec!["inc".to_string()],
        }],
    };
    let ids = PrecomputedIds::from_collected(&collected, "build1");
    assert_eq!(ids.client_ref_id("c.tsx", "X", "other"), "r2");
    assert_eq!(ids.client_ref_id("c.tsx", "Y", "b"), client_reference_id("c.tsx", "Y", "b"));
    assert_eq!(ids.server_action_id("p.tsx", "__rex_action_0", "other"), "pre");
    assert_eq!(ids.server_action_id("actions.ts", "inc", "other"), server_action_id("actions.ts", "inc", "build1"));
    assert_eq!(ids.server_action_id("actions.ts", "dec", "b2"), server_action_id("actions.ts", "dec", "b2"));
}

#[test]
fn later_boundary_for_same_path_replaces_earlier() {
    let collected = CollectedModules {
        extra_dep_imports: Vec::new(),
        client_boundaries: vec![
            ClientBoundary { rel_path: "c.tsx".to_string(), exports: vec!["A".to_string()], ref_ids: vec!["old".to_string()] },
            ClientBoundary { rel_path: "c.tsx".to_string(), exports: vec!["B".to_string()], ref_ids: vec!["new".to_string()] },
        ],
        extracted_actions: Vec::new(),
        server_action_modules: Vec::new(),
    };
    let ids = PrecomputedIds::from_collected(&collected, "b");
    assert_eq!(ids.client_ref_id("c.tsx", "B", "b"), "new");
    assert_eq!(ids.client_ref_id("c.tsx", "A", "b"), client_reference_id("c.tsx", "A", "b"));
}
