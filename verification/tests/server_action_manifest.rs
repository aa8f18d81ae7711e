use rex_build::client_manifest::client_reference_id;
use rex_build::server_action_manifest::{server_action_id, ServerActionManifest};

#[test]
fn action_id_is_deterministic() {
    let id1 = server_action_id("app/actions.ts", "increment", "abc123");
    let id2 = server_action_id("app/actions.ts", "increment", "abc123");
    assert_eq!(id1, id2);
}

#[test]
fn action_id_differs_by_export() {
    let id1 = server_action_id("actions.ts", "increment", "abc");
    let id2 = server_action_id("actions.ts", "decrement", "abc");
    assert_ne!(id1, id2);
}

#[test]
fn action_id_differs_by_build() {
    let id1 = server_action_id("actions.ts", "increment", "build1");
    let id2 = server_action_id("actions.ts", "increment", "build2");
    assert_ne!(id1, id2);
}

#[test]
fn action_id_differs_from_client_reference_id() {
    let action = server_action_id("app/actions.ts", "default", "abc");
    let client = client_reference_id("app/actions.ts", "default", "abc");
    assert_ne!(action, client);
}

#[test]
fn manifest_add_and_lookup() {
    let mut manifest = ServerActionManifest::new();
    manifest.add("sa_abc", "app/actions.ts".to_string(), "increment".to_string());
    assert_eq!(manifest.actions.len(), 1);
    let entry = manifest.actions.get("sa_abc").unwrap();
    assert_eq!(entry.module_rel_path, "app/actions.ts");
    assert_eq!(entry.export_name, "increment");
}

#[test]
fn reference_id_is_deterministic() {
    let id1 = client_reference_id("components/Counter.tsx", "default", "abc123");
    let id2 = client_reference_id("components/Counter.tsx", "default", "abc123");
    assert_eq!(id1, id2);
}

#[test]
fn reference_id_differs_by_export() {
    let id1 = client_reference_id("Counter.tsx", "default", "abc");
    let id2 = client_reference_id("Counter.tsx", "Counter", "abc");
    assert_ne!(id1, id2);
}

#[test]
fn reference_id_differs_by_build() {
    let id1 = client_reference_id("Counter.tsx", "default", "build1");
    let id2 = client_reference_id("Counter.tsx", "default", "build2");
    assert_ne!(id1, id2);
}

#[test]
fn ids_are_fourteen_lowercase_hex_digits() {
    for id in [server_action_id("a", "b", "c"), client_reference_id("a", "b", "c")] {
        assert_eq!(id.len(), 14);
        assert!(id.chars().all(|c| c.is_ascii_digit() || ('a'..='f').contains(&c)));
    }
}

#[test]
fn manifest_re_add_replaces_and_lists_ids_once() {
    let mut manifest = ServerActionManifest::new();
    manifest.add("x", "a.ts".to_string(), "one".to_string());
    manifest.add("y", "b.ts".to_string(), "two".to_string());
    manifest.add("x", "c.ts".to_string(), "three".to_string());
    assert_eq!(manifest.actions.len(), 2);
    assert_eq!(manifest.actions.get("x").unwrap().module_rel_path, "c.ts");
    assert_eq!(manifest.action_ids(), vec!["x".to_string(), "y".to_string()]);
}
