use rex_build::client_manifest::client_reference_id;
use rex_build::rsc_stubs::{generate_client_stub, generate_server_action_stub};
use rex_build::server_action_manifest::server_action_id;

#[test]
fn client_stub_default_export() {
    let stub = generate_client_stub("components/Counter.tsx", &["default".to_string()], "abc");
    assert!(stub.contains("export default"));
    assert!(stub.contains("react.client.reference"));
    assert!(stub.contains("$$name: \"default\""));
}

#[test]
fn client_stub_named_exports() {
    let stub = generate_client_stub("utils.tsx", &["Counter".to_string(), "Input".to_string()], "abc");
    assert!(stub.contains("export const Counter"));
    assert!(stub.contains("export const Input"));
    assert!(!stub.contains("export default"));
}

#[test]
fn client_stub_mixed_exports() {
    let stub = generate_client_stub("comp.tsx", &["default".to_string(), "Helper".to_string()], "abc");
    assert!(stub.contains("export default"));
    assert!(stub.contains("export const Helper"));
}

#[test]
fn client_stub_empty_exports() {
    let stub = generate_client_stub("empty.tsx", &[], "abc");
    assert_eq!(stub, "// Auto-generated client reference stub\n");
}

#[test]
fn server_action_stub_named_exports() {
    let stub = generate_server_action_stub("app/actions.ts", &["increment".to_string(), "decrement".to_string()], "abc");
    assert!(stub.contains("import { createServerReference }"));
    assert!(stub.contains("export var increment = createServerReference("));
    assert!(stub.contains("export var decrement = createServerReference("));
    assert!(stub.contains("window.__REX_CALL_SERVER"));
}

#[test]
fn server_action_stub_default_export() {
    let stub = generate_server_action_stub("app/actions.ts", &["default".to_string()], "abc");
    assert!(stub.contains("export default createServerReference("));
}

#[test]
fn server_action_stub_empty_exports() {
    let stub = generate_server_action_stub("empty.ts", &[], "abc");
    assert!(stub.contains("import { createServerReference }"));
    assert!(!stub.contains("export"));
}

#[test]
fn server_action_stub_import_appears_once() {
    let stub = generate_server_action_stub("actions.ts", &["a".to_string(), "b".to_string(), "c".to_string()], "abc");
    let count = stub.matches("import { createServerReference }").count();
    assert_eq!(count, 1, "import should appear exactly once");
}

#[test]
fn client_stub_exact_line() {
    let stub = generate_client_stub("c.tsx", &["Foo".to_string()], "b");
    let id = client_reference_id("c.tsx", "Foo", "b");
    assert_eq!(
        stub,
        format!(
            "// Auto-generated client reference stub\nexport const Foo = {{ $$typeof: Symbol.for(\"react.client.reference\"), $$id: \"{id}\", $$name: \"Foo\" }};\n"
        )
    );
}

#[test]
fn server_action_stub_exact_line() {
    let stub = generate_server_action_stub("a.ts", &["go".to_string()], "b");
    let id = server_action_id("a.ts", "go", "b");
    assert!(stub.ends_with(&format!(
        "export var go = createServerReference(\"{id}\", window.__REX_CALL_SERVER);\n"
    )));
}
