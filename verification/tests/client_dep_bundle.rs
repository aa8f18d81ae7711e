use rex_build::client_dep_bundle::client_dep_import_map;
use rex_build::client_dep_bundle::{build_reexport_entry, specifier_to_url_key};
use rex_build::esm_transform::DepImport;
use rex_build::string_set::StringSet;

#[test]
fn test_specifier_to_url_key() {
    assert_eq!(specifier_to_url_key("react"), "react");
    assert_eq!(specifier_to_url_key("react/jsx-runtime"), "react__jsx-runtime");
    assert_eq!(specifier_to_url_key("@scope/pkg"), "_scope__pkg");
}

#[test]
fn test_build_reexport_entry_default_only() {
    let dep = DepImport { specifier: "my-lib".to_string(), named_exports: StringSet::new(), has_default: true };
    let entry = build_reexport_entry(&dep);
    assert!(entry.contains("export { default } from 'my-lib'"), "Should re-export default, got: {entry}");
    assert!(!entry.contains("export *"), "Should not have wildcard export, got: {entry}");
}

#[test]
fn test_build_reexport_entry_named() {
    let mut named = StringSet::new();
    named.insert("foo".to_string());
    named.insert("bar".to_string());
    let dep = DepImport { specifier: "my-lib".to_string(), named_exports: named, has_default: false };
    let entry = build_reexport_entry(&dep);
    assert!(entry.contains("foo") && entry.contains("bar"), "Should contain named exports, got: {entry}");
    assert!(entry.contains("from 'my-lib'"), "Should reference specifier, got: {entry}");
    assert!(!entry.contains("default"), "Should not have default export, got: {entry}");
}

#[test]
fn test_build_reexport_entry_both() {
    let mut named = StringSet::new();
    named.insert("useState".to_string());
    let dep = DepImport { specifier: "react".to_string(), named_exports: named, has_default: true };
    let entry = build_reexport_entry(&dep);
    assert!(entry.contains("export { default } from 'react'"), "Should have default re-export, got: {entry}");
    assert!(entry.contains("useState"), "Should have named re-export, got: {entry}");
}

#[test]
fn reexport_entry_wildcard_and_exact_forms() {
    let dep = DepImport { specifier: "x".to_string(), named_exports: StringSet::new(), has_default: false };
    assert_eq!(build_reexport_entry(&dep), "export * from 'x';\nexport { default } from 'x';\n");
    let mut named = StringSet::new();
    named.insert("a".to_string());
    named.insert("b".to_string());
    let dep = DepImport { specifier: "y".to_string(), named_exports: named, has_default: true };
    assert_eq!(build_reexport_entry(&dep), "export { default } from 'y';\nexport { a, b } from 'y';\n");
}

#[test]
fn url_keys_hold_no_at_or_slash() {
    for s in ["@a/b/c", "@@//", "plain", "x/y@z"] {
        let k = specifier_to_url_key(s);
        assert!(!k.contains('@') && !k.contains('/'), "{k}");
    }
}

#[test]
fn import_map_names_dependency_files() {
    let files: Vec<String> = ["react.abc123.js", "react-dom-client.x1.js", "react-jsx-runtime.y2.js", "chunk-1.js", "react.js.map"]
        .iter()
        .map(|s| s.to_string())
        .collect();
    let pair = |k: &str, v: &str| (k.to_string(), v.to_string());
    assert_eq!(
        client_dep_import_map(&files),
        vec![
            pair("react", "/_rex/deps/react.abc123.js"),
            pair("react/", "/_rex/deps/"),
            pair("react-dom/client", "/_rex/deps/react-dom-client.x1.js"),
            pair("react/jsx-runtime", "/_rex/deps/react-jsx-runtime.y2.js"),
            pair("rex/head", "/_rex/dev/@rex/head.ts"),
            pair("rex/link", "/_rex/dev/@rex/link.ts"),
            pair("rex/router", "/_rex/dev/@rex/router.ts"),
        ]
    );
}

#[test]
fn a_later_dependency_file_replaces_the_url() {
    let files = vec!["react.a.js".to_string(), "react.js".to_string()];
    let map = client_dep_import_map(&files);
    assert_eq!(map[0], ("react".to_string(), "/_rex/deps/react.js".to_string()));
    assert_eq!(map.len(), 5);
}
