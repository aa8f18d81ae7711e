use rex_build::esm_utils::esm_resolve_aliases;
use rex_build::string_set::StringSet;

#[test]
fn esm_aliases_only_for_present_files() {
    let mut entries = StringSet::new();
    for f in ["head.ts", "document.ts", "unrelated.ts"] {
        entries.insert(f.to_string());
    }
    let aliases = esm_resolve_aliases("/rt/server", &entries);
    assert_eq!(
        aliases,
        vec![
            ("rex/head".to_string(), "/rt/server/head.ts".to_string()),
            ("rex/document".to_string(), "/rt/server/document.ts".to_string()),
            ("next/document".to_string(), "/rt/server/document.ts".to_string()),
        ]
    );
}

#[test]
fn esm_aliases_empty_runtime_dir() {
    assert!(esm_resolve_aliases("/rt/server", &StringSet::new()).is_empty());
}
