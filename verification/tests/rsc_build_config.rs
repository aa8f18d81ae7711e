use rex_build::rsc_build_config::{build_rex_aliases, build_rex_server_aliases, sanitize_filename};
use rex_build::string_set::StringSet;

fn entries(names: &[&str]) -> StringSet {
    let mut s = StringSet::new();
    for n in names {
        s.insert(n.to_string());
    }
    s
}

fn client_runtime() -> StringSet {
    entries(&["head.ts", "image.ts", "link.ts", "router.ts", "rsc-hydrate.ts", "rsc-runtime.ts", "use-router.ts"])
}

fn server_runtime() -> StringSet {
    entries(&["actions.ts", "head.ts", "link.ts", "image.ts", "router.ts", "document.ts", "middleware.ts"])
}

#[test]
fn sanitize_path_components() {
    assert_eq!(sanitize_filename("components/Counter.tsx"), "components_Counter_tsx");
    assert_eq!(sanitize_filename("app/page.tsx"), "app_page_tsx");
}

#[test]
fn sanitize_empty_string() {
    assert_eq!(sanitize_filename(""), "");
}

#[test]
fn sanitize_only_separators() {
    assert_eq!(sanitize_filename("///"), "");
    assert_eq!(sanitize_filename("..."), "");
}

#[test]
fn sanitize_windows_path() {
    assert_eq!(sanitize_filename("components\\Counter.tsx"), "components_Counter_tsx");
}

#[test]
fn sanitize_consecutive_separators() {
    assert_eq!(sanitize_filename("a//b..c"), "a__b__c");
}

#[test]
fn build_rex_aliases_finds_runtime_files() {
    let aliases = build_rex_aliases("/rt/client", &client_runtime(), "/rt/server", &server_runtime());
    let specs: Vec<&str> = aliases.iter().map(|(s, _)| s.as_str()).collect();
    assert!(specs.contains(&"rex/link"), "missing rex/link alias");
    assert!(specs.contains(&"rex/head"), "missing rex/head alias");
}

#[test]
fn rex_aliases_exact_targets() {
    let aliases = build_rex_aliases("/rt/client", &client_runtime(), "/rt/server", &server_runtime());
    assert_eq!(aliases.len(), 9);
    assert_eq!(aliases[2], ("rex/router".to_string(), vec![Some("/rt/client/use-router.ts".to_string())]));
    assert_eq!(aliases[8], ("rex/actions".to_string(), vec![Some("/rt/server/actions.ts".to_string())]));
}

#[test]
fn server_aliases_replace_link_and_head() {
    let aliases = build_rex_server_aliases("/rt/client", &client_runtime(), "/rt/server", &server_runtime());
    let links: Vec<_> = aliases.iter().filter(|(s, _)| s == "rex/link").collect();
    assert_eq!(links.len(), 1);
    assert_eq!(links[0].1, vec![Some("/rt/server/link.ts".to_string())]);
    assert_eq!(aliases.last().unwrap().0, "next/head");
    assert_eq!(aliases.len(), 9);
}

#[test]
fn sanitized_names_are_clean() {
    for p in ["_a/.b_", "x.y/z", "__", "a\\b"] {
        let n = sanitize_filename(p);
        assert!(!n.contains('/') && !n.contains('\\') && !n.contains('.'));
        assert!(!n.starts_with('_') && !n.ends_with('_'));
    }
}
