use rex_build::build_utils::{find_route_for_chunk, node_polyfill_aliases, route_to_chunk_name};
use rex_build::string_set::StringSet;

#[test]
fn polyfill_aliases_cover_builtins_and_present_next_modules() {
    let mut entries = StringSet::new();
    entries.insert("next-link.ts".to_string());
    entries.insert("empty.ts".to_string());
    let aliases = node_polyfill_aliases("/rt/server", &entries);
    assert_eq!(aliases.len(), 27 * 2 + 5 + 3);
    assert_eq!(aliases[0], ("process".to_string(), vec![Some("/rt/server/process.ts".to_string())]));
    assert_eq!(aliases[1], ("node:process".to_string(), vec![Some("/rt/server/process.ts".to_string())]));
    let specs: Vec<&str> = aliases.iter().map(|(s, _)| s.as_str()).collect();
    assert!(specs.contains(&"next/link"));
    assert!(specs.contains(&"@vercel/og"));
    assert!(specs.contains(&"next/og"));
    assert!(!specs.contains(&"next/image"));
    assert!(specs.contains(&"sharp"));
}

#[test]
fn test_route_to_chunk_name_index() {
    assert_eq!(route_to_chunk_name("index"), "index");
}

#[test]
fn test_route_to_chunk_name_nested() {
    assert_eq!(route_to_chunk_name("blog/[slug]"), "blog-_slug_");
}

#[test]
fn test_route_to_chunk_name_deep_nested() {
    assert_eq!(route_to_chunk_name("docs/api/[...path]"), "docs-api-_...path_");
}

#[test]
fn empty_module_name_is_index_chunk() {
    assert_eq!(route_to_chunk_name(""), "index");
}

#[test]
fn test_find_route_for_chunk_found() {
    let routes = vec!["index".to_string(), "about".to_string(), "blog/[slug]".to_string()];
    let found = find_route_for_chunk("about", &routes);
    assert!(found.is_some());
    assert_eq!(routes[found.expect("route should exist")], "about");
    assert_eq!(find_route_for_chunk("blog-_slug_", &routes), Some(2));
}

#[test]
fn test_find_route_for_chunk_not_found() {
    let routes = vec!["index".to_string()];
    assert!(find_route_for_chunk("nonexistent", &routes).is_none());
}

#[test]
fn builtins_and_other_polyfills_do_not_depend_on_runtime_files() {
    let empty = StringSet::new();
    let mut all = StringSet::new();
    for f in ["next-link.ts", "next-image.ts", "head.ts", "next-font.ts", "empty.ts"] {
        all.insert(f.to_string());
    }
    let a = node_polyfill_aliases("/rt", &empty);
    let b = node_polyfill_aliases("/rt", &all);
    assert_eq!(a.len(), 27 * 2 + 5);
    assert_eq!(a[..], b[..a.len()]);
    for k in 0..27 {
        assert_eq!(format!("node:{}", a[2 * k].0), a[2 * k + 1].0);
        assert_eq!(a[2 * k].1, a[2 * k + 1].1);
    }
    let tail: Vec<&str> = b[a.len()..].iter().map(|x| x.0.as_str()).collect();
    assert_eq!(
        tail,
        vec!["next/link", "next/image", "next/head", "next/font/google", "next/font/local", "@vercel/og", "next/og"]
    );
}
