use rex_build::client_manifest::client_reference_id;
use rex_build::esm_transform::{ClientBoundary, CollectedModules, ExtractedServerAction, ServerActionModule};
use rex_build::paths::{path_eq_exec, path_lt_exec};
use rex_build::precomputed_ids::PrecomputedIds;
use rex_build::rsc_build_config::sanitize_filename;
use rex_build::rsc_bundler::{add_rex_stub_aliases, rel_path, rex_client_candidates, rsc_entry_paths, rsc_manifests};
use rex_build::rsc_entries::AppRoute;
use rex_build::rsc_graph::{ModuleGraph, ModuleInfo};
use rex_build::server_action_manifest::server_action_id;

fn module(path: &str, imports: &[&str], exports: &[&str]) -> ModuleInfo {
    ModuleInfo {
        path: path.to_string(),
        is_client: false,
        is_server: false,
        uses_dynamic_functions: false,
        imports: imports.iter().map(|s| s.to_string()).collect(),
        exports: exports.iter().map(|s| s.to_string()).collect(),
        server_functions: Vec::new(),
        has_unextracted_server_directives: false,
    }
}

fn strings(v: &[&str]) -> Vec<String> {
    v.iter().map(|s| s.to_string()).collect()
}

#[test]
fn rel_path_strips_the_project_root() {
    assert_eq!(rel_path("/proj/app/page.tsx", "/proj"), "app/page.tsx");
    assert_eq!(rel_path("/elsewhere/x.ts", "/proj"), "/elsewhere/x.ts");
}

#[test]
fn client_boundaries_give_rows_and_stubs() {
    let page = module("/proj/app/page.tsx", &["/proj/app/button.tsx"], &["default"]);
    let mut button = module("/proj/app/button.tsx", &[], &["default", "Small"]);
    button.is_client = true;
    let graph = ModuleGraph::from_modules(vec![page, button]);
    let ids = PrecomputedIds::new();
    let (rows, manifest, stubs) = rsc_manifests(&graph, "/proj", "/out/rsc/_client_stubs", "b1", &ids, &[]);
    assert_eq!(
        rows,
        vec![
            (client_reference_id("app/button.tsx", "default", "b1"), String::new(), "default".to_string()),
            (client_reference_id("app/button.tsx", "Small", "b1"), String::new(), "Small".to_string()),
        ]
    );
    assert!(manifest.ordered_entries().is_empty());
    let stub = format!("/out/rsc/_client_stubs/{}.js", sanitize_filename("app/button.tsx"));
    assert_eq!(stubs, vec![("/proj/app/button.tsx".to_string(), stub)]);
}

#[test]
fn a_client_module_imported_only_by_client_modules_gets_no_stub() {
    let page = module("/proj/app/page.tsx", &["/proj/app/a.tsx"], &["default"]);
    let mut a = module("/proj/app/a.tsx", &["/proj/app/b.tsx"], &["default"]);
    a.is_client = true;
    let mut b = module("/proj/app/b.tsx", &[], &["default"]);
    b.is_client = true;
    let graph = ModuleGraph::from_modules(vec![page, a, b]);
    let (rows, _, stubs) = rsc_manifests(&graph, "/proj", "/s", "b1", &PrecomputedIds::new(), &[]);
    assert_eq!(rows.len(), 1);
    assert_eq!(stubs.len(), 1);
    assert_eq!(stubs[0].0, "/proj/app/a.tsx");
}

#[test]
fn action_manifest_takes_all_three_sources_in_order() {
    let mut actions = module("/proj/app/actions.ts", &[], &["inc", "dec"]);
    actions.is_server = true;
    let mut page = module("/proj/app/page.tsx", &["/proj/app/actions.ts"], &["default", "save"]);
    page.server_functions = strings(&["save"]);
    let graph = ModuleGraph::from_modules(vec![page, actions]);
    let extracted = vec![("/proj/app/form.tsx".to_string(), strings(&["__rex_action_0"]))];
    let (_, manifest, _) = rsc_manifests(&graph, "/proj", "/s", "b1", &PrecomputedIds::new(), &extracted);
    let row = |rel: &str, e: &str| (server_action_id(rel, e, "b1"), rel.to_string(), e.to_string());
    assert_eq!(
        manifest.ordered_entries(),
        vec![
            row("app/actions.ts", "inc"),
            row("app/actions.ts", "dec"),
            row("app/page.tsx", "save"),
            row("app/form.tsx", "__rex_action_0"),
        ]
    );
}

#[test]
fn the_same_action_twice_is_one_entry() {
    let graph = ModuleGraph::from_modules(vec![]);
    let extracted = vec![
        ("/proj/a.tsx".to_string(), strings(&["__rex_action_0"])),
        ("/proj/a.tsx".to_string(), strings(&["__rex_action_0"])),
    ];
    let (_, manifest, _) = rsc_manifests(&graph, "/proj", "/s", "b1", &PrecomputedIds::new(), &extracted);
    assert_eq!(manifest.ordered_entries().len(), 1);
}

fn route(page: &str, layouts: &[&str]) -> AppRoute {
    AppRoute { pattern: "/".to_string(), page_path: page.to_string(), layout_chain: strings(layouts) }
}

#[test]
fn entries_are_sorted_by_path_components() {
    let routes = vec![
        route("/p/app/page.tsx", &["/p/app/layout.tsx"]),
        route("/p/app/a-b/page.tsx", &["/p/app/layout.tsx", "/p/app/a/layout.tsx"]),
    ];
    let r = rsc_entry_paths(Some("/p/app/layout.tsx"), &routes, None);
    assert_eq!(r, strings(&["/p/app/a/layout.tsx", "/p/app/a-b/page.tsx", "/p/app/layout.tsx", "/p/app/page.tsx"]));
}

#[test]
fn equal_paths_keep_the_first_spelling() {
    let routes = vec![route("/p/x/y.tsx", &[])];
    let r = rsc_entry_paths(Some("/p/x/./y.tsx"), &routes, Some("/p/mdx-components.tsx"));
    assert_eq!(r, strings(&["/p/mdx-components.tsx", "/p/x/./y.tsx"]));
}

#[test]
fn no_entries_give_no_paths() {
    assert!(rsc_entry_paths(None, &[], None).is_empty());
}

#[test]
fn paths_compare_by_components() {
    assert!(path_lt_exec("/a/b", "/a-b"));
    assert!(!path_lt_exec("/a-b", "/a/b"));
    assert!(path_lt_exec("/z", "a"));
    assert!(path_eq_exec("/a/./b/", "/a/b"));
    assert!(!path_eq_exec("/a/../b", "/b"));
}

#[test]
fn framework_client_modules_are_tried_in_order() {
    let c = rex_client_candidates("/p");
    let names: Vec<&str> = c.iter().map(|(s, _)| s.as_str()).collect();
    assert_eq!(names, vec!["rex/link", "rex/head", "rex/router", "rex/image"]);
    assert_eq!(
        c[0].1,
        strings(&[
            "/p/node_modules/@limlabs/rex/src/link.tsx",
            "/p/node_modules/@limlabs/rex/src/link.ts",
            "/p/node_modules/@limlabs/rex/src/link.jsx",
            "/p/node_modules/@limlabs/rex/src/link.js",
        ])
    );
}

#[test]
fn framework_specifiers_alias_onto_existing_stubs_only() {
    let mut stubs = vec![("/p/node_modules/@limlabs/rex/src/link.tsx".to_string(), "/s/link.js".to_string())];
    let resolved = vec![
        ("rex/link".to_string(), "/p/node_modules/@limlabs/rex/src/./link.tsx".to_string()),
        ("rex/head".to_string(), "/p/node_modules/@limlabs/rex/src/head.tsx".to_string()),
    ];
    add_rex_stub_aliases(&mut stubs, &resolved);
    assert_eq!(
        stubs,
        vec![
            ("/p/node_modules/@limlabs/rex/src/link.tsx".to_string(), "/s/link.js".to_string()),
            ("rex/link".to_string(), "/s/link.js".to_string()),
        ]
    );
}

#[test]
fn precomputed_ids_name_the_rows_and_actions() {
    let collected = CollectedModules {
        extra_dep_imports: Vec::new(),
        client_boundaries: vec![ClientBoundary {
            rel_path: "app/button.tsx".to_string(),
            exports: strings(&["default"]),
            ref_ids: strings(&["ref-1"]),
        }],
        extracted_actions: vec![ExtractedServerAction {
            rel_path: "app/form.tsx".to_string(),
            action_name: "__rex_action_0".to_string(),
            action_id: "act-1".to_string(),
        }],
        server_action_modules: vec![ServerActionModule { rel_path: "app/actions.ts".to_string(), exports: strings(&["inc"]) }],
    };
    let ids = PrecomputedIds::from_collected(&collected, "esm");
    let page = module("/proj/app/page.tsx", &["/proj/app/button.tsx"], &["default"]);
    let mut button = module("/proj/app/button.tsx", &[], &["default"]);
    button.is_client = true;
    let mut actions = module("/proj/app/actions.ts", &[], &["inc"]);
    actions.is_server = true;
    let graph = ModuleGraph::from_modules(vec![page, button, actions]);
    let extracted = vec![("/proj/app/form.tsx".to_string(), strings(&["__rex_action_0"]))];
    let (rows, manifest, _) = rsc_manifests(&graph, "/proj", "/s", "b1", &ids, &extracted);
    assert_eq!(rows, vec![("ref-1".to_string(), String::new(), "default".to_string())]);
    assert_eq!(
        manifest.ordered_entries(),
        vec![
            (server_action_id("app/actions.ts", "inc", "esm"), "app/actions.ts".to_string(), "inc".to_string()),
            ("act-1".to_string(), "app/form.tsx".to_string(), "__rex_action_0".to_string()),
        ]
    );
}
