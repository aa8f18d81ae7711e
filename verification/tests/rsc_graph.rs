use rex_build::rsc_graph::{
    analyze_module_syntax, ExportDecl, ModuleSyntax, SyntaxStmt,
    asset_module_info, module_info, package_entry_candidates, path_in_node_modules, resolve_exports_entry, rex_import_candidates,
    split_bare_specifier, ExportsField, GraphWalk, ModuleGraph, ModuleInfo, RenderMode,
};

fn module(path: &str, is_client: bool, dynamic: bool, imports: &[&str]) -> ModuleInfo {
    ModuleInfo {
        path: path.to_string(),
        is_client,
        is_server: false,
        uses_dynamic_functions: dynamic,
        imports: imports.iter().map(|s| s.to_string()).collect(),
        exports: vec!["default".to_string()],
        server_functions: Vec::new(),
        has_unextracted_server_directives: false,
    }
}

#[test]
fn has_dynamic_functions_empty_entries() {
    let graph = ModuleGraph::default();
    assert!(!graph.has_dynamic_functions(&[]));
}

#[test]
fn dynamic_functions_found_through_server_imports() {
    let graph = ModuleGraph::from_modules(vec![
            module("/page", false, false, &["/a"]),
            module("/a", false, false, &["/b"]),
            module("/b", false, true, &[]),
        ]);
    assert!(graph.has_dynamic_functions(&["/page".to_string()]));
    assert!(!graph.has_dynamic_functions(&["/missing".to_string()]));
}

#[test]
fn dynamic_functions_walk_stops_at_client_boundary() {
    let graph = ModuleGraph::from_modules(vec![
            module("/page", false, false, &["/client"]),
            module("/client", true, false, &["/dyn"]),
            module("/dyn", false, true, &[]),
        ]);
    assert!(!graph.has_dynamic_functions(&["/page".to_string()]));
    // A client component using dynamic functions does not make the route dynamic.
    let graph2 = ModuleGraph::from_modules(vec![module("/page", false, false, &["/c"]), module("/c", true, true, &[])]);
    assert!(!graph2.has_dynamic_functions(&["/page".to_string()]));
    assert!(!graph2.has_dynamic_functions(&["/c".to_string()]));
}

#[test]
fn dynamic_functions_terminates_on_cycles() {
    let graph = ModuleGraph::from_modules(vec![module("/a", false, false, &["/b", "/a"]), module("/b", false, false, &["/a"])]);
    assert!(!graph.has_dynamic_functions(&["/a".to_string(), "/a".to_string()]));
}

#[test]
fn module_queries_filter_in_order() {
    let mut m = module("/s", false, false, &[]);
    m.is_server = true;
    let mut inline = module("/i", false, false, &[]);
    inline.server_functions = vec!["act".to_string()];
    inline.has_unextracted_server_directives = true;
    let graph = ModuleGraph::from_modules(vec![module("/c", true, false, &[]), m, inline]);
    // A client module that no server module imports is no boundary.
    assert!(graph.client_boundary_modules().is_empty());
    assert_eq!(graph.server_modules().iter().map(|m| m.path.as_str()).collect::<Vec<_>>(), vec!["/s", "/i"]);
    assert_eq!(graph.server_action_modules()[0].path, "/s");
    assert_eq!(graph.inline_server_action_modules()[0].path, "/i");
    assert_eq!(graph.unextracted_server_action_modules().len(), 1);
    assert_eq!(graph.get("/i").unwrap().path, "/i");
    assert!(graph.get("/x").is_none());
}

#[test]
fn bare_specifier_split() {
    assert_eq!(split_bare_specifier("@payloadcms/ui/dist/foo"), ("@payloadcms/ui".to_string(), "dist/foo".to_string()));
    assert_eq!(split_bare_specifier("react-datepicker"), ("react-datepicker".to_string(), String::new()));
    assert_eq!(split_bare_specifier("lodash/merge"), ("lodash".to_string(), "merge".to_string()));
    assert_eq!(split_bare_specifier("@scope/pkg"), ("@scope/pkg".to_string(), String::new()));
    assert_eq!(split_bare_specifier("@scope"), ("@scope".to_string(), String::new()));
}

#[test]
fn node_modules_components() {
    assert!(path_in_node_modules("/p/node_modules/x/index.js"));
    assert!(!path_in_node_modules("/p/my_node_modules/x.js"));
    assert!(path_in_node_modules("node_modules"));
}

#[test]
fn graph_walk_visits_each_module_once() {
    let entries = vec!["/page".to_string(), "/page".to_string()];
    let mut walk = GraphWalk::new(&entries);
    let mut order = Vec::new();
    while let Some(p) = walk.next_path() {
        order.push(p.clone());
        let info = match p.as_str() {
            "/page" => module("/page", false, false, &["/a", "/client"]),
            "/a" => module("/a", false, false, &["/page"]),
            "/client" => module("/client", true, false, &["/action", "/plain"]),
            _ => module(&p, false, false, &[]),
        };
        if info.is_client {
            for imp in info.imports.clone() {
                if walk.wants_shallow(&imp) {
                    let mut dep = module(&imp, false, false, &[]);
                    dep.is_server = imp == "/action";
                    walk.record_shallow(dep);
                }
            }
        }
        walk.record(info);
    }
    assert_eq!(order, vec!["/page".to_string(), "/a".to_string(), "/client".to_string()]);
    let graph = walk.finish();
    let paths: Vec<&str> = graph.modules().iter().map(|m| m.path.as_str()).collect();
    assert_eq!(paths, vec!["/page", "/a", "/action", "/client"]);
}

fn cond(entries: Vec<(&str, ExportsField)>) -> ExportsField {
    ExportsField::Conditions(entries.into_iter().map(|(k, v)| (k.to_string(), v)).collect())
}

fn path(p: &str) -> ExportsField {
    ExportsField::Path(p.to_string())
}

#[test]
fn exports_entry_string() {
    assert_eq!(resolve_exports_entry(&path("./dist/index.js")).as_deref(), Some("./dist/index.js"));
}

#[test]
fn exports_entry_prefers_dot_then_conditions_in_priority_order() {
    let e = cond(vec![
        ("./sub", path("./dist/sub.js")),
        (".", cond(vec![("default", path("./dist/index.cjs")), ("import", path("./dist/index.mjs"))])),
    ]);
    assert_eq!(resolve_exports_entry(&e).as_deref(), Some("./dist/index.mjs"));
    let e = cond(vec![("default", path("./d.js")), ("require", path("./r.js"))]);
    assert_eq!(resolve_exports_entry(&e).as_deref(), Some("./r.js"));
}

#[test]
fn exports_entry_none_for_unknown_shapes() {
    assert_eq!(resolve_exports_entry(&ExportsField::Other), None);
    assert_eq!(resolve_exports_entry(&cond(vec![("node", path("./n.js"))])), None);
    assert_eq!(resolve_exports_entry(&cond(vec![(".", ExportsField::Other), ("import", path("./i.js"))])), None);
}

#[test]
fn rex_candidates_package_then_runtime() {
    let c = rex_import_candidates("link", "/p", Some("/rt/client"));
    assert_eq!(
        c,
        vec![
            "/p/node_modules/@limlabs/rex/src/link.tsx",
            "/p/node_modules/@limlabs/rex/src/link.ts",
            "/p/node_modules/@limlabs/rex/src/link.jsx",
            "/p/node_modules/@limlabs/rex/src/link.js",
            "/rt/client/link.tsx",
            "/rt/client/link.ts",
            "/rt/client/link.jsx",
            "/rt/client/link.js",
        ]
    );
    assert_eq!(rex_import_candidates("head", "/p", None).len(), 4);
}

#[test]
fn package_candidates_subpath_only() {
    let exports = path("./index.js");
    assert_eq!(
        package_entry_candidates("/nm/pkg", "dist/foo", Some(&exports), Some("m.js"), None),
        vec!["/nm/pkg/dist/foo".to_string()]
    );
}

#[test]
fn package_candidates_fields_in_order() {
    let exports = cond(vec![(".", path("./dist/index.mjs"))]);
    assert_eq!(
        package_entry_candidates("/nm/pkg", "", Some(&exports), Some("./esm/index.js"), Some("./cjs/index.js")),
        vec![
            "/nm/pkg/./dist/index.mjs".to_string(),
            "/nm/pkg/./esm/index.js".to_string(),
            "/nm/pkg/./cjs/index.js".to_string(),
            "/nm/pkg/index".to_string(),
        ]
    );
    assert_eq!(package_entry_candidates("/nm/pkg", "", None, None, None), vec!["/nm/pkg/index".to_string()]);
}

#[test]
fn client_boundaries_are_client_modules_imported_by_server_modules() {
    let graph = ModuleGraph::from_modules(vec![
            module("/page", false, false, &["/a"]),
            module("/a", true, false, &["/b"]),
            module("/b", true, false, &[]),
            module("/lone", true, false, &[]),
        ]);
    let b = graph.client_boundary_modules();
    assert_eq!(b.iter().map(|m| m.path.as_str()).collect::<Vec<_>>(), vec!["/a"]);
}

#[test]
fn route_render_mode_follows_segments_and_dynamic_functions() {
    let graph = ModuleGraph::from_modules(vec![
            module("/app/page", false, false, &["/lib"]),
            module("/app/layout", false, false, &[]),
            module("/lib", false, true, &[]),
            module("/app/other", false, false, &["/client"]),
            module("/client", true, true, &[]),
        ]);
    let none: Vec<String> = vec![];
    let seg = vec!["id".to_string()];
    assert_eq!(
        graph.route_render_mode(&none, &["/app/page".to_string(), "/app/layout".to_string()]),
        RenderMode::ServerRendered
    );
    assert_eq!(graph.route_render_mode(&none, &["/app/other".to_string()]), RenderMode::Static);
    assert_eq!(graph.route_render_mode(&seg, &["/app/other".to_string()]), RenderMode::ServerRendered);
    assert_eq!(graph.route_render_mode(&none, &[]), RenderMode::Static);
}

#[test]
fn server_and_client_modules_split_the_graph() {
    let graph = ModuleGraph::from_modules(vec![
            module("/a", false, false, &["/b"]),
            module("/b", true, false, &[]),
            module("/c", true, false, &[]),
            module("/d", false, false, &[]),
        ]);
    let server = graph.server_modules();
    let clients = graph.modules().iter().filter(|m| m.is_client).count();
    assert_eq!(server.len() + clients, graph.modules().len());
    assert!(server.iter().all(|m| !m.is_client));
    let boundaries = graph.client_boundary_modules();
    assert_eq!(boundaries.len(), 1);
    assert_eq!(boundaries[0].path, "/b");
}

#[test]
fn assets_and_mdx_are_not_parsed() {
    let info = asset_module_info("/p/styles/Site.CSS").unwrap();
    assert_eq!(info.path, "/p/styles/Site.CSS");
    assert!(!info.is_client && !info.is_server && !info.uses_dynamic_functions);
    assert!(info.imports.is_empty());
    assert_eq!(info.exports, vec!["default".to_string()]);
    assert!(asset_module_info("/p/docs/intro.mdx").is_some());
    assert!(asset_module_info("/p/data.json").is_some());
    assert!(asset_module_info("/p/app/page.tsx").is_none());
    assert!(asset_module_info("/p/Makefile").is_none());
}

#[test]
fn both_directives_are_an_error() {
    let r = module_info("/p/a.ts", true, true, false, vec![], vec![], vec![], "");
    assert_eq!(r.err().unwrap(), "Module /p/a.ts has both \"use client\" and \"use server\" directives");
}

#[test]
fn unextracted_directives_counted_against_server_functions() {
    let src = "export async function a() { \"use server\"; }\n<form action={async () => { 'use server'; }} />";
    let m = module_info("/p/a.tsx", false, false, true, vec!["/p/b.ts".to_string()], vec!["a".to_string()], vec!["a".to_string()], src)
        .unwrap();
    assert!(m.has_unextracted_server_directives);
    assert!(m.uses_dynamic_functions);
    assert_eq!(m.imports, vec!["/p/b.ts".to_string()]);
    let m2 = module_info("/p/a.tsx", false, false, false, vec![], vec![], vec!["a".to_string(), "b".to_string()], src).unwrap();
    assert!(!m2.has_unextracted_server_directives);
    let m3 = module_info("/p/c.tsx", true, false, false, vec![], vec![], vec![], src).unwrap();
    assert!(!m3.has_unextracted_server_directives);
    assert!(m3.is_client);
}

#[test]
fn walk_records_each_path_once() {
    let mut walk = GraphWalk::new(&["/a".to_string()]);
    let p = walk.next_path().unwrap();
    assert_eq!(p, "/a");
    walk.record(module("/a", false, false, &[]));
    walk.record(module("/a", false, true, &[]));
    walk.record_shallow(module("/s", true, false, &[]));
    walk.record_shallow(module("/s", true, true, &[]));
    let graph = walk.finish();
    assert_eq!(graph.modules().len(), 2);
    assert!(graph.get("/a").unwrap().uses_dynamic_functions);
    assert!(graph.get("/s").unwrap().uses_dynamic_functions);
}

#[test]
fn a_later_module_replaces_an_earlier_one_of_the_same_path() {
    let graph = ModuleGraph::from_modules(vec![
        module("/a", false, false, &[]),
        module("/b", true, false, &[]),
        module("/a", false, true, &[]),
    ]);
    assert_eq!(graph.modules().len(), 2);
    assert_eq!(graph.modules()[0].path, "/a");
    assert!(graph.get("/a").unwrap().uses_dynamic_functions);
    assert_eq!(graph.server_modules().len(), 1);
}

fn strs(v: &[&str]) -> Vec<String> {
    v.iter().map(|s| s.to_string()).collect()
}

#[test]
fn syntax_directives_decide_the_kind() {
    let syn = ModuleSyntax { directives: strs(&["use client"]), body: vec![SyntaxStmt::ExportDefault { function_use_server: false }] };
    let m = analyze_module_syntax("/p/a.tsx", &syn, "'use client'").unwrap();
    assert!(m.is_client && !m.is_server);
    assert_eq!(m.exports, strs(&["default"]));
    let both = ModuleSyntax { directives: strs(&["use client", "use server"]), body: vec![] };
    assert_eq!(
        analyze_module_syntax("/p/b.tsx", &both, "").err(),
        Some("Module /p/b.tsx has both \"use client\" and \"use server\" directives".to_string())
    );
}

#[test]
fn syntax_imports_and_dynamic_functions() {
    let syn = ModuleSyntax {
        directives: vec![],
        body: vec![
            SyntaxStmt::Import { source: "./a".to_string(), imported: vec![], resolved: Some("/p/a.tsx".to_string()) },
            SyntaxStmt::Import { source: "react".to_string(), imported: strs(&["cookies"]), resolved: None },
            SyntaxStmt::Other,
        ],
    };
    let m = analyze_module_syntax("/p/page.tsx", &syn, "").unwrap();
    assert_eq!(m.imports, strs(&["/p/a.tsx"]));
    assert!(!m.uses_dynamic_functions);
    let syn2 = ModuleSyntax {
        directives: vec![],
        body: vec![SyntaxStmt::Import {
            source: "next/headers".to_string(),
            imported: strs(&["draftMode", "headers"]),
            resolved: None,
        }],
    };
    assert!(analyze_module_syntax("/p/page.tsx", &syn2, "").unwrap().uses_dynamic_functions);
}

fn exporting_body() -> Vec<SyntaxStmt> {
    vec![
        SyntaxStmt::ExportNamed {
            exported: strs(&["x"]),
            declaration: Some(ExportDecl::Function { name: Some("save".to_string()), body_use_server: true }),
        },
        SyntaxStmt::ExportNamed {
            exported: vec![],
            declaration: Some(ExportDecl::Variables {
                bindings: vec![(Some("a".to_string()), true), (None, true), (Some("b".to_string()), false)],
            }),
        },
        SyntaxStmt::ExportDefault { function_use_server: true },
        SyntaxStmt::ExportNamed { exported: vec![], declaration: Some(ExportDecl::Class { name: Some("C".to_string()) }) },
    ]
}

#[test]
fn syntax_exports_and_server_functions() {
    let syn = ModuleSyntax { directives: vec![], body: exporting_body() };
    let three = "\"use server\" 'use server' \"use server\"";
    let m = analyze_module_syntax("/p/f.tsx", &syn, three).unwrap();
    assert_eq!(m.exports, strs(&["x", "save", "a", "b", "default", "C"]));
    assert_eq!(m.server_functions, strs(&["save", "a", "default"]));
    assert!(!m.has_unextracted_server_directives);
    let four = "\"use server\" 'use server' \"use server\" 'use server'";
    assert!(analyze_module_syntax("/p/f.tsx", &syn, four).unwrap().has_unextracted_server_directives);
}

#[test]
fn a_use_server_module_lists_no_server_functions() {
    let syn = ModuleSyntax { directives: strs(&["use server"]), body: exporting_body() };
    let m = analyze_module_syntax("/p/actions.ts", &syn, "'use server'").unwrap();
    assert!(m.is_server);
    assert!(m.server_functions.is_empty());
    assert_eq!(m.exports.len(), 6);
}
