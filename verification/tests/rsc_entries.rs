use rex_build::rsc_entries::{
    generate_core_entry, generate_group_entry, generate_server_entry, generate_ssr_entry,
    ssr_module_registrations, AppApiRoute, AppRoute, AppScan, RscRuntimeSources,
};
use rex_build::client_manifest::client_reference_id;
use rex_build::rsc_graph::{ModuleGraph, ModuleInfo};
use rex_build::server_action_manifest::ServerActionManifest;

fn runtimes() -> RscRuntimeSources {
    RscRuntimeSources {
        app_route: "// app route runtime\n".to_string(),
        metadata: "function resolveMetadata() {}\nfunction metadataToHtml() {}\n".to_string(),
        flight: "// flight runtime\n".to_string(),
        ssr_pass: "// ssr pass runtime\n".to_string(),
    }
}

fn make_basic_app_scan() -> AppScan {
    AppScan {
        routes: vec![AppRoute {
            pattern: "/".to_string(),
            page_path: "/project/app/page.tsx".to_string(),
            layout_chain: vec!["/project/app/layout.tsx".to_string()],
        }],
        api_routes: vec![],
    }
}

const EMPTY_MANIFEST_JSON: &str = "{}";

fn server_entry(scan: &AppScan, manifest_json: &str, sa: &ServerActionManifest) -> String {
    generate_server_entry(scan, manifest_json, sa, "/project", &runtimes())
}

#[test]
fn server_entry_contains_react_imports() {
    let scan = make_basic_app_scan();
    let sa_manifest = ServerActionManifest::new();
    let entry = server_entry(&scan, EMPTY_MANIFEST_JSON, &sa_manifest);
    assert!(entry.contains("import { createElement } from 'react'"));
    assert!(entry.contains("import { renderToReadableStream }"));
}

#[test]
fn server_entry_registers_pages() {
    let scan = make_basic_app_scan();
    let sa_manifest = ServerActionManifest::new();
    let entry = server_entry(&scan, EMPTY_MANIFEST_JSON, &sa_manifest);
    assert!(entry.contains("globalThis.__rex_app_pages"));
    assert!(entry.contains("globalThis.__rex_app_pages[\"/\"]"));
}

#[test]
fn server_entry_registers_layout_chains() {
    let scan = make_basic_app_scan();
    let sa_manifest = ServerActionManifest::new();
    let entry = server_entry(&scan, EMPTY_MANIFEST_JSON, &sa_manifest);
    assert!(entry.contains("globalThis.__rex_app_layout_chains"));
    assert!(entry.contains("globalThis.__rex_app_layout_chains[\"/\"]"));
}

#[test]
fn server_entry_embeds_webpack_config() {
    let scan = make_basic_app_scan();
    let config = "{\"ref1\":{\"id\":\"/Counter.js\",\"chunks\":[],\"name\":\"default\"}}";
    let sa_manifest = ServerActionManifest::new();
    let entry = server_entry(&scan, config, &sa_manifest);
    assert!(entry.contains("__rex_webpack_bundler_config"));
    assert!(entry.contains("ref1"));
}

#[test]
fn server_entry_includes_flight_runtime() {
    let scan = make_basic_app_scan();
    let sa_manifest = ServerActionManifest::new();
    let entry = server_entry(&scan, EMPTY_MANIFEST_JSON, &sa_manifest);
    assert!(entry.contains("// --- RSC Flight Runtime ---"));
}

#[test]
fn server_entry_includes_metadata_runtime() {
    let scan = make_basic_app_scan();
    let sa_manifest = ServerActionManifest::new();
    let entry = server_entry(&scan, EMPTY_MANIFEST_JSON, &sa_manifest);
    assert!(entry.contains("// --- Metadata Runtime ---"));
    assert!(entry.contains("metadataToHtml"));
}

#[test]
fn server_entry_registers_metadata_sources() {
    let scan = make_basic_app_scan();
    let sa_manifest = ServerActionManifest::new();
    let entry = server_entry(&scan, EMPTY_MANIFEST_JSON, &sa_manifest);
    assert!(entry.contains("globalThis.__rex_app_metadata_sources"));
    assert!(entry.contains("globalThis.__rex_app_metadata_sources[\"/\"]"));
    assert!(entry.contains("__layout_mod_0_0"));
    assert!(entry.contains("__page_mod_0"));
}

#[test]
fn server_entry_with_server_actions() {
    let scan = make_basic_app_scan();
    let mut sa_manifest = ServerActionManifest::new();
    sa_manifest.add("action_123", "app/actions.ts".to_string(), "increment".to_string());
    let entry = server_entry(&scan, EMPTY_MANIFEST_JSON, &sa_manifest);
    assert!(entry.contains("registerServerReference"));
    assert!(entry.contains("globalThis.__rex_server_actions"));
    assert!(entry.contains("action_123"));
    assert!(entry.contains("globalThis.__rex_decodeReply = decodeReply"));
    assert!(entry.contains("globalThis.__rex_decodeAction = decodeAction"));
    assert!(
        entry.contains("globalThis.__rex_server_action_manifest = globalThis.__rex_server_actions")
    );
}

#[test]
fn server_entry_without_server_actions_omits_registration() {
    let scan = make_basic_app_scan();
    let sa_manifest = ServerActionManifest::new();
    let entry = server_entry(&scan, EMPTY_MANIFEST_JSON, &sa_manifest);
    assert!(!entry.contains("// --- Server Actions Registration ---"));
    assert!(!entry.contains("registerServerReference"));
}

#[test]
fn server_entry_multiple_routes() {
    let layout = "/project/app/layout.tsx".to_string();
    let scan = AppScan {
        routes: vec![
            AppRoute {
                pattern: "/".to_string(),
                page_path: "/project/app/page.tsx".to_string(),
                layout_chain: vec![layout.clone()],
            },
            AppRoute {
                pattern: "/about".to_string(),
                page_path: "/project/app/about/page.tsx".to_string(),
                layout_chain: vec![layout.clone()],
            },
        ],
        api_routes: vec![],
    };
    let sa_manifest = ServerActionManifest::new();
    let entry = server_entry(&scan, EMPTY_MANIFEST_JSON, &sa_manifest);
    assert!(entry.contains("globalThis.__rex_app_pages[\"/\"]"));
    assert!(entry.contains("globalThis.__rex_app_pages[\"/about\"]"));
}

fn make_graph_with_client_boundary() -> ModuleGraph {
    ModuleGraph::from_modules(vec![
            ModuleInfo {
                path: "/project/app/page.tsx".to_string(),
                is_client: false,
                is_server: false,
                uses_dynamic_functions: false,
                imports: vec!["/project/components/Counter.tsx".to_string()],
                exports: vec!["default".to_string()],
                server_functions: vec![],
                has_unextracted_server_directives: false,
            },
            ModuleInfo {
                path: "/project/components/Counter.tsx".to_string(),
                is_client: true,
                is_server: false,
                uses_dynamic_functions: false,
                imports: vec![],
                exports: vec!["default".to_string()],
                server_functions: vec![],
                has_unextracted_server_directives: false,
            },
        ])
}

fn ssr_entry(graph: &ModuleGraph, manifest_json: &str, sa: &ServerActionManifest) -> String {
    generate_ssr_entry(graph, manifest_json, sa, "/project", "build1", &runtimes())
}

#[test]
fn ssr_entry_contains_react_imports() {
    let graph = ModuleGraph::default();
    let sa_manifest = ServerActionManifest::new();
    let entry = ssr_entry(&graph, EMPTY_MANIFEST_JSON, &sa_manifest);
    assert!(entry.contains("import { createElement } from 'react'"));
    assert!(entry.contains("import { renderToReadableStream } from 'react-dom/server'"));
    assert!(entry.contains("import { createFromReadableStream }"));
}

#[test]
fn ssr_entry_imports_client_components() {
    let graph = make_graph_with_client_boundary();
    let sa_manifest = ServerActionManifest::new();
    let entry = ssr_entry(&graph, EMPTY_MANIFEST_JSON, &sa_manifest);
    assert!(entry.contains("import * as __ssr_client_0"));
    assert!(entry.contains("Counter.tsx"));
}

#[test]
fn ssr_entry_registers_modules() {
    let graph = make_graph_with_client_boundary();
    let sa_manifest = ServerActionManifest::new();
    let entry = ssr_entry(&graph, EMPTY_MANIFEST_JSON, &sa_manifest);
    assert!(entry.contains("globalThis.__rex_ssr_modules__"));
}

#[test]
fn ssr_entry_embeds_webpack_manifest() {
    let graph = ModuleGraph::default();
    let manifest_json = "{\"ref1\":{\"*\":{\"id\":\"/chunk.js\",\"chunks\":[],\"name\":\"default\"}}}";
    let sa_manifest = ServerActionManifest::new();
    let entry = ssr_entry(&graph, manifest_json, &sa_manifest);
    assert!(entry.contains("__rex_webpack_ssr_manifest"));
    assert!(entry.contains("ref1"));
}

#[test]
fn ssr_entry_includes_runtime() {
    let graph = ModuleGraph::default();
    let sa_manifest = ServerActionManifest::new();
    let entry = ssr_entry(&graph, EMPTY_MANIFEST_JSON, &sa_manifest);
    assert!(entry.contains("// --- RSC SSR Pass Runtime ---"));
}

#[test]
fn ssr_entry_with_server_actions_generates_server_module_map() {
    let graph = ModuleGraph::default();
    let mut sa_manifest = ServerActionManifest::new();
    sa_manifest.add("sa_abc", "app/actions.ts".to_string(), "increment".to_string());
    let entry = ssr_entry(&graph, EMPTY_MANIFEST_JSON, &sa_manifest);
    assert!(entry.contains("__rex_webpack_server_module_map"));
    assert!(entry.contains("sa_abc"));
    assert!(entry.contains("increment"));
    assert!(entry.contains("globalThis.__rex_ssr_modules__[\"sa_abc\"]"));
}

#[test]
fn ssr_entry_server_module_map_is_compact_json_in_id_order() {
    let graph = ModuleGraph::default();
    let mut sa_manifest = ServerActionManifest::new();
    sa_manifest.add("zz", "app/b.ts".to_string(), "second".to_string());
    sa_manifest.add("aa", "app/a.ts".to_string(), "fir\"st".to_string());
    let entry = ssr_entry(&graph, EMPTY_MANIFEST_JSON, &sa_manifest);
    assert!(entry.contains(
        "globalThis.__rex_webpack_server_module_map = {\"aa\":{\"chunks\":[],\"id\":\"aa\",\"name\":\"fir\\\"st\"},\"zz\":{\"chunks\":[],\"id\":\"zz\",\"name\":\"second\"}};\n"
    ));
    // Stand-ins follow the module order: app/a.ts before app/b.ts.
    let a = entry.find("__rex_ssr_modules__[\"aa\"]").unwrap();
    let z = entry.find("__rex_ssr_modules__[\"zz\"]").unwrap();
    assert!(a < z);
}

#[test]
fn ssr_entry_registers_exports_under_reference_ids_relative_to_root() {
    let graph = make_graph_with_client_boundary();
    let sa_manifest = ServerActionManifest::new();
    let entry = ssr_entry(&graph, EMPTY_MANIFEST_JSON, &sa_manifest);
    let id = client_reference_id("components/Counter.tsx", "default", "build1");
    assert!(entry.contains(&format!("globalThis.__rex_ssr_modules__[\"{id}\"] = __ssr_client_0;\n")));
}

#[test]
fn ssr_module_registrations_one_line_per_export() {
    let exports = vec!["default".to_string(), "Counter".to_string()];
    let regs = ssr_module_registrations(3, "components/Counter.tsx", &exports, "b1");
    let id0 = client_reference_id("components/Counter.tsx", "default", "b1");
    let id1 = client_reference_id("components/Counter.tsx", "Counter", "b1");
    assert_eq!(
        regs,
        format!(
            "globalThis.__rex_ssr_modules__[\"{id0}\"] = __ssr_client_3;\nglobalThis.__rex_ssr_modules__[\"{id1}\"] = __ssr_client_3;\n"
        )
    );
}

#[test]
fn server_entry_groups_actions_by_module_in_path_order() {
    let scan = AppScan { routes: vec![], api_routes: vec![] };
    let mut sa = ServerActionManifest::new();
    sa.add("id_b1", "app/b.ts".to_string(), "one".to_string());
    sa.add("id_a", "app/a.ts".to_string(), "two".to_string());
    sa.add("id_b2", "app/b.ts".to_string(), "three".to_string());
    let entry = generate_server_entry(&scan, "{}", &sa, "/project/", &runtimes());
    let expected = "globalThis.__rex_server_actions = {};\n\
import * as __sa_0 from '/project/app/a.ts';\n\
registerServerReference(__sa_0.two, \"id_a\", \"two\");\n\
globalThis.__rex_server_actions[\"id_a\"] = __sa_0.two;\n\
import * as __sa_1 from '/project/app/b.ts';\n\
registerServerReference(__sa_1.one, \"id_b1\", \"one\");\n\
globalThis.__rex_server_actions[\"id_b1\"] = __sa_1.one;\n\
registerServerReference(__sa_1.three, \"id_b2\", \"three\");\n\
globalThis.__rex_server_actions[\"id_b2\"] = __sa_1.three;\n\
globalThis.__rex_server_action_manifest = globalThis.__rex_server_actions;\n";
    assert!(entry.contains(expected));
}

#[test]
fn server_entry_registers_route_handlers() {
    let scan = AppScan {
        routes: vec![],
        api_routes: vec![AppApiRoute {
            pattern: "/api/hello".to_string(),
            handler_path: "C:\\project\\app\\api\\hello\\route.ts".to_string(),
        }],
    };
    let sa = ServerActionManifest::new();
    let entry = server_entry(&scan, "{}", &sa);
    assert!(entry.contains(
        "\n// --- App Route Handlers ---\nglobalThis.__rex_app_route_handlers = {};\nimport * as __app_route0 from 'C:/project/app/api/hello/route.ts';\nglobalThis.__rex_app_route_handlers['/api/hello'] = __app_route0;\n// app route runtime\n"
    ));
}

#[test]
fn group_entry_exact_text() {
    let routes = vec![AppRoute {
        pattern: "/blog".to_string(),
        page_path: "/p/app/(site)/blog/page.tsx".to_string(),
        layout_chain: vec!["/p/app/layout.tsx".to_string(), "/p/app/(site)/layout.tsx".to_string()],
    }];
    let entry = generate_group_entry(&routes);
    assert_eq!(
        entry,
        "import * as __layout_mod_0_0 from '/p/app/layout.tsx';\n\
import * as __layout_mod_0_1 from '/p/app/(site)/layout.tsx';\n\
import * as __page_mod_0 from '/p/app/(site)/blog/page.tsx';\n\
globalThis.__rex_app_pages[\"/blog\"] = __page_mod_0.default;\n\
globalThis.__rex_app_layout_chains[\"/blog\"] = [__layout_mod_0_0.default, __layout_mod_0_1.default];\n\
globalThis.__rex_app_metadata_sources[\"/blog\"] = [__layout_mod_0_0, __layout_mod_0_1, __page_mod_0];\n"
    );
}

#[test]
fn group_entry_of_no_routes_is_empty() {
    assert_eq!(generate_group_entry(&[]), "");
}

#[test]
fn core_entry_shares_react_and_omits_pages() {
    let scan = make_basic_app_scan();
    let sa = ServerActionManifest::new();
    let entry = generate_core_entry(&scan, "{}", &sa, "/project", &runtimes());
    assert!(entry.starts_with("import * as __react_ns from 'react';\nglobalThis.__rex_react_ns = __react_ns;\n"));
    assert!(entry.contains("globalThis.__rex_app_pages = globalThis.__rex_app_pages || {};\n"));
    assert!(!entry.contains("__page_mod_0"));
    assert!(entry.contains("\nglobalThis.__rex_webpack_bundler_config = {};\n"));
    assert!(entry.ends_with("\n// --- Metadata Runtime ---\nfunction resolveMetadata() {}\nfunction metadataToHtml() {}\n\n// --- RSC Flight Runtime ---\n// flight runtime\n"));
}
