use rex_build::server_bundle::server_bundle_aliases;
use rex_build::string_set::StringSet;
use rex_build::server_bundle::server_polyfill_redirects;
use rex_build::server_bundle::{
    generate_pages_server_entry, NamedModule, NodePolyfillResolvePlugin, PagesServerScan, ServerRuntimeSources,
};

#[test]
fn redirects_prefix_and_subpaths_only() {
    let plugin = NodePolyfillResolvePlugin::new(vec![
        ("sharp".to_string(), "/stubs/sharp.ts".to_string()),
        ("file-type".to_string(), "/stubs/file-type.ts".to_string()),
    ]);
    assert_eq!(plugin.resolve("sharp"), Some("/stubs/sharp.ts".to_string()));
    assert_eq!(plugin.resolve("file-type/core"), Some("/stubs/file-type.ts".to_string()));
    assert_eq!(plugin.resolve("sharpen"), None);
    assert_eq!(plugin.resolve("react"), None);
}

fn module(name: &str, path: &str) -> NamedModule {
    NamedModule { name: name.to_string(), path: path.to_string() }
}

fn runtimes() -> ServerRuntimeSources {
    ServerRuntimeSources {
        ssr: "/*ssr*/".to_string(),
        app_route: "/*route*/".to_string(),
        middleware: "/*mw*/".to_string(),
        mcp: "/*mcp*/".to_string(),
    }
}

const HEADER: &str = "import { createElement } from 'react';\n\
import { renderToString } from 'react-dom/server';\n\
var __rex_createElement = createElement;\n\
var __rex_renderToString = renderToString;\n\n\
import 'rex/head';\n\n\
globalThis.__rex_pages = {};\n";

#[test]
fn empty_scan_gives_header_and_ssr_runtime_only() {
    let scan = PagesServerScan {
        pages: vec![],
        not_found: None,
        error: None,
        api_routes: vec![],
        app_route_handlers: vec![],
        app: None,
        document: None,
        middleware: None,
        mcp_tools: vec![],
    };
    let entry = generate_pages_server_entry(&scan, &[], &runtimes());
    assert_eq!(entry, format!("{HEADER}/*ssr*/"));
}

#[test]
fn full_scan_registers_every_module_in_order() {
    let scan = PagesServerScan {
        pages: vec![module("index", "/p/pages/index.tsx"), module("about", "C:\\p\\pages\\about.tsx")],
        not_found: Some("/p/pages/404.tsx".to_string()),
        error: Some("/p/pages/_error.tsx".to_string()),
        api_routes: vec![module("api/hello", "/p/pages/api/hello.ts")],
        app_route_handlers: vec![module("/api/items", "/p/app/api/items/route.ts")],
        app: Some("/p/pages/_app.tsx".to_string()),
        document: Some("/p/pages/_document.tsx".to_string()),
        middleware: Some("/p/middleware.ts".to_string()),
        mcp_tools: vec![module("search", "/p/mcp/search.ts")],
    };
    let overrides = vec![
        ("/p/pages/index.tsx".to_string(), "/out/pre/index.tsx".to_string()),
        ("/p/pages/_app.tsx".to_string(), "/out/pre/_app.tsx".to_string()),
    ];
    let entry = generate_pages_server_entry(&scan, &overrides, &runtimes());
    let expected = format!(
        "{HEADER}\
import * as __page0 from '/out/pre/index.tsx';\n\
globalThis.__rex_pages['index'] = __page0;\n\
import * as __page1 from 'C:/p/pages/about.tsx';\n\
globalThis.__rex_pages['about'] = __page1;\n\
import * as __page_404 from '/p/pages/404.tsx';\n\
globalThis.__rex_pages['404'] = __page_404;\n\
import * as __page__error from '/p/pages/_error.tsx';\n\
globalThis.__rex_pages['_error'] = __page__error;\n\
\nglobalThis.__rex_api_handlers = {{}};\n\
import * as __api0 from '/p/pages/api/hello.ts';\n\
globalThis.__rex_api_handlers['api/hello'] = __api0;\n\
\nglobalThis.__rex_app_route_handlers = {{}};\n\
import * as __app_route0 from '/p/app/api/items/route.ts';\n\
globalThis.__rex_app_route_handlers['/api/items'] = __app_route0;\n\
\nimport * as __app from '/out/pre/_app.tsx';\n\
globalThis.__rex_app = __app;\n\
\nimport 'rex/document';\n\
import * as __doc from '/p/pages/_document.tsx';\n\
globalThis.__rex_document = __doc;\n\
\nimport * as __middleware from '/p/middleware.ts';\n\
globalThis.__rex_middleware = __middleware;\n\
\nglobalThis.__rex_mcp_tools = {{}};\n\
import * as __mcp0 from '/p/mcp/search.ts';\n\
globalThis.__rex_mcp_tools['search'] = __mcp0;\n\
/*ssr*//*route*//*mw*//*mcp*/"
    );
    assert_eq!(entry, expected);
}

#[test]
fn overrides_apply_to_pages_but_not_to_api_routes() {
    let scan = PagesServerScan {
        pages: vec![],
        not_found: None,
        error: None,
        api_routes: vec![module("api/a", "/p/pages/api/a.ts")],
        app_route_handlers: vec![],
        app: None,
        document: None,
        middleware: None,
        mcp_tools: vec![],
    };
    let overrides = vec![("/p/pages/api/a.ts".to_string(), "/out/a.ts".to_string())];
    let entry = generate_pages_server_entry(&scan, &overrides, &runtimes());
    assert!(entry.contains("import * as __api0 from '/p/pages/api/a.ts';"));
    assert!(!entry.contains("/out/a.ts"));
    assert!(entry.ends_with("/*ssr*/"));
}

#[test]
fn server_aliases_put_framework_modules_before_polyfills() {
    let aliases = server_bundle_aliases("/rt", &StringSet::new());
    assert_eq!(aliases[0], ("rex/head".to_string(), vec![Some("/rt/head.ts".to_string())]));
    assert_eq!(aliases[6], ("next/document".to_string(), vec![Some("/rt/document.ts".to_string())]));
    assert_eq!(aliases[7], ("process".to_string(), vec![Some("/rt/process.ts".to_string())]));
    assert_eq!(aliases[8], ("node:process".to_string(), vec![Some("/rt/process.ts".to_string())]));
}

#[test]
fn server_redirects_point_at_stubs() {
    let r = server_polyfill_redirects("/rt");
    assert_eq!(
        r,
        vec![
            ("file-type".to_string(), "/rt/file-type.ts".to_string()),
            ("@vercel/og".to_string(), "/rt/empty.ts".to_string()),
            ("next/dist/compiled/@vercel/og".to_string(), "/rt/empty.ts".to_string()),
        ]
    );
    let plugin = NodePolyfillResolvePlugin::new(r);
    assert_eq!(plugin.resolve("@vercel/og/x"), Some("/rt/empty.ts".to_string()));
}
