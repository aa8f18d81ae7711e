use rex_build::client_bundle::register_client_chunk;
use rex_build::manifest::AssetManifest;
use rex_build::client_bundle::{app_client_entry, client_aliases, page_client_entry};

#[test]
fn app_entry_uses_override_and_forward_slashes() {
    let overrides = vec![("/p/pages/_app.tsx".to_string(), "C:\\out\\_app.tsx".to_string())];
    assert_eq!(
        app_client_entry("/p/pages/_app.tsx", &overrides),
        "import App from 'C:/out/_app.tsx';\nwindow.__REX_APP__ = App;\n"
    );
    assert_eq!(
        app_client_entry("/p/pages/_app.jsx", &overrides),
        "import App from '/p/pages/_app.jsx';\nwindow.__REX_APP__ = App;\n"
    );
}

#[test]
fn page_entry_registers_and_hydrates_the_page() {
    let e = page_client_entry("/p/_dce\\blog-_slug_.tsx", "/blog/:slug");
    assert!(e.starts_with(
        "import { createElement } from 'react';\nimport { hydrateRoot } from 'react-dom/client';\nimport Page from '/p/_dce/blog-_slug_.tsx';\n\n"
    ));
    assert!(e.contains("window.__REX_PAGES = window.__REX_PAGES || {};\nwindow.__REX_PAGES['/blog/:slug'] = { default: Page };\n"));
    assert!(e.contains("window.__REX_ROOT__ = hydrateRoot(container, element);"));
    assert!(e.contains("element = createElement(window.__REX_APP__, { Component: Page, pageProps: pageProps });"));
    assert!(e.ends_with("  }\n}\n"));
}

#[test]
fn client_aliases_put_runtime_modules_first() {
    let user = vec![("@/".to_string(), vec![Some("/p/src/".to_string())])];
    let a = client_aliases("/rt/client", user);
    let names: Vec<&str> = a.iter().map(|x| x.0.as_str()).collect();
    assert_eq!(
        names,
        vec!["rex/link", "rex/head", "rex/router", "rex/image", "next/link", "next/head", "next/router", "next/image", "@/"]
    );
    assert_eq!(a[2].1, vec![Some("/rt/client/use-router.ts".to_string())]);
    assert_eq!(a[7].1, vec![Some("/rt/client/image.ts".to_string())]);
    assert_eq!(a[8].1, vec![Some("/p/src/".to_string())]);
}

#[test]
fn chunks_register_by_role() {
    let mut m = AssetManifest::new("b".to_string());
    let names = vec!["index".to_string(), "blog/[slug]".to_string()];
    assert_eq!(register_client_chunk(&mut m, false, "chunk-react", "chunk-react-1.js", &names), None);
    assert_eq!(m.shared_chunks, vec!["chunk-react-1.js".to_string()]);
    assert_eq!(register_client_chunk(&mut m, true, "_app", "_app-1.js", &names), None);
    assert_eq!(m.app_script, Some("_app-1.js".to_string()));
    assert_eq!(register_client_chunk(&mut m, true, "blog-_slug_", "blog-1.js", &names), Some(1));
    assert_eq!(register_client_chunk(&mut m, true, "other", "other-1.js", &names), None);
    assert_eq!(m.shared_chunks.len(), 1);
}
