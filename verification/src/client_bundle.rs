//! The client bundle's entries: the `_app` entry, one hydrating entry per
//! page, and the aliases of the client runtime modules.
use vstd::prelude::*;
use crate::text;
use crate::paths;
use crate::rsc_build_config::{Alias, alias_view, alias_views};
use crate::server_bundle::{effective, fwd};
use crate::manifest::AssetManifest;
use crate::build_utils::{chunk_route_spec, find_route_for_chunk};

verus! {

/// The client entry of `_app`, from its effective path.
pub open spec fn app_entry_spec(app: Seq<char>, overrides: Seq<(String, String)>) -> Seq<char> {
    "import App from '"@ + fwd(effective(overrides, app)) + "';\nwindow.__REX_APP__ = App;\n"@
}

/// The part of a page entry before the page's path.
pub open spec fn page_entry_head() -> Seq<char> {
    "import { createElement } from 'react';\nimport { hydrateRoot } from 'react-dom/client';\nimport Page from '"@
}

/// The part of a page entry between the page's path and its pattern.
pub open spec fn page_entry_mid() -> Seq<char> {
    "';\n\nwindow.__REX_PAGES = window.__REX_PAGES || {};\nwindow.__REX_PAGES['"@
}

/// The part of a page entry after its pattern: the render function for
/// client-side navigation and the hydration of the server-rendered page.
pub open spec fn page_entry_tail() -> Seq<char> {
    "'] = { default: Page };\n\n// Expose render function for client-side navigation (used by router.js)\nif (!window.__REX_RENDER__) {\n  window.__REX_RENDER__ = function(Component, props) {\n    var element;\n    if (window.__REX_APP__) {\n      element = createElement(window.__REX_APP__, { Component: Component, pageProps: props });\n    } else {\n      element = createElement(Component, props);\n    }\n    if (window.__REX_ROOT__) {\n      window.__REX_ROOT__.render(element);\n    }\n  };\n}\n\nif (!window.__REX_NAVIGATING__) {\n  var dataEl = document.getElementById('__REX_DATA__');\n  var pageProps = dataEl ? JSON.parse(dataEl.textContent) : {};\n  var container = document.getElementById('__rex');\n  if (container) {\n    var element;\n    if (window.__REX_APP__) {\n      element = createElement(window.__REX_APP__, { Component: Page, pageProps: pageProps });\n    } else {\n      element = createElement(Page, pageProps);\n    }\n    window.__REX_ROOT__ = hydrateRoot(container, element);\n  }\n}\n"@
}

/// The client entry of a page: it imports the page, registers it under its
/// route pattern and hydrates it (wrapped in `_app` when there is one).
pub open spec fn page_entry_spec(page_path: Seq<char>, route_pattern: Seq<char>) -> Seq<char> {
    page_entry_head() + fwd(page_path) + page_entry_mid() + route_pattern + page_entry_tail()
}

/// Generates the client entry of `_app`; `page_overrides` maps source
/// paths to preprocessed copies bundled in their place.
pub fn app_client_entry(app_path: &str, page_overrides: &[(String, String)]) -> (r: String)
    ensures
        r@ == app_entry_spec(app_path@, page_overrides@),
{
    let e = crate::server_bundle::effective_path(page_overrides, app_path);
    let p = text::replace_char_exec(e.as_str(), '\\', "/");
    let mut r = String::from_str("import App from '");
    r.append(p.as_str());
    r.append("';\nwindow.__REX_APP__ = App;\n");
    r
}

/// Generates the client entry of a page from the path it is bundled from
/// (its server-export-free copy where one was made) and its route pattern.
pub fn page_client_entry(page_path: &str, route_pattern: &str) -> (r: String)
    ensures
        r@ == page_entry_spec(page_path@, route_pattern@),
{
    let p = text::replace_char_exec(page_path, '\\', "/");
    let mut r = String::from_str("import { createElement } from 'react';\nimport { hydrateRoot } from 'react-dom/client';\nimport Page from '");
    r.append(p.as_str());
    r.append("';\n\nwindow.__REX_PAGES = window.__REX_PAGES || {};\nwindow.__REX_PAGES['");
    r.append(route_pattern);
    r.append("'] = { default: Page };\n\n// Expose render function for client-side navigation (used by router.js)\nif (!window.__REX_RENDER__) {\n  window.__REX_RENDER__ = function(Component, props) {\n    var element;\n    if (window.__REX_APP__) {\n      element = createElement(window.__REX_APP__, { Component: Component, pageProps: props });\n    } else {\n      element = createElement(Component, props);\n    }\n    if (window.__REX_ROOT__) {\n      window.__REX_ROOT__.render(element);\n    }\n  };\n}\n\nif (!window.__REX_NAVIGATING__) {\n  var dataEl = document.getElementById('__REX_DATA__');\n  var pageProps = dataEl ? JSON.parse(dataEl.textContent) : {};\n  var container = document.getElementById('__rex');\n  if (container) {\n    var element;\n    if (window.__REX_APP__) {\n      element = createElement(window.__REX_APP__, { Component: Page, pageProps: pageProps });\n    } else {\n      element = createElement(Page, pageProps);\n    }\n    window.__REX_ROOT__ = hydrateRoot(container, element);\n  }\n}\n");
    r
}

/// The client runtime modules aliased before the project's own aliases:
/// the framework's modules and their Next.js names.
pub open spec fn client_runtime_aliases() -> Seq<(Seq<char>, Seq<char>)> {
    seq![
        ("rex/link"@, "link.ts"@), ("rex/head"@, "head.ts"@), ("rex/router"@, "use-router.ts"@),
        ("rex/image"@, "image.ts"@), ("next/link"@, "link.ts"@), ("next/head"@, "head.ts"@),
        ("next/router"@, "use-router.ts"@), ("next/image"@, "image.ts"@),
    ]
}

/// The aliases of a client bundle: each runtime module onto its file of
/// the client runtime directory, then the project's aliases (the first
/// match wins).
pub open spec fn client_aliases_spec(
    runtime_dir: Seq<char>,
    user: Seq<(Seq<char>, Seq<Option<Seq<char>>>)>,
) -> Seq<(Seq<char>, Seq<Option<Seq<char>>>)> {
    client_runtime_aliases().map_values(
        |m: (Seq<char>, Seq<char>)| (m.0, seq![Some(paths::join_spec(runtime_dir, m.1))]),
    ) + user
}

/// The aliases of a client bundle onto the client runtime directory,
/// followed by `user_aliases`.
pub fn client_aliases(runtime_dir: &str, user_aliases: Vec<Alias>) -> (r: Vec<Alias>)
    ensures
        alias_views(r@) == client_aliases_spec(runtime_dir@, alias_views(user_aliases@)),
{
    let table: Vec<(&str, &str)> = vec![
        ("rex/link", "link.ts"), ("rex/head", "head.ts"), ("rex/router", "use-router.ts"),
        ("rex/image", "image.ts"), ("next/link", "link.ts"), ("next/head", "head.ts"),
        ("next/router", "use-router.ts"), ("next/image", "image.ts"),
    ];
    let ghost tv = client_runtime_aliases();
    proof {
        assert(table@.map_values(|m: (&str, &str)| (m.0@, m.1@)) =~= tv);
    }
    let ghost base = tv.map_values(
        |m: (Seq<char>, Seq<char>)| (m.0, seq![Some(paths::join_spec(runtime_dir@, m.1))]),
    );
    let mut r: Vec<Alias> = Vec::new();
    let mut i: usize = 0;
    while i < table.len()
        invariant
            i <= table@.len(),
            table@.len() == tv.len(),
            forall|k: int| 0 <= k < tv.len() ==> tv[k] == (#[trigger] table@[k].0@, table@[k].1@),
            base == tv.map_values(
                |m: (Seq<char>, Seq<char>)| (m.0, seq![Some(paths::join_spec(runtime_dir@, m.1))]),
            ),
            alias_views(r@) == base.take(i as int),
        decreases table.len() - i,
    {
        let (spec, file) = table[i];
        let target = paths::join(runtime_dir, file);
        let a: Alias = (String::from_str(spec), vec![Some(target)]);
        let ghost before = r@;
        r.push(a);
        proof {
            assert(tv[i as int] == (table@[i as int].0@, table@[i as int].1@));
            assert(alias_view(a).1 =~= seq![Some(paths::join_spec(runtime_dir@, file@))]);
            assert(alias_views(r@) =~= alias_views(before).push(alias_view(a)));
            assert(base.take(i + 1) =~= base.take(i as int).push(base[i as int]));
        }
        i += 1;
    }
    let ghost mid = r@;
    let mut user = user_aliases;
    r.append(&mut user);
    proof {
        assert(base.take(tv.len() as int) =~= base);
        assert(alias_views(r@) =~= alias_views(mid) + alias_views(user_aliases@));
    }
    r
}

/// Registers a chunk of the client build in the manifest: a chunk that is
/// no entry is a shared chunk, listed for preloading; the `_app` entry is
/// the app script; any other entry is a page's, and the index of the page
/// (by module name, the first whose chunk name it is) is returned for the
/// caller to record with the page's data strategy. Nothing else changes.
pub fn register_client_chunk(
    manifest: &mut AssetManifest,
    is_entry: bool,
    name: &str,
    filename: &str,
    module_names: &[String],
) -> (r: Option<usize>)
    ensures
        !is_entry ==> r is None && final(manifest).shared_chunks@.len() == old(manifest).shared_chunks@.len() + 1
            && text::views(final(manifest).shared_chunks@) == text::views(old(manifest).shared_chunks@).push(filename@)
            && final(manifest).app_script == old(manifest).app_script,
        is_entry ==> final(manifest).shared_chunks == old(manifest).shared_chunks,
        is_entry && name@ == "_app"@ ==> r is None && final(manifest).app_script is Some
            && final(manifest).app_script->0@ == filename@,
        is_entry && name@ != "_app"@ ==> final(manifest).app_script == old(manifest).app_script && match r {
            Some(i) => chunk_route_spec(name@, module_names@, 0) == Some(i as int),
            None => chunk_route_spec(name@, module_names@, 0) is None,
        },
        final(manifest).build_id == old(manifest).build_id,
        final(manifest).pages == old(manifest).pages,
        final(manifest).global_css == old(manifest).global_css,
        final(manifest).css_contents == old(manifest).css_contents,
        final(manifest).app_routes == old(manifest).app_routes,
        final(manifest).server_actions == old(manifest).server_actions,
        final(manifest).font_preloads == old(manifest).font_preloads,
{
    if !is_entry {
        let ghost before = text::views(manifest.shared_chunks@);
        manifest.shared_chunks.push(String::from_str(filename));
        proof {
            assert(text::views(manifest.shared_chunks@) =~= before.push(filename@));
        }
        return None;
    }
    if text::str_eq(name, "_app") {
        manifest.app_script = Some(String::from_str(filename));
        return None;
    }
    find_route_for_chunk(name, module_names)
}

} // verus!
