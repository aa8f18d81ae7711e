//! Pages-router entry sources: the server entry that registers every page,
//! and the client entry that hydrates one page.
use vstd::prelude::*;
use crate::text;

verus! {

/// A page as the entries need it: its module name and absolute path.
pub struct PageEntry {
    pub module_name: String,
    pub abs_path: String,
}

/// The render and data functions the server entry defines after the
/// page registry.
pub const SERVER_ENTRY_RUNTIME: &'static str = "
globalThis.__rex_render_page = function(routeKey, propsJson) {
    var React = globalThis.__React;
    var ReactDOMServer = globalThis.__ReactDOMServer;
    var page = globalThis.__rex_pages[routeKey];
    if (!page) {
        throw new Error('Page not found: ' + routeKey);
    }

    var Component = page.default;
    var props = JSON.parse(propsJson);

    var element = React.createElement(Component, props);

    // Wrap with _app if present
    if (globalThis.__rex_app) {
        var App = globalThis.__rex_app.default;
        element = React.createElement(App, { Component: Component, pageProps: props });
    }

    return ReactDOMServer.renderToString(element);
};

globalThis.__rex_get_server_side_props = function(routeKey, contextJson) {
    var page = globalThis.__rex_pages[routeKey];
    if (!page || !page.getServerSideProps) {
        return JSON.stringify({ props: {} });
    }

    var context = JSON.parse(contextJson);
    var result = page.getServerSideProps(context);

    // Handle both sync and promise results
    if (result && typeof result.then === 'function') {
        // For sync execution in V8, we expect the value to resolve immediately
        var resolved;
        result.then(function(v) { resolved = v; });
        if (resolved !== undefined) {
            return JSON.stringify(resolved);
        }
        throw new Error('getServerSideProps returned an unresolved promise. Use synchronous operations or __rex_fetch_sync.');
    }

    return JSON.stringify(result);
};
";

/// The import and registration lines of the `i`-th page.
pub open spec fn page_registration(i: nat, module_name: Seq<char>, abs_path: Seq<char>) -> Seq<char> {
    "import * as __page_"@ + text::decimal(i) + " from '"@ + abs_path + "';\n"@ + "globalThis.__rex_pages['"@
        + module_name + "'] = __page_"@ + text::decimal(i) + ";\n"@
}

/// The registrations of the first `n` pages.
pub open spec fn page_registrations(pages: Seq<PageEntry>, n: nat) -> Seq<char>
    decreases n,
{
    if n == 0 {
        Seq::empty()
    } else {
        page_registrations(pages, (n - 1) as nat) + page_registration(
            (n - 1) as nat,
            pages[n - 1].module_name@,
            pages[n - 1].abs_path@,
        )
    }
}

/// The server entry: a page registry, one registration per page, `_app`
/// when present, then the render and data functions.
pub open spec fn server_entry(pages: Seq<PageEntry>, app: Option<Seq<char>>) -> Seq<char> {
    "// Rex Server Entry - Auto-generated\n"@ + "'use strict';\n\n"@ + "globalThis.__rex_pages = {};\n\n"@
        + page_registrations(pages, pages.len()) + match app {
        Some(a) => "\nimport * as __app from '"@ + a + "';\n"@ + "globalThis.__rex_app = __app;\n"@,
        None => Seq::empty(),
    } + "\n"@ + SERVER_ENTRY_RUNTIME@
}

/// Generates the server entry that registers all pages into a global
/// registry.
pub fn generate_server_entry(pages: &[PageEntry], app: Option<&str>) -> (r: String)
    ensures
        r@ == server_entry(pages@, text::opt_str_view(app)),
{
    let mut js = String::from_str("// Rex Server Entry - Auto-generated\n");
    js.append("'use strict';\n\n");
    js.append("globalThis.__rex_pages = {};\n\n");
    let ghost head = js@;
    let mut i: usize = 0;
    while i < pages.len()
        invariant
            i <= pages@.len(),
            js@ == head + page_registrations(pages@, i as nat),
        decreases pages.len() - i,
    {
        let n = text::decimal_string(i);
        let ghost before = js@;
        js.append("import * as __page_");
        js.append(n.as_str());
        js.append(" from '");
        js.append(pages[i].abs_path.as_str());
        js.append("';\n");
        js.append("globalThis.__rex_pages['");
        js.append(pages[i].module_name.as_str());
        js.append("'] = __page_");
        js.append(n.as_str());
        js.append(";\n");
        proof {
            assert(js@ =~= before + page_registration(i as nat, pages@[i as int].module_name@, pages@[i as int].abs_path@));
        }
        i += 1;
    }
    let ghost mid = js@;
    match app {
        Some(a) => {
            js.append("\nimport * as __app from '");
            js.append(a);
            js.append("';\n");
            js.append("globalThis.__rex_app = __app;\n");
        },
        None => {},
    }
    js.append("\n");
    js.append(SERVER_ENTRY_RUNTIME);
    proof {
        let tail = match text::opt_str_view(app) {
            Some(a) => "\nimport * as __app from '"@ + a + "';\n"@ + "globalThis.__rex_app = __app;\n"@,
            None => Seq::<char>::empty(),
        };
        assert(js@ =~= mid + tail + "\n"@ + SERVER_ENTRY_RUNTIME@);
    }
    js
}

/// The client entry of a page: imports, the page props read from the
/// document, the page (wrapped in `_app` when present) hydrated into the
/// root, and the build id exposed.
pub open spec fn client_entry(page_path: Seq<char>, app: Option<Seq<char>>, build_id: Seq<char>) -> Seq<char> {
    "// Rex Client Entry - Auto-generated\n"@ + "import React from 'react';\n"@
        + "import { hydrateRoot } from 'react-dom/client';\n"@ + "import Page from '"@ + page_path + "';\n"@
        + match app {
        Some(a) => "import App from '"@ + a + "';\n"@,
        None => Seq::empty(),
    } + "\nvar dataEl = document.getElementById('__REX_DATA__');\nvar pageProps = dataEl ? JSON.parse(dataEl.textContent) : {};\n\nvar container = document.getElementById('__rex');\nvar element;\n"@
        + match app {
        Some(_) => "element = React.createElement(App, { Component: Page, pageProps: pageProps });\n"@,
        None => "element = React.createElement(Page, pageProps);\n"@,
    } + "\nvar root = hydrateRoot(container, element);\nwindow.__REX_ROOT__ = root;\nwindow.__REX_BUILD_ID__ = '"@
        + build_id + "';\n"@
}

/// With an `_app`, the client entry hydrates the page wrapped in it
/// (`App` rendering `Page` with the page props); without one, the page
/// itself.
pub proof fn lemma_client_entry_wraps_in_app(page_path: Seq<char>, app: Option<Seq<char>>, build_id: Seq<char>)
    ensures
        app is Some ==> text::contains(
            client_entry(page_path, app, build_id),
            "element = React.createElement(App, { Component: Page, pageProps: pageProps });\n"@,
        ),
        app is Some ==> text::contains(client_entry(page_path, app, build_id), "import App from '"@ + app->0 + "';\n"@),
        app is None ==> text::contains(
            client_entry(page_path, app, build_id),
            "element = React.createElement(Page, pageProps);\n"@,
        ),
        text::contains(client_entry(page_path, app, build_id), "import Page from '"@ + page_path + "';\n"@),
        text::ends_with(
            client_entry(page_path, app, build_id),
            "\nvar root = hydrateRoot(container, element);\nwindow.__REX_ROOT__ = root;\nwindow.__REX_BUILD_ID__ = '"@
                + build_id + "';\n"@,
        ),
{
    let head = "// Rex Client Entry - Auto-generated\n"@ + "import React from 'react';\n"@
        + "import { hydrateRoot } from 'react-dom/client';\n"@ + "import Page from '"@ + page_path + "';\n"@;
    let imp = match app {
        Some(a) => "import App from '"@ + a + "';\n"@,
        None => Seq::<char>::empty(),
    };
    let mid = "\nvar dataEl = document.getElementById('__REX_DATA__');\nvar pageProps = dataEl ? JSON.parse(dataEl.textContent) : {};\n\nvar container = document.getElementById('__rex');\nvar element;\n"@;
    let el = match app {
        Some(_) => "element = React.createElement(App, { Component: Page, pageProps: pageProps });\n"@,
        None => "element = React.createElement(Page, pageProps);\n"@,
    };
    let tail = "\nvar root = hydrateRoot(container, element);\nwindow.__REX_ROOT__ = root;\nwindow.__REX_BUILD_ID__ = '"@
        + build_id + "';\n"@;
    let s = client_entry(page_path, app, build_id);
    assert(s == head + imp + mid + el + tail);
    text::lemma_contains_self(el);
    assert(s =~= (head + imp + mid) + el + tail);
    text::lemma_contains_mid(head + imp + mid, el, tail, el);
    text::lemma_contains_self(imp);
    assert(s =~= head + imp + (mid + el + tail));
    text::lemma_contains_mid(head, imp, mid + el + tail, imp);
    let pg = "import Page from '"@ + page_path + "';\n"@;
    let h0 = "// Rex Client Entry - Auto-generated\n"@ + "import React from 'react';\n"@
        + "import { hydrateRoot } from 'react-dom/client';\n"@;
    assert(s =~= h0 + pg + (imp + mid + el + tail));
    text::lemma_contains_self(pg);
    text::lemma_contains_mid(h0, pg, imp + mid + el + tail, pg);
    assert(s.subrange(s.len() - tail.len(), s.len() as int) =~= tail);
}

/// Generates the client entry for a page.
pub fn generate_client_entry(page_path: &str, app: Option<&str>, build_id: &str) -> (r: String)
    ensures
        r@ == client_entry(page_path@, text::opt_str_view(app), build_id@),
{
    let mut js = String::from_str("// Rex Client Entry - Auto-generated\n");
    js.append("import React from 'react';\n");
    js.append("import { hydrateRoot } from 'react-dom/client';\n");
    js.append("import Page from '");
    js.append(page_path);
    js.append("';\n");
    let ghost a0 = js@;
    match app {
        Some(a) => {
            js.append("import App from '");
            js.append(a);
            js.append("';\n");
        },
        None => {},
    }
    let ghost a1 = js@;
    js.append(
        "\nvar dataEl = document.getElementById('__REX_DATA__');\nvar pageProps = dataEl ? JSON.parse(dataEl.textContent) : {};\n\nvar container = document.getElementById('__rex');\nvar element;\n",
    );
    let ghost a2 = js@;
    match app {
        Some(_) => {
            js.append("element = React.createElement(App, { Component: Page, pageProps: pageProps });\n");
        },
        None => {
            js.append("element = React.createElement(Page, pageProps);\n");
        },
    }
    let ghost a3 = js@;
    js.append("\nvar root = hydrateRoot(container, element);\nwindow.__REX_ROOT__ = root;\nwindow.__REX_BUILD_ID__ = '");
    js.append(build_id);
    js.append("';\n");
    proof {
        let imp = match text::opt_str_view(app) {
            Some(a) => "import App from '"@ + a + "';\n"@,
            None => Seq::<char>::empty(),
        };
        let el = match text::opt_str_view(app) {
            Some(_) => "element = React.createElement(App, { Component: Page, pageProps: pageProps });\n"@,
            None => "element = React.createElement(Page, pageProps);\n"@,
        };
        assert(a1 =~= a0 + imp);
        assert(a3 =~= a2 + el);
        assert(js@ =~= client_entry(page_path@, text::opt_str_view(app), build_id@));
    }
    js
}

} // verus!
