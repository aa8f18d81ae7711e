//! The pages-router server bundle: the entry that registers every page,
//! API route, route handler, `_app`, `_document`, middleware and MCP tool,
//! and the resolution of bare specifiers that aliases miss inside
//! `node_modules` to their stub files.
use vstd::prelude::*;
use crate::text::{self, decimal, replace_char};
use crate::paths;
use crate::string_set::StringSet;
use crate::rsc_build_config::{Alias, alias_views};
use crate::build_utils::{file_alias, polyfill_aliases, push_alias, node_polyfill_aliases, AliasView};
use crate::rsc_bundler::pair_views;

verus! {

/// Redirects bare specifier prefixes to stub files.
pub struct NodePolyfillResolvePlugin {
    /// Specifier prefix to absolute path of the stub file.
    pub redirects: Vec<(String, String)>,
}

/// A specifier is covered by a redirect prefix: it is the prefix, or
/// continues it with `/`.
pub open spec fn covers(prefix: Seq<char>, specifier: Seq<char>) -> bool {
    specifier == prefix || text::starts_with(specifier, prefix + seq!['/'])
}

/// The target of the first redirect that covers the specifier.
pub open spec fn redirect_of(redirects: Seq<(String, String)>, specifier: Seq<char>) -> Option<Seq<char>>
    decreases redirects.len(),
{
    if redirects.len() == 0 {
        None
    } else if covers(redirects[0].0@, specifier) {
        Some(redirects[0].1@)
    } else {
        redirect_of(redirects.drop_first(), specifier)
    }
}

impl NodePolyfillResolvePlugin {
    pub fn new(redirects: Vec<(String, String)>) -> (r: NodePolyfillResolvePlugin)
        ensures
            r.redirects@ == redirects@,
    {
        NodePolyfillResolvePlugin { redirects }
    }

    /// The stub a specifier resolves to, if a redirect covers it.
    pub fn resolve(&self, specifier: &str) -> (r: Option<String>)
        ensures
            text::opt_view(r) == redirect_of(self.redirects@, specifier@),
    {
        let s = text::chars_of(specifier);
        let ghost rs = self.redirects@;
        let mut i: usize = 0;
        proof {
            assert(rs.skip(0) =~= rs);
        }
        while i < self.redirects.len()
            invariant
                i <= rs.len(),
                rs == self.redirects@,
                s@ == specifier@,
                redirect_of(rs, specifier@) == redirect_of(rs.skip(i as int), specifier@),
            decreases self.redirects.len() - i,
        {
            proof {
                assert(rs.skip(i as int)[0] == rs[i as int]);
                assert(rs.skip(i as int).drop_first() =~= rs.skip(i + 1));
            }
            let (prefix, target) = &self.redirects[i];
            let p = text::chars_of(prefix.as_str());
            let mut with_slash = p.clone();
            with_slash.push('/');
            proof {
                assert(with_slash@ =~= p@ + seq!['/']);
            }
            if text::chars_eq(&s, &p) || text::occurs_at_exec(&s, 0, &with_slash) {
                return Some(String::from_str(target.as_str()));
            }
            i += 1;
        }
        None
    }
}


/// A module registered under a name: a page under its module name, an API
/// route under its module name, a route handler under its pattern, an MCP
/// tool under its tool name.
pub struct NamedModule {
    pub name: String,
    pub path: String,
}

/// What the server entry reads of a pages-router scan.
pub struct PagesServerScan {
    pub pages: Vec<NamedModule>,
    /// The `404` page.
    pub not_found: Option<String>,
    /// The `_error` page.
    pub error: Option<String>,
    pub api_routes: Vec<NamedModule>,
    /// The app router's route handlers (`route.ts`), by pattern.
    pub app_route_handlers: Vec<NamedModule>,
    /// `_app`.
    pub app: Option<String>,
    /// `_document`.
    pub document: Option<String>,
    /// `middleware.ts` at the project root.
    pub middleware: Option<String>,
    pub mcp_tools: Vec<NamedModule>,
}

/// The runtime sources the server entry ends with.
pub struct ServerRuntimeSources {
    pub ssr: String,
    pub app_route: String,
    pub middleware: String,
    pub mcp: String,
}

/// A path with every `\` turned into `/`.
pub open spec fn fwd(p: Seq<char>) -> Seq<char> {
    replace_char(p, '\\', "/"@)
}

/// The path a module is bundled from: its override (a preprocessed copy)
/// where one is given, the path itself otherwise.
pub open spec fn effective(overrides: Seq<(String, String)>, p: Seq<char>) -> Seq<char>
    decreases overrides.len(),
{
    if overrides.len() == 0 {
        p
    } else if overrides[0].0@ == p {
        overrides[0].1@
    } else {
        effective(overrides.drop_first(), p)
    }
}

/// The namespace import of a module as `var` and its registration under
/// `key` in the registry `table`.
pub open spec fn module_reg(var: Seq<char>, table: Seq<char>, key: Seq<char>, path: Seq<char>) -> Seq<char> {
    "import * as "@ + var + " from '"@ + path + "';\n"@ + table + "['"@ + key + "'] = "@ + var + ";\n"@
}

/// The registrations of the first `n` modules, the `i`-th as
/// `{prefix}{i}`, each from its effective path where `use_ov`.
pub open spec fn module_regs(
    ms: Seq<NamedModule>,
    n: nat,
    prefix: Seq<char>,
    table: Seq<char>,
    overrides: Seq<(String, String)>,
    use_ov: bool,
) -> Seq<char>
    decreases n,
{
    if n == 0 {
        Seq::empty()
    } else {
        let m = ms[n - 1];
        module_regs(ms, (n - 1) as nat, prefix, table, overrides, use_ov) + module_reg(
            prefix + decimal((n - 1) as nat),
            table,
            m.name@,
            fwd(if use_ov { effective(overrides, m.path@) } else { m.path@ }),
        )
    }
}

/// A special page (`404`, `_error`) registered under its label, if present.
pub open spec fn special_page(label: Seq<char>, page: Option<String>, overrides: Seq<(String, String)>) -> Seq<char> {
    match page {
        Some(p) => module_reg("__page_"@ + label, "globalThis.__rex_pages"@, label, fwd(effective(overrides, p@))),
        None => Seq::empty(),
    }
}

/// A registry block: nothing without modules; else the registry set up on
/// `globalThis`, then one registration per module.
pub open spec fn registry_block(ms: Seq<NamedModule>, prefix: Seq<char>, table: Seq<char>) -> Seq<char> {
    if ms.len() == 0 {
        Seq::empty()
    } else {
        "\n"@ + table + " = {};\n"@ + module_regs(ms, ms.len(), prefix, table, Seq::empty(), false)
    }
}

/// The `_app` import and registration, if present.
pub open spec fn app_import(app: Option<String>, overrides: Seq<(String, String)>) -> Seq<char> {
    match app {
        Some(a) => "\nimport * as __app from '"@ + fwd(effective(overrides, a@)) + "';\n"@
            + "globalThis.__rex_app = __app;\n"@,
        None => Seq::empty(),
    }
}

/// The `_document` import (with the document runtime) and registration,
/// if present.
pub open spec fn document_import(document: Option<String>, overrides: Seq<(String, String)>) -> Seq<char> {
    match document {
        Some(d) => "\nimport 'rex/document';\n"@ + "import * as __doc from '"@ + fwd(effective(overrides, d@))
            + "';\n"@ + "globalThis.__rex_document = __doc;\n"@,
        None => Seq::empty(),
    }
}

/// The middleware import and registration, if present.
pub open spec fn middleware_import(middleware: Option<String>) -> Seq<char> {
    match middleware {
        Some(m) => "\nimport * as __middleware from '"@ + fwd(m@) + "';\n"@
            + "globalThis.__rex_middleware = __middleware;\n"@,
        None => Seq::empty(),
    }
}

/// The server entry of the pages router: React's server renderer, the head
/// runtime, every page (from its override where one is given) registered
/// under its module name, the `404` and `_error` pages, the API routes and
/// the route handlers, `_app`, `_document`, the middleware and the MCP
/// tools, then the SSR runtime and the runtimes that the route handlers,
/// the middleware and the MCP tools need, when present.
pub open spec fn pages_server_entry(
    scan: PagesServerScan,
    overrides: Seq<(String, String)>,
    rt: ServerRuntimeSources,
) -> Seq<char> {
    let pages = scan.pages@;
    "import { createElement } from 'react';\n"@ + "import { renderToString } from 'react-dom/server';\n"@
        + "var __rex_createElement = createElement;\n"@ + "var __rex_renderToString = renderToString;\n\n"@
        + "import 'rex/head';\n\n"@ + "globalThis.__rex_pages = {};\n"@ + module_regs(
        pages,
        pages.len(),
        "__page"@,
        "globalThis.__rex_pages"@,
        overrides,
        true,
    ) + special_page("404"@, scan.not_found, overrides) + special_page("_error"@, scan.error, overrides)
        + registry_block(scan.api_routes@, "__api"@, "globalThis.__rex_api_handlers"@) + registry_block(
        scan.app_route_handlers@,
        "__app_route"@,
        "globalThis.__rex_app_route_handlers"@,
    ) + app_import(scan.app, overrides) + document_import(scan.document, overrides) + middleware_import(
        scan.middleware,
    ) + registry_block(scan.mcp_tools@, "__mcp"@, "globalThis.__rex_mcp_tools"@) + rt.ssr@ + (if scan.app_route_handlers@.len()
        > 0 {
        rt.app_route@
    } else {
        Seq::empty()
    }) + (if scan.middleware is Some {
        rt.middleware@
    } else {
        Seq::empty()
    }) + (if scan.mcp_tools@.len() > 0 {
        rt.mcp@
    } else {
        Seq::empty()
    })
}

/// The effective path of a module.
pub(crate) fn effective_path(overrides: &[(String, String)], p: &str) -> (r: String)
    ensures
        r@ == effective(overrides@, p@),
{
    let mut i: usize = 0;
    proof {
        assert(overrides@.skip(0) =~= overrides@);
    }
    while i < overrides.len()
        invariant
            i <= overrides@.len(),
            effective(overrides@, p@) == effective(overrides@.skip(i as int), p@),
        decreases overrides.len() - i,
    {
        proof {
            assert(overrides@.skip(i as int).drop_first() =~= overrides@.skip(i + 1));
            assert(overrides@.skip(i as int)[0] == overrides@[i as int]);
        }
        if text::str_eq(overrides[i].0.as_str(), p) {
            return String::from_str(overrides[i].1.as_str());
        }
        i += 1;
    }
    String::from_str(p)
}

fn push_module_reg(entry: &mut String, var: &String, table: &str, key: &str, path: &String)
    ensures
        final(entry)@ == old(entry)@ + module_reg(var@, table@, key@, path@),
{
    let ghost e0 = entry@;
    entry.append("import * as ");
    entry.append(var.as_str());
    entry.append(" from '");
    entry.append(path.as_str());
    entry.append("';\n");
    entry.append(table);
    entry.append("['");
    entry.append(key);
    entry.append("'] = ");
    entry.append(var.as_str());
    entry.append(";\n");
    proof {
        assert(entry@ =~= e0 + module_reg(var@, table@, key@, path@));
    }
}

fn push_module_regs(
    entry: &mut String,
    ms: &[NamedModule],
    prefix: &str,
    table: &str,
    overrides: &[(String, String)],
    use_ov: bool,
)
    ensures
        final(entry)@ == old(entry)@ + module_regs(ms@, ms@.len(), prefix@, table@, overrides@, use_ov),
{
    let ghost e0 = entry@;
    let mut i: usize = 0;
    while i < ms.len()
        invariant
            i <= ms@.len(),
            entry@ == e0 + module_regs(ms@, i as nat, prefix@, table@, overrides@, use_ov),
        decreases ms.len() - i,
    {
        let mut var = String::from_str(prefix);
        let n = text::decimal_string(i);
        var.append(n.as_str());
        let p = if use_ov {
            effective_path(overrides, ms[i].path.as_str())
        } else {
            String::from_str(ms[i].path.as_str())
        };
        let path = text::replace_char_exec(p.as_str(), '\\', "/");
        let ghost before = entry@;
        push_module_reg(entry, &var, table, ms[i].name.as_str(), &path);
        proof {
            assert(entry@ =~= e0 + module_regs(ms@, (i + 1) as nat, prefix@, table@, overrides@, use_ov));
        }
        i += 1;
    }
}

fn push_special_page(entry: &mut String, label: &str, page: &Option<String>, overrides: &[(String, String)])
    ensures
        final(entry)@ == old(entry)@ + special_page(label@, *page, overrides@),
{
    match page {
        Some(p) => {
            let mut var = String::from_str("__page_");
            var.append(label);
            let e = effective_path(overrides, p.as_str());
            let path = text::replace_char_exec(e.as_str(), '\\', "/");
            push_module_reg(entry, &var, "globalThis.__rex_pages", label, &path);
        },
        None => {
            proof {
                assert(entry@ =~= old(entry)@ + Seq::<char>::empty());
            }
        },
    }
}

fn push_registry_block(entry: &mut String, ms: &[NamedModule], prefix: &str, table: &str)
    ensures
        final(entry)@ == old(entry)@ + registry_block(ms@, prefix@, table@),
{
    if ms.len() == 0 {
        proof {
            assert(entry@ =~= old(entry)@ + Seq::<char>::empty());
        }
        return;
    }
    let ghost e0 = entry@;
    entry.append("\n");
    entry.append(table);
    entry.append(" = {};\n");
    let ghost e1 = entry@;
    let no: Vec<(String, String)> = Vec::new();
    push_module_regs(entry, ms, prefix, table, no.as_slice(), false);
    proof {
        assert(no@ =~= Seq::<(String, String)>::empty());
        assert(entry@ =~= e0 + registry_block(ms@, prefix@, table@));
    }
}

fn push_tail(entry: &mut String, scan: &PagesServerScan, overrides: &[(String, String)])
    ensures
        final(entry)@ == old(entry)@ + app_import(scan.app, overrides@) + document_import(scan.document, overrides@)
            + middleware_import(scan.middleware),
{
    let ghost e0 = entry@;
    match &scan.app {
        Some(a) => {
            let p = text::replace_char_exec(effective_path(overrides, a.as_str()).as_str(), '\\', "/");
            entry.append("\nimport * as __app from '");
            entry.append(p.as_str());
            entry.append("';\n");
            entry.append("globalThis.__rex_app = __app;\n");
        },
        None => {},
    }
    let ghost e1 = entry@;
    match &scan.document {
        Some(d) => {
            let p = text::replace_char_exec(effective_path(overrides, d.as_str()).as_str(), '\\', "/");
            entry.append("\nimport 'rex/document';\n");
            entry.append("import * as __doc from '");
            entry.append(p.as_str());
            entry.append("';\n");
            entry.append("globalThis.__rex_document = __doc;\n");
        },
        None => {},
    }
    let ghost e2 = entry@;
    match &scan.middleware {
        Some(m) => {
            let p = text::replace_char_exec(m.as_str(), '\\', "/");
            entry.append("\nimport * as __middleware from '");
            entry.append(p.as_str());
            entry.append("';\n");
            entry.append("globalThis.__rex_middleware = __middleware;\n");
        },
        None => {},
    }
    proof {
        assert(e1 =~= e0 + app_import(scan.app, overrides@));
        assert(e2 =~= e1 + document_import(scan.document, overrides@));
        assert(entry@ =~= e2 + middleware_import(scan.middleware));
    }
}

/// Generates the server entry of the pages router. `page_overrides` maps
/// page paths to preprocessed copies (CSS modules, fonts, MDX) that are
/// bundled in their place.
pub fn generate_pages_server_entry(
    scan: &PagesServerScan,
    page_overrides: &[(String, String)],
    runtimes: &ServerRuntimeSources,
) -> (r: String)
    ensures
        r@ == pages_server_entry(*scan, page_overrides@, *runtimes),
{
    let mut entry = String::new();
    entry.append("import { createElement } from 'react';\n");
    entry.append("import { renderToString } from 'react-dom/server';\n");
    entry.append("var __rex_createElement = createElement;\n");
    entry.append("var __rex_renderToString = renderToString;\n\n");
    entry.append("import 'rex/head';\n\n");
    entry.append("globalThis.__rex_pages = {};\n");
    push_module_regs(&mut entry, scan.pages.as_slice(), "__page", "globalThis.__rex_pages", page_overrides, true);
    push_special_page(&mut entry, "404", &scan.not_found, page_overrides);
    push_special_page(&mut entry, "_error", &scan.error, page_overrides);
    push_registry_block(&mut entry, scan.api_routes.as_slice(), "__api", "globalThis.__rex_api_handlers");
    push_registry_block(
        &mut entry,
        scan.app_route_handlers.as_slice(),
        "__app_route",
        "globalThis.__rex_app_route_handlers",
    );
    push_tail(&mut entry, scan, page_overrides);
    push_registry_block(&mut entry, scan.mcp_tools.as_slice(), "__mcp", "globalThis.__rex_mcp_tools");
    let ghost p0 = entry@;
    entry.append(runtimes.ssr.as_str());
    let ghost p1 = entry@;
    if scan.app_route_handlers.len() > 0 {
        entry.append(runtimes.app_route.as_str());
    }
    let ghost p2 = entry@;
    if scan.middleware.is_some() {
        entry.append(runtimes.middleware.as_str());
    }
    let ghost p3 = entry@;
    if scan.mcp_tools.len() > 0 {
        entry.append(runtimes.mcp.as_str());
    }
    proof {
        let x = if scan.app_route_handlers@.len() > 0 {
            runtimes.app_route@
        } else {
            Seq::<char>::empty()
        };
        let y = if scan.middleware is Some {
            runtimes.middleware@
        } else {
            Seq::<char>::empty()
        };
        let z = if scan.mcp_tools@.len() > 0 {
            runtimes.mcp@
        } else {
            Seq::<char>::empty()
        };
        assert(p2 =~= p1 + x);
        assert(p3 =~= p2 + y);
        assert(entry@ =~= p3 + z);
        assert(entry@ =~= pages_server_entry(*scan, page_overrides@, *runtimes));
    }
    entry
}

/// The framework modules of the server bundle, each onto its file of the
/// server runtime directory.
pub open spec fn server_rex_aliases(dir: Seq<char>) -> Seq<AliasView> {
    seq![
        file_alias(dir, "rex/head"@, "head.ts"@),
        file_alias(dir, "rex/link"@, "link.ts"@),
        file_alias(dir, "rex/router"@, "router.ts"@),
        file_alias(dir, "rex/document"@, "document.ts"@),
        file_alias(dir, "rex/image"@, "image.ts"@),
        file_alias(dir, "rex/middleware"@, "middleware.ts"@),
        file_alias(dir, "next/document"@, "document.ts"@),
    ]
}

/// The aliases of the pages-router server bundle, onto the server runtime
/// directory `runtime_dir` whose file names are `runtime_entries`: the
/// framework modules, then the Node.js polyfills (the project's own
/// aliases follow them).
pub fn server_bundle_aliases(runtime_dir: &str, runtime_entries: &StringSet) -> (r: Vec<Alias>)
    ensures
        alias_views(r@) == server_rex_aliases(runtime_dir@) + polyfill_aliases(runtime_dir@, runtime_entries@),
{
    let mut r: Vec<Alias> = Vec::new();
    proof {
        assert(alias_views(r@) =~= Seq::<AliasView>::empty());
    }
    push_alias(&mut r, runtime_dir, "rex/head", "head.ts");
    push_alias(&mut r, runtime_dir, "rex/link", "link.ts");
    push_alias(&mut r, runtime_dir, "rex/router", "router.ts");
    push_alias(&mut r, runtime_dir, "rex/document", "document.ts");
    push_alias(&mut r, runtime_dir, "rex/image", "image.ts");
    push_alias(&mut r, runtime_dir, "rex/middleware", "middleware.ts");
    push_alias(&mut r, runtime_dir, "next/document", "document.ts");
    proof {
        assert(alias_views(r@) =~= server_rex_aliases(runtime_dir@));
    }
    let ghost head = r@;
    let mut poly = node_polyfill_aliases(runtime_dir, runtime_entries);
    let ghost tail = poly@;
    r.append(&mut poly);
    proof {
        assert(r@ =~= head + tail);
        assert(alias_views(r@) =~= alias_views(head) + alias_views(tail));
    }
    r
}

/// The redirects of the server bundle's resolve plugin, onto the server
/// runtime directory: `file-type` to its stub, and the `@vercel/og`
/// modules to the empty module.
pub open spec fn server_redirects(dir: Seq<char>) -> Seq<(Seq<char>, Seq<char>)> {
    seq![
        ("file-type"@, paths::join_spec(dir, "file-type.ts"@)),
        ("@vercel/og"@, paths::join_spec(dir, "empty.ts"@)),
        ("next/dist/compiled/@vercel/og"@, paths::join_spec(dir, "empty.ts"@)),
    ]
}

/// The redirects of the server bundle's resolve plugin (see
/// `server_redirects`).
pub fn server_polyfill_redirects(runtime_dir: &str) -> (r: Vec<(String, String)>)
    ensures
        pair_views(r@) == server_redirects(runtime_dir@),
{
    let stub = paths::join(runtime_dir, "file-type.ts");
    let empty = paths::join(runtime_dir, "empty.ts");
    let mut r: Vec<(String, String)> = Vec::new();
    r.push((String::from_str("file-type"), stub));
    r.push((String::from_str("@vercel/og"), empty.clone()));
    r.push((String::from_str("next/dist/compiled/@vercel/og"), empty));
    proof {
        assert(pair_views(r@) =~= server_redirects(runtime_dir@));
    }
    r
}

} // verus!
