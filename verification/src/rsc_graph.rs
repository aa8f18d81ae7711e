//! The RSC module graph: which modules are client boundaries, server
//! action modules, and whether a route reaches a module that uses dynamic
//! request functions; plus the walk that builds the graph from entries.
use vstd::prelude::*;
use crate::text;
use crate::paths::{join, join_spec};

verus! {

/// What the analysis of one module found.
pub struct ModuleInfo {
    pub path: String,
    /// The module has a `"use client"` directive.
    pub is_client: bool,
    /// The module has a module-level `"use server"` directive.
    pub is_server: bool,
    /// The module imports `cookies` or `headers` from `rex/actions`, which
    /// forces its route to be rendered per request.
    pub uses_dynamic_functions: bool,
    /// Resolved import paths.
    pub imports: Vec<String>,
    /// Export names.
    pub exports: Vec<String>,
    /// Exported functions with a function-level `"use server"` directive
    /// (only for modules without a module-level one).
    pub server_functions: Vec<String>,
    /// The module holds `"use server"` directives that were not extracted.
    pub has_unextracted_server_directives: bool,
}

/// No two modules of `ms` have the same path.
pub open spec fn paths_unique(ms: Seq<ModuleInfo>) -> bool {
    forall|i: int, j: int| 0 <= i < j < ms.len() ==> ms[i].path@ != ms[j].path@
}

/// `ms` with `m` recorded under its path: it replaces the module recorded
/// under the same path, or is appended when there is none.
pub open spec fn upsert(ms: Seq<ModuleInfo>, m: ModuleInfo) -> Seq<ModuleInfo> {
    if exists|i: int| 0 <= i < ms.len() && (#[trigger] ms[i]).path@ == m.path@ {
        ms.update(choose|i: int| 0 <= i < ms.len() && (#[trigger] ms[i]).path@ == m.path@, m)
    } else {
        ms.push(m)
    }
}

/// `ms` with each module of `ns` recorded in turn.
pub open spec fn upsert_all(ms: Seq<ModuleInfo>, ns: Seq<ModuleInfo>) -> Seq<ModuleInfo>
    decreases ns.len(),
{
    if ns.len() == 0 {
        ms
    } else {
        upsert(upsert_all(ms, ns.drop_last()), ns.last())
    }
}

fn upsert_module(modules: &mut Vec<ModuleInfo>, m: ModuleInfo)
    requires
        paths_unique(old(modules)@),
    ensures
        final(modules)@ == upsert(old(modules)@, m),
        paths_unique(final(modules)@),
{
    let ghost ms = modules@;
    let mut i: usize = 0;
    while i < modules.len()
        invariant
            i <= ms.len(),
            modules@ == ms,
            ms == old(modules)@,
            paths_unique(ms),
            forall|k: int| 0 <= k < i ==> ms[k].path@ != m.path@,
        decreases modules.len() - i,
    {
        if text::str_eq(modules[i].path.as_str(), m.path.as_str()) {
            proof {
                let c = choose|k: int| 0 <= k < ms.len() && (#[trigger] ms[k]).path@ == m.path@;
                assert(ms[i as int].path@ == m.path@);
                if c != i {
                    if c < i {
                    } else {
                        assert(ms[i as int].path@ != ms[c].path@);
                    }
                }
                assert(c == i);
            }
            modules[i] = m;
            proof {
                assert forall|a: int, b: int| 0 <= a < b < modules@.len() implies modules@[a].path@ != modules@[b].path@ by {
                    if a != i && b != i {
                        assert(modules@[a] == ms[a] && modules@[b] == ms[b]);
                    } else if a == i {
                        assert(modules@[b] == ms[b]);
                        assert(ms[a].path@ != ms[b].path@);
                    } else {
                        assert(modules@[a] == ms[a]);
                        assert(ms[a].path@ != ms[b].path@);
                    }
                }
            }
            return;
        }
        i += 1;
    }
    modules.push(m);
    proof {
        assert forall|a: int, b: int| 0 <= a < b < modules@.len() implies modules@[a].path@ != modules@[b].path@ by {
            if b == ms.len() {
                assert(modules@[a] == ms[a]);
            } else {
                assert(modules@[a] == ms[a] && modules@[b] == ms[b]);
            }
        }
    }
}

/// How a route is rendered.
#[derive(Clone, Copy, Debug, PartialEq, Eq, Structural)]
pub enum RenderMode {
    /// Rendered once at build time.
    Static,
    /// Rendered per request.
    ServerRendered,
}

/// Extensions the graph analysis does not parse: the assets and MDX.
pub open spec fn is_graph_asset_ext(e: Seq<char>) -> bool {
    crate::esm_transform::is_asset_ext(e) || e == "mdx"@
}

/// The path names a module the graph analysis does not parse: its
/// extension, lowercased, is an asset extension.
pub open spec fn is_graph_asset(path: Seq<char>) -> bool {
    crate::paths::extension_spec(path) matches Some(e) && is_graph_asset_ext(text::lowercase(e))
}

/// The analysis of a module that is not parsed: no directives, no
/// imports, a default export.
pub open spec fn is_asset_info(m: ModuleInfo, path: Seq<char>) -> bool {
    &&& m.path@ == path
    &&& !m.is_client && !m.is_server && !m.uses_dynamic_functions
    &&& m.imports@.len() == 0
    &&& text::views(m.exports@) == seq!["default"@]
    &&& m.server_functions@.len() == 0
    &&& !m.has_unextracted_server_directives
}

/// Occurrences of a quoted `"use server"` directive (either quote) in a
/// source.
pub open spec fn server_directive_count(source: Seq<char>) -> nat {
    text::count_matches_from(source, "\"use server\""@, 0) + text::count_matches_from(source, "'use server'"@, 0)
}

/// The error for a module with both directives.
pub open spec fn directive_conflict_message(path: Seq<char>) -> Seq<char> {
    "Module "@ + path + " has both \"use client\" and \"use server\" directives"@
}

/// The analysis of an asset or MDX module, which is not parsed; `None` for
/// a module that is.
pub fn asset_module_info(path: &str) -> (r: Option<ModuleInfo>)
    ensures
        r is Some <==> is_graph_asset(path@),
        r matches Some(m) ==> is_asset_info(m, path@),
{
    let asset = match crate::paths::extension(path) {
        Some(e) => {
            let lower = text::to_lowercase(e.as_str());
            crate::esm_transform::is_asset_ext_exec(lower.as_str()) || text::str_eq(lower.as_str(), "mdx")
        },
        None => false,
    };
    if !asset {
        return None;
    }
    let exports = vec![String::from_str("default")];
    proof {
        reveal_strlit("default");
        assert(text::views(exports@) =~= seq!["default"@]);
    }
    Some(
        ModuleInfo {
            path: String::from_str(path),
            is_client: false,
            is_server: false,
            uses_dynamic_functions: false,
            imports: Vec::new(),
            exports,
            server_functions: Vec::new(),
            has_unextracted_server_directives: false,
        },
    )
}

/// The analysis of a parsed module from what its parse found: an error
/// when it has both a `"use client"` and a `"use server"` directive;
/// otherwise the module, which holds unextracted `"use server"`
/// directives when it has neither directive and the source quotes
/// `"use server"` more often than it has server functions.
pub fn module_info(
    path: &str,
    is_client: bool,
    is_server: bool,
    uses_dynamic_functions: bool,
    imports: Vec<String>,
    exports: Vec<String>,
    server_functions: Vec<String>,
    source: &str,
) -> (r: Result<ModuleInfo, String>)
    ensures
        r is Err <==> (is_client && is_server),
        r matches Err(e) ==> e@ == directive_conflict_message(path@),
        r matches Ok(m) ==> {
            &&& m.path@ == path@
            &&& m.is_client == is_client && m.is_server == is_server
            &&& m.uses_dynamic_functions == uses_dynamic_functions
            &&& m.imports@ == imports@ && m.exports@ == exports@ && m.server_functions@ == server_functions@
            &&& m.has_unextracted_server_directives == (!is_server && !is_client && server_directive_count(source@)
                > server_functions@.len())
        },
{
    if is_client && is_server {
        let mut e = String::from_str("Module ");
        e.append(path);
        e.append(" has both \"use client\" and \"use server\" directives");
        return Err(e);
    }
    let unextracted = if !is_server && !is_client {
        let s = text::chars_of(source);
        let dq = text::chars_of("\"use server\"");
        let sq = text::chars_of("'use server'");
        let c1 = text::count_matches(&s, &dq);
        let c2 = text::count_matches(&s, &sq);
        let n = server_functions.len();
        if c1 > n {
            true
        } else {
            c2 > n - c1
        }
    } else {
        false
    };
    Ok(
        ModuleInfo {
            path: String::from_str(path),
            is_client,
            is_server,
            uses_dynamic_functions,
            imports,
            exports,
            server_functions,
            has_unextracted_server_directives: unextracted,
        },
    )
}

/// What an exported declaration declares, as the module analysis reads it.
pub enum ExportDecl {
    /// `export function f() {..}`: its name, and whether its body starts
    /// with a `"use server"` directive.
    Function { name: Option<String>, body_use_server: bool },
    /// `export class C {..}`.
    Class { name: Option<String> },
    /// `export const a = .., b = ..`: each declarator's name where it binds
    /// a plain identifier, and whether its initializer is a function whose
    /// body starts with a `"use server"` directive.
    Variables { bindings: Vec<(Option<String>, bool)> },
    /// Any other declaration.
    Other,
}

/// A top-level statement of a module, as the module analysis reads it.
pub enum SyntaxStmt {
    /// `import .. from 'source'`: the names of its named imports, and the
    /// file the source resolves to, if it does.
    Import { source: String, imported: Vec<String>, resolved: Option<String> },
    /// `export default ..`: whether it is a function declaration whose body
    /// starts with a `"use server"` directive.
    ExportDefault { function_use_server: bool },
    /// `export { .. }` or `export <declaration>`: the exported names of its
    /// specifiers, and its declaration.
    ExportNamed { exported: Vec<String>, declaration: Option<ExportDecl> },
    /// Any other statement.
    Other,
}

/// A parsed module: its directives and its top-level statements.
pub struct ModuleSyntax {
    pub directives: Vec<String>,
    pub body: Vec<SyntaxStmt>,
}

/// A name, if there is one, as a list of none or one.
pub open spec fn opt_name(o: Option<String>) -> Seq<Seq<char>> {
    match o {
        Some(n) => seq![n@],
        None => Seq::empty(),
    }
}

/// The names of variable declarators.
pub open spec fn binding_names(bs: Seq<(Option<String>, bool)>) -> Seq<Seq<char>>
    decreases bs.len(),
{
    if bs.len() == 0 {
        Seq::empty()
    } else {
        binding_names(bs.drop_last()) + opt_name(bs.last().0)
    }
}

/// The names of variable declarators initialized with server functions.
pub open spec fn binding_server_names(bs: Seq<(Option<String>, bool)>) -> Seq<Seq<char>>
    decreases bs.len(),
{
    if bs.len() == 0 {
        Seq::empty()
    } else {
        binding_server_names(bs.drop_last()) + if bs.last().1 {
            opt_name(bs.last().0)
        } else {
            Seq::empty()
        }
    }
}

/// The names an exported declaration exports.
pub open spec fn decl_exports(d: ExportDecl) -> Seq<Seq<char>> {
    match d {
        ExportDecl::Function { name, .. } => opt_name(name),
        ExportDecl::Class { name } => opt_name(name),
        ExportDecl::Variables { bindings } => binding_names(bindings@),
        ExportDecl::Other => Seq::empty(),
    }
}

/// The exported server functions a declaration declares.
pub open spec fn decl_server_fns(d: ExportDecl) -> Seq<Seq<char>> {
    match d {
        ExportDecl::Function { name, body_use_server } => if body_use_server {
            opt_name(name)
        } else {
            Seq::empty()
        },
        ExportDecl::Variables { bindings } => binding_server_names(bindings@),
        _ => Seq::empty(),
    }
}

/// The export names of a statement.
pub open spec fn stmt_exports(st: SyntaxStmt) -> Seq<Seq<char>> {
    match st {
        SyntaxStmt::ExportDefault { .. } => seq!["default"@],
        SyntaxStmt::ExportNamed { exported, declaration } => text::views(exported@) + match declaration {
            Some(d) => decl_exports(d),
            None => Seq::empty(),
        },
        _ => Seq::empty(),
    }
}

/// The exported server functions of a statement.
pub open spec fn stmt_server_fns(st: SyntaxStmt) -> Seq<Seq<char>> {
    match st {
        SyntaxStmt::ExportDefault { function_use_server } => if function_use_server {
            seq!["default"@]
        } else {
            Seq::empty()
        },
        SyntaxStmt::ExportNamed { declaration: Some(d), .. } => decl_server_fns(d),
        _ => Seq::empty(),
    }
}

/// The resolved import of a statement.
pub open spec fn stmt_imports(st: SyntaxStmt) -> Seq<Seq<char>> {
    match st {
        SyntaxStmt::Import { resolved: Some(p), .. } => seq![p@],
        _ => Seq::empty(),
    }
}

/// A statement imports `cookies` or `headers` from `rex/actions` or
/// `next/headers`.
pub open spec fn stmt_dynamic(st: SyntaxStmt) -> bool {
    match st {
        SyntaxStmt::Import { source, imported, .. } => (source@ == "rex/actions"@ || source@ == "next/headers"@)
            && exists|i: int| 0 <= i < imported@.len() && (imported@[i]@ == "cookies"@ || imported@[i]@ == "headers"@),
        _ => false,
    }
}

/// The statements' values of `f`, concatenated in order.
pub open spec fn body_names(b: Seq<SyntaxStmt>, f: spec_fn(SyntaxStmt) -> Seq<Seq<char>>) -> Seq<Seq<char>>
    decreases b.len(),
{
    if b.len() == 0 {
        Seq::empty()
    } else {
        body_names(b.drop_last(), f) + f(b.last())
    }
}

/// The module has the directive `d`.
pub open spec fn has_directive(syn: ModuleSyntax, d: Seq<char>) -> bool {
    exists|i: int| 0 <= i < syn.directives@.len() && syn.directives@[i]@ == d
}

fn push_views(v: &mut Vec<String>, names: &Vec<String>)
    ensures
        text::views(final(v)@) == text::views(old(v)@) + text::views(names@),
{
    let ghost v0 = text::views(v@);
    let mut i: usize = 0;
    proof {
        assert(text::views(names@).take(0) =~= Seq::<Seq<char>>::empty());
        assert(v0 + text::views(names@).take(0) =~= v0);
    }
    while i < names.len()
        invariant
            i <= names@.len(),
            text::views(v@) == v0 + text::views(names@).take(i as int),
        decreases names.len() - i,
    {
        let ghost b = text::views(v@);
        v.push(names[i].clone());
        proof {
            assert(text::views(v@) =~= b.push(names@[i as int]@));
            assert(text::views(names@).take(i + 1) =~= text::views(names@).take(i as int).push(names@[i as int]@));
        }
        i += 1;
    }
    proof {
        assert(text::views(names@).take(i as int) =~= text::views(names@));
    }
}

fn push_opt_name(v: &mut Vec<String>, o: &Option<String>)
    ensures
        text::views(final(v)@) == text::views(old(v)@) + opt_name(*o),
{
    let ghost v0 = text::views(v@);
    match o {
        Some(n) => {
            v.push(n.clone());
            proof {
                assert(text::views(v@) =~= v0 + seq![n@]);
            }
        },
        None => {
            proof {
                assert(text::views(v@) =~= v0 + Seq::<Seq<char>>::empty());
            }
        },
    }
}

fn push_decl(d: &ExportDecl, exports: &mut Vec<String>, server: &mut Vec<String>)
    ensures
        text::views(final(exports)@) == text::views(old(exports)@) + decl_exports(*d),
        text::views(final(server)@) == text::views(old(server)@) + decl_server_fns(*d),
{
    let ghost s0 = text::views(server@);
    let ghost e0 = text::views(exports@);
    match d {
        ExportDecl::Function { name, body_use_server } => {
            push_opt_name(exports, name);
            if *body_use_server {
                push_opt_name(server, name);
            } else {
                proof {
                    assert(text::views(server@) =~= s0 + Seq::<Seq<char>>::empty());
                }
            }
        },
        ExportDecl::Class { name } => {
            push_opt_name(exports, name);
            proof {
                assert(text::views(server@) =~= s0 + Seq::<Seq<char>>::empty());
            }
        },
        ExportDecl::Variables { bindings } => {
            let mut i: usize = 0;
            proof {
                assert(bindings@.take(0) =~= Seq::<(Option<String>, bool)>::empty());
                assert(e0 + binding_names(bindings@.take(0)) =~= e0);
                assert(s0 + binding_server_names(bindings@.take(0)) =~= s0);
            }
            while i < bindings.len()
                invariant
                    i <= bindings@.len(),
                    text::views(exports@) == e0 + binding_names(bindings@.take(i as int)),
                    text::views(server@) == s0 + binding_server_names(bindings@.take(i as int)),
                decreases bindings.len() - i,
            {
                proof {
                    assert(bindings@.take(i + 1).drop_last() =~= bindings@.take(i as int));
                    assert(bindings@.take(i + 1).last() == bindings@[i as int]);
                }
                let ghost eb = text::views(exports@);
                let ghost sb = text::views(server@);
                push_opt_name(exports, &bindings[i].0);
                if bindings[i].1 {
                    push_opt_name(server, &bindings[i].0);
                } else {
                    proof {
                        assert(text::views(server@) =~= sb + Seq::<Seq<char>>::empty());
                    }
                }
                proof {
                    assert(text::views(exports@) =~= e0 + binding_names(bindings@.take(i + 1)));
                    assert(text::views(server@) =~= s0 + binding_server_names(bindings@.take(i + 1)));
                }
                i += 1;
            }
            proof {
                assert(bindings@.take(i as int) =~= bindings@);
            }
        },
        ExportDecl::Other => {
            proof {
                assert(text::views(exports@) =~= e0 + Seq::<Seq<char>>::empty());
                assert(text::views(server@) =~= s0 + Seq::<Seq<char>>::empty());
            }
        },
    }
}

fn has_directive_exec(syn: &ModuleSyntax, d: &str) -> (r: bool)
    ensures
        r == has_directive(*syn, d@),
{
    let mut i: usize = 0;
    while i < syn.directives.len()
        invariant
            i <= syn.directives@.len(),
            forall|j: int| 0 <= j < i ==> syn.directives@[j]@ != d@,
        decreases syn.directives.len() - i,
    {
        if text::str_eq(syn.directives[i].as_str(), d) {
            return true;
        }
        i += 1;
    }
    false
}

fn imports_dynamic(source: &str, imported: &Vec<String>) -> (r: bool)
    ensures
        r == ((source@ == "rex/actions"@ || source@ == "next/headers"@) && exists|i: int|
            0 <= i < imported@.len() && (imported@[i]@ == "cookies"@ || imported@[i]@ == "headers"@)),
{
    if !(text::str_eq(source, "rex/actions") || text::str_eq(source, "next/headers")) {
        return false;
    }
    let mut i: usize = 0;
    while i < imported.len()
        invariant
            i <= imported@.len(),
            source@ == "rex/actions"@ || source@ == "next/headers"@,
            forall|j: int| 0 <= j < i ==> !(imported@[j]@ == "cookies"@ || imported@[j]@ == "headers"@),
        decreases imported.len() - i,
    {
        if text::str_eq(imported[i].as_str(), "cookies") || text::str_eq(imported[i].as_str(), "headers") {
            return true;
        }
        i += 1;
    }
    false
}

/// The analysis of a parsed module (`source`: its text; `syntax`: what its
/// parse found): an error when it has both a `"use client"` and a
/// `"use server"` directive; otherwise the module with its resolved
/// imports, its export names and its exported server functions (none for
/// a `"use server"` module) in statement order, whether it imports
/// `cookies` or `headers` from `rex/actions` or `next/headers`, and
/// whether it holds unextracted `"use server"` directives (see
/// `module_info`).
pub fn analyze_module_syntax(path: &str, syntax: &ModuleSyntax, source: &str) -> (r: Result<ModuleInfo, String>)
    ensures
        ({
            let is_client = has_directive(*syntax, "use client"@);
            let is_server = has_directive(*syntax, "use server"@);
            let sfns = if is_server { Seq::empty() } else { body_names(syntax.body@, |st: SyntaxStmt| stmt_server_fns(st)) };
            &&& r is Err <==> (is_client && is_server)
            &&& r matches Err(e) ==> e@ == directive_conflict_message(path@)
            &&& r matches Ok(m) ==> {
                &&& m.path@ == path@
                &&& m.is_client == is_client && m.is_server == is_server
                &&& m.uses_dynamic_functions == exists|i: int| 0 <= i < syntax.body@.len() && stmt_dynamic(#[trigger] syntax.body@[i])
                &&& text::views(m.imports@) == body_names(syntax.body@, |st: SyntaxStmt| stmt_imports(st))
                &&& text::views(m.exports@) == body_names(syntax.body@, |st: SyntaxStmt| stmt_exports(st))
                &&& text::views(m.server_functions@) == sfns
                &&& m.has_unextracted_server_directives == (!is_server && !is_client && server_directive_count(source@)
                    > sfns.len())
            }
        }),
{
    let is_client = has_directive_exec(syntax, "use client");
    let is_server = has_directive_exec(syntax, "use server");
    let ghost b = syntax.body@;
    let ghost fi = |st: SyntaxStmt| stmt_imports(st);
    let ghost fe = |st: SyntaxStmt| stmt_exports(st);
    let ghost fs = |st: SyntaxStmt| stmt_server_fns(st);
    let mut imports: Vec<String> = Vec::new();
    let mut exports: Vec<String> = Vec::new();
    let mut server: Vec<String> = Vec::new();
    let mut dynamic = false;
    let mut i: usize = 0;
    proof {
        assert(b.take(0) =~= Seq::<SyntaxStmt>::empty());
        assert(text::views(imports@) =~= Seq::<Seq<char>>::empty());
        assert(text::views(exports@) =~= Seq::<Seq<char>>::empty());
        assert(text::views(server@) =~= Seq::<Seq<char>>::empty());
    }
    while i < syntax.body.len()
        invariant
            i <= b.len(),
            b == syntax.body@,
            fi == (|st: SyntaxStmt| stmt_imports(st)),
            fe == (|st: SyntaxStmt| stmt_exports(st)),
            fs == (|st: SyntaxStmt| stmt_server_fns(st)),
            text::views(imports@) == body_names(b.take(i as int), fi),
            text::views(exports@) == body_names(b.take(i as int), fe),
            text::views(server@) == if is_server { Seq::empty() } else { body_names(b.take(i as int), fs) },
            dynamic == exists|j: int| 0 <= j < i && stmt_dynamic(#[trigger] b[j]),
        decreases b.len() - i,
    {
        proof {
            assert(b.take(i + 1).drop_last() =~= b.take(i as int));
            assert(b.take(i + 1).last() == b[i as int]);
        }
        let ghost i0 = text::views(imports@);
        let ghost e0 = text::views(exports@);
        let ghost s0 = text::views(server@);
        let mut scratch: Vec<String> = Vec::new();
        match &syntax.body[i] {
            SyntaxStmt::Import { source, imported, resolved } => {
                if imports_dynamic(source.as_str(), imported) {
                    dynamic = true;
                }
                push_opt_name(&mut imports, resolved);
                proof {
                    assert(text::views(exports@) =~= e0 + Seq::<Seq<char>>::empty());
                    assert(text::views(server@) =~= s0 + Seq::<Seq<char>>::empty());
                }
            },
            SyntaxStmt::ExportDefault { function_use_server } => {
                exports.push(String::from_str("default"));
                if *function_use_server && !is_server {
                    server.push(String::from_str("default"));
                    proof {
                        assert(text::views(server@) =~= s0 + seq!["default"@]);
                    }
                } else {
                    proof {
                        assert(text::views(server@) =~= s0);
                    }
                }
                proof {
                    assert(text::views(exports@) =~= e0 + seq!["default"@]);
                    assert(text::views(imports@) =~= i0 + Seq::<Seq<char>>::empty());
                }
            },
            SyntaxStmt::ExportNamed { exported, declaration } => {
                push_views(&mut exports, exported);
                let ghost e1 = text::views(exports@);
                match declaration {
                    Some(d) => {
                        if is_server {
                            push_decl(d, &mut exports, &mut scratch);
                        } else {
                            push_decl(d, &mut exports, &mut server);
                        }
                    },
                    None => {
                        proof {
                            assert(text::views(exports@) =~= e1 + Seq::<Seq<char>>::empty());
                            assert(text::views(server@) =~= s0 + Seq::<Seq<char>>::empty());
                        }
                    },
                }
                proof {
                    assert(text::views(exports@) =~= e0 + stmt_exports(b[i as int]));
                    assert(text::views(imports@) =~= i0 + Seq::<Seq<char>>::empty());
                }
            },
            SyntaxStmt::Other => {
                proof {
                    assert(text::views(imports@) =~= i0 + Seq::<Seq<char>>::empty());
                    assert(text::views(exports@) =~= e0 + Seq::<Seq<char>>::empty());
                    assert(text::views(server@) =~= s0 + Seq::<Seq<char>>::empty());
                }
            },
        }
        proof {
            assert(text::views(imports@) == body_names(b.take(i + 1), fi));
            assert(text::views(exports@) == body_names(b.take(i + 1), fe));
            if !is_server {
                assert(text::views(server@) == body_names(b.take(i + 1), fs));
            }
        }
        i += 1;
    }
    proof {
        assert(b.take(i as int) =~= b);
    }
    module_info(path, is_client, is_server, dynamic, imports, exports, server, source)
}

/// The analyzed module graph: one entry per module path.
pub struct ModuleGraph {
    pub(crate) modules: Vec<ModuleInfo>,
}

impl View for ModuleGraph {
    type V = Seq<ModuleInfo>;

    /// The modules, in the order they were recorded.
    closed spec fn view(&self) -> Seq<ModuleInfo> {
        self.modules@
    }
}

/// The module recorded under path `p` (the last recorded, should a path
/// occur twice).
pub open spec fn module_of(ms: Seq<ModuleInfo>, p: Seq<char>) -> Option<ModuleInfo>
    decreases ms.len(),
{
    if ms.len() == 0 {
        None
    } else if ms.last().path@ == p {
        Some(ms.last())
    } else {
        module_of(ms.drop_last(), p)
    }
}

/// The walk goes on from `p` to `q`: `p` is a recorded module that is not a
/// client boundary, and it imports `q`.
pub open spec fn server_edge(ms: Seq<ModuleInfo>, p: Seq<char>, q: Seq<char>) -> bool {
    match module_of(ms, p) {
        Some(m) => !m.is_client && text::views(m.imports@).contains(q),
        None => false,
    }
}

/// `q` is an entry, or is reached from one in at most `n` server edges.
pub open spec fn reachable_in(ms: Seq<ModuleInfo>, entries: Seq<Seq<char>>, q: Seq<char>, n: nat) -> bool
    decreases n,
{
    entries.contains(q) || (n > 0 && exists|p: Seq<char>|
        #![trigger server_edge(ms, p, q)]
        reachable_in(ms, entries, p, (n - 1) as nat) && server_edge(ms, p, q))
}

/// `q` is reached from the entries through server modules.
pub open spec fn reachable(ms: Seq<ModuleInfo>, entries: Seq<Seq<char>>, q: Seq<char>) -> bool {
    exists|n: nat| reachable_in(ms, entries, q, n)
}

/// The module at `q` is a server module (no `"use client"`) that uses
/// dynamic request functions.
pub open spec fn dynamic_at(ms: Seq<ModuleInfo>, q: Seq<char>) -> bool {
    module_of(ms, q) matches Some(m) && !m.is_client && m.uses_dynamic_functions
}

/// Some server module reached from the entries through server modules
/// uses dynamic request functions (client components do not count).
pub open spec fn reaches_dynamic(ms: Seq<ModuleInfo>, entries: Seq<Seq<char>>) -> bool {
    exists|q: Seq<char>| reachable(ms, entries, q) && dynamic_at(ms, q)
}

/// The modules of `ms` that satisfy `f`, in order.
pub open spec fn select(ms: Seq<ModuleInfo>, f: spec_fn(ModuleInfo) -> bool) -> Seq<ModuleInfo>
    decreases ms.len(),
{
    if ms.len() == 0 {
        Seq::empty()
    } else if f(ms.last()) {
        select(ms.drop_last(), f).push(ms.last())
    } else {
        select(ms.drop_last(), f)
    }
}

pub open spec fn client_pred() -> spec_fn(ModuleInfo) -> bool {
    |m: ModuleInfo| m.is_client
}

/// Some server module (no `"use client"`) of `ms` imports `p`.
pub open spec fn imported_by_server(ms: Seq<ModuleInfo>, p: Seq<char>) -> bool {
    exists|i: int| 0 <= i < ms.len() && !(#[trigger] ms[i]).is_client && text::views(ms[i].imports@).contains(p)
}

/// A client boundary of `ms`: a `"use client"` module that a server module
/// of `ms` imports.
pub open spec fn boundary_pred(ms: Seq<ModuleInfo>) -> spec_fn(ModuleInfo) -> bool {
    |m: ModuleInfo| m.is_client && imported_by_server(ms, m.path@)
}

pub open spec fn server_pred() -> spec_fn(ModuleInfo) -> bool {
    |m: ModuleInfo| !m.is_client
}

pub open spec fn action_pred() -> spec_fn(ModuleInfo) -> bool {
    |m: ModuleInfo| m.is_server
}

pub open spec fn inline_action_pred() -> spec_fn(ModuleInfo) -> bool {
    |m: ModuleInfo| !m.is_server && m.server_functions@.len() > 0
}

pub open spec fn unextracted_pred() -> spec_fn(ModuleInfo) -> bool {
    |m: ModuleInfo| m.has_unextracted_server_directives
}

/// The candidates a walk from `entries` can meet: the entries and every
/// import of every module.
pub open spec fn candidates(ms: Seq<ModuleInfo>, entries: Seq<Seq<char>>) -> Seq<Seq<char>>
    decreases ms.len(),
{
    if ms.len() == 0 {
        entries
    } else {
        candidates(ms.drop_last(), entries) + text::views(ms.last().imports@)
    }
}

/// The `i`-th module of a chain imports the next, and is a recorded
/// server module.
pub open spec fn chain_step(ms: Seq<ModuleInfo>, c: Seq<Seq<char>>, i: int) -> bool {
    server_edge(ms, c[i], c[i + 1])
}

/// A chain of server imports from an entry: it starts at an entry, and
/// each module of it but the last is a recorded server module importing
/// the next.
pub open spec fn import_chain(ms: Seq<ModuleInfo>, entries: Seq<Seq<char>>, c: Seq<Seq<char>>) -> bool {
    &&& c.len() > 0
    &&& entries.contains(c[0])
    &&& forall|i: int| 0 <= i < c.len() - 1 ==> #[trigger] chain_step(ms, c, i)
}

proof fn lemma_reach_to_chain(ms: Seq<ModuleInfo>, entries: Seq<Seq<char>>, q: Seq<char>, n: nat)
    requires
        reachable_in(ms, entries, q, n),
    ensures
        exists|c: Seq<Seq<char>>| import_chain(ms, entries, c) && c.last() == q,
    decreases n,
{
    if entries.contains(q) {
        let c = seq![q];
        assert(import_chain(ms, entries, c) && c.last() == q);
    } else {
        let p = choose|p: Seq<char>| #![trigger server_edge(ms, p, q)] reachable_in(ms, entries, p, (n - 1) as nat) && server_edge(ms, p, q);
        lemma_reach_to_chain(ms, entries, p, (n - 1) as nat);
        let c0 = choose|c: Seq<Seq<char>>| import_chain(ms, entries, c) && c.last() == p;
        let c = c0.push(q);
        assert forall|i: int| 0 <= i < c.len() - 1 implies #[trigger] chain_step(ms, c, i) by {
            if i < c0.len() - 1 {
                assert(chain_step(ms, c0, i));
                assert(c[i] == c0[i] && c[i + 1] == c0[i + 1]);
            } else {
                assert(c[i] == p && c[i + 1] == q);
            }
        }
        assert(c[0] == c0[0]);
        assert(import_chain(ms, entries, c) && c.last() == q);
    }
}

proof fn lemma_chain_to_reach(ms: Seq<ModuleInfo>, entries: Seq<Seq<char>>, c: Seq<Seq<char>>)
    requires
        import_chain(ms, entries, c),
    ensures
        reachable_in(ms, entries, c.last(), (c.len() - 1) as nat),
    decreases c.len(),
{
    if c.len() > 1 {
        let c0 = c.drop_last();
        assert forall|i: int| 0 <= i < c0.len() - 1 implies #[trigger] chain_step(ms, c0, i) by {
            assert(chain_step(ms, c, i));
        }
        assert(c0[0] == c[0]);
        lemma_chain_to_reach(ms, entries, c0);
        assert(chain_step(ms, c, c.len() - 2));
        let p = c0.last();
        assert(server_edge(ms, p, c.last()));
    }
}

/// A route uses dynamic request functions exactly when a chain of server
/// imports leads from one of its entries to a server module that uses
/// them; with no entries it uses none.
pub proof fn lemma_dynamic_iff_chain(ms: Seq<ModuleInfo>, entries: Seq<Seq<char>>)
    ensures
        reaches_dynamic(ms, entries) <==> exists|c: Seq<Seq<char>>|
            import_chain(ms, entries, c) && dynamic_at(ms, c.last()),
        entries.len() == 0 ==> !reaches_dynamic(ms, entries),
{
    if reaches_dynamic(ms, entries) {
        let q = choose|q: Seq<char>| reachable(ms, entries, q) && dynamic_at(ms, q);
        let n = choose|n: nat| reachable_in(ms, entries, q, n);
        lemma_reach_to_chain(ms, entries, q, n);
    }
    if exists|c: Seq<Seq<char>>| import_chain(ms, entries, c) && dynamic_at(ms, c.last()) {
        let c = choose|c: Seq<Seq<char>>| import_chain(ms, entries, c) && dynamic_at(ms, c.last());
        lemma_chain_to_reach(ms, entries, c);
        assert(reachable(ms, entries, c.last()));
    }
    if entries.len() == 0 {
        if reaches_dynamic(ms, entries) {
            let c = choose|c: Seq<Seq<char>>| import_chain(ms, entries, c) && dynamic_at(ms, c.last());
            assert(entries.contains(c[0]));
        }
    }
}

/// A selection holds exactly the modules of the graph that satisfy its
/// predicate.
pub proof fn lemma_select_members(ms: Seq<ModuleInfo>, f: spec_fn(ModuleInfo) -> bool, m: ModuleInfo)
    ensures
        select(ms, f).contains(m) <==> (ms.contains(m) && f(m)),
    decreases ms.len(),
{
    if ms.len() > 0 {
        let init = ms.drop_last();
        lemma_select_members(init, f, m);
        let si = select(init, f);
        if ms.contains(m) && f(m) {
            if init.contains(m) {
                let j = choose|j: int| 0 <= j < si.len() && si[j] == m;
                if f(ms.last()) {
                    assert(si.push(ms.last())[j] == m);
                }
            } else {
                let j = choose|j: int| 0 <= j < ms.len() && ms[j] == m;
                if j < ms.len() - 1 {
                    assert(init[j] == m);
                }
                assert(ms.last() == m);
                assert(si.push(ms.last())[si.len() as int] == m);
            }
        }
        if select(ms, f).contains(m) {
            let j = choose|j: int| 0 <= j < select(ms, f).len() && select(ms, f)[j] == m;
            if f(ms.last()) && j == si.len() {
                assert(ms[ms.len() - 1] == m);
            } else {
                assert(si[j] == m);
                let k = choose|k: int| 0 <= k < init.len() && init[k] == m;
                assert(ms[k] == m);
            }
        }
    }
}

/// A selection from a graph with one module per path has one module per
/// path too.
pub proof fn lemma_select_once(ms: Seq<ModuleInfo>, f: spec_fn(ModuleInfo) -> bool)
    requires
        paths_unique(ms),
    ensures
        paths_unique(select(ms, f)),
    decreases ms.len(),
{
    if ms.len() > 0 {
        let init = ms.drop_last();
        assert forall|i: int, j: int| 0 <= i < j < init.len() implies init[i].path@ != init[j].path@ by {
            assert(init[i] == ms[i] && init[j] == ms[j]);
        }
        lemma_select_once(init, f);
        let si = select(init, f);
        if f(ms.last()) {
            assert forall|i: int, j: int| 0 <= i < j < si.push(ms.last()).len() implies si.push(ms.last())[i].path@
                != si.push(ms.last())[j].path@ by {
                assert(si.push(ms.last())[i] == si[i]);
                if j == si.len() {
                    lemma_select_members(init, f, si[i]);
                    assert(si.contains(si[i]));
                    let k = choose|k: int| 0 <= k < init.len() && init[k] == si[i];
                    assert(ms[k] == init[k]);
                    assert(ms[ms.len() - 1] == ms.last());
                } else {
                    assert(si.push(ms.last())[j] == si[j]);
                }
            }
        }
    }
}

/// Every module is a server module or a client module: the server modules
/// and the `"use client"` modules together are the whole graph.
pub proof fn lemma_server_client_split(ms: Seq<ModuleInfo>)
    ensures
        select(ms, server_pred()).len() + select(ms, client_pred()).len() == ms.len(),
    decreases ms.len(),
{
    if ms.len() > 0 {
        lemma_server_client_split(ms.drop_last());
    }
}

/// Every client boundary is a `"use client"` module of the graph that a
/// server module imports, and every such module is a client boundary.
pub proof fn lemma_boundaries_are_imported_client_modules(ms: Seq<ModuleInfo>, m: ModuleInfo)
    ensures
        select(ms, boundary_pred(ms)).contains(m) <==> (ms.contains(m) && m.is_client && imported_by_server(
            ms,
            m.path@,
        )),
{
    lemma_select_members(ms, boundary_pred(ms), m);
}

proof fn lemma_module_of(ms: Seq<ModuleInfo>, p: Seq<char>)
    ensures
        module_of(ms, p) matches Some(m) ==> m.path@ == p && ms.contains(m),
    decreases ms.len(),
{
    if ms.len() > 0 && ms.last().path@ != p {
        lemma_module_of(ms.drop_last(), p);
        if module_of(ms.drop_last(), p) is Some {
            let m = module_of(ms.drop_last(), p)->0;
            let k = choose|k: int| 0 <= k < ms.drop_last().len() && ms.drop_last()[k] == m;
            assert(ms[k] == m);
        }
    }
    if ms.len() > 0 && ms.last().path@ == p {
        assert(ms[ms.len() - 1] == ms.last());
    }
}

proof fn lemma_candidates(ms: Seq<ModuleInfo>, entries: Seq<Seq<char>>, m: ModuleInfo, q: Seq<char>)
    ensures
        entries.contains(q) ==> candidates(ms, entries).contains(q),
        ms.contains(m) && text::views(m.imports@).contains(q) ==> candidates(ms, entries).contains(q),
    decreases ms.len(),
{
    if ms.len() > 0 {
        let init = ms.drop_last();
        let c0 = candidates(init, entries);
        let tail = text::views(ms.last().imports@);
        lemma_candidates(init, entries, m, q);
        if c0.contains(q) {
            let k = choose|k: int| 0 <= k < c0.len() && c0[k] == q;
            assert((c0 + tail)[k] == q);
        }
        if ms.contains(m) && text::views(m.imports@).contains(q) {
            let k = choose|k: int| 0 <= k < ms.len() && ms[k] == m;
            if k < init.len() {
                assert(init[k] == m);
            } else {
                let j = choose|j: int| 0 <= j < tail.len() && tail[j] == q;
                assert((c0 + tail)[c0.len() + j] == q);
            }
        }
    }
}

proof fn lemma_step(ms: Seq<ModuleInfo>, entries: Seq<Seq<char>>, p: Seq<char>, q: Seq<char>)
    requires
        reachable(ms, entries, p),
        server_edge(ms, p, q),
    ensures
        reachable(ms, entries, q),
{
    let n = choose|n: nat| reachable_in(ms, entries, p, n);
    assert(reachable_in(ms, entries, q, n + 1));
}

/// Every node reached in `n` steps lies in a set that holds the entries
/// and is closed under server edges.
proof fn lemma_closed(ms: Seq<ModuleInfo>, entries: Seq<Seq<char>>, s: Seq<Seq<char>>, q: Seq<char>, n: nat)
    requires
        forall|e: Seq<char>| entries.contains(e) ==> s.contains(e),
        forall|p: Seq<char>, r: Seq<char>| s.contains(p) && #[trigger] server_edge(ms, p, r) ==> s.contains(r),
        reachable_in(ms, entries, q, n),
    ensures
        s.contains(q),
    decreases n,
{
    if !entries.contains(q) {
        let p = choose|p: Seq<char>| reachable_in(ms, entries, p, (n - 1) as nat) && server_edge(ms, p, q);
        lemma_closed(ms, entries, s, p, (n - 1) as nat);
    }
}


impl ModuleGraph {
    /// No two modules have the same path.
    #[verifier::type_invariant]
    spec fn one_per_path(self) -> bool {
        paths_unique(self.modules@)
    }

    /// A graph of the given modules, each recorded under its path in turn
    /// (a later module replaces an earlier one of the same path).
    pub fn from_modules(modules: Vec<ModuleInfo>) -> (r: ModuleGraph)
        ensures
            r@ == upsert_all(Seq::empty(), modules@),
    {
        let mut v: Vec<ModuleInfo> = Vec::new();
        let mut rest = modules;
        let ghost all = rest@;
        let ghost mut i: int = 0;
        while rest.len() > 0
            invariant
                paths_unique(v@),
                0 <= i <= all.len(),
                rest@ == all.subrange(i, all.len() as int),
                v@ == upsert_all(Seq::empty(), all.take(i)),
            decreases rest.len(),
        {
            let m = rest.remove(0);
            let ghost prev = v@;
            proof {
                assert(m == all[i]);
                assert(all.take(i + 1).drop_last() =~= all.take(i));
                assert(all.take(i + 1).last() == all[i]);
                assert(rest@ =~= all.subrange(i + 1, all.len() as int));
            }
            upsert_module(&mut v, m);
            proof {
                assert(v@ == upsert(prev, all[i]));
                i = i + 1;
            }
        }
        proof {
            assert(all.take(i) =~= all);
        }
        ModuleGraph { modules: v }
    }

    /// The modules, in the order they were recorded; no two have the same
    /// path.
    pub fn modules(&self) -> (r: &Vec<ModuleInfo>)
        ensures
            r@ == self@,
            paths_unique(r@),
    {
        proof {
            use_type_invariant(self);
        }
        &self.modules
    }

    /// An empty graph.
    pub fn new() -> (r: ModuleGraph)
        ensures
            r@ == Seq::<ModuleInfo>::empty(),
    {
        ModuleGraph { modules: Vec::new() }
    }

    /// The module recorded under a path.
    pub fn get(&self, path: &str) -> (r: Option<&ModuleInfo>)
        ensures
            match r {
                Some(m) => module_of(self@, path@) == Some(*m),
                None => module_of(self@, path@) is None,
            },
    {
        let ghost ms = self@;
        let mut i: usize = self.modules.len();
        proof {
            assert(ms.take(i as int) =~= ms);
        }
        while i > 0
            invariant
                i <= ms.len(),
                ms == self@,
                module_of(ms, path@) == module_of(ms.take(i as int), path@),
            decreases i,
        {
            proof {
                assert(ms.take(i as int).drop_last() =~= ms.take(i - 1));
                assert(ms.take(i as int).last() == ms[i - 1]);
            }
            if text::str_eq(self.modules[i - 1].path.as_str(), path) {
                return Some(&self.modules[i - 1]);
            }
            i -= 1;
        }
        None
    }

    fn select_exec(&self, which: u8) -> (r: Vec<&ModuleInfo>)
        requires
            which < 5,
        ensures
            r@.len() == select(self@, pred_of(which)).len(),
            forall|k: int| 0 <= k < r@.len() ==> *r@[k] == select(self@, pred_of(which))[k],
    {
        let ghost ms = self@;
        let ghost f = pred_of(which);
        let mut r: Vec<&ModuleInfo> = Vec::new();
        let mut i: usize = 0;
        while i < self.modules.len()
            invariant
                i <= ms.len(),
                ms == self@,
                f == pred_of(which),
                which < 5,
                r@.len() == select(ms.take(i as int), f).len(),
                forall|k: int| 0 <= k < r@.len() ==> *r@[k] == select(ms.take(i as int), f)[k],
            decreases self.modules.len() - i,
        {
            proof {
                assert(ms.take(i + 1).drop_last() =~= ms.take(i as int));
                assert(ms.take(i + 1).last() == ms[i as int]);
            }
            let m = &self.modules[i];
            let keep = if which == 0 {
                m.is_client
            } else if which == 1 {
                !m.is_client
            } else if which == 2 {
                m.is_server
            } else if which == 3 {
                !m.is_server && m.server_functions.len() > 0
            } else {
                m.has_unextracted_server_directives
            };
            proof {
                assert(keep == f(*m));
            }
            if keep {
                r.push(m);
            }
            i += 1;
        }
        proof {
            assert(ms.take(i as int) =~= ms);
        }
        r
    }

    /// The modules with a `"use client"` directive that a server module of
    /// the graph imports.
    pub fn client_boundary_modules(&self) -> (r: Vec<&ModuleInfo>)
        ensures
            r@.len() == select(self@, boundary_pred(self@)).len(),
            forall|k: int| 0 <= k < r@.len() ==> *r@[k] == select(self@, boundary_pred(self@))[k],
            paths_unique(select(self@, boundary_pred(self@))),
    {
        proof {
            use_type_invariant(self);
            lemma_select_once(self@, boundary_pred(self@));
        }
        let ghost ms = self@;
        let ghost f = boundary_pred(ms);
        let mut r: Vec<&ModuleInfo> = Vec::new();
        let mut i: usize = 0;
        while i < self.modules.len()
            invariant
                i <= ms.len(),
                ms == self@,
                f == boundary_pred(ms),
                r@.len() == select(ms.take(i as int), f).len(),
                forall|k: int| 0 <= k < r@.len() ==> *r@[k] == select(ms.take(i as int), f)[k],
            decreases self.modules.len() - i,
        {
            proof {
                assert(ms.take(i + 1).drop_last() =~= ms.take(i as int));
                assert(ms.take(i + 1).last() == ms[i as int]);
            }
            let m = &self.modules[i];
            let keep = m.is_client && self.imported_by_server_exec(m.path.as_str());
            proof {
                assert(keep == f(*m));
            }
            if keep {
                r.push(m);
            }
            i += 1;
        }
        proof {
            assert(ms.take(i as int) =~= ms);
        }
        r
    }

    /// Whether a server module of the graph imports `path`.
    fn imported_by_server_exec(&self, path: &str) -> (r: bool)
        ensures
            r == imported_by_server(self@, path@),
    {
        let ghost ms = self@;
        let mut i: usize = 0;
        while i < self.modules.len()
            invariant
                i <= ms.len(),
                ms == self@,
                forall|k: int| 0 <= k < i ==> !(!(#[trigger] ms[k]).is_client && text::views(ms[k].imports@).contains(path@)),
            decreases self.modules.len() - i,
        {
            if !self.modules[i].is_client && text::contains_string(&self.modules[i].imports, path) {
                return true;
            }
            i += 1;
        }
        false
    }

    /// The server-only modules (no `"use client"`).
    pub fn server_modules(&self) -> (r: Vec<&ModuleInfo>)
        ensures
            r@.len() == select(self@, server_pred()).len(),
            forall|k: int| 0 <= k < r@.len() ==> *r@[k] == select(self@, server_pred())[k],
            paths_unique(select(self@, server_pred())),
    {
        proof {
            use_type_invariant(self);
            lemma_select_once(self@, server_pred());
        }
        self.select_exec(1)
    }

    /// The modules with a module-level `"use server"` directive.
    pub fn server_action_modules(&self) -> (r: Vec<&ModuleInfo>)
        ensures
            r@.len() == select(self@, action_pred()).len(),
            forall|k: int| 0 <= k < r@.len() ==> *r@[k] == select(self@, action_pred())[k],
            paths_unique(select(self@, action_pred())),
    {
        proof {
            use_type_invariant(self);
            lemma_select_once(self@, action_pred());
        }
        self.select_exec(2)
    }

    /// The modules with function-level `"use server"` directives and no
    /// module-level one.
    pub fn inline_server_action_modules(&self) -> (r: Vec<&ModuleInfo>)
        ensures
            r@.len() == select(self@, inline_action_pred()).len(),
            forall|k: int| 0 <= k < r@.len() ==> *r@[k] == select(self@, inline_action_pred())[k],
            paths_unique(select(self@, inline_action_pred())),
    {
        proof {
            use_type_invariant(self);
            lemma_select_once(self@, inline_action_pred());
        }
        self.select_exec(3)
    }

    /// The modules with inline `"use server"` directives that could not be
    /// extracted.
    pub fn unextracted_server_action_modules(&self) -> (r: Vec<&ModuleInfo>)
        ensures
            r@.len() == select(self@, unextracted_pred()).len(),
            forall|k: int| 0 <= k < r@.len() ==> *r@[k] == select(self@, unextracted_pred())[k],
            paths_unique(select(self@, unextracted_pred())),
    {
        proof {
            use_type_invariant(self);
            lemma_select_once(self@, unextracted_pred());
        }
        self.select_exec(4)
    }

    /// How an app route is rendered (automatic static optimization): per
    /// request when its pattern has dynamic segments or when a server
    /// module of its tree, reached from the page and its layouts through
    /// server modules, uses dynamic request functions; ahead of time
    /// otherwise.
    pub fn route_render_mode(&self, dynamic_segments: &[String], entry_paths: &[String]) -> (r: RenderMode)
        ensures
            r == (if dynamic_segments@.len() > 0 || reaches_dynamic(self@, text::views(entry_paths@)) {
                RenderMode::ServerRendered
            } else {
                RenderMode::Static
            }),
    {
        if dynamic_segments.len() > 0 || self.has_dynamic_functions(entry_paths) {
            RenderMode::ServerRendered
        } else {
            RenderMode::Static
        }
    }

    /// Whether a module reached from the entry points through server
    /// modules (the walk stops at client boundaries) uses dynamic request
    /// functions, which forces the route to be rendered per request.
    pub fn has_dynamic_functions(&self, entry_paths: &[String]) -> (r: bool)
        ensures
            r == reaches_dynamic(self@, text::views(entry_paths@)),
    {
        let ghost ms = self@;
        let ghost es = text::views(entry_paths@);
        let ghost cands = candidates(ms, es);
        let mut queue: Vec<String> = Vec::new();
        let mut i: usize = 0;
        while i < entry_paths.len()
            invariant
                i <= entry_paths@.len(),
                es == text::views(entry_paths@),
                ms == self@,
                cands == candidates(ms, es),
                text::views(queue@).no_duplicates(),
                forall|k: int| 0 <= k < queue@.len() ==> es.contains(#[trigger] queue@[k]@),
                forall|k: int| 0 <= k < i ==> text::views(queue@).contains(#[trigger] es[k]),
            decreases entry_paths.len() - i,
        {
            let e = entry_paths[i].as_str();
            proof {
                assert(es[i as int] == e@);
            }
            if !text::contains_string(&queue, e) {
                let ghost qb = text::views(queue@);
                queue.push(String::from_str(e));
                proof {
                    assert(text::views(queue@) =~= qb.push(e@));
                    assert forall|k: int| 0 <= k <= i implies text::views(queue@).contains(#[trigger] es[k]) by {
                        if k < i {
                            let j = choose|j: int| 0 <= j < qb.len() && qb[j] == es[k];
                            assert(text::views(queue@)[j] == es[k]);
                        } else {
                            assert(text::views(queue@)[qb.len() as int] == es[k]);
                        }
                    }
                }
            }
            i += 1;
        }
        let mut head: usize = 0;
        proof {
            assert forall|e: Seq<char>| es.contains(e) implies text::views(queue@).contains(e) by {
                let k = choose|k: int| 0 <= k < es.len() && es[k] == e;
            }
            assert forall|k: int| 0 <= k < queue@.len() implies reachable(ms, es, #[trigger] queue@[k]@) by {
                assert(es.contains(queue@[k]@));
                assert(reachable_in(ms, es, queue@[k]@, 0));
            }
            assert forall|k: int| 0 <= k < queue@.len() implies cands.contains(#[trigger] queue@[k]@) by {
                assert(es.contains(queue@[k]@));
                lemma_candidates(ms, es, ms[0], queue@[k]@);
            }
        }
        while head < queue.len()
            invariant
                head <= queue@.len(),
                es == text::views(entry_paths@),
                ms == self@,
                cands == candidates(ms, es),
                text::views(queue@).no_duplicates(),
                forall|k: int| 0 <= k < queue@.len() ==> reachable(ms, es, #[trigger] queue@[k]@),
                forall|k: int| 0 <= k < queue@.len() ==> cands.contains(#[trigger] queue@[k]@),
                forall|e: Seq<char>| es.contains(e) ==> text::views(queue@).contains(e),
                forall|k: int| 0 <= k < head ==> !dynamic_at(ms, #[trigger] queue@[k]@),
                forall|k: int, r: Seq<char>|
                    0 <= k < head && #[trigger] server_edge(ms, queue@[k]@, r) ==> text::views(queue@).contains(r),
            decreases cands.len() - head,
        {
            proof {
                let qv = text::views(queue@);
                assert forall|x: Seq<char>| qv.to_set().contains(x) implies cands.to_set().contains(x) by {
                    let k = choose|k: int| 0 <= k < qv.len() && qv[k] == x;
                    assert(cands.contains(queue@[k]@));
                }
                qv.unique_seq_to_set();
                cands.lemma_cardinality_of_set();
                vstd::set_lib::lemma_len_subset(qv.to_set(), cands.to_set());
            }
            let ghost p = queue@[head as int]@;
            let ghost qb = queue@;
            match self.get(queue[head].as_str()) {
                Some(m) => {
                    proof {
                        lemma_module_of(ms, p);
                    }
                    if m.uses_dynamic_functions && !m.is_client {
                        proof {
                            assert(reachable(ms, es, queue@[head as int]@));
                            assert(dynamic_at(ms, p));
                        }
                        return true;
                    }
                    if !m.is_client {
                        let mut j: usize = 0;
                        while j < m.imports.len()
                            invariant
                                j <= m.imports@.len(),
                                head < qb.len(),
                                qb.len() <= queue@.len(),
                                forall|k: int| 0 <= k < qb.len() ==> queue@[k] == qb[k],
                                p == qb[head as int]@,
                                module_of(ms, p) == Some(*m),
                                ms.contains(*m),
                                !m.is_client,
                                es == text::views(entry_paths@),
                                ms == self@,
                                cands == candidates(ms, es),
                                text::views(queue@).no_duplicates(),
                                forall|k: int| 0 <= k < queue@.len() ==> reachable(ms, es, #[trigger] queue@[k]@),
                                forall|k: int| 0 <= k < queue@.len() ==> cands.contains(#[trigger] queue@[k]@),
                                forall|k: int| 0 <= k < j ==> text::views(queue@).contains(
                                    #[trigger] text::views(m.imports@)[k],
                                ),
                            decreases m.imports.len() - j,
                        {
                            let imp = m.imports[j].as_str();
                            proof {
                                assert(text::views(m.imports@)[j as int] == imp@);
                            }
                            if !text::contains_string(&queue, imp) {
                                let ghost q0 = text::views(queue@);
                                queue.push(String::from_str(imp));
                                proof {
                                    assert(text::views(queue@) =~= q0.push(imp@));
                                    assert(text::views(m.imports@).contains(imp@));
                                    assert(server_edge(ms, p, imp@));
                                    assert(reachable(ms, es, qb[head as int]@));
                                    lemma_step(ms, es, p, imp@);
                                    lemma_candidates(ms, es, *m, imp@);
                                    assert forall|k: int| 0 <= k <= j implies text::views(queue@).contains(
                                        #[trigger] text::views(m.imports@)[k],
                                    ) by {
                                        if k < j {
                                            let t = choose|t: int| 0 <= t < q0.len() && q0[t] == text::views(m.imports@)[k];
                                            assert(text::views(queue@)[t] == q0[t]);
                                        } else {
                                            assert(text::views(queue@)[q0.len() as int] == imp@);
                                        }
                                    }
                                }
                            }
                            j += 1;
                        }
                    }
                },
                None => {},
            }
            proof {
                assert(qb.len() <= queue@.len());
                assert forall|k: int| 0 <= k < qb.len() implies queue@[k] == qb[k] by {}
                assert forall|e: Seq<char>| es.contains(e) implies text::views(queue@).contains(e) by {
                    assert(text::views(qb).contains(e));
                    let t = choose|t: int| 0 <= t < text::views(qb).len() && text::views(qb)[t] == e;
                    assert(queue@[t] == qb[t]);
                    assert(text::views(queue@)[t] == e);
                }
                assert forall|k: int, r: Seq<char>|
                    0 <= k <= head && #[trigger] server_edge(ms, queue@[k]@, r) implies text::views(queue@).contains(r) by {
                    if k < head {
                        assert(queue@[k] == qb[k]);
                        assert(server_edge(ms, qb[k]@, r));
                        assert(text::views(qb).contains(r));
                        let t = choose|t: int| 0 <= t < text::views(qb).len() && text::views(qb)[t] == r;
                        assert(queue@[t] == qb[t]);
                        assert(text::views(queue@)[t] == r);
                    } else {
                        assert(queue@[k]@ == p);
                        let m = module_of(ms, p)->0;
                        assert(text::views(m.imports@).contains(r));
                        let j = choose|j: int| 0 <= j < text::views(m.imports@).len() && text::views(m.imports@)[j] == r;
                    }
                }
                assert forall|k: int| 0 <= k <= head implies !dynamic_at(ms, #[trigger] queue@[k]@) by {
                    if k < head {
                        assert(queue@[k] == qb[k]);
                    } else {
                        assert(queue@[k]@ == p);
                    }
                }
            }
            head += 1;
        }
        proof {
            let s = text::views(queue@);
            assert forall|p: Seq<char>, r: Seq<char>| s.contains(p) && #[trigger] server_edge(ms, p, r) implies s.contains(r) by {
                let k = choose|k: int| 0 <= k < s.len() && s[k] == p;
                assert(server_edge(ms, queue@[k]@, r));
            }
            assert forall|q: Seq<char>| reachable(ms, es, q) implies !dynamic_at(ms, q) by {
                let n = choose|n: nat| reachable_in(ms, es, q, n);
                lemma_closed(ms, es, s, q, n);
                let k = choose|k: int| 0 <= k < s.len() && s[k] == q;
                assert(!dynamic_at(ms, queue@[k]@));
            }
        }
        false
    }
}


impl Default for ModuleGraph {
    fn default() -> (r: ModuleGraph)
        ensures
            r@ == Seq::<ModuleInfo>::empty(),
    {
        ModuleGraph::new()
    }
}

/// Whether `c` is one of the `/`-separated segments of `p[i..]`.
pub open spec fn has_segment_from(p: Seq<char>, i: int, c: Seq<char>) -> bool
    decreases p.len() - i,
{
    if i < 0 || i > p.len() {
        false
    } else {
        let e = crate::scan::scan_until(p, i, '/');
        proof {
            crate::scan::lemma_scan_while(p, i, crate::scan::not_char('/'));
        }
        p.subrange(i, e) == c || (e < p.len() && has_segment_from(p, e + 1, c))
    }
}

/// Whether a path goes through a `node_modules` directory.
pub open spec fn in_node_modules_path(p: Seq<char>) -> bool {
    has_segment_from(p, 0, "node_modules"@)
}

/// Whether one of the path's components is `node_modules`.
pub fn path_in_node_modules(path: &str) -> (r: bool)
    ensures
        r == in_node_modules_path(path@),
{
    let p = text::chars_of(path);
    let nm = text::chars_of("node_modules");
    let mut i: usize = 0;
    while i <= p.len()
        invariant
            i <= p@.len() + 1,
            p@ == path@,
            nm@ == "node_modules"@,
            in_node_modules_path(path@) == has_segment_from(p@, i as int, nm@),
        decreases p.len() + 1 - i,
    {
        let e = crate::scan::scan_until_exec(&p, i, '/');
        proof {
            crate::scan::lemma_scan_while(p@, i as int, crate::scan::not_char('/'));
        }
        let seg = text::slice_of(&p, i, e);
        if text::chars_eq(&seg, &nm) {
            return true;
        }
        if e >= p.len() {
            return false;
        }
        i = e + 1;
    }
    false
}

/// A bare specifier split into package name and subpath
/// (`@scope/name/sub` gives `@scope/name` and `sub`; `name/sub` gives
/// `name` and `sub`); the second `/` of a scoped name is looked for from
/// the second character of the name on.
pub open spec fn split_bare(s: Seq<char>) -> (Seq<char>, Seq<char>) {
    if s.len() > 0 && s[0] == '@' {
        let a = s.drop_first();
        let pos = text::find(a, seq!['/']);
        if pos < 0 {
            (s, Seq::empty())
        } else {
            let after_scope = pos + 1;
            if after_scope + 1 > a.len() {
                (s, Seq::empty())
            } else {
                let pos2 = text::find(a.subrange(after_scope + 1, a.len() as int), seq!['/']);
                if pos2 < 0 {
                    (s, Seq::empty())
                } else {
                    let split = 1 + after_scope + 1 + pos2;
                    (s.subrange(0, split), s.subrange(split + 1, s.len() as int))
                }
            }
        }
    } else {
        let pos = text::find(s, seq!['/']);
        if pos < 0 {
            (s, Seq::empty())
        } else {
            (s.subrange(0, pos), s.subrange(pos + 1, s.len() as int))
        }
    }
}

/// Splits a bare specifier into package name and subpath.
pub fn split_bare_specifier(specifier: &str) -> (r: (String, String))
    ensures
        (r.0@, r.1@) == split_bare(specifier@),
{
    let s = text::chars_of(specifier);
    let slash = vec!['/'];
    proof {
        assert(slash@ =~= seq!['/']);
    }
    let n = s.len();
    if n > 0 && s[0] == '@' {
        let a = text::slice_of(&s, 1, n);
        proof {
            assert(a@ =~= s@.drop_first());
        }
        match text::find_from_exec(&a, &slash, 0) {
            None => (String::from_str(specifier), String::new()),
            Some(pos) => {
                proof {
                    text::lemma_find_from_range(a@, slash@, 0);
                    assert(text::occurs_at(a@, pos as int, slash@));
                }
                let after_scope = pos + 1;
                if after_scope + 1 > a.len() {
                    return (String::from_str(specifier), String::new());
                }
                let rest = text::slice_of(&a, after_scope + 1, a.len());
                match text::find_from_exec(&rest, &slash, 0) {
                    None => (String::from_str(specifier), String::new()),
                    Some(pos2) => {
                        proof {
                            text::lemma_find_from_range(rest@, slash@, 0);
                            assert(text::occurs_at(rest@, pos2 as int, slash@));
                        }
                        let split = 1 + after_scope + 1 + pos2;
                        let name = text::slice_of(&s, 0, split);
                        let sub = text::slice_of(&s, split + 1, n);
                        (text::string_of(&name), text::string_of(&sub))
                    },
                }
            },
        }
    } else {
        match text::find_from_exec(&s, &slash, 0) {
            None => (String::from_str(specifier), String::new()),
            Some(pos) => {
                proof {
                    text::lemma_find_from_range(s@, slash@, 0);
                    assert(text::occurs_at(s@, pos as int, slash@));
                }
                let name = text::slice_of(&s, 0, pos);
                let sub = text::slice_of(&s, pos + 1, n);
                (text::string_of(&name), text::string_of(&sub))
            },
        }
    }
}

/// The walk of the import graph from the entry points. The caller
/// analyzes each module the walk asks for and hands the result back: the
/// walk decides which modules are analyzed, in which order, and what goes
/// into the graph.
pub struct GraphWalk {
    modules: Vec<ModuleInfo>,
    queue: Vec<String>,
    head: usize,
    visited: crate::string_set::StringSet,
}

impl GraphWalk {
    /// The recorded modules, in order.
    pub closed spec fn modules(&self) -> Seq<ModuleInfo> {
        self.modules@
    }

    /// The paths queued for analysis, in order.
    pub closed spec fn queued(&self) -> Seq<Seq<char>> {
        text::views(self.queue@)
    }

    /// How many queued paths were handed out.
    pub closed spec fn handed_out(&self) -> int {
        self.head as int
    }

    /// The paths queued or recorded so far.
    pub closed spec fn visited(&self) -> Set<Seq<char>> {
        self.visited@
    }

    /// Each path is queued once, and every queued path is visited.
    pub closed spec fn wf(&self) -> bool {
        &&& paths_unique(self.modules@)
        &&& self.visited.wf()
        &&& self.queued().no_duplicates()
        &&& self.head <= self.queue@.len()
        &&& forall|k: int| 0 <= k < self.queued().len() ==> self.visited@.contains(#[trigger] self.queued()[k])
    }

    /// Starts a walk from the entry points, each queued once, in order.
    pub fn new(entries: &[String]) -> (r: GraphWalk)
        ensures
            r.wf(),
            r.modules() == Seq::<ModuleInfo>::empty(),
            r.handed_out() == 0,
            r.queued().to_set() == text::views(entries@).to_set(),
            r.queued() == text::fresh(Set::empty(), text::views(entries@)),
            r.visited() == text::views(entries@).to_set(),
    {
        let mut w = GraphWalk {
            modules: Vec::new(),
            queue: Vec::new(),
            head: 0,
            visited: crate::string_set::StringSet::new(),
        };
        let ghost es = text::views(entries@);
        let mut i: usize = 0;
        proof {
            assert(w.queued() =~= text::fresh(Set::empty(), es.take(0)));
            assert(w.queued().to_set() =~= es.take(0).to_set());
            assert(w.visited@ =~= es.take(0).to_set());
        }
        while i < entries.len()
            invariant
                i <= entries@.len(),
                es == text::views(entries@),
                w.wf(),
                w.head == 0,
                w.modules@ == Seq::<ModuleInfo>::empty(),
                w.queued().to_set() == es.take(i as int).to_set(),
                w.queued() == text::fresh(Set::empty(), es.take(i as int)),
                w.visited@ == es.take(i as int).to_set(),
            decreases entries.len() - i,
        {
            proof {
                assert(es.take(i + 1) =~= es.take(i as int).push(es[i as int]));
                es.take(i as int).lemma_push_to_set_commute(es[i as int]);
                text::lemma_fresh_push(Set::empty(), es.take(i as int), es[i as int]);
                assert(Set::<Seq<char>>::empty() + es.take(i as int).to_set() =~= es.take(i as int).to_set());
                assert(es[i as int] == entries@[i as int]@);
            }
            let e = String::from_str(entries[i].as_str());
            let ghost qb = w.queued();
            if w.visited.insert(String::from_str(entries[i].as_str())) {
                w.queue.push(e);
                proof {
                    assert(w.queued() =~= qb.push(entries@[i as int]@));
                    qb.lemma_push_to_set_commute(entries@[i as int]@);
                    assert(!qb.contains(entries@[i as int]@));
                    assert forall|a: int, b: int| 0 <= a < b < w.queued().len() implies w.queued()[a] != w.queued()[b] by {
                        if b == qb.len() {
                            assert(qb[a] == w.queued()[a]);
                        }
                    }
                }
            } else {
                proof {
                    assert(es.take(i as int).to_set().contains(entries@[i as int]@));
                    assert(w.queued().to_set().insert(entries@[i as int]@) =~= w.queued().to_set());
                }
            }
            i += 1;
        }
        proof {
            assert(es.take(i as int) =~= es);
        }
        w
    }

    /// The next queued path to analyze, if any is left.
    pub fn next_path(&mut self) -> (r: Option<String>)
        requires
            old(self).wf(),
        ensures
            final(self).wf(),
            final(self).modules() == old(self).modules(),
            final(self).queued() == old(self).queued(),
            final(self).visited() == old(self).visited(),
            match r {
                Some(p) => old(self).handed_out() < old(self).queued().len() && p@ == old(self).queued()[old(
                    self,
                ).handed_out()] && final(self).handed_out() == old(self).handed_out() + 1,
                None => old(self).handed_out() == old(self).queued().len() && final(self).handed_out()
                    == old(self).handed_out(),
            },
    {
        if self.head < self.queue.len() {
            let p = String::from_str(self.queue[self.head].as_str());
            self.head = self.head + 1;
            Some(p)
        } else {
            None
        }
    }

    /// Whether an import of a client boundary still needs a look (it was
    /// neither queued nor recorded).
    pub fn wants_shallow(&self, import: &str) -> (r: bool)
        ensures
            r == !self.visited().contains(import@),
    {
        !self.visited.contains(import)
    }

    /// Records a module found behind a client boundary: kept (and marked
    /// visited) only when it is itself a `"use server"` or `"use client"`
    /// module.
    pub fn record_shallow(&mut self, info: ModuleInfo)
        requires
            old(self).wf(),
        ensures
            final(self).wf(),
            final(self).queued() == old(self).queued(),
            final(self).handed_out() == old(self).handed_out(),
            info.is_server || info.is_client ==> final(self).modules() == upsert(old(self).modules(), info)
                && final(self).visited() == old(self).visited().insert(info.path@),
            !(info.is_server || info.is_client) ==> final(self).modules() == old(self).modules()
                && final(self).visited() == old(self).visited(),
    {
        if info.is_server || info.is_client {
            self.visited.insert(String::from_str(info.path.as_str()));
            upsert_module(&mut self.modules, info);
        }
    }

    /// Records an analyzed module. A server module outside `node_modules`
    /// queues each of its imports not visited yet; a client boundary or a
    /// `node_modules` module queues nothing.
    pub fn record(&mut self, info: ModuleInfo)
        requires
            old(self).wf(),
        ensures
            final(self).wf(),
            final(self).modules() == upsert(old(self).modules(), info),
            final(self).handed_out() == old(self).handed_out(),
            info.is_client || in_node_modules_path(info.path@) ==> final(self).queued() == old(self).queued()
                && final(self).visited() == old(self).visited(),
            !(info.is_client || in_node_modules_path(info.path@)) ==> {
                &&& final(self).visited() == old(self).visited() + text::views(info.imports@).to_set()
                &&& final(self).queued() == old(self).queued() + text::fresh(
                    old(self).visited(),
                    text::views(info.imports@),
                )
            },
    {
        if !info.is_client && !path_in_node_modules(info.path.as_str()) {
            let ghost v0 = self.visited@;
            let ghost q0 = self.queued();
            let mut j: usize = 0;
            proof {
                assert(v0 + text::views(info.imports@).take(0).to_set() =~= v0);
            }
            while j < info.imports.len()
                invariant
                    j <= info.imports@.len(),
                    self.wf(),
                    self.head == old(self).head,
                    self.modules@ == old(self).modules@,
                    self.visited@ == v0 + text::views(info.imports@).take(j as int).to_set(),
                    self.queued() == q0 + text::fresh(v0, text::views(info.imports@).take(j as int)),
                decreases info.imports.len() - j,
            {
                let imp = info.imports[j].as_str();
                let ghost qb = self.queued();
                let ghost vb = self.visited@;
                proof {
                    let iv = text::views(info.imports@);
                    assert(iv.take(j + 1) =~= iv.take(j as int).push(iv[j as int]));
                    iv.take(j as int).lemma_push_to_set_commute(iv[j as int]);
                    assert(iv[j as int] == imp@);
                    text::lemma_fresh_push(v0, iv.take(j as int), imp@);
                    assert(vb =~= v0 + iv.take(j as int).to_set());
                }
                if self.visited.insert(String::from_str(imp)) {
                    self.queue.push(String::from_str(imp));
                    proof {
                        assert(self.queued() =~= qb.push(imp@));
                        assert(!qb.contains(imp@)) by {
                            if qb.contains(imp@) {
                                let t = choose|t: int| 0 <= t < qb.len() && qb[t] == imp@;
                                assert(vb.contains(qb[t]));
                            }
                        }
                        assert forall|a: int, b: int| 0 <= a < b < self.queued().len() implies self.queued()[a]
                            != self.queued()[b] by {
                            if b == qb.len() {
                                assert(qb[a] == self.queued()[a]);
                                assert(qb.contains(qb[a]));
                            }
                        }
                        assert forall|k: int| 0 <= k < self.queued().len() implies self.visited@.contains(
                            #[trigger] self.queued()[k],
                        ) by {
                            if k < qb.len() {
                                assert(qb[k] == self.queued()[k]);
                            }
                        }
                        assert(self.queued() =~= q0 + text::fresh(v0, text::views(info.imports@).take(j + 1)));
                    }
                }
                j += 1;
            }
            proof {
                assert(text::views(info.imports@).take(j as int) =~= text::views(info.imports@));
            }
        }
        upsert_module(&mut self.modules, info);
    }

    /// The graph recorded by the walk: one module per path.
    pub fn finish(self) -> (r: ModuleGraph)
        requires
            self.wf(),
        ensures
            r@ == self.modules(),
            paths_unique(r@),
    {
        ModuleGraph { modules: self.modules }
    }
}

/// The predicate of a query, by number.
pub open spec fn pred_of(which: u8) -> spec_fn(ModuleInfo) -> bool {
    if which == 0 {
        client_pred()
    } else if which == 1 {
        server_pred()
    } else if which == 2 {
        action_pred()
    } else if which == 3 {
        inline_action_pred()
    } else {
        unextracted_pred()
    }
}


/// The `exports` field of a `package.json`, as far as entry resolution
/// reads it: a path, an object of conditions (or subpaths) in their order,
/// or anything else.
pub enum ExportsField {
    Path(String),
    Conditions(Vec<(String, ExportsField)>),
    Other,
}

/// The value under `key` in a list of conditions: the first entry with
/// that key.
pub open spec fn condition(entries: Seq<(String, ExportsField)>, key: Seq<char>) -> Option<ExportsField>
    decreases entries.len(),
{
    if entries.len() == 0 {
        None
    } else if entries[0].0@ == key {
        Some(entries[0].1)
    } else {
        condition(entries.drop_first(), key)
    }
}

/// The entry point named by an `exports` field: a path as it stands; for
/// an object, the `"."` entry, else the first of the `import`, `require`
/// and `default` conditions that is present, resolved in turn; nothing
/// otherwise.
pub open spec fn exports_entry(e: ExportsField) -> Option<Seq<char>>
    decreases e, 0int,
{
    match e {
        ExportsField::Path(s) => Some(s@),
        ExportsField::Conditions(obj) => {
            let o = obj@;
            proof {
                assert(decreases_to!(e => obj));
                assert(decreases_to!(obj => obj@));
            }
            if condition(o, "."@) is Some {
                exports_entry_at(o, "."@, 0)
            } else if condition(o, "import"@) is Some {
                exports_entry_at(o, "import"@, 0)
            } else if condition(o, "require"@) is Some {
                exports_entry_at(o, "require"@, 0)
            } else if condition(o, "default"@) is Some {
                exports_entry_at(o, "default"@, 0)
            } else {
                None
            }
        },
        ExportsField::Other => None,
    }
}

/// The entry point of the first value under `key` at or after `i`.
pub open spec fn exports_entry_at(o: Seq<(String, ExportsField)>, key: Seq<char>, i: int) -> Option<Seq<char>>
    decreases o, o.len() - i,
{
    if i < 0 || i >= o.len() {
        None
    } else if o[i].0@ == key {
        proof {
            assert(decreases_to!(o => o[i]));
            assert(decreases_to!(o[i] => o[i].1));
        }
        exports_entry(o[i].1)
    } else {
        exports_entry_at(o, key, i + 1)
    }
}


proof fn lemma_exports_entry_at(o: Seq<(String, ExportsField)>, key: Seq<char>, j: int, i: int)
    requires
        0 <= j <= i < o.len(),
        o[i].0@ == key,
        forall|k: int| j <= k < i ==> (#[trigger] o[k]).0@ != key,
    ensures
        exports_entry_at(o, key, j) == exports_entry(o[i].1),
    decreases i - j,
{
    if j < i {
        lemma_exports_entry_at(o, key, j + 1, i);
    }
}

proof fn lemma_condition(o: Seq<(String, ExportsField)>, key: Seq<char>)
    ensures
        condition(o, key) is Some <==> exists|k: int| 0 <= k < o.len() && (#[trigger] o[k]).0@ == key,
    decreases o.len(),
{
    if o.len() > 0 {
        lemma_condition(o.drop_first(), key);
        if exists|k: int| 0 <= k < o.len() && (#[trigger] o[k]).0@ == key {
            let k = choose|k: int| 0 <= k < o.len() && (#[trigger] o[k]).0@ == key;
            if k > 0 {
                assert(o.drop_first()[k - 1] == o[k]);
            }
        }
        if exists|k: int| 0 <= k < o.drop_first().len() && (#[trigger] o.drop_first()[k]).0@ == key {
            let k = choose|k: int| 0 <= k < o.drop_first().len() && (#[trigger] o.drop_first()[k]).0@ == key;
            assert(o[k + 1] == o.drop_first()[k]);
        }
    }
}

/// The index of the first entry with `key`.
fn first_with_key(o: &Vec<(String, ExportsField)>, key: &str) -> (r: Option<usize>)
    ensures
        match r {
            Some(i) => i < o@.len() && o@[i as int].0@ == key@ && forall|k: int| 0 <= k < i ==> (#[trigger] o@[k]).0@ != key@,
            None => forall|k: int| 0 <= k < o@.len() ==> (#[trigger] o@[k]).0@ != key@,
        },
{
    let mut i: usize = 0;
    while i < o.len()
        invariant
            i <= o@.len(),
            forall|k: int| 0 <= k < i ==> (#[trigger] o@[k]).0@ != key@,
        decreases o.len() - i,
    {
        if text::str_eq(o[i].0.as_str(), key) {
            return Some(i);
        }
        i += 1;
    }
    None
}

/// The entry point under `key` of a list of conditions, where `key` is
/// present.
fn resolve_condition(exports: &ExportsField, obj: &Vec<(String, ExportsField)>, key: &str) -> (r: Option<Option<String>>)
    requires
        *exports == ExportsField::Conditions(*obj),
    ensures
        match r {
            Some(v) => condition(obj@, key@) is Some && text::opt_view(v) == exports_entry_at(obj@, key@, 0),
            None => !(condition(obj@, key@) is Some),
        },
    decreases *exports, 1int,
{
    proof {
        lemma_condition(obj@, key@);
    }
    match first_with_key(obj, key) {
        Some(i) => {
            proof {
                lemma_exports_entry_at(obj@, key@, 0, i as int);
                assert(decreases_to!(*exports => (*exports)->Conditions_0));
                assert((*exports)->Conditions_0 == *obj);
                assert(decreases_to!(*obj => obj@));
                assert(decreases_to!(obj@ => obj@[i as int]));
                assert(decreases_to!(obj@[i as int] => obj@[i as int].1));
            }
            Some(resolve_exports_entry(&obj[i].1))
        },
        None => None,
    }
}

/// The entry point that an `exports` field names (see `exports_entry`).
pub fn resolve_exports_entry(exports: &ExportsField) -> (r: Option<String>)
    ensures
        text::opt_view(r) == exports_entry(*exports),
    decreases *exports, 2int,
{
    match exports {
        ExportsField::Path(s) => Some(String::from_str(s.as_str())),
        ExportsField::Conditions(obj) => {
            if let Some(v) = resolve_condition(exports, obj, ".") {
                return v;
            }
            if let Some(v) = resolve_condition(exports, obj, "import") {
                return v;
            }
            if let Some(v) = resolve_condition(exports, obj, "require") {
                return v;
            }
            if let Some(v) = resolve_condition(exports, obj, "default") {
                return v;
            }
            None
        },
        ExportsField::Other => None,
    }
}


/// The code file extensions a `rex/*` module is looked up with, in order.
pub open spec fn code_exts() -> Seq<Seq<char>> {
    seq!["tsx"@, "ts"@, "jsx"@, "js"@]
}

/// `dir/{name}.{ext}` for each code extension, in order.
pub open spec fn with_code_exts(dir: Seq<char>, name: Seq<char>) -> Seq<Seq<char>> {
    code_exts().map_values(|e: Seq<char>| join_spec(dir, name + "."@ + e))
}

/// The files that may hold the `rex/{name}` module: in the installed
/// package's sources under `node_modules/@limlabs/rex/src`, then in the
/// client runtime directory when it is known; the first that is a file is
/// the module.
pub open spec fn rex_candidates(name: Seq<char>, root: Seq<char>, client_dir: Option<Seq<char>>) -> Seq<Seq<char>> {
    with_code_exts(join_spec(root, "node_modules/@limlabs/rex/src"@), name) + match client_dir {
        Some(d) => with_code_exts(d, name),
        None => Seq::empty(),
    }
}

fn push_with_code_exts(r: &mut Vec<String>, dir: &str, name: &str)
    ensures
        text::views(final(r)@) == text::views(old(r)@) + with_code_exts(dir@, name@),
{
    let exts: [&str; 4] = ["tsx", "ts", "jsx", "js"];
    let ghost r0 = text::views(r@);
    let mut i: usize = 0;
    while i < 4
        invariant
            i <= 4,
            exts@.map_values(|e: &str| e@) == code_exts(),
            text::views(r@) == r0 + with_code_exts(dir@, name@).take(i as int),
        decreases 4 - i,
    {
        let mut f = String::from_str(name);
        f.append(".");
        f.append(exts[i]);
        let c = join(dir, f.as_str());
        let ghost rb = r@;
        r.push(c);
        proof {
            assert(exts@.map_values(|e: &str| e@)[i as int] == exts@[i as int]@);
            assert(with_code_exts(dir@, name@)[i as int] == join_spec(dir@, name@ + "."@ + exts@[i as int]@));
            assert(text::views(r@) =~= text::views(rb).push(c@));
            assert(with_code_exts(dir@, name@).take(i + 1) =~= with_code_exts(dir@, name@).take(i as int).push(
                with_code_exts(dir@, name@)[i as int],
            ));
        }
        i += 1;
    }
    proof {
        assert(with_code_exts(dir@, name@).take(4) =~= with_code_exts(dir@, name@));
    }
}

/// The candidate files of the `rex/{name}` import, in the order they are
/// tried.
pub fn rex_import_candidates(name: &str, root: &str, client_dir: Option<&str>) -> (r: Vec<String>)
    ensures
        text::views(r@) == rex_candidates(name@, root@, text::opt_str_view(client_dir)),
{
    let mut r: Vec<String> = Vec::new();
    let pkg_src = join(root, "node_modules/@limlabs/rex/src");
    push_with_code_exts(&mut r, pkg_src.as_str(), name);
    match client_dir {
        Some(d) => push_with_code_exts(&mut r, d, name),
        None => {},
    }
    proof {
        assert(text::views(r@) =~= rex_candidates(name@, root@, text::opt_str_view(client_dir)));
    }
    r
}

/// `pkg_dir/rel` where a relative path is given.
pub open spec fn joined_opt(pkg_dir: Seq<char>, rel: Option<Seq<char>>) -> Seq<Seq<char>> {
    match rel {
        Some(p) => seq![join_spec(pkg_dir, p)],
        None => Seq::empty(),
    }
}

/// The files that may be the module of a bare import of a package found
/// at `pkg_dir`, in the order they are tried: the subpath within the
/// package where the import names one; otherwise the `exports` entry, the
/// `module` field, the `main` field (each where `package.json` has it as a
/// string), then `index`.
pub open spec fn package_entry_candidates_spec(
    pkg_dir: Seq<char>,
    subpath: Seq<char>,
    exports: Option<ExportsField>,
    module: Option<Seq<char>>,
    main: Option<Seq<char>>,
) -> Seq<Seq<char>> {
    if subpath.len() > 0 {
        seq![join_spec(pkg_dir, subpath)]
    } else {
        joined_opt(
            pkg_dir,
            match exports {
                Some(e) => exports_entry(e),
                None => None,
            },
        ) + joined_opt(pkg_dir, module) + joined_opt(pkg_dir, main) + seq![join_spec(pkg_dir, "index"@)]
    }
}

fn push_joined_opt(r: &mut Vec<String>, pkg_dir: &str, rel: Option<&str>)
    ensures
        text::views(final(r)@) == text::views(old(r)@) + joined_opt(pkg_dir@, text::opt_str_view(rel)),
{
    let ghost r0 = r@;
    match rel {
        Some(p) => {
            let c = join(pkg_dir, p);
            r.push(c);
            proof {
                assert(text::views(r@) =~= text::views(r0) + joined_opt(pkg_dir@, text::opt_str_view(rel)));
            }
        },
        None => {
            proof {
                assert(text::views(r@) =~= text::views(r0) + joined_opt(pkg_dir@, text::opt_str_view(rel)));
            }
        },
    }
}

/// The candidate files of a bare import of a package found at `pkg_dir`
/// (see `package_entry_candidates_spec`); the fields are those of the
/// package's `package.json`.
pub fn package_entry_candidates(
    pkg_dir: &str,
    subpath: &str,
    exports: Option<&ExportsField>,
    module: Option<&str>,
    main: Option<&str>,
) -> (r: Vec<String>)
    ensures
        text::views(r@) == package_entry_candidates_spec(
            pkg_dir@,
            subpath@,
            match exports {
                Some(e) => Some(*e),
                None => None,
            },
            text::opt_str_view(module),
            text::opt_str_view(main),
        ),
{
    let mut r: Vec<String> = Vec::new();
    if !subpath.is_empty() {
        r.push(join(pkg_dir, subpath));
        proof {
            assert(subpath@.len() > 0);
            assert(text::views(r@) =~= seq![join_spec(pkg_dir@, subpath@)]);
        }
        return r;
    }
    proof {
        assert(subpath@.len() == 0);
    }
    let entry = match exports {
        Some(e) => resolve_exports_entry(e),
        None => None,
    };
    match entry {
        Some(ent) => push_joined_opt(&mut r, pkg_dir, Some(ent.as_str())),
        None => push_joined_opt(&mut r, pkg_dir, None),
    }
    push_joined_opt(&mut r, pkg_dir, module);
    push_joined_opt(&mut r, pkg_dir, main);
    let ghost r3 = r@;
    r.push(join(pkg_dir, "index"));
    proof {
        assert(text::views(r@) =~= text::views(r3).push(join_spec(pkg_dir@, "index"@)));
        assert(text::views(r@) =~= package_entry_candidates_spec(
            pkg_dir@,
            subpath@,
            match exports {
                Some(e) => Some(*e),
                None => None,
            },
            text::opt_str_view(module),
            text::opt_str_view(main),
        ));
    }
    r
}

} // verus!
