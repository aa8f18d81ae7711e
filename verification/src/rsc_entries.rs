//! Entry sources of the RSC bundles: the server flight entry (whole, or a
//! core entry plus one entry per route group) and the SSR pass entry.
use vstd::prelude::*;
use crate::text::{self, decimal, replace_char, chars_of};
use crate::server_action_manifest::{ServerActionManifest, ordered_rows, row_views};
use crate::rsc_graph::{ModuleGraph, ModuleInfo, select, boundary_pred};
use crate::ids::{client_reference_id, client_reference_id_spec};
use crate::{json, paths};

verus! {

/// An app-router page route as the entries read it.
pub struct AppRoute {
    /// The URL pattern, e.g. `/blog/:slug`.
    pub pattern: String,
    /// The page module.
    pub page_path: String,
    /// The layout modules that wrap the page, outermost first.
    pub layout_chain: Vec<String>,
}

/// An app-router route handler (`route.ts`).
pub struct AppApiRoute {
    pub pattern: String,
    pub handler_path: String,
}

/// What the entries read of an app-router scan.
pub struct AppScan {
    pub routes: Vec<AppRoute>,
    pub api_routes: Vec<AppApiRoute>,
}

/// The runtime sources that the entries end with: the route handler
/// runtime, the metadata runtime, the flight runtime and the SSR pass
/// runtime.
pub struct RscRuntimeSources {
    pub app_route: String,
    pub metadata: String,
    pub flight: String,
    pub ssr_pass: String,
}

/// A path with every `\` turned into `/`.
pub open spec fn fwd(p: Seq<char>) -> Seq<char> {
    replace_char(p, '\\', "/"@)
}

/// The module variable of the `j`-th layout of the `i`-th route.
pub open spec fn layout_var(i: nat, j: nat) -> Seq<char> {
    "__layout_mod_"@ + decimal(i) + "_"@ + decimal(j)
}

/// The module variable of the page of the `i`-th route.
pub open spec fn page_var(i: nat) -> Seq<char> {
    "__page_mod_"@ + decimal(i)
}

/// The namespace imports of the first `m` layouts of the `i`-th route.
pub open spec fn layout_imports_of(i: nat, chain: Seq<String>, m: nat) -> Seq<char>
    decreases m,
{
    if m == 0 {
        Seq::empty()
    } else {
        layout_imports_of(i, chain, (m - 1) as nat) + "import * as "@ + layout_var(i, (m - 1) as nat)
            + " from '"@ + fwd(chain[m - 1]@) + "';\n"@
    }
}

/// The layout imports of the first `n` routes.
pub open spec fn layout_imports(rs: Seq<AppRoute>, n: nat) -> Seq<char>
    decreases n,
{
    if n == 0 {
        Seq::empty()
    } else {
        layout_imports(rs, (n - 1) as nat) + layout_imports_of(
            (n - 1) as nat,
            rs[n - 1].layout_chain@,
            rs[n - 1].layout_chain@.len(),
        )
    }
}

/// The page import of the `i`-th route and its registration under its pattern.
pub open spec fn page_import(i: nat, r: AppRoute) -> Seq<char> {
    "import * as "@ + page_var(i) + " from '"@ + fwd(r.page_path@) + "';\n"@ + "globalThis.__rex_app_pages[\""@
        + r.pattern@ + "\"] = "@ + page_var(i) + ".default;\n"@
}

/// The page imports of the first `n` routes.
pub open spec fn page_imports(rs: Seq<AppRoute>, n: nat) -> Seq<char>
    decreases n,
{
    if n == 0 {
        Seq::empty()
    } else {
        page_imports(rs, (n - 1) as nat) + page_import((n - 1) as nat, rs[n - 1])
    }
}

/// The layout variables of the `i`-th route, each followed by `suffix`.
pub open spec fn layout_vars(i: nat, len: nat, suffix: Seq<char>) -> Seq<Seq<char>> {
    Seq::new(len, |j: int| layout_var(i, j as nat) + suffix)
}

/// The layout chain registration of the `i`-th route: its layouts'
/// default exports, outermost first.
pub open spec fn chain_reg(i: nat, r: AppRoute) -> Seq<char> {
    "globalThis.__rex_app_layout_chains[\""@ + r.pattern@ + "\"] = ["@ + text::join(
        layout_vars(i, r.layout_chain@.len(), ".default"@),
        ", "@,
    ) + "];\n"@
}

/// The layout chain registrations of the first `n` routes.
pub open spec fn chain_regs(rs: Seq<AppRoute>, n: nat) -> Seq<char>
    decreases n,
{
    if n == 0 {
        Seq::empty()
    } else {
        chain_regs(rs, (n - 1) as nat) + chain_reg((n - 1) as nat, rs[n - 1])
    }
}

/// The metadata sources of the `i`-th route: its layout modules, then its
/// page module.
pub open spec fn metadata_reg(i: nat, r: AppRoute) -> Seq<char> {
    "globalThis.__rex_app_metadata_sources[\""@ + r.pattern@ + "\"] = ["@ + text::join(
        layout_vars(i, r.layout_chain@.len(), Seq::empty()).push(page_var(i)),
        ", "@,
    ) + "];\n"@
}

/// The metadata source registrations of the first `n` routes.
pub open spec fn metadata_regs(rs: Seq<AppRoute>, n: nat) -> Seq<char>
    decreases n,
{
    if n == 0 {
        Seq::empty()
    } else {
        metadata_regs(rs, (n - 1) as nat) + metadata_reg((n - 1) as nat, rs[n - 1])
    }
}

/// The entry of one route group: layout imports, page imports and
/// registrations, layout chains and metadata sources of its routes.
pub open spec fn group_entry(rs: Seq<AppRoute>) -> Seq<char> {
    layout_imports(rs, rs.len()) + page_imports(rs, rs.len()) + chain_regs(rs, rs.len()) + metadata_regs(
        rs,
        rs.len(),
    )
}

fn push_layout_imports(entry: &mut String, routes: &[AppRoute])
    ensures
        final(entry)@ == old(entry)@ + layout_imports(routes@, routes@.len()),
{
    let ghost e0 = entry@;
    let mut i: usize = 0;
    while i < routes.len()
        invariant
            i <= routes@.len(),
            entry@ == e0 + layout_imports(routes@, i as nat),
        decreases routes.len() - i,
    {
        let chain = &routes[i].layout_chain;
        let ni = text::decimal_string(i);
        let ghost e1 = entry@;
        let mut j: usize = 0;
        while j < chain.len()
            invariant
                j <= chain@.len(),
                ni@ == decimal(i as nat),
                chain@ == routes@[i as int].layout_chain@,
                entry@ == e1 + layout_imports_of(i as nat, chain@, j as nat),
            decreases chain.len() - j,
        {
            let nj = text::decimal_string(j);
            let p = text::replace_char_exec(chain[j].as_str(), '\\', "/");
            let ghost before = entry@;
            entry.append("import * as ");
            entry.append("__layout_mod_");
            entry.append(ni.as_str());
            entry.append("_");
            entry.append(nj.as_str());
            entry.append(" from '");
            entry.append(p.as_str());
            entry.append("';\n");
            proof {
                assert(entry@ =~= before + "import * as "@ + layout_var(i as nat, j as nat) + " from '"@ + fwd(
                    chain@[j as int]@,
                ) + "';\n"@);
            }
            j += 1;
        }
        proof {
            assert(entry@ == e1 + layout_imports_of(i as nat, routes@[i as int].layout_chain@, routes@[i as int].layout_chain@.len()));
            assert(entry@ =~= e0 + layout_imports(routes@, (i + 1) as nat));
        }
        i += 1;
    }
}

fn push_page_imports(entry: &mut String, routes: &[AppRoute])
    ensures
        final(entry)@ == old(entry)@ + page_imports(routes@, routes@.len()),
{
    let ghost e0 = entry@;
    let mut i: usize = 0;
    while i < routes.len()
        invariant
            i <= routes@.len(),
            entry@ == e0 + page_imports(routes@, i as nat),
        decreases routes.len() - i,
    {
        let ni = text::decimal_string(i);
        let p = text::replace_char_exec(routes[i].page_path.as_str(), '\\', "/");
        let ghost before = entry@;
        entry.append("import * as ");
        entry.append("__page_mod_");
        entry.append(ni.as_str());
        entry.append(" from '");
        entry.append(p.as_str());
        entry.append("';\n");
        entry.append("globalThis.__rex_app_pages[\"");
        entry.append(routes[i].pattern.as_str());
        entry.append("\"] = ");
        entry.append("__page_mod_");
        entry.append(ni.as_str());
        entry.append(".default;\n");
        proof {
            assert(entry@ =~= before + page_import(i as nat, routes@[i as int]));
        }
        i += 1;
    }
}

/// The variables `__layout_mod_{i}_{j}{suffix}` for `j < len`.
fn layout_var_list(ni: &String, i: Ghost<nat>, len: usize, suffix: &str) -> (r: Vec<String>)
    requires
        ni@ == decimal(i@),
    ensures
        text::views(r@) == layout_vars(i@, len as nat, suffix@),
{
    let mut r: Vec<String> = Vec::new();
    let mut j: usize = 0;
    while j < len
        invariant
            j <= len,
            r@.len() == j,
            ni@ == decimal(i@),
            text::views(r@) == layout_vars(i@, j as nat, suffix@),
        decreases len - j,
    {
        let nj = text::decimal_string(j);
        let mut v = String::from_str("__layout_mod_");
        v.append(ni.as_str());
        v.append("_");
        v.append(nj.as_str());
        v.append(suffix);
        let ghost r0 = r@;
        let ghost vv = v@;
        r.push(v);
        proof {
            assert(r@.len() == j + 1);
            assert(r@[j as int]@ == vv);
            assert(vv =~= layout_var(i@, j as nat) + suffix@);
            assert forall|k: int| 0 <= k < j + 1 implies #[trigger] text::views(r@)[k] == layout_vars(i@, (j + 1) as nat, suffix@)[k] by {
                if k < j {
                    assert(r@[k] == r0[k]);
                    assert(text::views(r0)[k] == layout_vars(i@, j as nat, suffix@)[k]);
                }
            }
            assert(text::views(r@) =~= layout_vars(i@, (j + 1) as nat, suffix@));
        }
        j += 1;
    }
    r
}

fn push_chain_regs(entry: &mut String, routes: &[AppRoute])
    ensures
        final(entry)@ == old(entry)@ + chain_regs(routes@, routes@.len()),
{
    let ghost e0 = entry@;
    let mut i: usize = 0;
    while i < routes.len()
        invariant
            i <= routes@.len(),
            entry@ == e0 + chain_regs(routes@, i as nat),
        decreases routes.len() - i,
    {
        let ni = text::decimal_string(i);
        let vars = layout_var_list(&ni, Ghost(i as nat), routes[i].layout_chain.len(), ".default");
        let joined = text::join_strings(vars.as_slice(), ", ");
        let ghost before = entry@;
        entry.append("globalThis.__rex_app_layout_chains[\"");
        entry.append(routes[i].pattern.as_str());
        entry.append("\"] = [");
        entry.append(joined.as_str());
        entry.append("];\n");
        proof {
            assert(entry@ =~= before + chain_reg(i as nat, routes@[i as int]));
        }
        i += 1;
    }
}

fn push_metadata_regs(entry: &mut String, routes: &[AppRoute])
    ensures
        final(entry)@ == old(entry)@ + metadata_regs(routes@, routes@.len()),
{
    let ghost e0 = entry@;
    let mut i: usize = 0;
    while i < routes.len()
        invariant
            i <= routes@.len(),
            entry@ == e0 + metadata_regs(routes@, i as nat),
        decreases routes.len() - i,
    {
        let ni = text::decimal_string(i);
        let mut vars = layout_var_list(&ni, Ghost(i as nat), routes[i].layout_chain.len(), "");
        let mut pv = String::from_str("__page_mod_");
        pv.append(ni.as_str());
        let ghost v0 = vars@;
        vars.push(pv);
        proof {
            assert(""@ =~= Seq::<char>::empty()) by {
                reveal_strlit("");
            }
            assert(text::views(vars@) =~= text::views(v0).push(page_var(i as nat)));
        }
        let joined = text::join_strings(vars.as_slice(), ", ");
        let ghost before = entry@;
        entry.append("globalThis.__rex_app_metadata_sources[\"");
        entry.append(routes[i].pattern.as_str());
        entry.append("\"] = [");
        entry.append(joined.as_str());
        entry.append("];\n");
        proof {
            assert(entry@ =~= before + metadata_reg(i as nat, routes@[i as int]));
        }
        i += 1;
    }
}

/// Generates the entry of one route group: it imports only the layouts and
/// pages of the group's routes and extends the shared registries that the
/// core entry set up.
pub fn generate_group_entry(routes: &[AppRoute]) -> (r: String)
    ensures
        r@ == group_entry(routes@),
{
    let mut entry = String::new();
    push_layout_imports(&mut entry, routes);
    push_page_imports(&mut entry, routes);
    push_chain_regs(&mut entry, routes);
    push_metadata_regs(&mut entry, routes);
    proof {
        assert(entry@ =~= group_entry(routes@));
    }
    entry
}


/// The key of an `(id, module, export)` row: its module, or its id.
pub open spec fn row_key(by_module: bool) -> spec_fn((Seq<char>, Seq<char>, Seq<char>)) -> Seq<char> {
    |t: (Seq<char>, Seq<char>, Seq<char>)| if by_module { t.1 } else { t.0 }
}

/// The actions of a manifest, stably sorted by module, so that the
/// actions of one module stand together, modules in ascending order, and
/// within a module in the order they were added.
pub open spec fn rows_by_module(m: ServerActionManifest) -> Seq<(Seq<char>, Seq<char>, Seq<char>)> {
    text::sort_by_key_of(ordered_rows(m.order(), m@), row_key(true))
}

/// The row at `k` starts a new module.
pub open spec fn new_group(rs: Seq<(Seq<char>, Seq<char>, Seq<char>)>, k: int) -> bool {
    k == 0 || rs[k].1 != rs[k - 1].1
}

/// The index of the module of the row at `k` among the modules of `rs`.
pub open spec fn group_of(rs: Seq<(Seq<char>, Seq<char>, Seq<char>)>, k: nat) -> nat
    decreases k,
{
    if k == 0 {
        0
    } else if rs[k as int].1 != rs[k - 1].1 {
        group_of(rs, (k - 1) as nat) + 1
    } else {
        group_of(rs, (k - 1) as nat)
    }
}

/// The namespace variable of the `g`-th action module.
pub open spec fn sa_var(g: nat) -> Seq<char> {
    "__sa_"@ + decimal(g)
}

/// The import of the `g`-th action module, under `base`.
pub open spec fn sa_import_line(g: nat, base: Seq<char>, module: Seq<char>) -> Seq<char> {
    "import * as "@ + sa_var(g) + " from '"@ + base + "/"@ + module + "';\n"@
}

/// The registration of an action with React's server reference system.
pub open spec fn sa_register_line(g: nat, id: Seq<char>, export: Seq<char>) -> Seq<char> {
    "registerServerReference("@ + sa_var(g) + "."@ + export + ", \""@ + id + "\", \""@ + export + "\");\n"@
}

/// The dispatch table entry of an action.
pub open spec fn sa_dispatch_line(g: nat, id: Seq<char>, export: Seq<char>) -> Seq<char> {
    "globalThis.__rex_server_actions[\""@ + id + "\"] = "@ + sa_var(g) + "."@ + export + ";\n"@
}

/// The lines of one action row in module `g`: the module's import where
/// the row starts the module, then the action's registration with React
/// and in the dispatch table.
pub open spec fn sa_row_text(starts: bool, g: nat, base: Seq<char>, t: (Seq<char>, Seq<char>, Seq<char>)) -> Seq<char> {
    (if starts {
        sa_import_line(g, base, t.1)
    } else {
        Seq::empty()
    }) + sa_register_line(g, t.0, t.2) + sa_dispatch_line(g, t.0, t.2)
}

/// The lines of the row at `k`.
pub open spec fn sa_row(rs: Seq<(Seq<char>, Seq<char>, Seq<char>)>, k: nat, base: Seq<char>) -> Seq<char> {
    sa_row_text(new_group(rs, k as int), group_of(rs, k), base, rs[k as int])
}

/// The lines of the first `n` rows.
pub open spec fn sa_rows(rs: Seq<(Seq<char>, Seq<char>, Seq<char>)>, n: nat, base: Seq<char>) -> Seq<char>
    decreases n,
{
    if n == 0 {
        Seq::empty()
    } else {
        sa_rows(rs, (n - 1) as nat, base) + sa_row(rs, (n - 1) as nat, base)
    }
}

/// `s` without its trailing `/` characters (`trim_end_matches('/')`).
pub open spec fn trim_end_slashes(s: Seq<char>) -> Seq<char>
    decreases s.len(),
{
    if s.len() > 0 && s.last() == '/' {
        trim_end_slashes(s.drop_last())
    } else {
        s
    }
}

/// The server action registration block: nothing without actions;
/// otherwise React's server reference imports, one import per action
/// module (its path under the project root) and two lines per action.
pub open spec fn actions_block(m: ServerActionManifest, project_root: Seq<char>) -> Seq<char> {
    let rs = rows_by_module(m);
    if m@.len() == 0 {
        Seq::empty()
    } else {
        "\n// --- Server Actions Registration ---\n"@
            + "import { registerServerReference, decodeReply, decodeAction } from 'react-server-dom-webpack/server';\n"@
            + "globalThis.__rex_decodeReply = decodeReply;\n"@ + "globalThis.__rex_decodeAction = decodeAction;\n"@
            + "globalThis.__rex_server_actions = {};\n"@ + sa_rows(rs, rs.len(), trim_end_slashes(project_root))
            + "globalThis.__rex_server_action_manifest = globalThis.__rex_server_actions;\n"@
    }
}

/// The characters of a row's key.
fn row_key_chars(row: &(String, String, String), by_module: bool) -> (v: Vec<char>)
    ensures
        v@ == row_key(by_module)((row.0@, row.1@, row.2@)),
{
    if by_module {
        chars_of(row.1.as_str())
    } else {
        chars_of(row.0.as_str())
    }
}

/// The rows stably sorted by module or by id.
fn sort_rows(rows: &Vec<(String, String, String)>, by_module: bool) -> (r: Vec<(String, String, String)>)
    ensures
        row_views(r@) == text::sort_by_key_of(row_views(rows@), row_key(by_module)),
{
    let ghost rv = row_views(rows@);
    let ghost key = row_key(by_module);
    let mut sorted: Vec<(String, String, String)> = Vec::new();
    let mut i: usize = 0;
    while i < rows.len()
        invariant
            i <= rows@.len(),
            rv == row_views(rows@),
            key == row_key(by_module),
            row_views(sorted@) == text::sort_by_key_of(rv.take(i as int), key),
        decreases rows.len() - i,
    {
        let k_chars = row_key_chars(&rows[i], by_module);
        let mut k: usize = 0;
        while k < sorted.len() && !text::lex_lt_exec(&k_chars, &row_key_chars(&sorted[k], by_module))
            invariant
                k <= sorted@.len(),
                k_chars@ == key(rv[i as int]),
                key == row_key(by_module),
                rv == row_views(rows@),
                i < rows@.len(),
                forall|j: int| 0 <= j < k ==> !text::lex_lt(key(rv[i as int]), #[trigger] key(row_views(sorted@)[j])),
            decreases sorted.len() - k,
        {
            k += 1;
        }
        let ghost sv = row_views(sorted@);
        proof {
            text::lemma_insert_by_key_of(sv, rv[i as int], key, k as int);
            assert(rv.take(i + 1).drop_last() =~= rv.take(i as int));
            assert(rv.take(i + 1).last() == rv[i as int]);
        }
        let row = (rows[i].0.clone(), rows[i].1.clone(), rows[i].2.clone());
        sorted.insert(k, row);
        proof {
            assert(row_views(sorted@) =~= sv.take(k as int) + seq![rv[i as int]] + sv.skip(k as int));
        }
        i += 1;
    }
    proof {
        assert(rv.take(i as int) =~= rv);
    }
    sorted
}

/// `s` without its trailing `/` characters.
fn trim_end_slashes_exec(s: &str) -> (r: String)
    ensures
        r@ == trim_end_slashes(s@),
{
    let v = chars_of(s);
    let mut e: usize = v.len();
    proof {
        assert(v@.take(e as int) =~= v@);
    }
    while e > 0 && v[e - 1] == '/'
        invariant
            e <= v@.len(),
            trim_end_slashes(v@) == trim_end_slashes(v@.take(e as int)),
        decreases e,
    {
        proof {
            assert(v@.take(e as int).drop_last() =~= v@.take(e - 1));
        }
        e -= 1;
    }
    let r = text::string_of(&text::slice_of(&v, 0, e));
    proof {
        assert(v@.subrange(0, e as int) =~= v@.take(e as int));
    }
    r
}

fn push_sa_import(entry: &mut String, ng: &String, g: Ghost<nat>, base: &String, module: &String)
    requires
        ng@ == decimal(g@),
    ensures
        final(entry)@ == old(entry)@ + sa_import_line(g@, base@, module@),
{
    let ghost e0 = entry@;
    entry.append("import * as ");
    entry.append("__sa_");
    entry.append(ng.as_str());
    entry.append(" from '");
    entry.append(base.as_str());
    entry.append("/");
    entry.append(module.as_str());
    entry.append("';\n");
    proof {
        assert(entry@ =~= e0 + sa_import_line(g@, base@, module@));
    }
}

fn push_sa_register(entry: &mut String, ng: &String, g: Ghost<nat>, id: &String, export: &String)
    requires
        ng@ == decimal(g@),
    ensures
        final(entry)@ == old(entry)@ + sa_register_line(g@, id@, export@),
{
    let ghost e0 = entry@;
    entry.append("registerServerReference(");
    entry.append("__sa_");
    entry.append(ng.as_str());
    entry.append(".");
    entry.append(export.as_str());
    entry.append(", \"");
    entry.append(id.as_str());
    entry.append("\", \"");
    entry.append(export.as_str());
    entry.append("\");\n");
    proof {
        assert(entry@ =~= e0 + sa_register_line(g@, id@, export@));
    }
}

fn push_sa_dispatch(entry: &mut String, ng: &String, g: Ghost<nat>, id: &String, export: &String)
    requires
        ng@ == decimal(g@),
    ensures
        final(entry)@ == old(entry)@ + sa_dispatch_line(g@, id@, export@),
{
    let ghost e0 = entry@;
    entry.append("globalThis.__rex_server_actions[\"");
    entry.append(id.as_str());
    entry.append("\"] = ");
    entry.append("__sa_");
    entry.append(ng.as_str());
    entry.append(".");
    entry.append(export.as_str());
    entry.append(";\n");
    proof {
        assert(entry@ =~= e0 + sa_dispatch_line(g@, id@, export@));
    }
}

fn push_sa_row(entry: &mut String, row: &(String, String, String), starts: bool, g: usize, base: &String)
    ensures
        final(entry)@ == old(entry)@ + sa_row_text(starts, g as nat, base@, (row.0@, row.1@, row.2@)),
{
    let ng = text::decimal_string(g);
    let ghost e0 = entry@;
    if starts {
        push_sa_import(entry, &ng, Ghost(g as nat), base, &row.1);
    }
    let ghost e1 = entry@;
    push_sa_register(entry, &ng, Ghost(g as nat), &row.0, &row.2);
    push_sa_dispatch(entry, &ng, Ghost(g as nat), &row.0, &row.2);
    proof {
        let head = if starts {
            sa_import_line(g as nat, base@, row.1@)
        } else {
            Seq::<char>::empty()
        };
        assert(e1 =~= e0 + head);
        assert(entry@ =~= e0 + sa_row_text(starts, g as nat, base@, (row.0@, row.1@, row.2@)));
    }
}

fn push_actions_block(entry: &mut String, m: &ServerActionManifest, project_root: &str)
    requires
        m.wf(),
    ensures
        final(entry)@ == old(entry)@ + actions_block(*m, project_root@),
{
    let rows = m.ordered_entries();
    if rows.len() == 0 {
        return;
    }
    let rs = sort_rows(&rows, true);
    let ghost rsv = row_views(rs@);
    entry.append("\n// --- Server Actions Registration ---\n");
    entry.append(
        "import { registerServerReference, decodeReply, decodeAction } from 'react-server-dom-webpack/server';\n",
    );
    entry.append("globalThis.__rex_decodeReply = decodeReply;\n");
    entry.append("globalThis.__rex_decodeAction = decodeAction;\n");
    let base = trim_end_slashes_exec(project_root);
    entry.append("globalThis.__rex_server_actions = {};\n");
    let ghost e1 = entry@;
    let mut k: usize = 0;
    let mut g: usize = 0;
    while k < rs.len()
        invariant
            k <= rs@.len(),
            rsv == row_views(rs@),
            base@ == trim_end_slashes(project_root@),
            g <= k,
            k > 0 ==> g == group_of(rsv, (k - 1) as nat),
            entry@ == e1 + sa_rows(rsv, k as nat, base@),
        decreases rs.len() - k,
    {
        let starts = k == 0 || !text::str_eq(rs[k].1.as_str(), rs[k - 1].1.as_str());
        if k > 0 && starts {
            g += 1;
        }
        proof {
            assert(rsv[k as int] == (rs@[k as int].0@, rs@[k as int].1@, rs@[k as int].2@));
            if k > 0 {
                assert(rsv[k - 1] == (rs@[k - 1].0@, rs@[k - 1].1@, rs@[k - 1].2@));
            }
            assert(starts == new_group(rsv, k as int));
            assert(g == group_of(rsv, k as nat));
        }
        let ghost before = entry@;
        push_sa_row(entry, &rs[k], starts, g, &base);
        proof {
            assert(sa_row(rsv, k as nat, base@) == sa_row_text(starts, g as nat, base@, (rs@[k as int].0@, rs@[k as int].1@, rs@[k as int].2@)));
            assert(sa_rows(rsv, (k + 1) as nat, base@) == sa_rows(rsv, k as nat, base@) + sa_row(rsv, k as nat, base@));
            assert(entry@ =~= e1 + sa_rows(rsv, (k + 1) as nat, base@));
        }
        k += 1;
    }
    entry.append("globalThis.__rex_server_action_manifest = globalThis.__rex_server_actions;\n");
}


/// The import and registration of the `i`-th route handler.
pub open spec fn api_reg(i: nat, h: AppApiRoute) -> Seq<char> {
    "import * as __app_route"@ + decimal(i) + " from '"@ + fwd(h.handler_path@) + "';\n"@
        + "globalThis.__rex_app_route_handlers['"@ + h.pattern@ + "'] = __app_route"@ + decimal(i) + ";\n"@
}

/// The registrations of the first `n` route handlers.
pub open spec fn api_regs(hs: Seq<AppApiRoute>, n: nat) -> Seq<char>
    decreases n,
{
    if n == 0 {
        Seq::empty()
    } else {
        api_regs(hs, (n - 1) as nat) + api_reg((n - 1) as nat, hs[n - 1])
    }
}

/// The route handler block: nothing without handlers; otherwise the
/// handler registry, one registration per handler and the handler runtime.
pub open spec fn api_block(hs: Seq<AppApiRoute>, runtime: Seq<char>) -> Seq<char> {
    if hs.len() == 0 {
        Seq::empty()
    } else {
        "\n// --- App Route Handlers ---\n"@ + "globalThis.__rex_app_route_handlers = {};\n"@ + api_regs(hs, hs.len())
            + runtime
    }
}

/// The bundler config line: the webpack bundler config JSON of the client
/// reference manifest, on `globalThis`.
pub open spec fn bundler_config_line(json: Seq<char>) -> Seq<char> {
    "\nglobalThis.__rex_webpack_bundler_config = "@ + json + ";\n"@
}

/// The metadata and flight runtimes, each under its marker comment.
pub open spec fn runtime_tail(rt: RscRuntimeSources) -> Seq<char> {
    "\n// --- Metadata Runtime ---\n"@ + rt.metadata@ + "\n// --- RSC Flight Runtime ---\n"@ + rt.flight@
}

/// The server flight entry: React with the `react-server` condition, every
/// layout and page imported and registered, layout chains and metadata
/// sources per route, the bundler config, the server actions, the route
/// handlers and the runtimes.
pub open spec fn server_entry(
    scan: AppScan,
    bundler_config_json: Seq<char>,
    m: ServerActionManifest,
    project_root: Seq<char>,
    rt: RscRuntimeSources,
) -> Seq<char> {
    let rs = scan.routes@;
    "import { createElement } from 'react';\n"@
        + "import { renderToReadableStream } from 'react-server-dom-webpack/server';\n"@
        + "var __rex_createElement = createElement;\n"@
        + "var __rex_renderToReadableStream = renderToReadableStream;\n\n"@ + "globalThis.__rex_app_layouts = {};\n"@
        + layout_imports(rs, rs.len()) + "\nglobalThis.__rex_app_pages = {};\n"@ + page_imports(rs, rs.len())
        + "\nglobalThis.__rex_app_layout_chains = {};\n"@ + chain_regs(rs, rs.len())
        + "\nglobalThis.__rex_app_metadata_sources = {};\n"@ + metadata_regs(rs, rs.len()) + bundler_config_line(
        bundler_config_json,
    ) + actions_block(m, project_root) + api_block(scan.api_routes@, rt.app_route@) + runtime_tail(rt)
}

/// The core entry of a grouped server bundle: the React namespaces put on
/// `globalThis` for the group entries, empty registries, the bundler
/// config, the server actions, the route handlers and the runtimes; no
/// layout or page.
pub open spec fn core_entry(
    scan: AppScan,
    bundler_config_json: Seq<char>,
    m: ServerActionManifest,
    project_root: Seq<char>,
    rt: RscRuntimeSources,
) -> Seq<char> {
    "import * as __react_ns from 'react';\n"@ + "globalThis.__rex_react_ns = __react_ns;\n"@
        + "import * as __react_jsx_ns from 'react/jsx-runtime';\n"@
        + "import * as __react_jsxDEV_ns from 'react/jsx-dev-runtime';\n"@
        + "globalThis.__rex_react_jsx_ns = __react_jsx_ns;\n"@
        + "globalThis.__rex_react_jsxDEV_ns = __react_jsxDEV_ns;\n"@
        + "import { renderToReadableStream } from 'react-server-dom-webpack/server';\n"@
        + "var __rex_createElement = __react_ns.createElement;\n"@
        + "var __rex_renderToReadableStream = renderToReadableStream;\n\n"@
        + "globalThis.__rex_app_layouts = globalThis.__rex_app_layouts || {};\n"@
        + "globalThis.__rex_app_pages = globalThis.__rex_app_pages || {};\n"@
        + "globalThis.__rex_app_layout_chains = globalThis.__rex_app_layout_chains || {};\n"@
        + "globalThis.__rex_app_metadata_sources = globalThis.__rex_app_metadata_sources || {};\n"@
        + bundler_config_line(bundler_config_json) + actions_block(m, project_root) + api_block(
        scan.api_routes@,
        rt.app_route@,
    ) + runtime_tail(rt)
}

fn push_api_block(entry: &mut String, hs: &[AppApiRoute], runtime: &String)
    ensures
        final(entry)@ == old(entry)@ + api_block(hs@, runtime@),
{
    if hs.len() == 0 {
        return;
    }
    let ghost e0 = entry@;
    entry.append("\n// --- App Route Handlers ---\n");
    entry.append("globalThis.__rex_app_route_handlers = {};\n");
    let ghost e1 = entry@;
    let mut i: usize = 0;
    while i < hs.len()
        invariant
            i <= hs@.len(),
            entry@ == e1 + api_regs(hs@, i as nat),
        decreases hs.len() - i,
    {
        let ni = text::decimal_string(i);
        let p = text::replace_char_exec(hs[i].handler_path.as_str(), '\\', "/");
        let ghost before = entry@;
        entry.append("import * as __app_route");
        entry.append(ni.as_str());
        entry.append(" from '");
        entry.append(p.as_str());
        entry.append("';\n");
        entry.append("globalThis.__rex_app_route_handlers['");
        entry.append(hs[i].pattern.as_str());
        entry.append("'] = __app_route");
        entry.append(ni.as_str());
        entry.append(";\n");
        proof {
            assert(entry@ =~= before + api_reg(i as nat, hs@[i as int]));
        }
        i += 1;
    }
    entry.append(runtime.as_str());
    proof {
        assert(entry@ =~= e0 + api_block(hs@, runtime@));
    }
}

fn push_runtime_tail(entry: &mut String, rt: &RscRuntimeSources)
    ensures
        final(entry)@ == old(entry)@ + runtime_tail(*rt),
{
    let ghost e0 = entry@;
    entry.append("\n// --- Metadata Runtime ---\n");
    entry.append(rt.metadata.as_str());
    entry.append("\n// --- RSC Flight Runtime ---\n");
    entry.append(rt.flight.as_str());
    proof {
        assert(entry@ =~= e0 + runtime_tail(*rt));
    }
}

/// Generates the server flight entry of a bundle without route groups.
/// `bundler_config_json` is the client reference manifest's server webpack
/// config, as JSON.
pub fn generate_server_entry(
    app_scan: &AppScan,
    bundler_config_json: &str,
    server_action_manifest: &ServerActionManifest,
    project_root: &str,
    runtimes: &RscRuntimeSources,
) -> (r: String)
    requires
        server_action_manifest.wf(),
    ensures
        r@ == server_entry(*app_scan, bundler_config_json@, *server_action_manifest, project_root@, *runtimes),
{
    let mut entry = String::new();
    entry.append("import { createElement } from 'react';\n");
    entry.append("import { renderToReadableStream } from 'react-server-dom-webpack/server';\n");
    entry.append("var __rex_createElement = createElement;\n");
    entry.append("var __rex_renderToReadableStream = renderToReadableStream;\n\n");
    entry.append("globalThis.__rex_app_layouts = {};\n");
    let ghost p0 = entry@;
    push_layout_imports(&mut entry, app_scan.routes.as_slice());
    let ghost p1 = entry@;
    entry.append("\nglobalThis.__rex_app_pages = {};\n");
    push_page_imports(&mut entry, app_scan.routes.as_slice());
    let ghost p2 = entry@;
    entry.append("\nglobalThis.__rex_app_layout_chains = {};\n");
    push_chain_regs(&mut entry, app_scan.routes.as_slice());
    let ghost p3 = entry@;
    entry.append("\nglobalThis.__rex_app_metadata_sources = {};\n");
    push_metadata_regs(&mut entry, app_scan.routes.as_slice());
    let ghost p4 = entry@;
    entry.append("\nglobalThis.__rex_webpack_bundler_config = ");
    entry.append(bundler_config_json);
    entry.append(";\n");
    let ghost p5 = entry@;
    push_actions_block(&mut entry, server_action_manifest, project_root);
    push_api_block(&mut entry, app_scan.api_routes.as_slice(), &runtimes.app_route);
    push_runtime_tail(&mut entry, runtimes);
    proof {
        assert(p5 =~= p4 + bundler_config_line(bundler_config_json@));
        assert(entry@ =~= server_entry(*app_scan, bundler_config_json@, *server_action_manifest, project_root@, *runtimes));
    }
    entry
}

/// Generates the core entry of a grouped server bundle: React shared
/// through `globalThis`, empty registries for the group entries to extend,
/// and everything but the layouts and pages.
pub fn generate_core_entry(
    app_scan: &AppScan,
    bundler_config_json: &str,
    server_action_manifest: &ServerActionManifest,
    project_root: &str,
    runtimes: &RscRuntimeSources,
) -> (r: String)
    requires
        server_action_manifest.wf(),
    ensures
        r@ == core_entry(*app_scan, bundler_config_json@, *server_action_manifest, project_root@, *runtimes),
{
    let mut entry = String::new();
    entry.append("import * as __react_ns from 'react';\n");
    entry.append("globalThis.__rex_react_ns = __react_ns;\n");
    entry.append("import * as __react_jsx_ns from 'react/jsx-runtime';\n");
    entry.append("import * as __react_jsxDEV_ns from 'react/jsx-dev-runtime';\n");
    entry.append("globalThis.__rex_react_jsx_ns = __react_jsx_ns;\n");
    entry.append("globalThis.__rex_react_jsxDEV_ns = __react_jsxDEV_ns;\n");
    entry.append("import { renderToReadableStream } from 'react-server-dom-webpack/server';\n");
    entry.append("var __rex_createElement = __react_ns.createElement;\n");
    entry.append("var __rex_renderToReadableStream = renderToReadableStream;\n\n");
    entry.append("globalThis.__rex_app_layouts = globalThis.__rex_app_layouts || {};\n");
    entry.append("globalThis.__rex_app_pages = globalThis.__rex_app_pages || {};\n");
    entry.append("globalThis.__rex_app_layout_chains = globalThis.__rex_app_layout_chains || {};\n");
    entry.append("globalThis.__rex_app_metadata_sources = globalThis.__rex_app_metadata_sources || {};\n");
    let ghost p0 = entry@;
    entry.append("\nglobalThis.__rex_webpack_bundler_config = ");
    entry.append(bundler_config_json);
    entry.append(";\n");
    let ghost p1 = entry@;
    push_actions_block(&mut entry, server_action_manifest, project_root);
    push_api_block(&mut entry, app_scan.api_routes.as_slice(), &runtimes.app_route);
    push_runtime_tail(&mut entry, runtimes);
    proof {
        assert(p1 =~= p0 + bundler_config_line(bundler_config_json@));
        assert(entry@ =~= core_entry(*app_scan, bundler_config_json@, *server_action_manifest, project_root@, *runtimes));
    }
    entry
}


/// The SSR import of the `i`-th client boundary.
pub open spec fn ssr_import(i: nat, m: ModuleInfo) -> Seq<char> {
    "import * as __ssr_client_"@ + decimal(i) + " from '"@ + fwd(m.path@) + "';\n"@
}

/// The SSR imports of the first `n` client boundaries.
pub open spec fn ssr_imports(cs: Seq<ModuleInfo>, n: nat) -> Seq<char>
    decreases n,
{
    if n == 0 {
        Seq::empty()
    } else {
        ssr_imports(cs, (n - 1) as nat) + ssr_import((n - 1) as nat, cs[n - 1])
    }
}

/// The path of a module relative to the project root, with `/`
/// separators: what `Path::strip_prefix` leaves of it, or the path itself
/// where the root is not a prefix of it.
pub open spec fn ssr_rel_path(path: Seq<char>, project_root: Seq<char>) -> Seq<char> {
    fwd(
        match paths::path_strip_prefix(path, project_root) {
            Some(rest) => rest,
            None => path,
        },
    )
}

/// The registration, under its client reference id, of one export of the
/// `i`-th client boundary.
pub open spec fn ssr_module_reg(i: nat, rel_path: Seq<char>, export: Seq<char>, build_id: Seq<char>) -> Seq<char> {
    "globalThis.__rex_ssr_modules__[\""@ + client_reference_id_spec(rel_path, export, build_id) + "\"] = __ssr_client_"@
        + decimal(i) + ";\n"@
}

/// The registrations of the first `n` exports of the `i`-th client boundary.
pub open spec fn ssr_module_regs(i: nat, rel_path: Seq<char>, exports: Seq<String>, build_id: Seq<char>, n: nat) -> Seq<
    char,
>
    decreases n,
{
    if n == 0 {
        Seq::empty()
    } else {
        ssr_module_regs(i, rel_path, exports, build_id, (n - 1) as nat) + ssr_module_reg(
            i,
            rel_path,
            exports[n - 1]@,
            build_id,
        )
    }
}

/// The registrations of the first `n` client boundaries, each export under
/// its client reference id.
pub open spec fn ssr_regs(cs: Seq<ModuleInfo>, n: nat, project_root: Seq<char>, build_id: Seq<char>) -> Seq<char>
    decreases n,
{
    if n == 0 {
        Seq::empty()
    } else {
        ssr_regs(cs, (n - 1) as nat, project_root, build_id) + ssr_module_regs(
            (n - 1) as nat,
            ssr_rel_path(cs[n - 1].path@, project_root),
            cs[n - 1].exports@,
            build_id,
            cs[n - 1].exports@.len(),
        )
    }
}

/// The actions of a manifest sorted by id.
pub open spec fn rows_by_id(m: ServerActionManifest) -> Seq<(Seq<char>, Seq<char>, Seq<char>)> {
    text::sort_by_key_of(ordered_rows(m.order(), m@), row_key(false))
}

/// The server module map entry of an action, as `serde_json` writes it:
/// `"id":{"chunks":[],"id":"id","name":"export"}`.
pub open spec fn module_map_entry(t: (Seq<char>, Seq<char>, Seq<char>)) -> Seq<char> {
    json::quoted(t.0) + ":{\"chunks\":[],\"id\":"@ + json::quoted(t.0) + ",\"name\":"@ + json::quoted(t.2) + "}"@
}

/// The server module map as compact JSON, its entries in the order given.
pub open spec fn server_module_map(rs: Seq<(Seq<char>, Seq<char>, Seq<char>)>) -> Seq<char> {
    "{"@ + text::join(rs.map_values(|t: (Seq<char>, Seq<char>, Seq<char>)| module_map_entry(t)), ","@) + "}"@
}

/// The SSR stand-in of an action: an object whose export does nothing.
pub open spec fn ssr_stub(t: (Seq<char>, Seq<char>, Seq<char>)) -> Seq<char> {
    "globalThis.__rex_ssr_modules__[\""@ + t.0 + "\"] = { \""@ + t.2 + "\": function() {} };\n"@
}

/// The stand-ins of the first `n` rows.
pub open spec fn ssr_stubs(rs: Seq<(Seq<char>, Seq<char>, Seq<char>)>, n: nat) -> Seq<char>
    decreases n,
{
    if n == 0 {
        Seq::empty()
    } else {
        ssr_stubs(rs, (n - 1) as nat) + ssr_stub(rs[n - 1])
    }
}

/// The server action block of the SSR entry: nothing without actions;
/// otherwise the server module map (entries by id, as a JSON object keyed
/// in id order) and one stand-in per action, module by module.
pub open spec fn ssr_actions_block(m: ServerActionManifest) -> Seq<char> {
    if m@.len() == 0 {
        Seq::empty()
    } else {
        "\n// --- Server Action SSR Stubs ---\n"@ + "globalThis.__rex_webpack_server_module_map = "@
            + server_module_map(rows_by_id(m)) + ";\n"@ + ssr_stubs(rows_by_module(m), rows_by_module(m).len())
    }
}

/// The SSR pass entry: React with the standard conditions, every client
/// boundary imported and registered under the reference ids of its
/// exports, the SSR webpack manifest, the server action stand-ins and the
/// SSR pass runtime.
pub open spec fn ssr_entry(
    graph: ModuleGraph,
    ssr_manifest_json: Seq<char>,
    m: ServerActionManifest,
    project_root: Seq<char>,
    build_id: Seq<char>,
    rt: RscRuntimeSources,
) -> Seq<char> {
    let cs = select(graph@, boundary_pred(graph@));
    "import { createElement } from 'react';\n"@ + "import { renderToReadableStream } from 'react-dom/server';\n"@
        + "import { createFromReadableStream } from 'react-server-dom-webpack/client';\n"@
        + "var __rex_createElement = createElement;\n"@
        + "var __rex_renderToReadableStream_ssr = renderToReadableStream;\n"@
        + "var __rex_createFromReadableStream = createFromReadableStream;\n\n"@ + ssr_imports(cs, cs.len())
        + "\nglobalThis.__rex_ssr_modules__ = globalThis.__rex_ssr_modules__ || {};\n"@ + ssr_regs(
        cs,
        cs.len(),
        project_root,
        build_id,
    ) + "\nglobalThis.__rex_webpack_ssr_manifest = "@ + ssr_manifest_json + ";\n"@ + ssr_actions_block(m)
        + "\n// --- RSC SSR Pass Runtime ---\n"@ + rt.ssr_pass@
}

/// The registrations of the exports of the `index`-th client boundary
/// under their client reference ids, for a boundary at `rel_path` (relative
/// to the project root, `/`-separated).
pub fn ssr_module_registrations(index: usize, rel_path: &str, exports: &[String], build_id: &str) -> (r: String)
    ensures
        r@ == ssr_module_regs(index as nat, rel_path@, exports@, build_id@, exports@.len()),
{
    let ni = text::decimal_string(index);
    let mut r = String::new();
    let mut k: usize = 0;
    while k < exports.len()
        invariant
            k <= exports@.len(),
            ni@ == decimal(index as nat),
            r@ == ssr_module_regs(index as nat, rel_path@, exports@, build_id@, k as nat),
        decreases exports.len() - k,
    {
        let id = client_reference_id(rel_path, exports[k].as_str(), build_id);
        let ghost before = r@;
        r.append("globalThis.__rex_ssr_modules__[\"");
        r.append(id.as_str());
        r.append("\"] = __ssr_client_");
        r.append(ni.as_str());
        r.append(";\n");
        proof {
            assert(r@ =~= before + ssr_module_reg(index as nat, rel_path@, exports@[k as int]@, build_id@));
        }
        k += 1;
    }
    r
}

fn push_ssr_imports(entry: &mut String, cs: &Vec<&ModuleInfo>)
    ensures
        final(entry)@ == old(entry)@ + ssr_imports(cs@.map_values(|m: &ModuleInfo| *m), cs@.len()),
{
    let ghost csv = cs@.map_values(|m: &ModuleInfo| *m);
    let ghost e0 = entry@;
    let mut i: usize = 0;
    while i < cs.len()
        invariant
            i <= cs@.len(),
            csv == cs@.map_values(|m: &ModuleInfo| *m),
            entry@ == e0 + ssr_imports(csv, i as nat),
        decreases cs.len() - i,
    {
        let ni = text::decimal_string(i);
        let p = text::replace_char_exec(cs[i].path.as_str(), '\\', "/");
        let ghost before = entry@;
        entry.append("import * as __ssr_client_");
        entry.append(ni.as_str());
        entry.append(" from '");
        entry.append(p.as_str());
        entry.append("';\n");
        proof {
            assert(csv[i as int] == *cs@[i as int]);
            assert(entry@ =~= before + ssr_import(i as nat, csv[i as int]));
        }
        i += 1;
    }
}

fn push_ssr_regs(entry: &mut String, cs: &Vec<&ModuleInfo>, project_root: &str, build_id: &str)
    ensures
        final(entry)@ == old(entry)@ + ssr_regs(cs@.map_values(|m: &ModuleInfo| *m), cs@.len(), project_root@, build_id@),
{
    let ghost csv = cs@.map_values(|m: &ModuleInfo| *m);
    let ghost e0 = entry@;
    let mut i: usize = 0;
    while i < cs.len()
        invariant
            i <= cs@.len(),
            csv == cs@.map_values(|m: &ModuleInfo| *m),
            entry@ == e0 + ssr_regs(csv, i as nat, project_root@, build_id@),
        decreases cs.len() - i,
    {
        let stripped = paths::strip_prefix(cs[i].path.as_str(), project_root);
        let rel0 = match stripped {
            Some(rest) => rest,
            None => String::from_str(cs[i].path.as_str()),
        };
        let rel = text::replace_char_exec(rel0.as_str(), '\\', "/");
        proof {
            assert(csv[i as int] == *cs@[i as int]);
            assert(rel@ == ssr_rel_path(csv[i as int].path@, project_root@));
        }
        let regs = ssr_module_registrations(i, rel.as_str(), cs[i].exports.as_slice(), build_id);
        let ghost before = entry@;
        entry.append(regs.as_str());
        proof {
            assert(entry@ =~= e0 + ssr_regs(csv, (i + 1) as nat, project_root@, build_id@));
        }
        i += 1;
    }
}

fn server_module_map_json(rs: &Vec<(String, String, String)>) -> (r: String)
    ensures
        r@ == server_module_map(row_views(rs@)),
{
    let ghost rv = row_views(rs@);
    let mut parts: Vec<String> = Vec::new();
    let mut k: usize = 0;
    while k < rs.len()
        invariant
            k <= rs@.len(),
            rv == row_views(rs@),
            parts@.len() == k,
            forall|j: int| 0 <= j < k ==> (#[trigger] parts@[j])@ == module_map_entry(rv[j]),
        decreases rs.len() - k,
    {
        let qid = json::string_literal(rs[k].0.as_str());
        let qname = json::string_literal(rs[k].2.as_str());
        let mut e = String::new();
        e.append(qid.as_str());
        e.append(":{\"chunks\":[],\"id\":");
        e.append(qid.as_str());
        e.append(",\"name\":");
        e.append(qname.as_str());
        e.append("}");
        proof {
            assert(rv[k as int] == (rs@[k as int].0@, rs@[k as int].1@, rs@[k as int].2@));
            assert(e@ =~= module_map_entry(rv[k as int]));
        }
        parts.push(e);
        k += 1;
    }
    let joined = text::join_strings(parts.as_slice(), ",");
    proof {
        assert(text::views(parts@) =~= rv.map_values(|t: (Seq<char>, Seq<char>, Seq<char>)| module_map_entry(t)));
    }
    let mut r = String::from_str("{");
    r.append(joined.as_str());
    r.append("}");
    r
}

fn push_ssr_stubs(entry: &mut String, rs: &Vec<(String, String, String)>)
    ensures
        final(entry)@ == old(entry)@ + ssr_stubs(row_views(rs@), rs@.len()),
{
    let ghost rv = row_views(rs@);
    let ghost e0 = entry@;
    let mut k: usize = 0;
    while k < rs.len()
        invariant
            k <= rs@.len(),
            rv == row_views(rs@),
            entry@ == e0 + ssr_stubs(rv, k as nat),
        decreases rs.len() - k,
    {
        let ghost before = entry@;
        entry.append("globalThis.__rex_ssr_modules__[\"");
        entry.append(rs[k].0.as_str());
        entry.append("\"] = { \"");
        entry.append(rs[k].2.as_str());
        entry.append("\": function() {} };\n");
        proof {
            assert(rv[k as int] == (rs@[k as int].0@, rs@[k as int].1@, rs@[k as int].2@));
            assert(entry@ =~= before + ssr_stub(rv[k as int]));
        }
        k += 1;
    }
}

fn push_ssr_actions_block(entry: &mut String, m: &ServerActionManifest)
    requires
        m.wf(),
    ensures
        final(entry)@ == old(entry)@ + ssr_actions_block(*m),
{
    let rows = m.ordered_entries();
    if rows.len() == 0 {
        return;
    }
    let by_id = sort_rows(&rows, false);
    let by_module = sort_rows(&rows, true);
    let map_json = server_module_map_json(&by_id);
    let ghost e0 = entry@;
    entry.append("\n// --- Server Action SSR Stubs ---\n");
    entry.append("globalThis.__rex_webpack_server_module_map = ");
    entry.append(map_json.as_str());
    entry.append(";\n");
    let ghost e1 = entry@;
    push_ssr_stubs(entry, &by_module);
    proof {
        assert(e1 =~= e0 + "\n// --- Server Action SSR Stubs ---\n"@ + "globalThis.__rex_webpack_server_module_map = "@
            + server_module_map(rows_by_id(*m)) + ";\n"@);
        assert(entry@ =~= e0 + ssr_actions_block(*m));
    }
}

/// Generates the SSR pass entry. `ssr_manifest_json` is the client
/// reference manifest's SSR webpack manifest, as JSON.
pub fn generate_ssr_entry(
    graph: &ModuleGraph,
    ssr_manifest_json: &str,
    server_action_manifest: &ServerActionManifest,
    project_root: &str,
    build_id: &str,
    runtimes: &RscRuntimeSources,
) -> (r: String)
    requires
        server_action_manifest.wf(),
    ensures
        r@ == ssr_entry(*graph, ssr_manifest_json@, *server_action_manifest, project_root@, build_id@, *runtimes),
{
    let cs = graph.client_boundary_modules();
    let ghost csv = cs@.map_values(|m: &ModuleInfo| *m);
    proof {
        assert(csv =~= select(graph@, boundary_pred(graph@)));
    }
    let mut entry = String::new();
    entry.append("import { createElement } from 'react';\n");
    entry.append("import { renderToReadableStream } from 'react-dom/server';\n");
    entry.append("import { createFromReadableStream } from 'react-server-dom-webpack/client';\n");
    entry.append("var __rex_createElement = createElement;\n");
    entry.append("var __rex_renderToReadableStream_ssr = renderToReadableStream;\n");
    entry.append("var __rex_createFromReadableStream = createFromReadableStream;\n\n");
    push_ssr_imports(&mut entry, &cs);
    entry.append("\nglobalThis.__rex_ssr_modules__ = globalThis.__rex_ssr_modules__ || {};\n");
    push_ssr_regs(&mut entry, &cs, project_root, build_id);
    let ghost p0 = entry@;
    entry.append("\nglobalThis.__rex_webpack_ssr_manifest = ");
    entry.append(ssr_manifest_json);
    entry.append(";\n");
    let ghost p1 = entry@;
    push_ssr_actions_block(&mut entry, server_action_manifest);
    entry.append("\n// --- RSC SSR Pass Runtime ---\n");
    entry.append(runtimes.ssr_pass.as_str());
    proof {
        assert(p1 =~= p0 + "\nglobalThis.__rex_webpack_ssr_manifest = "@ + ssr_manifest_json@ + ";\n"@);
        assert(entry@ =~= ssr_entry(*graph, ssr_manifest_json@, *server_action_manifest, project_root@, build_id@, *runtimes));
    }
    entry
}


/// Every server action is dispatched through the namespace import of its
/// own module: the row that opens the action's module group (and so emits
/// the group's import) holds the same module.
pub proof fn lemma_action_uses_own_module_import(rs: Seq<(Seq<char>, Seq<char>, Seq<char>)>, k: int)
    requires
        0 <= k < rs.len(),
    ensures
        exists|f: int|
            0 <= f <= k && new_group(rs, f) && group_of(rs, f as nat) == group_of(rs, k as nat) && rs[f].1
                == rs[k].1,
    decreases k,
{
    if new_group(rs, k) {
        assert(0 <= k <= k && new_group(rs, k) && group_of(rs, k as nat) == group_of(rs, k as nat));
    } else {
        lemma_action_uses_own_module_import(rs, k - 1);
        let f = choose|f: int|
            0 <= f <= k - 1 && new_group(rs, f) && group_of(rs, f as nat) == group_of(rs, (k - 1) as nat)
                && rs[f].1 == rs[k - 1].1;
        assert(group_of(rs, k as nat) == group_of(rs, (k - 1) as nat));
        assert(0 <= f <= k && new_group(rs, f) && group_of(rs, f as nat) == group_of(rs, k as nat) && rs[f].1
            == rs[k].1);
    }
}


/// Each action module is imported once, and the modules in ascending path
/// order: of two rows that open a module group, the earlier holds the
/// smaller module path.
pub proof fn lemma_one_import_per_module(m: ServerActionManifest, f1: int, f2: int)
    requires
        0 <= f1 < f2 < rows_by_module(m).len(),
        new_group(rows_by_module(m), f1),
        new_group(rows_by_module(m), f2),
    ensures
        text::lex_lt(rows_by_module(m)[f1].1, rows_by_module(m)[f2].1),
{
    let rs = rows_by_module(m);
    let key = row_key(true);
    text::lemma_sort_by_key_of_sorted(ordered_rows(m.order(), m@), key);
    assert(!text::lex_lt(key(rs[f2]), key(rs[f2 - 1])));
    assert(rs[f2].1 != rs[f2 - 1].1);
    text::lemma_lex_total(rs[f2 - 1].1, rs[f2].1);
    assert(text::lex_lt(rs[f2 - 1].1, rs[f2].1));
    if f1 < f2 - 1 {
        assert(!text::lex_lt(key(rs[f2 - 1]), key(rs[f1])));
        if rs[f1].1 == rs[f2 - 1].1 {
        } else {
            text::lemma_lex_total(rs[f1].1, rs[f2 - 1].1);
            text::lemma_lex_trans(rs[f1].1, rs[f2 - 1].1, rs[f2].1);
        }
    }
}

} // verus!
