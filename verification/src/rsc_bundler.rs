//! What the RSC build computes from the module graph before bundling: the
//! sorted entry points, the client reference rows and stub aliases of the
//! client boundaries, the server action manifest, and the aliases of the
//! framework's client modules onto their stubs.
use vstd::prelude::*;
use crate::text;
use crate::ids;
use crate::paths;
use crate::rsc_graph::{ModuleGraph, ModuleInfo, select, boundary_pred, action_pred, inline_action_pred};
use crate::rsc_entries::{ssr_rel_path, AppRoute};
use crate::rsc_build_config::{chunk_name, sanitize_filename};
use crate::precomputed_ids::{PrecomputedIds, client_lookup, action_lookup};
use crate::server_action_manifest::{ServerActionManifest, ServerActionEntry, row_views};

verus! {

/// A manifest row as values: id, then two strings.
pub type Row = (Seq<char>, Seq<char>, Seq<char>);

/// The client reference id of an export as the build resolves it: the
/// precomputed one, or the one computed directly.
pub open spec fn resolved_client_id(ids: PrecomputedIds, rel: Seq<char>, e: Seq<char>, build_id: Seq<char>) -> Seq<char> {
    match client_lookup(ids.boundaries(), rel, e) {
        Some(id) => id,
        None => ids::client_reference_id_spec(rel, e, build_id),
    }
}

/// The server action id of an export as the build resolves it.
pub open spec fn resolved_action_id(ids: PrecomputedIds, rel: Seq<char>, e: Seq<char>, build_id: Seq<char>) -> Seq<char> {
    match action_lookup(ids.actions(), rel, e) {
        Some(id) => id,
        None => ids::server_action_id_spec(rel, e, build_id),
    }
}

/// The rows `(action id, module, export)` of the named actions of a module.
pub open spec fn action_rows_of(ids: PrecomputedIds, rel: Seq<char>, names: Seq<Seq<char>>, build_id: Seq<char>) -> Seq<Row> {
    names.map_values(|e: Seq<char>| (resolved_action_id(ids, rel, e, build_id), rel, e))
}

/// The action rows of modules: their exports, or (`inline`) their server
/// functions.
pub open spec fn module_action_rows(
    ids: PrecomputedIds,
    ms: Seq<ModuleInfo>,
    inline: bool,
    root: Seq<char>,
    build_id: Seq<char>,
) -> Seq<Row>
    decreases ms.len(),
{
    if ms.len() == 0 {
        Seq::empty()
    } else {
        let m = ms.last();
        module_action_rows(ids, ms.drop_last(), inline, root, build_id) + action_rows_of(
            ids,
            ssr_rel_path(m.path@, root),
            text::views(if inline { m.server_functions@ } else { m.exports@ }),
            build_id,
        )
    }
}

/// The action rows of the actions extracted from modules, by module path.
pub open spec fn extracted_rows(
    ids: PrecomputedIds,
    ex: Seq<(String, Vec<String>)>,
    root: Seq<char>,
    build_id: Seq<char>,
) -> Seq<Row>
    decreases ex.len(),
{
    if ex.len() == 0 {
        Seq::empty()
    } else {
        extracted_rows(ids, ex.drop_last(), root, build_id) + action_rows_of(
            ids,
            ssr_rel_path(ex.last().0@, root),
            text::views(ex.last().1@),
            build_id,
        )
    }
}

/// The rows added to the server action manifest, in order: the exports of
/// the module-level `"use server"` modules, the server functions of the
/// other modules, then the extracted inline actions.
pub open spec fn action_manifest_rows(
    g: Seq<ModuleInfo>,
    ids: PrecomputedIds,
    ex: Seq<(String, Vec<String>)>,
    root: Seq<char>,
    build_id: Seq<char>,
) -> Seq<Row> {
    module_action_rows(ids, select(g, action_pred()), false, root, build_id) + module_action_rows(
        ids,
        select(g, inline_action_pred()),
        true,
        root,
        build_id,
    ) + extracted_rows(ids, ex, root, build_id)
}

/// The entries of rows added in order: the last row of an id decides.
pub open spec fn rows_map(rows: Seq<Row>) -> Map<Seq<char>, (Seq<char>, Seq<char>)>
    decreases rows.len(),
{
    if rows.len() == 0 {
        Map::empty()
    } else {
        rows_map(rows.drop_last()).insert(rows.last().0, (rows.last().1, rows.last().2))
    }
}

/// A manifest holds exactly the entries of the rows.
pub open spec fn holds_rows(m: Map<Seq<char>, ServerActionEntry>, rows: Seq<Row>) -> bool {
    &&& m.dom() == rows_map(rows).dom()
    &&& forall|k: Seq<char>|
        #[trigger] m.dom().contains(k) ==> (m[k].module_rel_path@, m[k].export_name@) == rows_map(rows)[k]
}

/// The client reference rows `(reference id, chunk URL, export)` of the
/// client boundaries, the URL left empty until the client build.
pub open spec fn client_rows(ids: PrecomputedIds, cs: Seq<ModuleInfo>, root: Seq<char>, build_id: Seq<char>) -> Seq<Row>
    decreases cs.len(),
{
    if cs.len() == 0 {
        Seq::empty()
    } else {
        let m = cs.last();
        let rel = ssr_rel_path(m.path@, root);
        client_rows(ids, cs.drop_last(), root, build_id) + text::views(m.exports@).map_values(
            |e: Seq<char>| (resolved_client_id(ids, rel, e, build_id), Seq::<char>::empty(), e),
        )
    }
}

/// The stub file of a client boundary: its sanitized relative path with
/// `.js`, in the stub directory.
pub open spec fn stub_path(stubs_dir: Seq<char>, rel: Seq<char>) -> Seq<char> {
    paths::join_spec(stubs_dir, chunk_name(rel) + ".js"@)
}

/// The aliases of the client boundaries onto their stubs.
pub open spec fn stub_aliases(cs: Seq<ModuleInfo>, root: Seq<char>, stubs_dir: Seq<char>) -> Seq<(Seq<char>, Seq<char>)> {
    cs.map_values(|m: ModuleInfo| (m.path@, stub_path(stubs_dir, ssr_rel_path(m.path@, root))))
}

/// The character views of string pairs.
pub open spec fn pair_views(v: Seq<(String, String)>) -> Seq<(Seq<char>, Seq<char>)> {
    v.map_values(|p: (String, String)| (p.0@, p.1@))
}

/// The path of a module relative to the project root, with `/` separators.
pub fn rel_path(path: &str, project_root: &str) -> (r: String)
    ensures
        r@ == ssr_rel_path(path@, project_root@),
{
    let stripped = paths::strip_prefix(path, project_root);
    let rel0 = match stripped {
        Some(rest) => rest,
        None => String::from_str(path),
    };
    text::replace_char_exec(rel0.as_str(), '\\', "/")
}

proof fn lemma_holds_push(m: Map<Seq<char>, ServerActionEntry>, rows: Seq<Row>, id: Seq<char>, e: ServerActionEntry)
    requires
        holds_rows(m, rows),
    ensures
        holds_rows(m.insert(id, e), rows.push((id, e.module_rel_path@, e.export_name@))),
{
    let rows2 = rows.push((id, e.module_rel_path@, e.export_name@));
    assert(rows2.drop_last() =~= rows);
    assert(m.insert(id, e).dom() =~= rows_map(rows2).dom());
}

fn add_action_rows(
    manifest: &mut ServerActionManifest,
    ids: &PrecomputedIds,
    rel: &str,
    names: &Vec<String>,
    build_id: &str,
    Ghost(rows): Ghost<Seq<Row>>,
)
    requires
        old(manifest).wf(),
        holds_rows(old(manifest)@, rows),
    ensures
        final(manifest).wf(),
        holds_rows(final(manifest)@, rows + action_rows_of(*ids, rel@, text::views(names@), build_id@)),
{
    let ghost nv = text::views(names@);
    let ghost all = action_rows_of(*ids, rel@, nv, build_id@);
    let mut k: usize = 0;
    proof {
        assert(rows + all.take(0) =~= rows);
    }
    while k < names.len()
        invariant
            k <= names@.len(),
            nv == text::views(names@),
            all == action_rows_of(*ids, rel@, nv, build_id@),
            manifest.wf(),
            holds_rows(manifest@, rows + all.take(k as int)),
        decreases names.len() - k,
    {
        let e = names[k].as_str();
        let id = ids.server_action_id(rel, e, build_id);
        let ghost before = manifest@;
        let ent_rel = String::from_str(rel);
        let ent_exp = String::from_str(e);
        manifest.add(id.as_str(), ent_rel, ent_exp);
        proof {
            let ent = ServerActionEntry { module_rel_path: ent_rel, export_name: ent_exp };
            lemma_holds_push(before, rows + all.take(k as int), id@, ent);
            assert(nv[k as int] == e@);
            assert((rows + all.take(k as int)).push((id@, rel@, e@)) =~= rows + all.take(k + 1));
        }
        k += 1;
    }
    proof {
        assert(all.take(k as int) =~= all);
    }
}

fn add_module_rows(
    manifest: &mut ServerActionManifest,
    ids: &PrecomputedIds,
    ms: &Vec<&ModuleInfo>,
    inline: bool,
    root: &str,
    build_id: &str,
    Ghost(rows): Ghost<Seq<Row>>,
)
    requires
        old(manifest).wf(),
        holds_rows(old(manifest)@, rows),
    ensures
        final(manifest).wf(),
        holds_rows(
            final(manifest)@,
            rows + module_action_rows(*ids, ms@.map_values(|m: &ModuleInfo| *m), inline, root@, build_id@),
        ),
{
    let ghost mv = ms@.map_values(|m: &ModuleInfo| *m);
    let mut i: usize = 0;
    proof {
        assert(mv.take(0) =~= Seq::<ModuleInfo>::empty());
        assert(rows + module_action_rows(*ids, mv.take(0), inline, root@, build_id@) =~= rows);
    }
    while i < ms.len()
        invariant
            i <= ms@.len(),
            mv == ms@.map_values(|m: &ModuleInfo| *m),
            manifest.wf(),
            holds_rows(manifest@, rows + module_action_rows(*ids, mv.take(i as int), inline, root@, build_id@)),
        decreases ms.len() - i,
    {
        proof {
            assert(mv.take(i + 1).drop_last() =~= mv.take(i as int));
            assert(mv.take(i + 1).last() == *ms@[i as int]);
        }
        let m = ms[i];
        let rel = rel_path(m.path.as_str(), root);
        let names = if inline { &m.server_functions } else { &m.exports };
        let ghost before = rows + module_action_rows(*ids, mv.take(i as int), inline, root@, build_id@);
        add_action_rows(manifest, ids, rel.as_str(), names, build_id, Ghost(before));
        proof {
            assert(before + action_rows_of(*ids, rel@, text::views(names@), build_id@) =~= rows + module_action_rows(
                *ids,
                mv.take(i + 1),
                inline,
                root@,
                build_id@,
            ));
        }
        i += 1;
    }
    proof {
        assert(mv.take(i as int) =~= mv);
    }
}

/// The manifests of the RSC build, from the module graph (`ids`: the ids
/// precomputed by the ESM walk, looked up before computing one; `extracted`:
/// the inline actions extracted from each module, by module path):
/// - the client reference rows of every export of every client boundary,
///   with an empty chunk URL;
/// - the server action manifest: each export of a module-level
///   `"use server"` module, then each server function of the other
///   modules, then each extracted action, under its resolved id (a later
///   entry under the same id replaces an earlier one);
/// - the alias of each client boundary onto its stub file in `stubs_dir`.
pub fn rsc_manifests(
    graph: &ModuleGraph,
    project_root: &str,
    stubs_dir: &str,
    build_id: &str,
    ids: &PrecomputedIds,
    extracted: &[(String, Vec<String>)],
) -> (r: (Vec<(String, String, String)>, ServerActionManifest, Vec<(String, String)>))
    ensures
        row_views(r.0@) == client_rows(*ids, select(graph@, boundary_pred(graph@)), project_root@, build_id@),
        r.1.wf(),
        holds_rows(r.1@, action_manifest_rows(graph@, *ids, extracted@, project_root@, build_id@)),
        pair_views(r.2@) == stub_aliases(select(graph@, boundary_pred(graph@)), project_root@, stubs_dir@),
{
    let cs = graph.client_boundary_modules();
    let ghost csv = cs@.map_values(|m: &ModuleInfo| *m);
    proof {
        assert(csv =~= select(graph@, boundary_pred(graph@)));
    }
    let mut rows: Vec<(String, String, String)> = Vec::new();
    let mut stubs: Vec<(String, String)> = Vec::new();
    let mut i: usize = 0;
    while i < cs.len()
        invariant
            i <= cs@.len(),
            csv == cs@.map_values(|m: &ModuleInfo| *m),
            row_views(rows@) == client_rows(*ids, csv.take(i as int), project_root@, build_id@),
            pair_views(stubs@) == stub_aliases(csv.take(i as int), project_root@, stubs_dir@),
        decreases cs.len() - i,
    {
        proof {
            assert(csv.take(i + 1).drop_last() =~= csv.take(i as int));
            assert(csv.take(i + 1).last() == *cs@[i as int]);
        }
        let m = cs[i];
        let rel = rel_path(m.path.as_str(), project_root);
        let ghost r0 = row_views(rows@);
        let ghost ev = text::views(m.exports@);
        let ghost new_rows = ev.map_values(
            |e: Seq<char>| (resolved_client_id(*ids, rel@, e, build_id@), Seq::<char>::empty(), e),
        );
        let mut k: usize = 0;
        while k < m.exports.len()
            invariant
                k <= m.exports@.len(),
                ev == text::views(m.exports@),
                new_rows == ev.map_values(
                    |e: Seq<char>| (resolved_client_id(*ids, rel@, e, build_id@), Seq::<char>::empty(), e),
                ),
                row_views(rows@) == r0 + new_rows.take(k as int),
            decreases m.exports.len() - k,
        {
            let e = m.exports[k].as_str();
            let id = ids.client_ref_id(rel.as_str(), e, build_id);
            let ghost before = row_views(rows@);
            rows.push((id, String::new(), String::from_str(e)));
            proof {
                assert(row_views(rows@) =~= before.push((id@, Seq::<char>::empty(), e@)));
                assert(new_rows.take(k + 1) =~= new_rows.take(k as int).push(new_rows[k as int]));
            }
            k += 1;
        }
        proof {
            assert(new_rows.take(k as int) =~= new_rows);
        }
        let mut file = sanitize_filename(rel.as_str());
        file.append(".js");
        let stub = paths::join(stubs_dir, file.as_str());
        let ghost sb = pair_views(stubs@);
        stubs.push((String::from_str(m.path.as_str()), stub));
        proof {
            assert(pair_views(stubs@) =~= sb.push((m.path@, stub_path(stubs_dir@, rel@))));
            assert(stub_aliases(csv.take(i + 1), project_root@, stubs_dir@) =~= stub_aliases(
                csv.take(i as int),
                project_root@,
                stubs_dir@,
            ).push((m.path@, stub_path(stubs_dir@, rel@))));
        }
        i += 1;
    }
    proof {
        assert(csv.take(i as int) =~= csv);
    }
    let mut manifest = ServerActionManifest::new();
    proof {
        assert(manifest@.dom() =~= rows_map(Seq::empty()).dom());
    }
    let sm = graph.server_action_modules();
    let ghost smv = sm@.map_values(|m: &ModuleInfo| *m);
    proof {
        assert(smv =~= select(graph@, action_pred()));
    }
    add_module_rows(&mut manifest, ids, &sm, false, project_root, build_id, Ghost(Seq::empty()));
    let ghost r1 = Seq::<Row>::empty() + module_action_rows(*ids, smv, false, project_root@, build_id@);
    let im = graph.inline_server_action_modules();
    let ghost imv = im@.map_values(|m: &ModuleInfo| *m);
    proof {
        assert(imv =~= select(graph@, inline_action_pred()));
    }
    add_module_rows(&mut manifest, ids, &im, true, project_root, build_id, Ghost(r1));
    let ghost r2 = r1 + module_action_rows(*ids, imv, true, project_root@, build_id@);
    let mut j: usize = 0;
    let ghost exv = extracted@;
    proof {
        assert(r2 + extracted_rows(*ids, exv.take(0), project_root@, build_id@) =~= r2);
    }
    while j < extracted.len()
        invariant
            j <= exv.len(),
            exv == extracted@,
            manifest.wf(),
            holds_rows(manifest@, r2 + extracted_rows(*ids, exv.take(j as int), project_root@, build_id@)),
        decreases extracted.len() - j,
    {
        proof {
            assert(exv.take(j + 1).drop_last() =~= exv.take(j as int));
            assert(exv.take(j + 1).last() == exv[j as int]);
        }
        let rel = rel_path(extracted[j].0.as_str(), project_root);
        let ghost before = r2 + extracted_rows(*ids, exv.take(j as int), project_root@, build_id@);
        add_action_rows(&mut manifest, ids, rel.as_str(), &extracted[j].1, build_id, Ghost(before));
        proof {
            assert(before + action_rows_of(*ids, rel@, text::views(extracted@[j as int].1@), build_id@) =~= r2
                + extracted_rows(*ids, exv.take(j + 1), project_root@, build_id@));
        }
        j += 1;
    }
    proof {
        assert(exv.take(j as int) =~= exv);
        assert(r2 + extracted_rows(*ids, exv, project_root@, build_id@) =~= action_manifest_rows(
            graph@,
            *ids,
            extracted@,
            project_root@,
            build_id@,
        ));
    }
    (rows, manifest, stubs)
}

/// Entry `k` is the first of the entries with its components.
#[verifier::opaque]
pub open spec fn first_of_kind(es: Seq<Seq<char>>, k: int) -> bool {
    forall|j: int| 0 <= j < k ==> paths::components(#[trigger] es[j]) != paths::components(es[k])
}

/// Paths in strictly increasing order.
#[verifier::opaque]
pub open spec fn sorted_paths(r: Seq<Seq<char>>) -> bool {
    forall|i: int, j: int| 0 <= i < j < r.len() ==> paths::path_lt(#[trigger] r[i], #[trigger] r[j])
}

/// Each of `r` is one of the first `k` entries, the first of its components.
#[verifier::opaque]
pub open spec fn from_firsts(r: Seq<Seq<char>>, es: Seq<Seq<char>>, k: int) -> bool {
    forall|i: int| 0 <= i < r.len() ==> exists|k2: int| 0 <= k2 < k && #[trigger] r[i] == es[k2] && first_of_kind(es, k2)
}

/// The components of each of the first `k` entries are among `r`.
#[verifier::opaque]
pub open spec fn covers(r: Seq<Seq<char>>, es: Seq<Seq<char>>, k: int) -> bool {
    forall|k2: int| 0 <= k2 < k ==> exists|i: int| 0 <= i < r.len() && paths::components(r[i]) == paths::components(#[trigger] es[k2])
}

/// `r` is `es` sorted as paths, with each run of equal paths cut to its
/// first entry: strictly increasing, each the first entry of its
/// components, and the components of every entry present.
pub open spec fn sorted_dedup_of(r: Seq<Seq<char>>, es: Seq<Seq<char>>) -> bool {
    &&& sorted_paths(r)
    &&& from_firsts(r, es, es.len() as int)
    &&& covers(r, es, es.len() as int)
}

proof fn lemma_sorted_same_elems(r1: Seq<Seq<char>>, r2: Seq<Seq<char>>)
    requires
        sorted_paths(r1),
        sorted_paths(r2),
        forall|x: Seq<char>| r1.contains(x) <==> r2.contains(x),
    ensures
        r1 == r2,
    decreases r1.len(),
{
    reveal(sorted_paths);
    if r1.len() == 0 {
        if r2.len() > 0 {
            assert(r2.contains(r2[0]));
        }
        assert(r1 =~= r2);
    } else {
        assert(r1.contains(r1[0]));
        let j0 = choose|j: int| 0 <= j < r2.len() && r2[j] == r1[0];
        assert(r2.contains(r2[0]));
        let m0 = choose|m: int| 0 <= m < r1.len() && r1[m] == r2[0];
        paths::lemma_path_lt_irrefl(r1[0], r1[0]);
        if j0 > 0 {
            assert(paths::path_lt(r2[0], r2[j0]));
            if m0 > 0 {
                assert(paths::path_lt(r1[0], r1[m0]));
                paths::lemma_path_lt_trans(r1[0], r1[m0], r1[0]);
            }
        }
        assert(r1[0] == r2[0]);
        let t1 = r1.drop_first();
        let t2 = r2.drop_first();
        assert forall|i: int, j: int| 0 <= i < j < t1.len() implies paths::path_lt(#[trigger] t1[i], #[trigger] t1[j]) by {
            assert(t1[i] == r1[i + 1] && t1[j] == r1[j + 1]);
        }
        assert forall|i: int, j: int| 0 <= i < j < t2.len() implies paths::path_lt(#[trigger] t2[i], #[trigger] t2[j]) by {
            assert(t2[i] == r2[i + 1] && t2[j] == r2[j + 1]);
        }
        assert forall|x: Seq<char>| t1.contains(x) <==> t2.contains(x) by {
            if t1.contains(x) {
                let i = choose|i: int| 0 <= i < t1.len() && t1[i] == x;
                assert(r1[i + 1] == x);
                assert(r1.contains(x));
                assert(paths::path_lt(r1[0], r1[i + 1]));
                let j = choose|j: int| 0 <= j < r2.len() && r2[j] == x;
                assert(j != 0);
                assert(t2[j - 1] == x);
            }
            if t2.contains(x) {
                let i = choose|i: int| 0 <= i < t2.len() && t2[i] == x;
                assert(r2[i + 1] == x);
                assert(r2.contains(x));
                paths::lemma_path_lt_irrefl(r2[0], r2[0]);
                assert(paths::path_lt(r2[0], r2[i + 1]));
                let j = choose|j: int| 0 <= j < r1.len() && r1[j] == x;
                assert(j != 0);
                assert(t1[j - 1] == x);
            }
        }
        reveal(sorted_paths);
        assert(sorted_paths(t1) && sorted_paths(t2));
        lemma_sorted_same_elems(t1, t2);
        assert(r1 =~= seq![r1[0]] + t1);
        assert(r2 =~= seq![r2[0]] + t2);
    }
}

/// The sorted, cut entries are determined by the entries: two lists that
/// both meet `sorted_dedup_of` for the same entries are the same list.
pub proof fn lemma_sorted_dedup_unique(r1: Seq<Seq<char>>, r2: Seq<Seq<char>>, es: Seq<Seq<char>>)
    requires
        sorted_dedup_of(r1, es),
        sorted_dedup_of(r2, es),
    ensures
        r1 == r2,
{
    assert forall|x: Seq<char>| r1.contains(x) implies r2.contains(x) by {
        lemma_in_other(r1, r2, es, x);
    }
    assert forall|x: Seq<char>| r2.contains(x) implies r1.contains(x) by {
        lemma_in_other(r2, r1, es, x);
    }
    lemma_sorted_same_elems(r1, r2);
}

proof fn lemma_in_other(r1: Seq<Seq<char>>, r2: Seq<Seq<char>>, es: Seq<Seq<char>>, x: Seq<char>)
    requires
        sorted_dedup_of(r1, es),
        sorted_dedup_of(r2, es),
        r1.contains(x),
    ensures
        r2.contains(x),
{
    let i = choose|i: int| 0 <= i < r1.len() && r1[i] == x;
    assert(exists|k: int| 0 <= k < es.len() && #[trigger] r1[i] == es[k] && first_of_kind(es, k)) by {
        reveal(from_firsts);
    }
    let k = choose|k: int| 0 <= k < es.len() && #[trigger] r1[i] == es[k] && first_of_kind(es, k);
    assert(exists|j: int| 0 <= j < r2.len() && paths::components(r2[j]) == paths::components(#[trigger] es[k])) by {
        reveal(covers);
    }
    let j = choose|j: int| 0 <= j < r2.len() && paths::components(r2[j]) == paths::components(#[trigger] es[k]);
    assert(exists|k2: int| 0 <= k2 < es.len() && #[trigger] r2[j] == es[k2] && first_of_kind(es, k2)) by {
        reveal(from_firsts);
    }
    let k2 = choose|k2: int| 0 <= k2 < es.len() && #[trigger] r2[j] == es[k2] && first_of_kind(es, k2);
    assert(k == k2) by {
        reveal(first_of_kind);
        if k < k2 {
            assert(paths::components(es[k]) != paths::components(es[k2]));
        } else if k2 < k {
            assert(paths::components(es[k2]) != paths::components(es[k]));
        }
    }
    assert(r2[j] == x);
}

/// Whether a path of the components of `x` is among `r`.
fn find_same_path(r: &Vec<String>, x: &str) -> (found: bool)
    ensures
        found <==> exists|i: int| 0 <= i < r@.len() && paths::components(#[trigger] r@[i]@) == paths::components(x@),
{
    let mut i: usize = 0;
    while i < r.len()
        invariant
            i <= r@.len(),
            forall|j: int| 0 <= j < i ==> paths::components(#[trigger] r@[j]@) != paths::components(x@),
        decreases r.len() - i,
    {
        if paths::path_eq_exec(r[i].as_str(), x) {
            return true;
        }
        i += 1;
    }
    false
}

/// `x` put at `p` in `r`.
pub open spec fn put_at(r: Seq<Seq<char>>, p: int, x: Seq<char>) -> Seq<Seq<char>> {
    r.take(p).push(x) + r.skip(p)
}

proof fn lemma_insert_sorted(rv: Seq<Seq<char>>, x: Seq<char>, p: int)
    requires
        0 <= p <= rv.len(),
        sorted_paths(rv),
        forall|j: int| 0 <= j < rv.len() ==> paths::components(#[trigger] rv[j]) != paths::components(x),
        forall|j: int| 0 <= j < p ==> !paths::path_lt(x, #[trigger] rv[j]),
        p == rv.len() || paths::path_lt(x, rv[p]),
    ensures
        sorted_paths(put_at(rv, p, x)),
{
    reveal(sorted_paths);
    let nv = put_at(rv, p, x);
    assert(nv.len() == rv.len() + 1);
    assert forall|i: int, j: int| 0 <= i < j < nv.len() implies paths::path_lt(#[trigger] nv[i], #[trigger] nv[j]) by {
        if j < p {
            assert(nv[i] == rv[i] && nv[j] == rv[j]);
        } else if j == p {
            assert(nv[i] == rv[i] && nv[j] == x);
            assert(!paths::path_lt(x, rv[i]));
            paths::lemma_path_lt_total(rv[i], x);
        } else if i < p {
            assert(nv[i] == rv[i] && nv[j] == rv[j - 1]);
        } else if i == p {
            assert(nv[i] == x && nv[j] == rv[j - 1]);
            if j - 1 > p {
                assert(paths::path_lt(rv[p], rv[j - 1]));
                paths::lemma_path_lt_trans(x, rv[p], rv[j - 1]);
            }
        } else {
            assert(nv[i] == rv[i - 1] && nv[j] == rv[j - 1]);
        }
    }
}

proof fn lemma_insert_firsts(rv: Seq<Seq<char>>, ev: Seq<Seq<char>>, k: int, p: int)
    requires
        0 <= k < ev.len(),
        0 <= p <= rv.len(),
        from_firsts(rv, ev, k),
        first_of_kind(ev, k),
    ensures
        from_firsts(put_at(rv, p, ev[k]), ev, k + 1),
{
    reveal(from_firsts);
    let nv = put_at(rv, p, ev[k]);
    assert forall|i: int| 0 <= i < nv.len() implies exists|k2: int|
        0 <= k2 < k + 1 && #[trigger] nv[i] == ev[k2] && first_of_kind(ev, k2) by {
        if i < p {
            assert(nv[i] == rv[i]);
        } else if i > p {
            assert(nv[i] == rv[i - 1]);
        } else {
            assert(nv[i] == ev[k]);
        }
    }
}

proof fn lemma_insert_covers(rv: Seq<Seq<char>>, ev: Seq<Seq<char>>, k: int, p: int)
    requires
        0 <= k < ev.len(),
        0 <= p <= rv.len(),
        covers(rv, ev, k),
    ensures
        covers(put_at(rv, p, ev[k]), ev, k + 1),
{
    reveal(covers);
    let nv = put_at(rv, p, ev[k]);
    assert forall|k2: int| 0 <= k2 < k + 1 implies exists|i: int|
        0 <= i < nv.len() && paths::components(nv[i]) == paths::components(#[trigger] ev[k2]) by {
        if k2 == k {
            assert(nv[p] == ev[k2]);
        } else {
            let i1 = choose|i: int| 0 <= i < rv.len() && paths::components(rv[i]) == paths::components(ev[k2]);
            if i1 < p {
                assert(nv[i1] == rv[i1]);
            } else {
                assert(nv[i1 + 1] == rv[i1]);
            }
        }
    }
}

proof fn lemma_skip_keeps(rv: Seq<Seq<char>>, ev: Seq<Seq<char>>, k: int, i0: int)
    requires
        0 <= k < ev.len(),
        0 <= i0 < rv.len(),
        paths::components(rv[i0]) == paths::components(ev[k]),
        from_firsts(rv, ev, k),
        covers(rv, ev, k),
    ensures
        from_firsts(rv, ev, k + 1),
        covers(rv, ev, k + 1),
{
    assert(from_firsts(rv, ev, k + 1)) by {
        reveal(from_firsts);
        assert forall|i: int| 0 <= i < rv.len() implies exists|k2: int|
            0 <= k2 < k + 1 && #[trigger] rv[i] == ev[k2] && first_of_kind(ev, k2) by {
            let w = choose|k2: int| 0 <= k2 < k && #[trigger] rv[i] == ev[k2] && first_of_kind(ev, k2);
        }
    }
    assert(covers(rv, ev, k + 1)) by {
        reveal(covers);
        assert forall|k2: int| 0 <= k2 < k + 1 implies exists|i: int|
            0 <= i < rv.len() && paths::components(rv[i]) == paths::components(#[trigger] ev[k2]) by {
            if k2 == k {
                assert(paths::components(rv[i0]) == paths::components(ev[k2]));
            }
        }
    }
}

proof fn lemma_new_is_first(rv: Seq<Seq<char>>, ev: Seq<Seq<char>>, k: int)
    requires
        0 <= k < ev.len(),
        covers(rv, ev, k),
        forall|j: int| 0 <= j < rv.len() ==> paths::components(#[trigger] rv[j]) != paths::components(ev[k]),
    ensures
        first_of_kind(ev, k),
{
    reveal(covers);
    reveal(first_of_kind);
    assert forall|j: int| 0 <= j < k implies paths::components(#[trigger] ev[j]) != paths::components(ev[k]) by {
        let i1 = choose|i: int| 0 <= i < rv.len() && paths::components(rv[i]) == paths::components(ev[j]);
    }
}

/// Adds entry `k` to the sorted, cut first `k` entries.
fn add_entry_path(r: &mut Vec<String>, x: &str, Ghost(ev): Ghost<Seq<Seq<char>>>, Ghost(k): Ghost<int>)
    requires
        0 <= k < ev.len(),
        ev[k] == x@,
        sorted_paths(text::views(old(r)@)),
        from_firsts(text::views(old(r)@), ev, k),
        covers(text::views(old(r)@), ev, k),
    ensures
        sorted_paths(text::views(final(r)@)),
        from_firsts(text::views(final(r)@), ev, k + 1),
        covers(text::views(final(r)@), ev, k + 1),
{
    let ghost rv = text::views(r@);
    if find_same_path(r, x) {
        proof {
            let i0 = choose|i: int| 0 <= i < r@.len() && paths::components(#[trigger] r@[i]@) == paths::components(x@);
            assert(rv[i0] == r@[i0]@);
            lemma_skip_keeps(rv, ev, k, i0);
        }
    } else {
        proof {
            assert forall|j: int| 0 <= j < rv.len() implies paths::components(#[trigger] rv[j]) != paths::components(x@) by {
                assert(rv[j] == r@[j]@);
            }
            lemma_new_is_first(rv, ev, k);
        }
        let mut p: usize = 0;
        while p < r.len() && !paths::path_lt_exec(x, r[p].as_str())
            invariant
                p <= r@.len(),
                rv == text::views(r@),
                forall|j: int| 0 <= j < p ==> !paths::path_lt(x@, #[trigger] rv[j]),
            decreases r.len() - p,
        {
            p += 1;
        }
        proof {
            lemma_insert_sorted(rv, x@, p as int);
            lemma_insert_firsts(rv, ev, k, p as int);
            lemma_insert_covers(rv, ev, k, p as int);
        }
        r.insert(p, String::from_str(x));
        proof {
            assert(text::views(r@) =~= put_at(rv, p as int, x@));
        }
    }
}

/// The entries sorted as paths, and each run of equal ones cut to its first.
fn sort_dedup_paths(es: &Vec<String>) -> (r: Vec<String>)
    ensures
        sorted_dedup_of(text::views(r@), text::views(es@)),
{
    let ghost ev = text::views(es@);
    let mut r: Vec<String> = Vec::new();
    let mut k: usize = 0;
    proof {
        assert(text::views(r@) =~= Seq::<Seq<char>>::empty());
        reveal(sorted_paths);
        reveal(from_firsts);
        reveal(covers);
    }
    while k < es.len()
        invariant
            k <= es@.len(),
            ev == text::views(es@),
            sorted_paths(text::views(r@)),
            from_firsts(text::views(r@), ev, k as int),
            covers(text::views(r@), ev, k as int),
        decreases es.len() - k,
    {
        proof {
            assert(ev[k as int] == es@[k as int]@);
        }
        add_entry_path(&mut r, es[k].as_str(), Ghost(ev), Ghost(k as int));
        k += 1;
    }
    r
}

/// The path of an optional entry, as a list of none or one.
pub open spec fn opt_entry(o: Option<&str>) -> Seq<Seq<char>> {
    match o {
        Some(s) => seq![s@],
        None => Seq::empty(),
    }
}

/// The entries of the routes: each page, then its layout chain.
pub open spec fn route_entries(routes: Seq<AppRoute>) -> Seq<Seq<char>>
    decreases routes.len(),
{
    if routes.len() == 0 {
        Seq::empty()
    } else {
        route_entries(routes.drop_last()) + seq![routes.last().page_path@] + text::views(routes.last().layout_chain@)
    }
}

/// The entry points as collected: the root layout, each route's page and
/// layout chain, then the MDX components module.
pub open spec fn entry_list(root_layout: Option<&str>, routes: Seq<AppRoute>, mdx: Option<&str>) -> Seq<Seq<char>> {
    opt_entry(root_layout) + route_entries(routes) + opt_entry(mdx)
}

fn push_opt_entry(es: &mut Vec<String>, o: Option<&str>)
    ensures
        text::views(final(es)@) == text::views(old(es)@) + opt_entry(o),
{
    let ghost before = text::views(es@);
    if let Some(s) = o {
        es.push(String::from_str(s));
    }
    proof {
        assert(text::views(es@) =~= before + opt_entry(o));
    }
}

/// The entry points of the RSC build, sorted as paths with duplicates
/// dropped: the root layout (if any), every route's page and layout chain,
/// and the MDX components module (if any).
pub fn rsc_entry_paths(root_layout: Option<&str>, routes: &[AppRoute], mdx: Option<&str>) -> (r: Vec<String>)
    ensures
        sorted_dedup_of(text::views(r@), entry_list(root_layout, routes@, mdx)),
{
    let mut es: Vec<String> = Vec::new();
    proof {
        assert(text::views(es@) =~= Seq::<Seq<char>>::empty());
    }
    push_opt_entry(&mut es, root_layout);
    let ghost head = text::views(es@);
    let mut i: usize = 0;
    proof {
        assert(routes@.take(0) =~= Seq::<AppRoute>::empty());
        assert(head + route_entries(routes@.take(0)) =~= head);
    }
    while i < routes.len()
        invariant
            i <= routes@.len(),
            text::views(es@) == head + route_entries(routes@.take(i as int)),
        decreases routes.len() - i,
    {
        proof {
            assert(routes@.take(i + 1).drop_last() =~= routes@.take(i as int));
            assert(routes@.take(i + 1).last() == routes@[i as int]);
        }
        let ghost before = text::views(es@);
        es.push(routes[i].page_path.clone());
        let mut j: usize = 0;
        let ghost mid = text::views(es@);
        proof {
            assert(mid =~= before + seq![routes@[i as int].page_path@]);
            assert(text::views(routes@[i as int].layout_chain@).take(0) =~= Seq::<Seq<char>>::empty());
            assert(mid + text::views(routes@[i as int].layout_chain@).take(0) =~= mid);
        }
        while j < routes[i].layout_chain.len()
            invariant
                i < routes@.len(),
                j <= routes@[i as int].layout_chain@.len(),
                text::views(es@) == mid + text::views(routes@[i as int].layout_chain@).take(j as int),
            decreases routes@[i as int].layout_chain@.len() - j,
        {
            let ghost b2 = text::views(es@);
            es.push(routes[i].layout_chain[j].clone());
            proof {
                let lv = text::views(routes@[i as int].layout_chain@);
                assert(text::views(es@) =~= b2.push(lv[j as int]));
                assert(lv.take(j + 1) =~= lv.take(j as int).push(lv[j as int]));
            }
            j += 1;
        }
        proof {
            let lv = text::views(routes@[i as int].layout_chain@);
            assert(lv.take(j as int) =~= lv);
            assert(text::views(es@) =~= head + route_entries(routes@.take(i + 1)));
        }
        i += 1;
    }
    proof {
        assert(routes@.take(i as int) =~= routes@);
    }
    push_opt_entry(&mut es, mdx);
    proof {
        assert(text::views(es@) =~= entry_list(root_layout, routes@, mdx));
    }
    sort_dedup_paths(&es)
}

/// Where the framework's own modules lie in a project.
pub open spec fn rex_src_dir(root: Seq<char>) -> Seq<char> {
    paths::join_spec(root, "node_modules/@limlabs/rex/src"@)
}

/// The files that may hold a framework client module, in the order tried:
/// `.tsx`, `.ts`, `.jsx`, `.js`.
pub open spec fn rex_module_files(src: Seq<char>, name: Seq<char>) -> Seq<Seq<char>> {
    seq![
        paths::join_spec(src, name + ".tsx"@),
        paths::join_spec(src, name + ".ts"@),
        paths::join_spec(src, name + ".jsx"@),
        paths::join_spec(src, name + ".js"@),
    ]
}

/// The specifier `rex/<name>` of a framework client module with its files.
pub open spec fn rex_candidate(src: Seq<char>, name: Seq<char>) -> (Seq<char>, Seq<Seq<char>>) {
    ("rex/"@ + name, rex_module_files(src, name))
}

/// The framework client modules that are aliased onto their stubs: `link`,
/// `head`, `router` and `image`.
pub open spec fn rex_candidates(root: Seq<char>) -> Seq<(Seq<char>, Seq<Seq<char>>)> {
    let src = rex_src_dir(root);
    seq![
        rex_candidate(src, "link"@),
        rex_candidate(src, "head"@),
        rex_candidate(src, "router"@),
        rex_candidate(src, "image"@),
    ]
}

fn with_suffix(name: &str, ext: &str) -> (r: String)
    ensures
        r@ == name@ + ext@,
{
    let mut r = String::from_str(name);
    r.append(ext);
    r
}

fn rex_candidate_exec(src: &str, name: &str) -> (r: (String, Vec<String>))
    ensures
        (r.0@, text::views(r.1@)) == rex_candidate(src@, name@),
{
    let spec_name = with_suffix("rex/", name);
    let mut files: Vec<String> = Vec::new();
    files.push(paths::join(src, with_suffix(name, ".tsx").as_str()));
    files.push(paths::join(src, with_suffix(name, ".ts").as_str()));
    files.push(paths::join(src, with_suffix(name, ".jsx").as_str()));
    files.push(paths::join(src, with_suffix(name, ".js").as_str()));
    proof {
        assert(text::views(files@) =~= rex_module_files(src@, name@));
    }
    (spec_name, files)
}

/// For each framework client module, its specifier and the files that may
/// hold it, in the order to try them; the build aliases the specifier onto
/// the stub of the first that exists, if that file is a client boundary.
pub fn rex_client_candidates(project_root: &str) -> (r: Vec<(String, Vec<String>)>)
    ensures
        r@.map_values(|c: (String, Vec<String>)| (c.0@, text::views(c.1@))) == rex_candidates(project_root@),
{
    let src = paths::join(project_root, "node_modules/@limlabs/rex/src");
    let mut r: Vec<(String, Vec<String>)> = Vec::new();
    r.push(rex_candidate_exec(src.as_str(), "link"));
    r.push(rex_candidate_exec(src.as_str(), "head"));
    r.push(rex_candidate_exec(src.as_str(), "router"));
    r.push(rex_candidate_exec(src.as_str(), "image"));
    proof {
        assert(r@.map_values(|c: (String, Vec<String>)| (c.0@, text::views(c.1@))) =~= rex_candidates(project_root@));
    }
    r
}

/// The stub of the first alias whose path is `p` (compared as paths).
pub open spec fn find_alias(s: Seq<(Seq<char>, Seq<char>)>, p: Seq<char>) -> Option<Seq<char>>
    decreases s.len(),
{
    if s.len() == 0 {
        None
    } else if paths::components(s[0].0) == paths::components(p) {
        Some(s[0].1)
    } else {
        find_alias(s.drop_first(), p)
    }
}

/// The aliases after adding, for each resolved framework module
/// `(specifier, file)` in turn, the specifier onto the stub of that file,
/// where the file has one.
pub open spec fn rex_aliases(s: Seq<(Seq<char>, Seq<char>)>, resolved: Seq<(Seq<char>, Seq<char>)>) -> Seq<(Seq<char>, Seq<char>)>
    decreases resolved.len(),
{
    if resolved.len() == 0 {
        s
    } else {
        let s2 = rex_aliases(s, resolved.drop_last());
        match find_alias(s2, resolved.last().1) {
            Some(stub) => s2.push((resolved.last().0, stub)),
            None => s2,
        }
    }
}

fn find_alias_exec(s: &Vec<(String, String)>, p: &str) -> (r: Option<String>)
    ensures
        match r {
            Some(x) => find_alias(pair_views(s@), p@) == Some(x@),
            None => find_alias(pair_views(s@), p@) is None,
        },
{
    let ghost sv = pair_views(s@);
    let mut i: usize = 0;
    proof {
        assert(sv.skip(0) =~= sv);
    }
    while i < s.len()
        invariant
            i <= s@.len(),
            sv == pair_views(s@),
            find_alias(sv, p@) == find_alias(sv.skip(i as int), p@),
        decreases s.len() - i,
    {
        proof {
            assert(sv.skip(i as int)[0] == sv[i as int]);
            assert(sv.skip(i as int).drop_first() =~= sv.skip(i + 1));
        }
        if paths::path_eq_exec(s[i].0.as_str(), p) {
            return Some(s[i].1.clone());
        }
        i += 1;
    }
    None
}

/// Adds the alias of each resolved framework client module (`resolved`:
/// its specifier and the canonical path of the file found for it) onto the
/// stub of that file, where one of the aliases so far maps that file.
pub fn add_rex_stub_aliases(stubs: &mut Vec<(String, String)>, resolved: &[(String, String)])
    ensures
        pair_views(final(stubs)@) == rex_aliases(pair_views(old(stubs)@), pair_views(resolved@)),
{
    let ghost s0 = pair_views(stubs@);
    let ghost rv = pair_views(resolved@);
    let mut i: usize = 0;
    proof {
        assert(rv.take(0) =~= Seq::<(Seq<char>, Seq<char>)>::empty());
    }
    while i < resolved.len()
        invariant
            i <= resolved@.len(),
            rv == pair_views(resolved@),
            pair_views(stubs@) == rex_aliases(s0, rv.take(i as int)),
        decreases resolved.len() - i,
    {
        proof {
            assert(rv.take(i + 1).drop_last() =~= rv.take(i as int));
            assert(rv.take(i + 1).last() == rv[i as int]);
        }
        let found = find_alias_exec(stubs, resolved[i].1.as_str());
        match found {
            Some(stub) => {
                let ghost b = pair_views(stubs@);
                stubs.push((resolved[i].0.clone(), stub));
                proof {
                    assert(pair_views(stubs@) =~= b.push((rv[i as int].0, stub@)));
                }
            },
            None => {},
        }
        i += 1;
    }
    proof {
        assert(rv.take(i as int) =~= rv);
    }
}

} // verus!
