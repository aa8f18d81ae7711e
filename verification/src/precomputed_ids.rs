//! Reference ids computed once by the ESM module graph walk and reused by
//! the bundle builds, so both agree on every id.
use vstd::prelude::*;
use crate::text;
use crate::ids;
use crate::esm_transform::{ClientBoundary, CollectedModules, ExtractedServerAction, ServerActionModule};

verus! {

/// A client boundary as values: path, exports, reference ids.
pub type BoundaryView = (Seq<char>, Seq<Seq<char>>, Seq<Seq<char>>);

/// A precomputed server action id as values: path, export, id.
pub type ActionView = (Seq<char>, Seq<char>, Seq<char>);

pub open spec fn boundary_view(b: ClientBoundary) -> BoundaryView {
    (b.rel_path@, text::views(b.exports@), text::views(b.ref_ids@))
}

pub open spec fn action_view(a: ExtractedServerAction) -> ActionView {
    (a.rel_path@, a.action_name@, a.action_id@)
}

/// The views of a list of boundaries.
pub open spec fn boundary_views(s: Seq<ClientBoundary>) -> Seq<BoundaryView> {
    s.map_values(|b: ClientBoundary| boundary_view(b))
}

/// The views of a list of recorded actions.
pub open spec fn action_views(s: Seq<ExtractedServerAction>) -> Seq<ActionView> {
    s.map_values(|a: ExtractedServerAction| action_view(a))
}

proof fn lemma_boundary_views_push(s: Seq<ClientBoundary>, x: ClientBoundary)
    ensures
        boundary_views(s.push(x)) == boundary_views(s).push(boundary_view(x)),
{
    assert(boundary_views(s.push(x)) =~= boundary_views(s).push(boundary_view(x)));
}

proof fn lemma_action_views_push(s: Seq<ExtractedServerAction>, x: ExtractedServerAction)
    ensures
        action_views(s.push(x)) == action_views(s).push(action_view(x)),
{
    assert(action_views(s.push(x)) =~= action_views(s).push(action_view(x)));
}

/// The id paired with the last of the first `n` exports named `e`.
pub open spec fn pair_lookup(exports: Seq<Seq<char>>, ref_ids: Seq<Seq<char>>, e: Seq<char>, n: int) -> Option<Seq<char>>
    decreases n,
{
    if n <= 0 {
        None
    } else if exports[n - 1] == e {
        Some(ref_ids[n - 1])
    } else {
        pair_lookup(exports, ref_ids, e, n - 1)
    }
}

/// The reference id of export `e` in a boundary: exports and ids are
/// paired in order, the shorter list deciding how many pairs there are.
pub open spec fn boundary_lookup(b: BoundaryView, e: Seq<char>) -> Option<Seq<char>> {
    let n = if b.1.len() <= b.2.len() { b.1.len() } else { b.2.len() };
    pair_lookup(b.1, b.2, e, n as int)
}

/// The precomputed client reference id of export `e` of module `p`: the
/// last boundary recorded for `p` decides.
pub open spec fn client_lookup(bs: Seq<BoundaryView>, p: Seq<char>, e: Seq<char>) -> Option<Seq<char>>
    decreases bs.len(),
{
    if bs.len() == 0 {
        None
    } else if bs.last().0 == p {
        boundary_lookup(bs.last(), e)
    } else {
        client_lookup(bs.drop_last(), p, e)
    }
}

/// The precomputed server action id of export `e` of module `p`: the last
/// entry recorded for the pair.
pub open spec fn action_lookup(es: Seq<ActionView>, p: Seq<char>, e: Seq<char>) -> Option<Seq<char>>
    decreases es.len(),
{
    if es.len() == 0 {
        None
    } else if es.last().0 == p && es.last().1 == e {
        Some(es.last().2)
    } else {
        action_lookup(es.drop_last(), p, e)
    }
}

/// The entries computed for the exports of one `"use server"` module.
pub open spec fn export_entries(p: Seq<char>, exports: Seq<Seq<char>>, build_id: Seq<char>) -> Seq<ActionView>
    decreases exports.len(),
{
    if exports.len() == 0 {
        Seq::empty()
    } else {
        export_entries(p, exports.drop_last(), build_id).push(
            (p, exports.last(), ids::server_action_id_spec(p, exports.last(), build_id)),
        )
    }
}

/// The entries computed for all `"use server"` modules, in order.
pub open spec fn module_entries(ms: Seq<ServerActionModule>, build_id: Seq<char>) -> Seq<ActionView>
    decreases ms.len(),
{
    if ms.len() == 0 {
        Seq::empty()
    } else {
        module_entries(ms.drop_last(), build_id) + export_entries(ms.last().rel_path@, text::views(ms.last().exports@), build_id)
    }
}

/// Reference ids precomputed by the ESM walk; lookups that miss fall back
/// to computing the id directly.
pub struct PrecomputedIds {
    client_ref_ids: Vec<ClientBoundary>,
    server_action_ids: Vec<ExtractedServerAction>,
}

impl PrecomputedIds {
    /// The recorded client boundaries, in order.
    pub closed spec fn boundaries(&self) -> Seq<BoundaryView> {
        boundary_views(self.client_ref_ids@)
    }

    /// The recorded server action ids, in order.
    pub closed spec fn actions(&self) -> Seq<ActionView> {
        action_views(self.server_action_ids@)
    }

    /// No id precomputed: every lookup falls back.
    pub fn new() -> (r: PrecomputedIds)
        ensures
            r.boundaries() == Seq::<BoundaryView>::empty(),
            r.actions() == Seq::<ActionView>::empty(),
    {
        let r = PrecomputedIds { client_ref_ids: Vec::new(), server_action_ids: Vec::new() };
        proof {
            assert(r.boundaries() =~= Seq::<BoundaryView>::empty());
            assert(r.actions() =~= Seq::<ActionView>::empty());
        }
        r
    }

    /// Builds the ids from what the ESM walk collected: the client
    /// boundaries with their ids, the inline actions with their ids, then
    /// an id computed for every export of every `"use server"` module.
    pub fn from_collected(collected: &CollectedModules, build_id: &str) -> (r: PrecomputedIds)
        ensures
            r.boundaries() == boundary_views(collected.client_boundaries@),
            r.actions() == action_views(collected.extracted_actions@)
                + module_entries(collected.server_action_modules@, build_id@),
    {
        let mut client: Vec<ClientBoundary> = Vec::new();
        let mut i: usize = 0;
        while i < collected.client_boundaries.len()
            invariant
                i <= collected.client_boundaries@.len(),
                boundary_views(client@) == boundary_views(collected.client_boundaries@.take(
                    i as int,
                )),
            decreases collected.client_boundaries.len() - i,
        {
            let b = &collected.client_boundaries[i];
            let c = ClientBoundary {
                rel_path: String::from_str(b.rel_path.as_str()),
                exports: text::copy_strings(&b.exports),
                ref_ids: text::copy_strings(&b.ref_ids),
            };
            let ghost before = client@;
            client.push(c);
            i += 1;
            proof {
                assert(boundary_views(client@) =~= boundary_views(collected.client_boundaries@.take(
                    i as int,
                ))) by {
                    assert(collected.client_boundaries@.take(i as int) =~= collected.client_boundaries@.take(i - 1).push(
                        collected.client_boundaries@[i - 1],
                    ));
                    assert(client@ =~= before.push(c));
                    assert(boundary_view(c) == boundary_view(collected.client_boundaries@[i - 1]));
                    lemma_boundary_views_push(before, c);
                    lemma_boundary_views_push(collected.client_boundaries@.take(i - 1), collected.client_boundaries@[i - 1]);
                }
            }
        }
        let mut actions: Vec<ExtractedServerAction> = Vec::new();
        let mut j: usize = 0;
        while j < collected.extracted_actions.len()
            invariant
                j <= collected.extracted_actions@.len(),
                action_views(actions@) == action_views(collected.extracted_actions@.take(
                    j as int,
                )),
            decreases collected.extracted_actions.len() - j,
        {
            let a = &collected.extracted_actions[j];
            let c = ExtractedServerAction {
                rel_path: String::from_str(a.rel_path.as_str()),
                action_name: String::from_str(a.action_name.as_str()),
                action_id: String::from_str(a.action_id.as_str()),
            };
            let ghost before = actions@;
            actions.push(c);
            j += 1;
            proof {
                assert(collected.extracted_actions@.take(j as int) =~= collected.extracted_actions@.take(j - 1).push(
                    collected.extracted_actions@[j - 1],
                ));
                assert(actions@ =~= before.push(c));
                assert(action_view(c) == action_view(collected.extracted_actions@[j - 1]));
                lemma_action_views_push(before, c);
                lemma_action_views_push(collected.extracted_actions@.take(j - 1), collected.extracted_actions@[j - 1]);
                assert(action_views(actions@) =~= action_views(collected.extracted_actions@.take(
                    j as int,
                )));
            }
        }
        let ghost ext = action_views(actions@);
        let ghost ms = collected.server_action_modules@;
        let mut m: usize = 0;
        proof {
            assert(ms.take(0) =~= Seq::<ServerActionModule>::empty());
            assert(ext + module_entries(ms.take(0), build_id@) =~= ext);
        }
        while m < collected.server_action_modules.len()
            invariant
                m <= ms.len(),
                ms == collected.server_action_modules@,
                action_views(actions@) == ext + module_entries(
                    ms.take(m as int),
                    build_id@,
                ),
            decreases collected.server_action_modules.len() - m,
        {
            let module = &collected.server_action_modules[m];
            let ghost es = text::views(module.exports@);
            let ghost base = action_views(actions@);
            let mut k: usize = 0;
            proof {
                assert(base + export_entries(module.rel_path@, es.take(0), build_id@) =~= base);
            }
            while k < module.exports.len()
                invariant
                    k <= module.exports@.len(),
                    es == text::views(module.exports@),
                    action_views(actions@) == base + export_entries(
                        module.rel_path@,
                        es.take(k as int),
                        build_id@,
                    ),
                decreases module.exports.len() - k,
            {
                let e = module.exports[k].as_str();
                let id = ids::server_action_id(module.rel_path.as_str(), e, build_id);
                let c = ExtractedServerAction {
                    rel_path: String::from_str(module.rel_path.as_str()),
                    action_name: String::from_str(e),
                    action_id: id,
                };
                let ghost before = actions@;
                actions.push(c);
                k += 1;
                proof {
                    assert(es.take(k as int).drop_last() =~= es.take(k - 1));
                    assert(es.take(k as int).last() == module.exports@[k - 1]@);
                    assert(actions@ =~= before.push(c));
                    assert(action_view(c) == (module.rel_path@, es[k - 1], ids::server_action_id_spec(module.rel_path@, es[k - 1], build_id@)));
                    lemma_action_views_push(before, c);
                    assert(action_views(actions@) =~= base + export_entries(
                        module.rel_path@,
                        es.take(k as int),
                        build_id@,
                    ));
                }
            }
            m += 1;
            proof {
                assert(es.take(k as int) =~= es);
                assert(ms.take(m as int).drop_last() =~= ms.take(m - 1));
                assert(ms.take(m as int).last() == ms[m - 1]);
                assert(ext + module_entries(ms.take(m as int), build_id@) =~= ext + module_entries(ms.take(m - 1), build_id@)
                    + export_entries(ms[m - 1].rel_path@, text::views(ms[m - 1].exports@), build_id@));
            }
        }
        proof {
            assert(ms.take(m as int) =~= ms);
            assert(collected.client_boundaries@.take(i as int) =~= collected.client_boundaries@);
            assert(collected.extracted_actions@.take(j as int) =~= collected.extracted_actions@);
        }
        PrecomputedIds { client_ref_ids: client, server_action_ids: actions }
    }

    /// The client reference id of an export: the precomputed one, or the
    /// one computed directly when none was precomputed.
    pub fn client_ref_id(&self, rel_path: &str, export: &str, build_id: &str) -> (r: String)
        ensures
            r@ == match client_lookup(self.boundaries(), rel_path@, export@) {
                Some(id) => id,
                None => ids::client_reference_id_spec(rel_path@, export@, build_id@),
            },
    {
        let ghost bs = self.boundaries();
        let mut i: usize = self.client_ref_ids.len();
        proof {
            assert(bs.take(i as int) =~= bs);
        }
        while i > 0
            invariant
                i <= self.client_ref_ids@.len(),
                bs == self.boundaries(),
                client_lookup(bs, rel_path@, export@) == client_lookup(bs.take(i as int), rel_path@, export@),
            decreases i,
        {
            proof {
                assert(bs.take(i as int).drop_last() =~= bs.take(i - 1));
                assert(bs.take(i as int).last() == boundary_view(self.client_ref_ids@[i - 1]));
            }
            let b = &self.client_ref_ids[i - 1];
            if text::str_eq(b.rel_path.as_str(), rel_path) {
                let n = if b.exports.len() <= b.ref_ids.len() { b.exports.len() } else { b.ref_ids.len() };
                let ghost bv = boundary_view(*b);
                let mut k: usize = n;
                proof {
                    assert(bv.1.len() == b.exports@.len());
                    assert(bv.2.len() == b.ref_ids@.len());
                    assert(bs.take(i as int).last() == bv);
                }
                while k > 0
                    invariant
                        k <= n,
                        n <= b.exports@.len(),
                        n <= b.ref_ids@.len(),
                        bv == boundary_view(*b),
                        boundary_lookup(bv, export@) == pair_lookup(bv.1, bv.2, export@, k as int),
                        client_lookup(bs, rel_path@, export@) == boundary_lookup(bv, export@),
                        bs == self.boundaries(),
                    decreases k,
                {
                    proof {
                        assert(bv.1[k - 1] == b.exports@[k - 1]@);
                        assert(bv.2[k - 1] == b.ref_ids@[k - 1]@);
                    }
                    if text::str_eq(b.exports[k - 1].as_str(), export) {
                        return String::from_str(b.ref_ids[k - 1].as_str());
                    }
                    k -= 1;
                }
                return ids::client_reference_id(rel_path, export, build_id);
            }
            i -= 1;
        }
        ids::client_reference_id(rel_path, export, build_id)
    }

    /// The server action id of an export: the precomputed one, or the one
    /// computed directly when none was precomputed.
    pub fn server_action_id(&self, rel_path: &str, export: &str, build_id: &str) -> (r: String)
        ensures
            r@ == match action_lookup(self.actions(), rel_path@, export@) {
                Some(id) => id,
                None => ids::server_action_id_spec(rel_path@, export@, build_id@),
            },
    {
        let ghost es = self.actions();
        let mut i: usize = self.server_action_ids.len();
        proof {
            assert(es.take(i as int) =~= es);
        }
        while i > 0
            invariant
                i <= self.server_action_ids@.len(),
                es == self.actions(),
                action_lookup(es, rel_path@, export@) == action_lookup(es.take(i as int), rel_path@, export@),
            decreases i,
        {
            proof {
                assert(es.take(i as int).drop_last() =~= es.take(i - 1));
                assert(es.take(i as int).last() == action_view(self.server_action_ids@[i - 1]));
            }
            let a = &self.server_action_ids[i - 1];
            if text::str_eq(a.rel_path.as_str(), rel_path) && text::str_eq(a.action_name.as_str(), export) {
                return String::from_str(a.action_id.as_str());
            }
            i -= 1;
        }
        ids::server_action_id(rel_path, export, build_id)
    }
}



proof fn lemma_lookup_uniform(s: Seq<ActionView>, p: Seq<char>, e: Seq<char>, id: Seq<char>)
    requires
        exists|k: int| 0 <= k < s.len() && s[k].0 == p && s[k].1 == e,
        forall|k: int| 0 <= k < s.len() && s[k].0 == p && s[k].1 == e ==> s[k].2 == id,
    ensures
        action_lookup(s, p, e) == Some(id),
    decreases s.len(),
{
    if !(s.last().0 == p && s.last().1 == e) {
        let k = choose|k: int| 0 <= k < s.len() && s[k].0 == p && s[k].1 == e;
        assert(s.drop_last()[k] == s[k]);
        lemma_lookup_uniform(s.drop_last(), p, e, id);
    }
}

proof fn lemma_lookup_append(a: Seq<ActionView>, b: Seq<ActionView>, p: Seq<char>, e: Seq<char>)
    requires
        exists|k: int| 0 <= k < b.len() && b[k].0 == p && b[k].1 == e,
    ensures
        action_lookup(a + b, p, e) == action_lookup(b, p, e),
    decreases b.len(),
{
    assert((a + b).last() == b.last());
    if !(b.last().0 == p && b.last().1 == e) {
        let k = choose|k: int| 0 <= k < b.len() && b[k].0 == p && b[k].1 == e;
        assert(b.drop_last()[k] == b[k]);
        assert((a + b).drop_last() =~= a + b.drop_last());
        lemma_lookup_append(a, b.drop_last(), p, e);
    }
}

proof fn lemma_export_entries(p: Seq<char>, exports: Seq<Seq<char>>, build_id: Seq<char>)
    ensures
        export_entries(p, exports, build_id).len() == exports.len(),
        forall|k: int| 0 <= k < exports.len() ==> #[trigger] export_entries(p, exports, build_id)[k] == (
            p,
            exports[k],
            ids::server_action_id_spec(p, exports[k], build_id),
        ),
    decreases exports.len(),
{
    if exports.len() > 0 {
        lemma_export_entries(p, exports.drop_last(), build_id);
    }
}

proof fn lemma_module_entries(ms: Seq<ServerActionModule>, build_id: Seq<char>)
    ensures
        forall|k: int| 0 <= k < module_entries(ms, build_id).len() ==> {
            let x = #[trigger] module_entries(ms, build_id)[k];
            x.2 == ids::server_action_id_spec(x.0, x.1, build_id)
        },
    decreases ms.len(),
{
    if ms.len() > 0 {
        let init = ms.drop_last();
        lemma_module_entries(init, build_id);
        let last = ms.last();
        let es = text::views(last.exports@);
        lemma_export_entries(last.rel_path@, es, build_id);
        let a = module_entries(init, build_id);
        let b = export_entries(last.rel_path@, es, build_id);
        assert(module_entries(ms, build_id) == a + b);
        assert forall|k: int| 0 <= k < (a + b).len() implies {
            let x = #[trigger] (a + b)[k];
            x.2 == ids::server_action_id_spec(x.0, x.1, build_id)
        } by {
            if k >= a.len() {
                assert(b[k - a.len()] == (a + b)[k]);
            } else {
                assert(a[k] == (a + b)[k]);
            }
        }
    }
}

proof fn lemma_module_entry_index(ms: Seq<ServerActionModule>, build_id: Seq<char>, mi: int, ei: int) -> (k: int)
    requires
        0 <= mi < ms.len(),
        0 <= ei < ms[mi].exports@.len(),
    ensures
        0 <= k < module_entries(ms, build_id).len(),
        module_entries(ms, build_id)[k].0 == ms[mi].rel_path@,
        module_entries(ms, build_id)[k].1 == ms[mi].exports@[ei]@,
    decreases ms.len(),
{
    let init = ms.drop_last();
    let last = ms.last();
    let es = text::views(last.exports@);
    lemma_export_entries(last.rel_path@, es, build_id);
    let a = module_entries(init, build_id);
    let b = export_entries(last.rel_path@, es, build_id);
    assert(module_entries(ms, build_id) == a + b);
    if mi < ms.len() - 1 {
        assert(init[mi] == ms[mi]);
        let k = lemma_module_entry_index(init, build_id, mi, ei);
        assert((a + b)[k] == a[k]);
        k
    } else {
        assert(es[ei] == last.exports@[ei]@);
        assert((a + b)[a.len() + ei] == b[ei]);
        a.len() + ei
    }
}

/// With nothing precomputed, every lookup misses, so the ids are those
/// computed directly.
pub proof fn lemma_empty_ids_fall_back(p: Seq<char>, e: Seq<char>)
    ensures
        client_lookup(Seq::empty(), p, e) is None,
        action_lookup(Seq::empty(), p, e) is None,
{
}

/// After `from_collected`, the id looked up for an export of a
/// `"use server"` module is the id computed directly for it, whatever
/// the inline actions recorded before.
pub proof fn lemma_module_ids_match_direct(
    extracted: Seq<ActionView>,
    ms: Seq<ServerActionModule>,
    build_id: Seq<char>,
    mi: int,
    ei: int,
)
    requires
        0 <= mi < ms.len(),
        0 <= ei < ms[mi].exports@.len(),
    ensures
        action_lookup(extracted + module_entries(ms, build_id), ms[mi].rel_path@, ms[mi].exports@[ei]@) == Some(
            ids::server_action_id_spec(ms[mi].rel_path@, ms[mi].exports@[ei]@, build_id),
        ),
{
    let p = ms[mi].rel_path@;
    let e = ms[mi].exports@[ei]@;
    let b = module_entries(ms, build_id);
    lemma_module_entries(ms, build_id);
    let k = lemma_module_entry_index(ms, build_id, mi, ei);
    assert(b[k].0 == p && b[k].1 == e);
    lemma_lookup_append(extracted, b, p, e);
    assert forall|k: int| 0 <= k < b.len() && b[k].0 == p && b[k].1 == e implies b[k].2 == ids::server_action_id_spec(p, e, build_id) by {
        let x = b[k];
    }
    lemma_lookup_uniform(b, p, e, ids::server_action_id_spec(p, e, build_id));
}

proof fn lemma_pair_lookup_distinct(exports: Seq<Seq<char>>, ref_ids: Seq<Seq<char>>, ei: int, n: int)
    requires
        0 <= ei < n <= exports.len(),
        forall|i: int, j: int| 0 <= i < j < exports.len() ==> exports[i] != exports[j],
    ensures
        pair_lookup(exports, ref_ids, exports[ei], n) == Some(ref_ids[ei]),
    decreases n,
{
    if n - 1 != ei {
        lemma_pair_lookup_distinct(exports, ref_ids, ei, n - 1);
    }
}

/// A recorded client boundary decides the reference ids of its exports:
/// where no two boundaries share a path and no export of the boundary is
/// listed twice, the id looked up for its `ei`-th export is its `ei`-th
/// reference id (whatever build id is passed at lookup).
pub proof fn lemma_recorded_client_ids(bs: Seq<BoundaryView>, bi: int, ei: int)
    requires
        0 <= bi < bs.len(),
        forall|i: int, j: int| 0 <= i < j < bs.len() ==> bs[i].0 != bs[j].0,
        forall|i: int, j: int| 0 <= i < j < bs[bi].1.len() ==> bs[bi].1[i] != bs[bi].1[j],
        0 <= ei < bs[bi].1.len(),
        ei < bs[bi].2.len(),
    ensures
        client_lookup(bs, bs[bi].0, bs[bi].1[ei]) == Some(bs[bi].2[ei]),
    decreases bs.len(),
{
    let b = bs[bi];
    if bi == bs.len() - 1 {
        let n = if b.1.len() <= b.2.len() { b.1.len() } else { b.2.len() };
        lemma_pair_lookup_distinct(b.1, b.2, ei, n as int);
    } else {
        assert(bs.last().0 != b.0);
        let init = bs.drop_last();
        assert(init[bi] == b);
        lemma_recorded_client_ids(init, bi, ei);
    }
}

proof fn lemma_lookup_skip(a: Seq<ActionView>, b: Seq<ActionView>, p: Seq<char>, e: Seq<char>)
    requires
        forall|k: int| 0 <= k < b.len() ==> !((#[trigger] b[k]).0 == p && b[k].1 == e),
    ensures
        action_lookup(a + b, p, e) == action_lookup(a, p, e),
    decreases b.len(),
{
    if b.len() == 0 {
        assert(a + b =~= a);
    } else {
        assert((a + b).last() == b.last());
        assert(b[b.len() - 1] == b.last());
        assert((a + b).drop_last() =~= a + b.drop_last());
        assert forall|k: int| 0 <= k < b.drop_last().len() implies !((#[trigger] b.drop_last()[k]).0 == p
            && b.drop_last()[k].1 == e) by {
            assert(b.drop_last()[k] == b[k]);
        }
        lemma_lookup_skip(a, b.drop_last(), p, e);
    }
}

proof fn lemma_no_module_entry(ms: Seq<ServerActionModule>, build_id: Seq<char>, p: Seq<char>, e: Seq<char>)
    requires
        forall|i: int, j: int|
            #![trigger ms[i].exports@[j]]
            0 <= i < ms.len() && 0 <= j < ms[i].exports@.len() ==> !(ms[i].rel_path@ == p && ms[i].exports@[j]@ == e),
    ensures
        forall|k: int|
            0 <= k < module_entries(ms, build_id).len() ==> !((#[trigger] module_entries(ms, build_id)[k]).0 == p
                && module_entries(ms, build_id)[k].1 == e),
    decreases ms.len(),
{
    if ms.len() > 0 {
        let init = ms.drop_last();
        assert forall|i: int, j: int|
            #![trigger init[i].exports@[j]]
            0 <= i < init.len() && 0 <= j < init[i].exports@.len() implies !(init[i].rel_path@ == p
                && init[i].exports@[j]@ == e) by {
            assert(init[i] == ms[i]);
        }
        lemma_no_module_entry(init, build_id, p, e);
        let last = ms.last();
        let es = text::views(last.exports@);
        lemma_export_entries(last.rel_path@, es, build_id);
        let a = module_entries(init, build_id);
        let b = export_entries(last.rel_path@, es, build_id);
        assert(module_entries(ms, build_id) == a + b);
        assert forall|k: int| 0 <= k < (a + b).len() implies !((#[trigger] (a + b)[k]).0 == p && (a + b)[k].1 == e) by {
            if k >= a.len() {
                let j = k - a.len();
                assert(b[j] == (a + b)[k]);
                assert(ms[ms.len() - 1] == last);
                assert(es[j] == ms[ms.len() - 1].exports@[j]@);
            } else {
                assert(a[k] == (a + b)[k]);
            }
        }
    }
}

/// An inline action keeps the id recorded for it: when no `"use server"`
/// module of `ms` has the path `p` with the export `e`, the lookup after
/// `from_collected` goes by the recorded actions alone, where the last one
/// recorded for the pair decides.
pub proof fn lemma_inline_ids_recorded(
    extracted: Seq<ActionView>,
    ms: Seq<ServerActionModule>,
    build_id: Seq<char>,
    p: Seq<char>,
    e: Seq<char>,
)
    requires
        forall|i: int, j: int|
            #![trigger ms[i].exports@[j]]
            0 <= i < ms.len() && 0 <= j < ms[i].exports@.len() ==> !(ms[i].rel_path@ == p && ms[i].exports@[j]@ == e),
    ensures
        action_lookup(extracted + module_entries(ms, build_id), p, e) == action_lookup(extracted, p, e),
{
    lemma_no_module_entry(ms, build_id, p, e);
    lemma_lookup_skip(extracted, module_entries(ms, build_id), p, e);
}

proof fn lemma_pair_lookup_found(exports: Seq<Seq<char>>, ref_ids: Seq<Seq<char>>, e: Seq<char>, n: int)
    requires
        n <= exports.len(),
        n <= ref_ids.len(),
        pair_lookup(exports, ref_ids, e, n) is Some,
    ensures
        exists|ei: int| 0 <= ei < n && exports[ei] == e && pair_lookup(exports, ref_ids, e, n) == Some(#[trigger] ref_ids[ei]),
    decreases n,
{
    if exports[n - 1] == e {
        assert(pair_lookup(exports, ref_ids, e, n) == Some(ref_ids[n - 1]));
    } else {
        lemma_pair_lookup_found(exports, ref_ids, e, n - 1);
    }
}

/// A boundary of path `p` lists export `e` with a reference id.
pub open spec fn lists_export(bs: Seq<BoundaryView>, p: Seq<char>, e: Seq<char>) -> bool {
    exists|bi: int, ei: int|
        0 <= bi < bs.len() && bs[bi].0 == p && 0 <= ei < bs[bi].1.len() && ei < bs[bi].2.len() && #[trigger] bs[bi].1[ei] == e
}

proof fn lemma_client_lookup_found(bs: Seq<BoundaryView>, p: Seq<char>, e: Seq<char>)
    requires
        client_lookup(bs, p, e) is Some,
    ensures
        lists_export(bs, p, e),
    decreases bs.len(),
{
    if bs.last().0 == p {
        let b = bs.last();
        let n = if b.1.len() <= b.2.len() { b.1.len() } else { b.2.len() };
        lemma_pair_lookup_found(b.1, b.2, e, n as int);
        let ei = choose|ei: int| 0 <= ei < n && b.1[ei] == e && pair_lookup(b.1, b.2, e, n as int) == Some(#[trigger] b.2[ei]);
        assert(bs[bs.len() - 1] == b);
        assert(bs[bs.len() - 1].1[ei] == e);
    } else {
        let init = bs.drop_last();
        lemma_client_lookup_found(init, p, e);
        let (bi, ei) = choose|bi: int, ei: int|
            0 <= bi < init.len() && init[bi].0 == p && 0 <= ei < init[bi].1.len() && ei < init[bi].2.len() && #[trigger] init[bi].1[ei] == e;
        assert(bs[bi] == init[bi]);
        assert(bs[bi].1[ei] == e);
    }
}

/// The client reference id after `from_collected`: where no two boundaries
/// share a path and no boundary lists an export twice, an export that a
/// boundary of its path lists with an id gets that id; any other export
/// gets none, so its id is computed directly (with the build id passed to
/// the lookup).
pub proof fn lemma_client_ref_id_cases(bs: Seq<BoundaryView>, p: Seq<char>, e: Seq<char>)
    requires
        forall|i: int, j: int| 0 <= i < j < bs.len() ==> bs[i].0 != bs[j].0,
        forall|b: int, i: int, j: int| 0 <= b < bs.len() && 0 <= i < j < bs[b].1.len() ==> bs[b].1[i] != bs[b].1[j],
    ensures
        forall|bi: int, ei: int|
            0 <= bi < bs.len() && bs[bi].0 == p && 0 <= ei < bs[bi].1.len() && ei < bs[bi].2.len() && bs[bi].1[ei] == e
                ==> client_lookup(bs, p, e) == Some(#[trigger] bs[bi].2[ei]),
        !lists_export(bs, p, e) ==> client_lookup(bs, p, e) is None,
{
    assert forall|bi: int, ei: int|
        0 <= bi < bs.len() && bs[bi].0 == p && 0 <= ei < bs[bi].1.len() && ei < bs[bi].2.len() && bs[bi].1[ei] == e
            implies client_lookup(bs, p, e) == Some(#[trigger] bs[bi].2[ei]) by {
        lemma_recorded_client_ids(bs, bi, ei);
    }
    if client_lookup(bs, p, e) is Some {
        lemma_client_lookup_found(bs, p, e);
    }
}

/// A `"use server"` module of `ms` has path `p` and export `e`.
pub open spec fn module_exports(ms: Seq<ServerActionModule>, p: Seq<char>, e: Seq<char>) -> bool {
    exists|mi: int, ei: int|
        0 <= mi < ms.len() && 0 <= ei < ms[mi].exports@.len() && ms[mi].rel_path@ == p && #[trigger] ms[mi].exports@[ei]@ == e
}

/// The server action id after `from_collected`: an export of a
/// `"use server"` module gets the id computed with the collection's build
/// id; any other pair gets the id of the last inline action recorded for
/// it, and when there is none, none (so its id is computed directly with
/// the build id passed to the lookup).
pub proof fn lemma_server_action_id_cases(
    extracted: Seq<ActionView>,
    ms: Seq<ServerActionModule>,
    build_id: Seq<char>,
    p: Seq<char>,
    e: Seq<char>,
)
    ensures
        module_exports(ms, p, e) ==> action_lookup(extracted + module_entries(ms, build_id), p, e) == Some(
            ids::server_action_id_spec(p, e, build_id),
        ),
        !module_exports(ms, p, e) ==> action_lookup(extracted + module_entries(ms, build_id), p, e) == action_lookup(
            extracted,
            p,
            e,
        ),
{
    if module_exports(ms, p, e) {
        let (mi, ei) = choose|mi: int, ei: int|
            0 <= mi < ms.len() && 0 <= ei < ms[mi].exports@.len() && ms[mi].rel_path@ == p && #[trigger] ms[mi].exports@[ei]@ == e;
        lemma_module_ids_match_direct(extracted, ms, build_id, mi, ei);
    } else {
        assert forall|i: int, j: int|
            #![trigger ms[i].exports@[j]]
            0 <= i < ms.len() && 0 <= j < ms[i].exports@.len() implies !(ms[i].rel_path@ == p && ms[i].exports@[j]@ == e) by {
            if ms[i].rel_path@ == p && ms[i].exports@[j]@ == e {
                assert(module_exports(ms, p, e));
            }
        }
        lemma_inline_ids_recorded(extracted, ms, build_id, p, e);
    }
}

} // verus!
